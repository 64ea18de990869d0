# trainsched

A Verus library for fixed-route train rescheduling. It covers the problem model and
its cost functions, the encodings and refinement steps of MaxSAT-based dynamic
discretization discovery, a greedy warm-start schedule, precedence propagation of
bounds, readers for the text and XML instance formats, and writers for the LP and OPL
model files. Every function in `src/` is verified against its contract.

## Layout

- `src/problem.rs`: problems, delay costs, solution checking, and the laws of the cost
  functions.
- `src/greedy/`: the greedy schedule and the proof that it respects earliest times,
  travel times and conflicts.
- `src/precedence.rs`: chain propagation, forced orders between trains, and bounds
  tightened from a cost budget.
- `src/maxsatsolver.rs`: weighted CNF formulas, the outside MaxSAT solver's formula,
  and the at-most-one and exactly-one encodings.
- `src/ddd/`: literals, the cost tree, the at-most-one encodings, unary counters
  (totalizer), refinement packages, and (`rounds.rs`) what a round of the SAT-based
  solvers does with a model: the current solution read off the time points, the
  broken travel times and the overlaps on resources in conflict turned into
  packages, and the end of the refinement when there are none.
- `src/legacy/maxsat_ddd.rs`: the two MaxSAT refinement loops, written as steps. The
  caller runs the solver between steps.
- `src/legacy/maxsat_ti.rs`: the time-indexed MaxSAT formulation on fixed times per
  visit, and the schedule read off the solver's model.
- `src/heuristic/`: the per-train search and the conflict search of the heuristic.
- `src/parser.rs`, `src/xml.rs`: the instance readers.
- `src/export_lp/`, `src/export_opl.rs`: the model writers.
- `app/`: the command-line program. It reads files, runs the outside solver program
  and prints results.
- `tests/`: tests of the library on concrete inputs.

The incremental SAT, ladder and core-guided (RC2) DDD solvers drive an incremental SAT
solver through a crate that this library does not depend on. What a round of them does
with a model is in `src/ddd/rounds.rs`; the loops that call the SAT solver are not part
of this library or its program.
