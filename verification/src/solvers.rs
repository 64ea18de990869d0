use vstd::prelude::*;

verus! {

/// Why a solver gave no solution.
#[derive(Clone, Copy, Debug, PartialEq, Eq, Structural)]
pub enum SolverError {
    NoSolution,
    Timeout,
    OutOfMemory,
}

} // verus!
