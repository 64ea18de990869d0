//! MaxSAT-based dynamic discretization discovery, in two forms: one that
//! keeps a single formula and solves under assumptions, and one that
//! rebuilds the formula from the intervals in every round. Each round is a
//! step that takes the solver's answer and says what to do next; the caller
//! runs the solver.
use vstd::prelude::*;
use crate::solvers::SolverError;
use crate::maxsatsolver::{External, MaxSatError, MaxSatSolver, clauses_hold, count_true, lit_true};
use crate::problem::{
    DelayCostType, Problem, feasible, valid_visit, earliest_ok, travel_ok as visit_travel_ok, pair_conflict,
    visit_cost_spec, delay_fits,
};
use crate::greedy::{
    n_flat, offs, flat, valid_tv, res, trav, train_offsets, flatten_visits, lemma_flat_bounds, lemma_flat_injective,
    travel_nonneg,
};

verus! {

/// Visits `(t1, v1)` and `(t2, v2)`, each with the time of the next visit of
/// its train, are separated: one ends no later than the other starts.
pub open spec fn visits_separated(a_start: int, a_end: int, b_start: int, b_end: int) -> bool {
    b_start - a_end >= 0 || a_start - b_end >= 0
}

/// Whether visit `v1` of train `t1` and visit `v2` of train `t2` are
/// separated in time in `solution`: the larger of the two gaps between one
/// visit's end (the next visit's time) and the other's start is not negative.
pub fn check_conflict(
    visits: ((usize, usize), (usize, usize)),
    solution: &[Vec<i32>],
) -> (r: Result<bool, SolverError>)
    requires
        visits.0.0 < solution@.len(),
        visits.0.1 + 1 < solution@[visits.0.0 as int].len(),
        visits.1.0 < solution@.len(),
        visits.1.1 + 1 < solution@[visits.1.0 as int].len(),
        i32::MIN <= solution@[visits.1.0 as int]@[visits.1.1 as int] - solution@[visits.0.0 as int]@[visits.0.1 + 1] <= i32::MAX,
        i32::MIN <= solution@[visits.0.0 as int]@[visits.0.1 as int] - solution@[visits.1.0 as int]@[visits.1.1 + 1] <= i32::MAX,
    ensures
        r == Ok::<bool, SolverError>(
            visits_separated(
                solution@[visits.0.0 as int]@[visits.0.1 as int] as int,
                solution@[visits.0.0 as int]@[visits.0.1 + 1] as int,
                solution@[visits.1.0 as int]@[visits.1.1 as int] as int,
                solution@[visits.1.0 as int]@[visits.1.1 + 1] as int,
            ),
        ),
{
    let ((t1, v1), (t2, v2)) = visits;
    let t_t1v1 = solution[t1][v1];
    let t_t1v1next = solution[t1][v1 + 1];
    let t_t2v2 = solution[t2][v2];
    let t_t2v2next = solution[t2][v2 + 1];
    let gap_a: i32 = t_t2v2 - t_t1v1next;
    let gap_b: i32 = t_t1v1 - t_t2v2next;
    let separation: i32 = if gap_a >= gap_b { gap_a } else { gap_b };
    let has_separation = separation >= 0;
    if has_separation {
        Ok(true)
    } else {
        Ok(false)
    }
}

// ---------------------------------------------------------------------------
// The state of the refinement
// ---------------------------------------------------------------------------

/// An interval of start times of a visit, from `start` up to `end`, chosen
/// by the literal `lit`; `incompat` lists the intervals (visit in flat order,
/// interval index) that may not be chosen together with it.
pub struct TimePoint {
    pub start: i32,
    pub end: i32,
    pub lit: isize,
    pub incompat: Vec<(usize, usize)>,
}

/// The intervals of one visit, the ladder of cost variables of its soft
/// clauses, and the literal that, once assumed false, closes its list of
/// intervals.
pub struct Occ {
    pub time: Vec<TimePoint>,
    pub cost_vars: Vec<isize>,
    pub next_lit: isize,
}

/// The refinement state: one `Occ` per visit in flat order (train by
/// train), the flat index of the first visit of each train, the train and
/// visit of each flat index, the visits of each resource that conflicts with
/// itself, and the visits in conflict with each visit.
pub struct DddState {
    pub occs: Vec<Occ>,
    pub train_offset: Vec<usize>,
    pub occ_tv: Vec<(usize, usize)>,
    pub resource_usage: Vec<Vec<usize>>,
    pub visit_conflicts_map: Vec<Vec<usize>>,
    pub delay_cost_type: DelayCostType,
    pub propagate: bool,
}

/// What the caller does next: solve with these assumptions, stop with this
/// schedule, or stop with this error.
pub enum DddAction {
    Solve(Vec<isize>),
    Done(Vec<Vec<i32>>),
    Fail(SolverError),
}

/// A positive literal among the variables `1..=n`.
pub open spec fn lit_ok(l: isize, n: int) -> bool {
    1 <= l <= n
}

/// The intervals, the cost ladder and the closing literal of a visit name
/// variables among `1..=n`; there is at least one interval; and every
/// incompatibility names one of the `nocc` visits.
pub open spec fn occ_wf(o: Occ, nocc: int, n: int) -> bool {
    &&& o.time@.len() >= 1
    &&& lit_ok(o.next_lit, n)
    &&& forall|i: int| 0 <= i < o.time@.len() ==> lit_ok(#[trigger] o.time@[i].lit, n)
    &&& forall|i: int| 0 <= i < o.cost_vars@.len() ==> lit_ok(#[trigger] o.cost_vars@[i], n)
    &&& forall|i: int, k: int|
        0 <= i < o.time@.len() && 0 <= k < o.time@[i].incompat@.len() ==> #[trigger] o.time@[i].incompat@[k].0 < nocc
}

/// The state fits the problem and the solver's `n` variables.
pub open spec fn state_wf(st: DddState, p: Problem, n: int) -> bool {
    let nocc = n_flat(p) as int;
    &&& 0 <= n
    &&& nocc <= isize::MAX
    &&& forall|t: int| 0 <= t < p.trains@.len() ==> #[trigger] p.trains@[t].visits@.len() >= 1
    &&& st.occs@.len() == nocc
    &&& st.train_offset@.len() == p.trains@.len() + 1
    &&& forall|t: int| 0 <= t <= p.trains@.len() ==> #[trigger] st.train_offset@[t] == offs(p, t)
    &&& st.occ_tv@.len() == nocc
    &&& forall|u: int| 0 <= u < nocc ==> valid_tv(p, #[trigger] st.occ_tv@[u].0 as int, st.occ_tv@[u].1 as int)
        && flat(p, st.occ_tv@[u].0 as int, st.occ_tv@[u].1 as int) == u
    &&& forall|u: int| 0 <= u < nocc ==> occ_wf(#[trigger] st.occs@[u], nocc, n)
    &&& st.visit_conflicts_map@.len() == nocc
    &&& forall|u: int, k: int|
        0 <= u < nocc && 0 <= k < st.visit_conflicts_map@[u]@.len() ==> #[trigger] st.visit_conflicts_map@[u]@[k] < nocc
    &&& forall|r: int, k: int|
        0 <= r < st.resource_usage@.len() && 0 <= k < st.resource_usage@[r]@.len() ==> #[trigger] st.resource_usage@[r]@[k]
            < nocc
}

/// A visit's description stays valid when the solver gets more variables.
proof fn lemma_occ_grow(o: Occ, nocc: int, n: int, n2: int)
    requires
        occ_wf(o, nocc, n),
        n <= n2 || n2 == isize::MAX,
    ensures
        occ_wf(o, nocc, n2),
{
    assert forall|i: int| 0 <= i < o.time@.len() implies lit_ok(#[trigger] o.time@[i].lit, n2) by {
        assert(lit_ok(o.time@[i].lit, n));
    }
    assert forall|i: int| 0 <= i < o.cost_vars@.len() implies lit_ok(#[trigger] o.cost_vars@[i], n2) by {
        assert(lit_ok(o.cost_vars@[i], n));
    }
}

/// The state stays valid when the solver gets more variables.
proof fn lemma_state_grow(st: DddState, p: Problem, n: int, n2: int)
    requires
        state_wf(st, p, n),
        n <= n2 || n2 == isize::MAX,
    ensures
        state_wf(st, p, n2),
{
    assert forall|u: int| 0 <= u < n_flat(p) implies occ_wf(#[trigger] st.occs@[u], n_flat(p) as int, n2) by {
        lemma_occ_grow(st.occs@[u], n_flat(p) as int, n, n2);
    }
}

/// The cost variables that making a literal cost `cost` adds to a ladder of
/// `have` of them.
pub open spec fn ladder_growth(have: int, cost: int) -> int {
    if cost > have {
        cost - have
    } else {
        0
    }
}

/// Makes literal `l` cost `cost`: the ladder of cost variables grows to
/// `cost` variables, each soft with weight 1 and each implying the one below,
/// and `l` or the `cost`-th variable must hold. False exactly when the
/// solver runs out of variables.
fn set_soft_lit(solver: &mut External, cost_vars: &mut Vec<isize>, l: isize, cost: u32) -> (ok: bool)
    requires
        forall|i: int| 0 <= i < old(cost_vars)@.len() ==> lit_ok(#[trigger] old(cost_vars)@[i], old(solver).wcnf.n_vars as int),
    ensures
        final(solver).wcnf.n_vars >= old(solver).wcnf.n_vars,
        forall|i: int| 0 <= i < final(cost_vars)@.len() ==> lit_ok(#[trigger] final(cost_vars)@[i], final(solver).wcnf.n_vars as int),
        ok <==> ladder_growth(old(cost_vars)@.len() as int, cost as int) == 0
            || old(solver).wcnf.n_vars + ladder_growth(old(cost_vars)@.len() as int, cost as int) <= isize::MAX,
        ok ==> final(solver).wcnf.n_vars == old(solver).wcnf.n_vars + ladder_growth(old(cost_vars)@.len() as int, cost as int),
        ok ==> final(cost_vars)@.len() == old(cost_vars)@.len() + ladder_growth(old(cost_vars)@.len() as int, cost as int),
{
    if cost == 0 {
        return true;
    }
    let target: usize = cost as usize;
    while cost_vars.len() < target
        invariant
            target == cost,
            solver.wcnf.n_vars >= old(solver).wcnf.n_vars,
            forall|i: int| 0 <= i < cost_vars@.len() ==> lit_ok(#[trigger] cost_vars@[i], solver.wcnf.n_vars as int),
            cost_vars@.len() >= old(cost_vars)@.len(),
            cost_vars@.len() > old(cost_vars)@.len() ==> cost_vars@.len() <= target && solver.wcnf.n_vars <= isize::MAX,
            solver.wcnf.n_vars == old(solver).wcnf.n_vars + (cost_vars@.len() - old(cost_vars)@.len()),
        decreases target - cost_vars@.len(),
    {
        if solver.wcnf.n_vars >= isize::MAX as usize {
            return false;
        }
        let cost_var = solver.new_var();
        let not_cost_var = -cost_var;
        if cost_vars.len() > 0 {
            let last = cost_vars[cost_vars.len() - 1];
            solver.add_clause(None, vec![not_cost_var, last]);
        }
        cost_vars.push(cost_var);
        solver.add_clause(Some(1), vec![not_cost_var]);
    }
    let top = cost_vars[target - 1];
    solver.add_clause(None, vec![l, top]);
    true
}

/// The assumptions for the next solve: every closing literal false.
pub open spec fn assumptions_of(st: DddState) -> Seq<isize> {
    Seq::new(st.occs@.len(), |u: int| (-st.occs@[u].next_lit) as isize)
}

/// The assumptions for the next solve: every visit's closing literal false,
/// in flat order.
pub fn maxsat_ddd_assumptions(state: &DddState) -> (r: Vec<isize>)
    requires
        forall|u: int| 0 <= u < state.occs@.len() ==> lit_ok(#[trigger] state.occs@[u].next_lit, isize::MAX as int),
    ensures
        r@ == assumptions_of(*state),
{
    let mut r: Vec<isize> = Vec::new();
    let mut u: usize = 0;
    while u < state.occs.len()
        invariant
            u <= state.occs@.len(),
            forall|x: int| 0 <= x < state.occs@.len() ==> lit_ok(#[trigger] state.occs@[x].next_lit, isize::MAX as int),
            r@ == assumptions_of(*state).take(u as int),
        decreases state.occs@.len() - u,
    {
        assert(lit_ok(state.occs@[u as int].next_lit, isize::MAX as int));
        r.push(-state.occs[u].next_lit);
        assert(assumptions_of(*state).take(u + 1) =~= assumptions_of(*state).take(u as int).push((-state.occs@[u as int].next_lit) as isize));
        u = u + 1;
    }
    assert(assumptions_of(*state).take(u as int) =~= assumptions_of(*state));
    r
}

/// Whether `(a, b)` or `(b, a)` is a listed conflict.
fn listed_conflict(conflicts: &Vec<(usize, usize)>, a: usize, b: usize) -> (r: bool)
    ensures
        r == (conflicts@.contains((a, b)) || conflicts@.contains((b, a))),
{
    let mut i: usize = 0;
    while i < conflicts.len()
        invariant
            i <= conflicts@.len(),
            forall|j: int| 0 <= j < i ==> #[trigger] conflicts@[j] != (a, b) && conflicts@[j] != (b, a),
        decreases conflicts@.len() - i,
    {
        let (x, y) = conflicts[i];
        if (x == a && y == b) || (x == b && y == a) {
            assert(conflicts@[i as int] == (a, b) || conflicts@[i as int] == (b, a));
            return true;
        }
        i = i + 1;
    }
    false
}

/// The train and visit at flat index `u`.
pub open spec fn visit_at(p: Problem, u: int) -> (int, int) {
    choose|tv: (int, int)| valid_tv(p, tv.0, tv.1) && flat(p, tv.0, tv.1) == u
}

/// The cost of the visit at flat index `u` at its earliest time, as the
/// cost ladder of the initial state takes it.
pub open spec fn init_cost(p: Problem, ty: DelayCostType, u: int) -> int {
    let (t, v) = visit_at(p, u);
    (visit_cost_spec(p.trains@[t], ty, v, p.trains@[t].visits@[v].earliest) as u32) as int
}

/// The delay of the visit at flat index `u` at its earliest time fits in
/// `i32`.
pub open spec fn init_delay_fits(p: Problem, u: int) -> bool {
    let (t, v) = visit_at(p, u);
    delay_fits(p.trains@[t], v, p.trains@[t].visits@[v].earliest)
}

/// The variables that the initial state takes for its first `k` visits:
/// per visit, the literal of its interval, its closing literal and its cost
/// ladder.
pub open spec fn init_vars(p: Problem, ty: DelayCostType, k: int) -> int
    decreases k,
{
    if k <= 0 {
        0
    } else {
        init_vars(p, ty, k - 1) + 2 + init_cost(p, ty, k - 1)
    }
}

proof fn lemma_init_vars_monotone(p: Problem, ty: DelayCostType, j: int, k: int)
    requires
        0 <= j <= k,
    ensures
        init_vars(p, ty, j) <= init_vars(p, ty, k),
    decreases k - j,
{
    if j < k {
        lemma_init_vars_monotone(p, ty, j, k - 1);
    }
}

/// The flat index of a valid visit names that visit.
proof fn lemma_visit_at(p: Problem, t: int, v: int)
    requires
        valid_tv(p, t, v),
    ensures
        visit_at(p, flat(p, t, v)) == (t, v),
{
    let u = flat(p, t, v);
    assert(exists|w: (int, int)| valid_tv(p, w.0, w.1) && flat(p, w.0, w.1) == u) by {
        let w = (t, v);
        assert(valid_tv(p, w.0, w.1) && flat(p, w.0, w.1) == u);
    }
    let tv = visit_at(p, u);
    lemma_flat_injective(p, tv.0, tv.1, t, v);
}

/// The initial state: one interval per visit, from its earliest time on,
/// with its soft cost; the visits of each resource that conflicts with
/// itself; and the pairs of visits of different trains on conflicting
/// resources. Fails with `OutOfMemory` when the solver runs out of
/// variables or a delay leaves `i32`.
pub fn maxsat_ddd_init(
    solver: &mut External,
    problem: &Problem,
    delay_cost_type: DelayCostType,
    propagate: bool,
) -> (r: Result<DddState, SolverError>)
    requires
        n_flat(*problem) <= isize::MAX,
        old(solver).wcnf.n_vars <= isize::MAX,
        forall|t: int| 0 <= t < problem.trains@.len() ==> #[trigger] problem.trains@[t].visits@.len() >= 1,
    ensures
        final(solver).wcnf.n_vars >= old(solver).wcnf.n_vars,
        match r {
            Ok(st) => {
                &&& state_wf(st, *problem, final(solver).wcnf.n_vars as int)
                &&& st.delay_cost_type == delay_cost_type
                &&& st.propagate == propagate
                &&& forall|t: int, v: int| valid_tv(*problem, t, v) ==> {
                    let o = #[trigger] st.occs@[flat(*problem, t, v)];
                    &&& o.time@.len() == 1
                    &&& o.time@[0].start == problem.trains@[t].visits@[v].earliest
                    &&& o.time@[0].end == i32::MAX
                    &&& o.time@[0].incompat@.len() == 0
                }
            },
            Err(e) => e == SolverError::OutOfMemory,
        },
        r is Ok <==> (forall|u: int| 0 <= u < n_flat(*problem) ==> #[trigger] init_delay_fits(*problem, u))
            && old(solver).wcnf.n_vars + init_vars(*problem, delay_cost_type, n_flat(*problem) as int) <= isize::MAX,
        r is Ok ==> final(solver).wcnf.n_vars == old(solver).wcnf.n_vars + init_vars(*problem, delay_cost_type, n_flat(*problem) as int),
        r matches Ok(st) ==> forall|u: int| 0 <= u < n_flat(*problem) ==> {
            let o = #[trigger] st.occs@[u];
            &&& o.time@[0].lit == old(solver).wcnf.n_vars + init_vars(*problem, delay_cost_type, u) + 1
            &&& o.next_lit == old(solver).wcnf.n_vars + init_vars(*problem, delay_cost_type, u) + 2
            &&& o.cost_vars@.len() == init_cost(*problem, delay_cost_type, u)
        },
{
    let ghost p = *problem;
    let ghost n0 = solver.wcnf.n_vars as int;
    let n_trains: usize = problem.trains.len();
    let train_offset = train_offsets(problem);
    let n: usize = train_offset[n_trains];
    let (resource, travel, earliest, occ_tv) = flatten_visits(problem, &train_offset);
    let mut occs: Vec<Occ> = Vec::new();
    let mut u: usize = 0;
    while u < n
        invariant
            p == *problem,
            n == n_flat(p),
            n <= isize::MAX,
            n_trains == p.trains@.len(),
            earliest@.len() == n,
            occ_tv@.len() == n,
            forall|t: int, v: int| valid_tv(p, t, v) ==> #[trigger] earliest@[flat(p, t, v)] == p.trains@[t].visits@[v].earliest,
            forall|x: int| 0 <= x < n ==> valid_tv(p, #[trigger] occ_tv@[x].0 as int, occ_tv@[x].1 as int)
                && flat(p, occ_tv@[x].0 as int, occ_tv@[x].1 as int) == x,
            solver.wcnf.n_vars >= old(solver).wcnf.n_vars,
            n0 == old(solver).wcnf.n_vars,
            solver.wcnf.n_vars == n0 + init_vars(p, delay_cost_type, u as int),
            solver.wcnf.n_vars <= isize::MAX,
            forall|x: int| 0 <= x < u ==> #[trigger] init_delay_fits(p, x),
            u <= n,
            occs@.len() == u,
            forall|x: int| 0 <= x < u ==> occ_wf(#[trigger] occs@[x], n as int, solver.wcnf.n_vars as int),
            forall|x: int| 0 <= x < u ==> {
                let o = #[trigger] occs@[x];
                &&& o.time@.len() == 1
                &&& o.time@[0].start == earliest@[x]
                &&& o.time@[0].end == i32::MAX
                &&& o.time@[0].incompat@.len() == 0
                &&& o.time@[0].lit == n0 + init_vars(p, delay_cost_type, x) + 1
                &&& o.next_lit == n0 + init_vars(p, delay_cost_type, x) + 2
                &&& o.cost_vars@.len() == init_cost(p, delay_cost_type, x)
            },
        decreases n - u,
    {
        let (t, v) = occ_tv[u];
        proof {
            assert(valid_tv(p, t as int, v as int));
            assert(earliest@[u as int] == p.trains@[t as int].visits@[v as int].earliest);
            lemma_visit_at(p, t as int, v as int);
            lemma_init_vars_monotone(p, delay_cost_type, u + 1, n as int);
        }
        if solver.wcnf.n_vars >= (isize::MAX - 1) as usize {
            return Err(SolverError::OutOfMemory);
        }
        let ghost nb = solver.wcnf.n_vars;
        let v1 = solver.new_var();
        let v2 = solver.new_var();
        if let Some(a) = problem.trains[t].visits[v].aimed {
            let d: i64 = earliest[u] as i64 - a as i64;
            if d < i32::MIN as i64 || d > i32::MAX as i64 {
                assert(!init_delay_fits(p, u as int));
                return Err(SolverError::OutOfMemory);
            }
        }
        assert(init_delay_fits(p, u as int));
        let cost = problem.trains[t].visit_delay_cost(delay_cost_type, v, earliest[u]);
        let mut cost_vars: Vec<isize> = Vec::new();
        let neg_v1 = -v1;
        let ok = set_soft_lit(solver, &mut cost_vars, neg_v1, cost as u32);
        assert((cost as u32) as int == init_cost(p, delay_cost_type, u as int));
        if !ok {
            return Err(SolverError::OutOfMemory);
        }
        solver.add_clause(None, vec![v1, v2]);
        let tp = TimePoint { start: earliest[u], end: i32::MAX, lit: v1, incompat: Vec::new() };
        let o = Occ { time: vec![tp], cost_vars, next_lit: v2 };
        proof {
            assert forall|x: int| 0 <= x < u implies occ_wf(#[trigger] occs@[x], n as int, solver.wcnf.n_vars as int) by {
                lemma_occ_grow(occs@[x], n as int, nb as int, solver.wcnf.n_vars as int);
            }
            assert(o.time@[0].lit == v1);
            assert(occ_wf(o, n as int, solver.wcnf.n_vars as int));
        }
        occs.push(o);
        u = u + 1;
    }
    // The visits of each resource that conflicts with itself.
    let mut keys: Vec<usize> = Vec::new();
    let mut resource_usage: Vec<Vec<usize>> = Vec::new();
    let mut u: usize = 0;
    while u < n
        invariant
            u <= n,
            resource@.len() == n,
            keys@.len() == resource_usage@.len(),
            forall|r: int, k: int|
                0 <= r < resource_usage@.len() && 0 <= k < resource_usage@[r]@.len() ==> #[trigger] resource_usage@[r]@[k] < n,
        decreases n - u,
    {
        let r = resource[u];
        if listed_conflict(&problem.conflicts, r, r) {
            let mut j: usize = 0;
            while j < keys.len() && keys[j] != r
                invariant
                    j <= keys@.len(),
                decreases keys@.len() - j,
            {
                j = j + 1;
            }
            if j < keys.len() {
                let ghost before = resource_usage@;
                resource_usage[j].push(u);
                proof {
                    assert forall|r2: int, k: int|
                        0 <= r2 < resource_usage@.len() && 0 <= k < resource_usage@[r2]@.len() implies #[trigger] resource_usage@[r2]@[k] < n by {
                        if r2 != j || k < before[r2]@.len() {
                            assert(resource_usage@[r2]@[k] == before[r2]@[k]);
                        }
                    }
                }
            } else {
                keys.push(r);
                let ghost before = resource_usage@;
                resource_usage.push(vec![u]);
                proof {
                    assert forall|r2: int, k: int|
                        0 <= r2 < resource_usage@.len() && 0 <= k < resource_usage@[r2]@.len() implies #[trigger] resource_usage@[r2]@[k] < n by {
                        if r2 < before.len() {
                            assert(resource_usage@[r2] == before[r2]);
                        }
                    }
                }
            }
        }
        u = u + 1;
    }
    // The visits of other trains on conflicting resources.
    let mut vcm: Vec<Vec<usize>> = Vec::new();
    let mut u: usize = 0;
    while u < n
        invariant
            u <= n,
            vcm@.len() == u,
            forall|x: int| 0 <= x < u ==> #[trigger] vcm@[x]@.len() == 0,
        decreases n - u,
    {
        vcm.push(Vec::new());
        u = u + 1;
    }
    let mut u1: usize = 0;
    while u1 < n
        invariant
            u1 <= n,
            vcm@.len() == n,
            resource@.len() == n,
            occ_tv@.len() == n,
            forall|x: int, k: int| 0 <= x < n && 0 <= k < vcm@[x]@.len() ==> #[trigger] vcm@[x]@[k] < n,
        decreases n - u1,
    {
        let mut u2: usize = u1 + 1;
        while u2 < n
            invariant
                u1 < n,
                u1 + 1 <= u2 <= n,
                vcm@.len() == n,
                resource@.len() == n,
                occ_tv@.len() == n,
                forall|x: int, k: int| 0 <= x < n && 0 <= k < vcm@[x]@.len() ==> #[trigger] vcm@[x]@[k] < n,
            decreases n - u2,
        {
            if occ_tv[u1].0 != occ_tv[u2].0 && listed_conflict(&problem.conflicts, resource[u1], resource[u2]) {
                let ghost b1 = vcm@;
                vcm[u1].push(u2);
                let ghost b2 = vcm@;
                vcm[u2].push(u1);
                proof {
                    assert forall|x: int, k: int| 0 <= x < n && 0 <= k < vcm@[x]@.len() implies #[trigger] vcm@[x]@[k] < n by {
                        if x != u2 && x != u1 {
                            assert(vcm@[x] == b1[x]);
                        } else if x == u2 {
                            if k < b2[x]@.len() {
                                assert(vcm@[x]@[k] == b2[x]@[k]);
                                if k < b1[x]@.len() {
                                    assert(b2[x]@[k] == b1[x]@[k]);
                                }
                            }
                        } else {
                            assert(vcm@[x] == b2[x]);
                            if k < b1[x]@.len() {
                                assert(b2[x]@[k] == b1[x]@[k]);
                            }
                        }
                    }
                }
            }
            u2 = u2 + 1;
        }
        u1 = u1 + 1;
    }
    let st = DddState {
        occs,
        train_offset,
        occ_tv,
        resource_usage,
        visit_conflicts_map: vcm,
        delay_cost_type,
        propagate,
    };
    proof {
        assert forall|t: int, v: int| valid_tv(p, t, v) implies {
            let o = #[trigger] st.occs@[flat(p, t, v)];
            &&& o.time@.len() == 1
            &&& o.time@[0].start == p.trains@[t].visits@[v].earliest
            &&& o.time@[0].end == i32::MAX
            &&& o.time@[0].incompat@.len() == 0
        } by {
            lemma_flat_bounds(p, t, v);
        }
    }
    Ok(st)
}

// ---------------------------------------------------------------------------
// Reading a model
// ---------------------------------------------------------------------------

/// The model sets the literal of interval `i` of visit `u`.
pub open spec fn chosen(st: DddState, bits: Seq<bool>, u: int, i: int) -> bool {
    let l = st.occs@[u].time@[i].lit;
    1 <= l <= bits.len() && bits[l - 1]
}

/// The model names every interval literal of visit `u` and sets exactly one.
pub open spec fn reads_one(st: DddState, bits: Seq<bool>, u: int) -> bool {
    &&& forall|i: int| 0 <= i < st.occs@[u].time@.len() ==> (#[trigger] st.occs@[u].time@[i]).lit <= bits.len()
    &&& exists|i: int| 0 <= i < st.occs@[u].time@.len() && #[trigger] chosen(st, bits, u, i) && forall|j: int|
        0 <= j < st.occs@[u].time@.len() && #[trigger] chosen(st, bits, u, j) ==> j == i
}

/// The interval chosen for each visit: one index per visit, within its
/// intervals.
pub open spec fn selection_ok(st: DddState, sel: Seq<usize>) -> bool {
    &&& sel.len() == st.occs@.len()
    &&& forall|u: int| 0 <= u < sel.len() ==> #[trigger] sel[u] < st.occs@[u].time@.len()
}

/// The interval that the model chooses for each visit; `None` when a
/// literal lies outside the model or a visit has not exactly one interval
/// chosen.
pub fn select_intervals(state: &DddState, bits: &Vec<bool>) -> (r: Option<Vec<usize>>)
    requires
        forall|u: int| 0 <= u < state.occs@.len() ==> occ_wf(#[trigger] state.occs@[u], state.occs@.len() as int, isize::MAX as int),
    ensures
        r is None <==> exists|u: int| 0 <= u < state.occs@.len() && !#[trigger] reads_one(*state, bits@, u),
        r matches Some(sel) ==> selection_ok(*state, sel@) && forall|u: int|
            0 <= u < sel@.len() ==> #[trigger] chosen(*state, bits@, u, sel@[u] as int),
{
    let mut sel: Vec<usize> = Vec::new();
    let mut u: usize = 0;
    while u < state.occs.len()
        invariant
            u <= state.occs@.len(),
            forall|x: int| 0 <= x < state.occs@.len() ==> occ_wf(#[trigger] state.occs@[x], state.occs@.len() as int, isize::MAX as int),
            sel@.len() == u,
            forall|x: int| 0 <= x < u ==> #[trigger] reads_one(*state, bits@, x),
            forall|x: int| 0 <= x < u ==> #[trigger] sel@[x] < state.occs@[x].time@.len() && chosen(*state, bits@, x, sel@[x] as int),
        decreases state.occs@.len() - u,
    {
        let o = &state.occs[u];
        assert(occ_wf(*o, state.occs@.len() as int, isize::MAX as int));
        let mut count: usize = 0;
        let mut pos: usize = 0;
        let mut i: usize = 0;
        while i < o.time.len()
            invariant
                *o == state.occs@[u as int],
                u < state.occs@.len(),
                occ_wf(*o, state.occs@.len() as int, isize::MAX as int),
                i <= o.time@.len(),
                count <= i,
                forall|j: int| 0 <= j < i ==> (#[trigger] o.time@[j]).lit <= bits@.len(),
                count == 0 ==> forall|j: int| 0 <= j < i ==> !#[trigger] chosen(*state, bits@, u as int, j),
                count >= 1 ==> pos < i && chosen(*state, bits@, u as int, pos as int),
                count == 1 ==> forall|j: int| 0 <= j < i && #[trigger] chosen(*state, bits@, u as int, j) ==> j == pos,
                count >= 2 ==> exists|j: int| 0 <= j < i && j != pos && #[trigger] chosen(*state, bits@, u as int, j),
            decreases o.time@.len() - i,
        {
            let l = o.time[i].lit;
            assert(lit_ok(o.time@[i as int].lit, isize::MAX as int));
            if (l as usize) > bits.len() {
                proof {
                    assert(!reads_one(*state, bits@, u as int));
                }
                return None;
            }
            if bits[(l - 1) as usize] {
                assert(chosen(*state, bits@, u as int, i as int));
                if count == 0 {
                    pos = i;
                } else {
                    assert(chosen(*state, bits@, u as int, pos as int));
                }
                count = count + 1;
            }
            i = i + 1;
        }
        if count != 1 {
            proof {
                if count == 0 {
                    assert(!reads_one(*state, bits@, u as int));
                } else {
                    let j = choose|j: int| 0 <= j < i && j != pos && #[trigger] chosen(*state, bits@, u as int, j);
                    assert(!reads_one(*state, bits@, u as int));
                }
            }
            return None;
        }
        sel.push(pos);
        u = u + 1;
    }
    Some(sel)
}

// ---------------------------------------------------------------------------
// Local minimisation
// ---------------------------------------------------------------------------

/// The sum of the chosen interval indices.
pub open spec fn index_sum(s: Seq<usize>) -> nat
    decreases s.len(),
{
    if s.len() == 0 {
        0
    } else {
        index_sum(s.drop_last()) + (s.last() as nat)
    }
}

proof fn lemma_index_sum_dec(s: Seq<usize>, i: int)
    requires
        0 <= i < s.len(),
        s[i] > 0,
    ensures
        index_sum(s.update(i, (s[i] - 1) as usize)) + 1 == index_sum(s),
    decreases s.len(),
{
    let t = s.update(i, (s[i] - 1) as usize);
    if i < s.len() - 1 {
        assert(t.drop_last() =~= s.drop_last().update(i, (s[i] - 1) as usize));
        lemma_index_sum_dec(s.drop_last(), i);
    } else {
        assert(t.drop_last() =~= s.drop_last());
    }
}

/// Interval `i` of visit `u` may not be chosen together with the intervals
/// chosen for the others.
pub open spec fn blocked(st: DddState, sel: Seq<usize>, u: int, i: int) -> bool {
    exists|k: int|
        0 <= k < st.occs@[u].time@[i].incompat@.len() && sel[#[trigger] st.occs@[u].time@[i].incompat@[k].0 as int]
            == st.occs@[u].time@[i].incompat@[k].1
}

/// Moves chosen intervals earlier while that meets no incompatibility: the
/// visits `0, 1, ...` (taken modulo the number of trains) are visited in
/// turn until as many visits in a row as there are visits leave theirs
/// unchanged.
pub fn local_minimize(state: &DddState, n_trains: usize, sel: &mut Vec<usize>)
    requires
        n_trains <= state.occs@.len(),
        n_trains == 0 ==> state.occs@.len() == 0,
        forall|u: int| 0 <= u < state.occs@.len() ==> occ_wf(#[trigger] state.occs@[u], state.occs@.len() as int, isize::MAX as int),
        selection_ok(*state, old(sel)@),
    ensures
        selection_ok(*state, final(sel)@),
        forall|u: int| 0 <= u < final(sel)@.len() ==> #[trigger] final(sel)@[u] <= old(sel)@[u],
{
    let n: usize = state.occs.len();
    let mut consecutive: usize = 0;
    let mut i: usize = 0;
    while consecutive < n
        invariant
            n == state.occs@.len(),
            n_trains <= n,
            forall|u: int| 0 <= u < n ==> occ_wf(#[trigger] state.occs@[u], n as int, isize::MAX as int),
            selection_ok(*state, sel@),
            forall|u: int| 0 <= u < sel@.len() ==> #[trigger] sel@[u] <= old(sel)@[u],
            consecutive <= n,
            n_trains == 0 ==> n == 0,
            n > 0 ==> i < n_trains,
        decreases index_sum(sel@), n - consecutive,
    {
        let u: usize = i;
        let ghost s0 = sel@;
        let mut touched = false;
        while sel[u] > 0
            invariant
                u < n,
                n == state.occs@.len(),
                forall|x: int| 0 <= x < n ==> occ_wf(#[trigger] state.occs@[x], n as int, isize::MAX as int),
                selection_ok(*state, sel@),
                forall|x: int| 0 <= x < sel@.len() ==> #[trigger] sel@[x] <= old(sel)@[x],
                touched ==> index_sum(sel@) < index_sum(s0),
                !touched ==> sel@ == s0,
            decreases sel@[u as int],
        {
            let prev: usize = sel[u] - 1;
            let o = &state.occs[u];
            assert(occ_wf(*o, n as int, isize::MAX as int));
            let tp = &o.time[prev];
            let mut is_blocked = false;
            let mut k: usize = 0;
            while k < tp.incompat.len()
                invariant
                    *tp == state.occs@[u as int].time@[prev as int],
                    prev < state.occs@[u as int].time@.len(),
                    u < n,
                    occ_wf(state.occs@[u as int], n as int, isize::MAX as int),
                    sel@.len() == n,
                    k <= tp.incompat@.len(),
                    is_blocked == exists|j: int| 0 <= j < k && sel@[#[trigger] tp.incompat@[j].0 as int] == tp.incompat@[j].1,
                decreases tp.incompat@.len() - k,
            {
                let (u2, i2) = tp.incompat[k];
                assert(tp.incompat@[k as int].0 < n);
                if sel[u2] == i2 {
                    is_blocked = true;
                }
                k = k + 1;
            }
            assert(is_blocked == blocked(*state, sel@, u as int, prev as int));
            if !is_blocked {
                proof {
                    lemma_index_sum_dec(sel@, u as int);
                }
                sel.set(u, prev);
                touched = true;
            } else {
                break;
            }
        }
        i = if i + 1 == n_trains {
            0
        } else {
            i + 1
        };
        if touched {
            consecutive = 0;
        } else {
            consecutive = consecutive + 1;
        }
    }
}

// ---------------------------------------------------------------------------
// The schedule of a selection and its conflicts
// ---------------------------------------------------------------------------

/// The start of the interval chosen for visit `u`.
pub open spec fn start_of(st: DddState, sel: Seq<usize>, u: int) -> i32 {
    st.occs@[u].time@[sel[u] as int].start
}

/// The schedule of a selection: per train the chosen starts of its visits and
/// the end of the last visit.
pub open spec fn rows_of(p: Problem, st: DddState, sel: Seq<usize>, rows: Seq<Vec<i32>>) -> bool {
    &&& rows.len() == p.trains@.len()
    &&& forall|t: int| 0 <= t < rows.len() ==> #[trigger] rows[t]@.len() == p.trains@[t].visits@.len() + 1
    &&& forall|t: int, v: int| valid_tv(p, t, v) ==> #[trigger] rows[t]@[v] == start_of(st, sel, flat(p, t, v))
    &&& forall|t: int| 0 <= t < rows.len() ==> #[trigger] rows[t]@[p.trains@[t].visits@.len() as int] == rows[t]@[p.trains@[t].visits@.len() - 1]
        + trav(p, t, p.trains@[t].visits@.len() - 1)
}

/// The end of the last visit of train `t` stays in `i32`.
pub open spec fn last_end_fits(p: Problem, st: DddState, sel: Seq<usize>, t: int) -> bool {
    i32::MIN <= start_of(st, sel, flat(p, t, p.trains@[t].visits@.len() - 1)) + trav(p, t, p.trains@[t].visits@.len() - 1)
        <= i32::MAX
}

/// The end of some train's last visit leaves `i32`.
pub open spec fn last_end_overflows(p: Problem, st: DddState, sel: Seq<usize>) -> bool {
    exists|t: int| 0 <= t < p.trains@.len() && !#[trigger] last_end_fits(p, st, sel, t)
}

/// The schedule of a selection; `None` when the end of a last visit leaves
/// `i32`.
pub fn schedule_rows(problem: &Problem, state: &DddState, sel: &Vec<usize>) -> (r: Option<Vec<Vec<i32>>>)
    requires
        state_wf(*state, *problem, isize::MAX as int),
        selection_ok(*state, sel@),
    ensures
        r is None <==> last_end_overflows(*problem, *state, sel@),
        r matches Some(rows) ==> rows_of(*problem, *state, sel@, rows@),
{
    let ghost p = *problem;
    let mut rows: Vec<Vec<i32>> = Vec::new();
    let mut t: usize = 0;
    while t < problem.trains.len()
        invariant
            p == *problem,
            state_wf(*state, p, isize::MAX as int),
            selection_ok(*state, sel@),
            t <= p.trains@.len(),
            rows@.len() == t,
            forall|t1: int| 0 <= t1 < t ==> #[trigger] rows@[t1]@.len() == p.trains@[t1].visits@.len() + 1,
            forall|t1: int, v: int| valid_tv(p, t1, v) && t1 < t ==> #[trigger] rows@[t1]@[v] == start_of(*state, sel@, flat(p, t1, v)),
            forall|t1: int| 0 <= t1 < t ==> #[trigger] rows@[t1]@[p.trains@[t1].visits@.len() as int] == rows@[t1]@[p.trains@[t1].visits@.len() - 1]
                + trav(p, t1, p.trains@[t1].visits@.len() - 1),
            forall|t1: int| 0 <= t1 < t ==> #[trigger] last_end_fits(p, *state, sel@, t1),
        decreases p.trains@.len() - t,
    {
        let nv: usize = problem.trains[t].visits.len();
        let base: usize = state.train_offset[t];
        proof {
            assert(nv >= 1);
            lemma_flat_bounds(p, t as int, nv - 1);
        }
        let mut row: Vec<i32> = Vec::new();
        let mut v: usize = 0;
        while v < nv
            invariant
                p == *problem,
                state_wf(*state, p, isize::MAX as int),
                selection_ok(*state, sel@),
                t < p.trains@.len(),
                nv == p.trains@[t as int].visits@.len(),
                base == offs(p, t as int),
                v <= nv,
                row@.len() == v,
                forall|v1: int| 0 <= v1 < v ==> #[trigger] row@[v1] == start_of(*state, sel@, flat(p, t as int, v1)),
            decreases nv - v,
        {
            proof {
                lemma_flat_bounds(p, t as int, v as int);
            }
            let u = base + v;
            row.push(state.occs[u].time[sel[u]].start);
            v = v + 1;
        }
        let last: i32 = row[nv - 1];
        let tt: i32 = problem.trains[t].visits[nv - 1].travel_time;
        let end: i64 = last as i64 + tt as i64;
        if end < i32::MIN as i64 || end > i32::MAX as i64 {
            proof {
                assert(last == start_of(*state, sel@, flat(p, t as int, nv - 1)));
                assert(!last_end_fits(p, *state, sel@, t as int));
            }
            return None;
        }
        row.push(end as i32);
        rows.push(row);
        t = t + 1;
    }
    Some(rows)
}

/// Two visits, starting at `s1` and `s2` and taking `d1` and `d2`, do not
/// overlap.
pub open spec fn separated(s1: int, d1: int, s2: int, d2: int) -> bool {
    s2 - (s1 + d1) >= 0 || s1 - (s2 + d2) >= 0
}

/// Every visit starts no earlier than its predecessor ends.
pub open spec fn travel_ok(p: Problem, st: DddState, sel: Seq<usize>) -> bool {
    forall|t: int, v: int| valid_tv(p, t, v) && v + 1 < p.trains@[t].visits@.len() ==> #[trigger] start_of(st, sel, flat(p, t, v))
        + trav(p, t, v) <= start_of(st, sel, flat(p, t, v + 1))
}

/// Two visits of different trains to one resource that conflicts with
/// itself do not overlap.
pub open spec fn usage_ok(p: Problem, st: DddState, sel: Seq<usize>) -> bool {
    forall|r: int, k1: int, k2: int|
        0 <= r < st.resource_usage@.len() && 0 <= k1 < st.resource_usage@[r]@.len() && 0 <= k2 < st.resource_usage@[r]@.len()
            && st.occ_tv@[#[trigger] st.resource_usage@[r]@[k1] as int].0 != st.occ_tv@[#[trigger] st.resource_usage@[r]@[k2] as int].0
            ==> {
            let a = st.resource_usage@[r]@[k1] as int;
            let b = st.resource_usage@[r]@[k2] as int;
            separated(
                start_of(st, sel, a) as int,
                trav(p, st.occ_tv@[a].0 as int, st.occ_tv@[a].1 as int) as int,
                start_of(st, sel, b) as int,
                trav(p, st.occ_tv@[b].0 as int, st.occ_tv@[b].1 as int) as int,
            )
        }
}

/// The end of visit `u` in the schedule of a selection: its start plus its
/// travel time.
pub open spec fn end_of(p: Problem, st: DddState, sel: Seq<usize>, u: int) -> int {
    start_of(st, sel, u) + trav(p, st.occ_tv@[u].0 as int, st.occ_tv@[u].1 as int)
}

/// Visit `u` has a next visit in its train, which starts before `u` ends.
pub open spec fn travel_asks(p: Problem, st: DddState, sel: Seq<usize>, u: int) -> bool {
    let (t, v) = st.occ_tv@[u];
    &&& 0 <= u < st.occs@.len()
    &&& v + 1 < p.trains@[t as int].visits@.len()
    &&& end_of(p, st, sel, u) > start_of(st, sel, u + 1)
}

/// The visits at `k1` and `k2` of resource list `r`, of two trains (the
/// first's before the second's), overlap.
pub open spec fn usage_asks(p: Problem, st: DddState, sel: Seq<usize>, r: int, k1: int, k2: int) -> bool {
    let a = st.resource_usage@[r]@[k1] as int;
    let b = st.resource_usage@[r]@[k2] as int;
    &&& 0 <= r < st.resource_usage@.len()
    &&& 0 <= k1 < st.resource_usage@[r]@.len()
    &&& 0 <= k2 < st.resource_usage@[r]@.len()
    &&& st.occ_tv@[a].0 < st.occ_tv@[b].0
    &&& !(start_of(st, sel, b) - end_of(p, st, sel, a) >= 0 || start_of(st, sel, a) - end_of(p, st, sel, b) >= 0)
}

/// A new interval start that the schedule of a selection asks for: for a
/// visit that starts before its predecessor ends, the predecessor's end;
/// for each of two overlapping visits of different trains on a resource in
/// conflict with itself, the other's end.
pub open spec fn asked_point(p: Problem, st: DddState, sel: Seq<usize>, e: (usize, i32)) -> bool {
    ||| exists|u: int| #[trigger] travel_asks(p, st, sel, u) && e.0 == u + 1 && e.1 == end_of(p, st, sel, u)
    ||| exists|r: int, k1: int, k2: int| #[trigger] usage_asks(p, st, sel, r, k1, k2) && {
        let a = st.resource_usage@[r]@[k1];
        let b = st.resource_usage@[r]@[k2];
        (e.0 == b && e.1 == end_of(p, st, sel, a as int)) || (e.0 == a && e.1 == end_of(p, st, sel, b as int))
    }
}

/// A new interval start that the schedule of a selection asks for leaves
/// `i32`.
pub open spec fn asked_overflow(p: Problem, st: DddState, sel: Seq<usize>) -> bool {
    ||| exists|u: int| #[trigger] travel_asks(p, st, sel, u) && end_of(p, st, sel, u) > i32::MAX
    ||| exists|r: int, k1: int, k2: int| #[trigger] usage_asks(p, st, sel, r, k1, k2) && {
        let a = st.resource_usage@[r]@[k1] as int;
        let b = st.resource_usage@[r]@[k2] as int;
        !(i32::MIN <= end_of(p, st, sel, a) <= i32::MAX) || !(i32::MIN <= end_of(p, st, sel, b) <= i32::MAX)
    }
}

/// Pushing onto a sequence keeps what it contains and adds the new item.
proof fn lemma_push_contains<A>(q: Seq<A>, x: A)
    ensures
        q.push(x).contains(x),
        forall|y: A| q.contains(y) ==> #[trigger] q.push(x).contains(y),
{
    assert(q.push(x)[q.len() as int] == x);
    assert forall|y: A| q.contains(y) implies #[trigger] q.push(x).contains(y) by {
        let i = choose|i: int| 0 <= i < q.len() && q[i] == y;
        assert(q.push(x)[i] == y);
    }
}

/// The travel time of visit `u` in flat order.
fn travel_of(problem: &Problem, state: &DddState, u: usize) -> (d: i32)
    requires
        state_wf(*state, *problem, isize::MAX as int),
        u < state.occs@.len(),
    ensures
        d == trav(*problem, state.occ_tv@[u as int].0 as int, state.occ_tv@[u as int].1 as int),
{
    let (t, v) = state.occ_tv[u];
    problem.trains[t].visits[v].travel_time
}

/// The new interval starts that the schedule of a selection calls for: for
/// a visit that starts before its predecessor ends, the predecessor's end;
/// for two overlapping visits of different trains to a resource that
/// conflicts with itself, each one's end for the other. An empty list means
/// that there is no such conflict; `None` that a new start leaves `i32`.
#[verifier::rlimit(80)]
pub fn find_refinements(problem: &Problem, state: &DddState, sel: &Vec<usize>) -> (r: Option<Vec<(usize, i32)>>)
    requires
        state_wf(*state, *problem, isize::MAX as int),
        selection_ok(*state, sel@),
    ensures
        r matches Some(q) ==> forall|k: int| 0 <= k < q@.len() ==> (#[trigger] q@[k]).0 < state.occs@.len(),
        r matches Some(q) ==> (q@.len() == 0 ==> travel_ok(*problem, *state, sel@) && usage_ok(*problem, *state, sel@)),
        r matches Some(q) ==> (q@.len() > 0 ==> !(travel_ok(*problem, *state, sel@) && usage_ok(*problem, *state, sel@))),
        r is None ==> !(travel_ok(*problem, *state, sel@) && usage_ok(*problem, *state, sel@)),
        r is None <==> asked_overflow(*problem, *state, sel@),
        r matches Some(q) ==> forall|k: int| 0 <= k < q@.len() ==> asked_point(*problem, *state, sel@, #[trigger] q@[k]),
        r matches Some(q) ==> forall|e: (usize, i32)| asked_point(*problem, *state, sel@, e) ==> #[trigger] q@.contains(e),
{
    let ghost p = *problem;
    let ghost bad = !(travel_ok(p, *state, sel@) && usage_ok(p, *state, sel@));
    let n: usize = state.occs.len();
    let mut q: Vec<(usize, i32)> = Vec::new();
    // Travel times.
    let mut u: usize = 0;
    while u < n
        invariant
            p == *problem,
            n == state.occs@.len(),
            state_wf(*state, p, isize::MAX as int),
            selection_ok(*state, sel@),
            u <= n,
            forall|k: int| 0 <= k < q@.len() ==> (#[trigger] q@[k]).0 < n,
            q@.len() > 0 ==> bad,
            bad == !(travel_ok(p, *state, sel@) && usage_ok(p, *state, sel@)),
            q@.len() == 0 ==> forall|t: int, v: int| valid_tv(p, t, v) && v + 1 < p.trains@[t].visits@.len() && flat(p, t, v) < u
                ==> #[trigger] start_of(*state, sel@, flat(p, t, v)) + trav(p, t, v) <= start_of(*state, sel@, flat(p, t, v + 1)),
            forall|k: int| 0 <= k < q@.len() ==> asked_point(p, *state, sel@, #[trigger] q@[k]),
            forall|w: int| 0 <= w < u && #[trigger] travel_asks(p, *state, sel@, w) ==> end_of(p, *state, sel@, w) <= i32::MAX
                && q@.contains(((w + 1) as usize, end_of(p, *state, sel@, w) as i32)),
        decreases n - u,
    {
        let (t, v) = state.occ_tv[u];
        if v + 1 < problem.trains[t].visits.len() {
            proof {
                lemma_flat_bounds(p, t as int, v + 1);
            }
            let dt: i32 = problem.trains[t].visits[v].travel_time;
            let s0: i32 = state.occs[u].time[sel[u]].start;
            let s1: i32 = state.occs[u + 1].time[sel[u + 1]].start;
            let e: i64 = s0 as i64 + dt as i64;
            if e > s1 as i64 {
                proof {
                    assert(flat(p, t as int, v as int) == u);
                    assert(start_of(*state, sel@, flat(p, t as int, v as int)) + trav(p, t as int, v as int)
                        > start_of(*state, sel@, flat(p, t as int, v + 1)));
                    assert(!travel_ok(p, *state, sel@));
                }
                proof {
                    assert(travel_asks(p, *state, sel@, u as int));
                }
                if e > i32::MAX as i64 || e < i32::MIN as i64 {
                    return None;
                }
                let ghost q0 = q@;
                q.push((u + 1, e as i32));
                proof {
                    lemma_push_contains(q0, ((u + 1) as usize, e as i32));
                    assert forall|k: int| 0 <= k < q@.len() implies asked_point(p, *state, sel@, #[trigger] q@[k]) by {
                        if k < q0.len() {
                            assert(q@[k] == q0[k]);
                        } else {
                            assert(travel_asks(p, *state, sel@, u as int));
                        }
                    }
                }
            }
        }
        proof {
            assert forall|t1: int, v1: int| valid_tv(p, t1, v1) && v1 + 1 < p.trains@[t1].visits@.len() && flat(p, t1, v1) < u + 1 && q@.len() == 0
                implies #[trigger] start_of(*state, sel@, flat(p, t1, v1)) + trav(p, t1, v1) <= start_of(*state, sel@, flat(p, t1, v1 + 1)) by {
                if flat(p, t1, v1) == u {
                    lemma_flat_injective(p, t1, v1, t as int, v as int);
                }
            }
        }
        u = u + 1;
    }
    proof {
        assert forall|t: int, v: int| valid_tv(p, t, v) && v + 1 < p.trains@[t].visits@.len() && q@.len() == 0
            implies #[trigger] start_of(*state, sel@, flat(p, t, v)) + trav(p, t, v) <= start_of(*state, sel@, flat(p, t, v + 1)) by {
            lemma_flat_bounds(p, t, v);
        }
    }
    // Resources that conflict with themselves.
    let mut r: usize = 0;
    while r < state.resource_usage.len()
        invariant
            p == *problem,
            n == state.occs@.len(),
            state_wf(*state, p, isize::MAX as int),
            selection_ok(*state, sel@),
            r <= state.resource_usage@.len(),
            forall|k: int| 0 <= k < q@.len() ==> (#[trigger] q@[k]).0 < n,
            forall|k: int| 0 <= k < q@.len() ==> asked_point(p, *state, sel@, #[trigger] q@[k]),
            forall|w: int| 0 <= w < n && #[trigger] travel_asks(p, *state, sel@, w) ==> end_of(p, *state, sel@, w) <= i32::MAX
                && q@.contains(((w + 1) as usize, end_of(p, *state, sel@, w) as i32)),
            forall|r1: int, j1: int, j2: int| #[trigger] usage_asks(p, *state, sel@, r1, j1, j2) && (r1 < r) ==> {
                let a = state.resource_usage@[r1]@[j1];
                let b = state.resource_usage@[r1]@[j2];
                &&& i32::MIN <= end_of(p, *state, sel@, a as int) <= i32::MAX
                &&& i32::MIN <= end_of(p, *state, sel@, b as int) <= i32::MAX
                &&& q@.contains((b, end_of(p, *state, sel@, a as int) as i32))
                &&& q@.contains((a, end_of(p, *state, sel@, b as int) as i32))
            },
            q@.len() > 0 ==> bad,
            bad == !(travel_ok(p, *state, sel@) && usage_ok(p, *state, sel@)),
            q@.len() == 0 ==> travel_ok(p, *state, sel@),
            q@.len() == 0 ==> forall|r1: int, k1: int, k2: int|
                0 <= r1 < r && 0 <= k1 < state.resource_usage@[r1]@.len() && 0 <= k2 < state.resource_usage@[r1]@.len()
                    && state.occ_tv@[#[trigger] state.resource_usage@[r1]@[k1] as int].0 != state.occ_tv@[#[trigger] state.resource_usage@[r1]@[k2] as int].0
                    ==> separated(
                    start_of(*state, sel@, state.resource_usage@[r1]@[k1] as int) as int,
                    trav(p, state.occ_tv@[state.resource_usage@[r1]@[k1] as int].0 as int, state.occ_tv@[state.resource_usage@[r1]@[k1] as int].1 as int) as int,
                    start_of(*state, sel@, state.resource_usage@[r1]@[k2] as int) as int,
                    trav(p, state.occ_tv@[state.resource_usage@[r1]@[k2] as int].0 as int, state.occ_tv@[state.resource_usage@[r1]@[k2] as int].1 as int) as int,
                ),
        decreases state.resource_usage@.len() - r,
    {
        let vs = &state.resource_usage[r];
        let mut k1: usize = 0;
        while k1 < vs.len()
            invariant
                p == *problem,
                n == state.occs@.len(),
                state_wf(*state, p, isize::MAX as int),
                selection_ok(*state, sel@),
                r < state.resource_usage@.len(),
                *vs == state.resource_usage@[r as int],
                k1 <= vs@.len(),
                forall|k: int| 0 <= k < q@.len() ==> asked_point(p, *state, sel@, #[trigger] q@[k]),
                forall|w: int| 0 <= w < n && #[trigger] travel_asks(p, *state, sel@, w) ==> end_of(p, *state, sel@, w) <= i32::MAX
                    && q@.contains(((w + 1) as usize, end_of(p, *state, sel@, w) as i32)),
                forall|r1: int, j1: int, j2: int| #[trigger] usage_asks(p, *state, sel@, r1, j1, j2) && (r1 < r || (r1 == r && j1 < k1)) ==> {
                    let a = state.resource_usage@[r1]@[j1];
                    let b = state.resource_usage@[r1]@[j2];
                    &&& i32::MIN <= end_of(p, *state, sel@, a as int) <= i32::MAX
                    &&& i32::MIN <= end_of(p, *state, sel@, b as int) <= i32::MAX
                    &&& q@.contains((b, end_of(p, *state, sel@, a as int) as i32))
                    &&& q@.contains((a, end_of(p, *state, sel@, b as int) as i32))
                },
                forall|k: int| 0 <= k < q@.len() ==> (#[trigger] q@[k]).0 < n,
                q@.len() > 0 ==> bad,
                bad == !(travel_ok(p, *state, sel@) && usage_ok(p, *state, sel@)),
            q@.len() > 0 ==> bad,
            bad == !(travel_ok(p, *state, sel@) && usage_ok(p, *state, sel@)),
                q@.len() == 0 ==> travel_ok(p, *state, sel@),
                q@.len() == 0 ==> forall|r1: int, k1: int, k2: int|
                    0 <= r1 < r && 0 <= k1 < state.resource_usage@[r1]@.len() && 0 <= k2 < state.resource_usage@[r1]@.len()
                        && state.occ_tv@[#[trigger] state.resource_usage@[r1]@[k1] as int].0 != state.occ_tv@[#[trigger] state.resource_usage@[r1]@[k2] as int].0
                        ==> separated(
                        start_of(*state, sel@, state.resource_usage@[r1]@[k1] as int) as int,
                        trav(p, state.occ_tv@[state.resource_usage@[r1]@[k1] as int].0 as int, state.occ_tv@[state.resource_usage@[r1]@[k1] as int].1 as int) as int,
                        start_of(*state, sel@, state.resource_usage@[r1]@[k2] as int) as int,
                        trav(p, state.occ_tv@[state.resource_usage@[r1]@[k2] as int].0 as int, state.occ_tv@[state.resource_usage@[r1]@[k2] as int].1 as int) as int,
                    ),
                q@.len() == 0 ==> forall|j1: int, j2: int|
                    0 <= j1 < vs@.len() && 0 <= j2 < vs@.len() && j1 < k1
                        && state.occ_tv@[#[trigger] vs@[j1] as int].0 < state.occ_tv@[#[trigger] vs@[j2] as int].0
                        ==> separated(
                        start_of(*state, sel@, vs@[j1] as int) as int,
                        trav(p, state.occ_tv@[vs@[j1] as int].0 as int, state.occ_tv@[vs@[j1] as int].1 as int) as int,
                        start_of(*state, sel@, vs@[j2] as int) as int,
                        trav(p, state.occ_tv@[vs@[j2] as int].0 as int, state.occ_tv@[vs@[j2] as int].1 as int) as int,
                    ),
            decreases vs@.len() - k1,
        {
            let mut k2: usize = 0;
            while k2 < vs.len()
                invariant
                    p == *problem,
                    n == state.occs@.len(),
                    state_wf(*state, p, isize::MAX as int),
                    selection_ok(*state, sel@),
                    r < state.resource_usage@.len(),
                    *vs == state.resource_usage@[r as int],
                    k1 < vs@.len(),
                    k2 <= vs@.len(),
                    forall|k: int| 0 <= k < q@.len() ==> asked_point(p, *state, sel@, #[trigger] q@[k]),
                    forall|w: int| 0 <= w < n && #[trigger] travel_asks(p, *state, sel@, w) ==> end_of(p, *state, sel@, w) <= i32::MAX
                        && q@.contains(((w + 1) as usize, end_of(p, *state, sel@, w) as i32)),
                    forall|r1: int, j1: int, j2: int| #[trigger] usage_asks(p, *state, sel@, r1, j1, j2) && (r1 < r || (r1 == r && (j1 < k1 || (j1 == k1 && j2 < k2)))) ==> {
                        let a = state.resource_usage@[r1]@[j1];
                        let b = state.resource_usage@[r1]@[j2];
                        &&& i32::MIN <= end_of(p, *state, sel@, a as int) <= i32::MAX
                        &&& i32::MIN <= end_of(p, *state, sel@, b as int) <= i32::MAX
                        &&& q@.contains((b, end_of(p, *state, sel@, a as int) as i32))
                        &&& q@.contains((a, end_of(p, *state, sel@, b as int) as i32))
                    },
                    forall|k: int| 0 <= k < q@.len() ==> (#[trigger] q@[k]).0 < n,
                    q@.len() > 0 ==> bad,
                    bad == !(travel_ok(p, *state, sel@) && usage_ok(p, *state, sel@)),
                q@.len() > 0 ==> bad,
                bad == !(travel_ok(p, *state, sel@) && usage_ok(p, *state, sel@)),
            q@.len() > 0 ==> bad,
            bad == !(travel_ok(p, *state, sel@) && usage_ok(p, *state, sel@)),
                    q@.len() == 0 ==> travel_ok(p, *state, sel@),
                    q@.len() == 0 ==> forall|r1: int, k1: int, k2: int|
                        0 <= r1 < r && 0 <= k1 < state.resource_usage@[r1]@.len() && 0 <= k2 < state.resource_usage@[r1]@.len()
                            && state.occ_tv@[#[trigger] state.resource_usage@[r1]@[k1] as int].0 != state.occ_tv@[#[trigger] state.resource_usage@[r1]@[k2] as int].0
                            ==> separated(
                            start_of(*state, sel@, state.resource_usage@[r1]@[k1] as int) as int,
                            trav(p, state.occ_tv@[state.resource_usage@[r1]@[k1] as int].0 as int, state.occ_tv@[state.resource_usage@[r1]@[k1] as int].1 as int) as int,
                            start_of(*state, sel@, state.resource_usage@[r1]@[k2] as int) as int,
                            trav(p, state.occ_tv@[state.resource_usage@[r1]@[k2] as int].0 as int, state.occ_tv@[state.resource_usage@[r1]@[k2] as int].1 as int) as int,
                        ),
                    q@.len() == 0 ==> forall|j1: int, j2: int|
                        0 <= j1 < vs@.len() && 0 <= j2 < vs@.len() && (j1 < k1 || (j1 == k1 && j2 < k2))
                            && state.occ_tv@[#[trigger] vs@[j1] as int].0 < state.occ_tv@[#[trigger] vs@[j2] as int].0
                            ==> separated(
                            start_of(*state, sel@, vs@[j1] as int) as int,
                            trav(p, state.occ_tv@[vs@[j1] as int].0 as int, state.occ_tv@[vs@[j1] as int].1 as int) as int,
                            start_of(*state, sel@, vs@[j2] as int) as int,
                            trav(p, state.occ_tv@[vs@[j2] as int].0 as int, state.occ_tv@[vs@[j2] as int].1 as int) as int,
                        ),
                decreases vs@.len() - k2,
            {
                let a: usize = vs[k1];
                let b: usize = vs[k2];
                let ta: usize = state.occ_tv[a].0;
                let tb: usize = state.occ_tv[b].0;
                if ta < tb {
                    let da: i32 = travel_of(problem, state, a);
                    let db: i32 = travel_of(problem, state, b);
                    let sa: i32 = state.occs[a].time[sel[a]].start;
                    let sb: i32 = state.occs[b].time[sel[b]].start;
                    let ea: i64 = sa as i64 + da as i64;
                    let eb: i64 = sb as i64 + db as i64;
                    let gap1: i64 = sb as i64 - ea;
                    let gap2: i64 = sa as i64 - eb;
                    let separation: i64 = if gap1 >= gap2 { gap1 } else { gap2 };
                    if separation < 0 {
                        proof {
                            assert(vs@[k1 as int] == state.resource_usage@[r as int]@[k1 as int]);
                            assert(vs@[k2 as int] == state.resource_usage@[r as int]@[k2 as int]);
                            assert(!usage_ok(p, *state, sel@));
                        }
                        proof {
                            assert(ea == end_of(p, *state, sel@, a as int));
                            assert(eb == end_of(p, *state, sel@, b as int));
                            assert(usage_asks(p, *state, sel@, r as int, k1 as int, k2 as int));
                        }
                        if ea > i32::MAX as i64 || ea < i32::MIN as i64 || eb > i32::MAX as i64 || eb < i32::MIN as i64 {
                            return None;
                        }
                        let ghost q0 = q@;
                        q.push((b, ea as i32));
                        let ghost q1 = q@;
                        q.push((a, eb as i32));
                        proof {
                            lemma_push_contains(q0, (b, ea as i32));
                            lemma_push_contains(q1, (a, eb as i32));
                            assert forall|k: int| 0 <= k < q@.len() implies asked_point(p, *state, sel@, #[trigger] q@[k]) by {
                                if k < q0.len() {
                                    assert(q@[k] == q0[k]);
                                } else {
                                    assert(usage_asks(p, *state, sel@, r as int, k1 as int, k2 as int));
                                }
                            }
                        }
                    }
                }
                proof {
                    assert forall|r1: int, j1: int, j2: int| #[trigger] usage_asks(p, *state, sel@, r1, j1, j2)
                        && r1 == r && j1 == k1 && j2 == k2
                        implies q@.contains((state.resource_usage@[r1]@[j2], end_of(p, *state, sel@, state.resource_usage@[r1]@[j1] as int) as i32)) by {
                        assert(vs@[k1 as int] == state.resource_usage@[r as int]@[k1 as int]);
                        assert(vs@[k2 as int] == state.resource_usage@[r as int]@[k2 as int]);
                    }
                }
                k2 = k2 + 1;
            }
            k1 = k1 + 1;
        }
        proof {
            assert forall|r1: int, j1: int, j2: int|
                0 <= r1 < r + 1 && 0 <= j1 < state.resource_usage@[r1]@.len() && 0 <= j2 < state.resource_usage@[r1]@.len()
                    && state.occ_tv@[#[trigger] state.resource_usage@[r1]@[j1] as int].0 != state.occ_tv@[#[trigger] state.resource_usage@[r1]@[j2] as int].0
                    && q@.len() == 0
                    implies separated(
                    start_of(*state, sel@, state.resource_usage@[r1]@[j1] as int) as int,
                    trav(p, state.occ_tv@[state.resource_usage@[r1]@[j1] as int].0 as int, state.occ_tv@[state.resource_usage@[r1]@[j1] as int].1 as int) as int,
                    start_of(*state, sel@, state.resource_usage@[r1]@[j2] as int) as int,
                    trav(p, state.occ_tv@[state.resource_usage@[r1]@[j2] as int].0 as int, state.occ_tv@[state.resource_usage@[r1]@[j2] as int].1 as int) as int,
                ) by {
                if r1 == r {
                    if state.occ_tv@[vs@[j1] as int].0 < state.occ_tv@[vs@[j2] as int].0 {
                        assert(vs@[j1] == state.resource_usage@[r1]@[j1]);
                    } else {
                        assert(vs@[j2] == state.resource_usage@[r1]@[j2]);
                        assert(vs@[j1] == state.resource_usage@[r1]@[j1]);
                    }
                }
            }
        }
        r = r + 1;
    }
    proof {
        assert(!asked_overflow(p, *state, sel@));
        assert forall|e: (usize, i32)| asked_point(p, *state, sel@, e) implies #[trigger] q@.contains(e) by {
            if exists|w: int| #[trigger] travel_asks(p, *state, sel@, w) && e.0 == w + 1 && e.1 == end_of(p, *state, sel@, w) {
                let w = choose|w: int| #[trigger] travel_asks(p, *state, sel@, w) && e.0 == w + 1 && e.1 == end_of(p, *state, sel@, w);
                assert(w < n);
            }
        }
    }
    Some(q)
}

// ---------------------------------------------------------------------------
// The reported schedule
// ---------------------------------------------------------------------------

/// The start reported for visit `v` of train `t`: a visit to resource 0
/// after the first starts when its predecessor ends; every other visit keeps
/// its start.
pub open spec fn adjusted_start(p: Problem, rows: Seq<Vec<i32>>, t: int, v: int) -> int
    decreases v,
{
    if v > 0 && res(p, t, v) == 0 {
        adjusted_start(p, rows, t, v - 1) + trav(p, t, v - 1)
    } else {
        rows[t]@[v] as int
    }
}

/// Some reported start leaves `i32`.
pub open spec fn adjusted_overflows(p: Problem, rows: Seq<Vec<i32>>) -> bool {
    exists|t: int, v: int| valid_tv(p, t, v) && !(i32::MIN <= #[trigger] adjusted_start(p, rows, t, v) <= i32::MAX)
}

/// The reported schedule: the starts of `adjusted_start`, and the end of the
/// last visit of each train as in `rows`.
pub open spec fn adjusted(p: Problem, rows: Seq<Vec<i32>>, out: Seq<Vec<i32>>) -> bool {
    &&& out.len() == rows.len()
    &&& forall|t: int| 0 <= t < out.len() ==> #[trigger] out[t]@.len() == rows[t]@.len()
    &&& forall|t: int, v: int| valid_tv(p, t, v) ==> #[trigger] out[t]@[v] == adjusted_start(p, rows, t, v)
    &&& forall|t: int| 0 <= t < out.len() ==> #[trigger] out[t]@[p.trains@[t].visits@.len() as int] == rows[t]@[p.trains@[t].visits@.len() as int]
}

/// The schedule to report: visits to resource 0 after the first of their
/// train start when their predecessor ends. `None` when such a start leaves
/// `i32`.
pub fn adjust_schedule(problem: &Problem, rows: &Vec<Vec<i32>>) -> (r: Option<Vec<Vec<i32>>>)
    requires
        rows@.len() == problem.trains@.len(),
        forall|t: int| 0 <= t < rows@.len() ==> #[trigger] rows@[t]@.len() == problem.trains@[t].visits@.len() + 1,
    ensures
        r is None <==> adjusted_overflows(*problem, rows@),
        r matches Some(out) ==> adjusted(*problem, rows@, out@),
{
    let ghost p = *problem;
    let mut out: Vec<Vec<i32>> = Vec::new();
    let mut t: usize = 0;
    while t < rows.len()
        invariant
            p == *problem,
            rows@.len() == p.trains@.len(),
            forall|t1: int| 0 <= t1 < rows@.len() ==> #[trigger] rows@[t1]@.len() == p.trains@[t1].visits@.len() + 1,
            t <= rows@.len(),
            out@.len() == t,
            forall|t1: int| 0 <= t1 < t ==> #[trigger] out@[t1]@.len() == rows@[t1]@.len(),
            forall|t1: int, v: int| valid_tv(p, t1, v) && t1 < t ==> #[trigger] out@[t1]@[v] == adjusted_start(p, rows@, t1, v),
            forall|t1: int| 0 <= t1 < t ==> #[trigger] out@[t1]@[p.trains@[t1].visits@.len() as int] == rows@[t1]@[p.trains@[t1].visits@.len() as int],
        decreases rows@.len() - t,
    {
        let nv: usize = problem.trains[t].visits.len();
        let mut row: Vec<i32> = Vec::new();
        let mut v: usize = 0;
        while v < nv
            invariant
                p == *problem,
                rows@.len() == p.trains@.len(),
                t < rows@.len(),
                nv == p.trains@[t as int].visits@.len(),
                rows@[t as int]@.len() == nv + 1,
                v <= nv,
                row@.len() == v,
                forall|v1: int| 0 <= v1 < v ==> #[trigger] row@[v1] == adjusted_start(p, rows@, t as int, v1),
            decreases nv - v,
        {
            if v > 0 && problem.trains[t].visits[v].resource_id == 0 {
                let x: i64 = row[v - 1] as i64 + problem.trains[t].visits[v - 1].travel_time as i64;
                if x < i32::MIN as i64 || x > i32::MAX as i64 {
                    proof {
                        assert(valid_tv(p, t as int, v as int));
                        assert(!(i32::MIN <= adjusted_start(p, rows@, t as int, v as int) <= i32::MAX));
                    }
                    return None;
                }
                row.push(x as i32);
            } else {
                row.push(rows[t][v]);
            }
            v = v + 1;
        }
        row.push(rows[t][nv]);
        out.push(row);
        t = t + 1;
    }
    proof {
        assert forall|t1: int, v: int| valid_tv(p, t1, v) implies i32::MIN <= #[trigger] adjusted_start(p, rows@, t1, v) <= i32::MAX by {
            assert(out@[t1]@[v] == adjusted_start(p, rows@, t1, v));
        }
    }
    Some(out)
}

// ---------------------------------------------------------------------------
// Refining the intervals
// ---------------------------------------------------------------------------

/// At most one of two literals: false when the solver may run out of
/// variables.
fn at_most_one_of_two(solver: &mut External, a: isize, b: isize) -> (ok: bool)
    requires
        lit_ok(a, old(solver).wcnf.n_vars as int),
        lit_ok(b, old(solver).wcnf.n_vars as int),
    ensures
        final(solver).wcnf.n_vars == old(solver).wcnf.n_vars,
        final(solver).soft_clauses() == old(solver).soft_clauses(),
        ok <==> old(solver).wcnf.n_vars <= isize::MAX - 2,
        final(solver).hard_clauses().len() >= old(solver).hard_clauses().len(),
        final(solver).hard_clauses().take(old(solver).hard_clauses().len() as int) == old(solver).hard_clauses(),
        ok ==> forall|asg: spec_fn(int) -> bool| #[trigger] clauses_hold(asg, final(solver).hard_clauses())
            ==> !(lit_true(asg, a) && lit_true(asg, b)),
{
    if solver.wcnf.n_vars > (isize::MAX - 2) as usize {
        return false;
    }
    let set = vec![a, b];
    proof {
        assert(set@ == seq![a, b]);
    }
    let ghost h0 = solver.hard_clauses();
    let ghost n0 = solver.num_vars();
    let sl = set.as_slice();
    assert(sl@ == seq![a, b]);
    solver.at_most_one(sl);
    proof {
        let h1 = solver.hard_clauses();
        assert(crate::maxsatsolver::amo_post(h0, n0, h1, solver.num_vars(), seq![a, b]));
        assert(solver.hard_clauses().take(h0.len() as int) =~= h0);
        assert forall|asg: spec_fn(int) -> bool| #[trigger] clauses_hold(asg, h1) implies !(lit_true(asg, a) && lit_true(asg, b)) by {
            lemma_hold_prefix(asg, h0, h1);
            assert(clauses_hold(asg, h1.skip(h0.len() as int)));
            let s2 = seq![a, b];
            let s1 = seq![a];
            assert(count_true(asg, s2) <= 1);
            assert(s2.drop_last() =~= s1);
            assert(s2.last() == b);
            assert(s1.last() == a);
            assert(s1.drop_last().len() == 0);
            assert(count_true(asg, s1.drop_last()) == 0);
            assert(count_true(asg, s1) == if lit_true(asg, a) { 1nat } else { 0nat });
            assert(count_true(asg, s2) == count_true(asg, s1) + if lit_true(asg, b) { 1nat } else { 0nat });
        }
    }
    true
}

/// Every assignment that satisfies the hard clauses of `m` sets at most
/// one of interval `i1` of visit `u1` and interval `i2` of visit `u2`.
pub open spec fn excludes(m: IntervalModel, u1: int, i1: int, u2: int, i2: int) -> bool {
    forall|asg: spec_fn(int) -> bool| #[trigger] clauses_hold(asg, m.solver.hard_clauses())
        ==> !(lit_true(asg, m.t_vars@[u1]@[i1]) && lit_true(asg, m.t_vars@[u2]@[i2]))
}

/// The travel time rules out interval `i1` of visit `u` with interval `i2`
/// of the next visit of its train: `i2` and every interval before it ends
/// no later than `i1` starts plus the travel time.
pub open spec fn travel_excluded(p: Problem, st: IntervalState, u: int, i1: int, i2: int) -> bool {
    let t = st.occ_tv@[u].0 as int;
    let v = st.occ_tv@[u].1 as int;
    &&& 0 <= u
    &&& u + 1 < st.intervals@.len()
    &&& v + 1 < p.trains@[t].visits@.len()
    &&& 0 <= i1 < st.intervals@[u]@.len()
    &&& 0 <= i2 < st.intervals@[u + 1]@.len()
    &&& forall|j: int| 0 <= j <= i2 ==> st.intervals@[u]@[i1].0 + trav(p, t, v) >= #[trigger] st.intervals@[u + 1]@[j].1
}

/// The travel exclusions of the visits before `k` are in the formula.
pub open spec fn travel_done(m: IntervalModel, p: Problem, st: IntervalState, k: int) -> bool {
    forall|u: int, i1: int, i2: int| u < k && #[trigger] travel_excluded(p, st, u, i1, i2) ==> excludes(m, u, i1, u + 1, i2)
}

/// Intervals `i1` of visit `a` and `i2` of visit `b`, both on resource list
/// `r` (at `k1` and `k2`, with `a`'s train before `b`'s), overlap: each
/// starts plus its travel time no earlier than the other ends.
pub open spec fn resource_excluded(p: Problem, st: IntervalState, r: int, k1: int, k2: int, i1: int, i2: int) -> bool {
    let a = st.resource_usage@[r]@[k1] as int;
    let b = st.resource_usage@[r]@[k2] as int;
    let (ta, va) = st.occ_tv@[a];
    let (tb, vb) = st.occ_tv@[b];
    &&& 0 <= r < st.resource_usage@.len()
    &&& 0 <= k1 < st.resource_usage@[r]@.len()
    &&& 0 <= k2 < st.resource_usage@[r]@.len()
    &&& ta < tb
    &&& 0 <= i1 < st.intervals@[a]@.len()
    &&& 0 <= i2 < st.intervals@[b]@.len()
    &&& st.intervals@[b]@[i2].0 + trav(p, tb as int, vb as int) >= st.intervals@[a]@[i1].1
    &&& st.intervals@[a]@[i1].0 + trav(p, ta as int, va as int) >= st.intervals@[b]@[i2].1
}

/// The resource exclusions before `(r, k1, k2, i1, i2)`, in the order of the
/// loops that add them, are in the formula.
pub open spec fn resource_done(m: IntervalModel, p: Problem, st: IntervalState, r: int, k1: int, k2: int, i1: int, i2: int) -> bool {
    forall|r2: int, x1: int, x2: int, j1: int, j2: int|
        #[trigger] resource_excluded(p, st, r2, x1, x2, j1, j2) && (r2 < r || (r2 == r && (x1 < k1 || (x1 == k1 && (x2 < k2
            || (x2 == k2 && (j1 < i1 || (j1 == i1 && j2 < i2))))))))
            ==> excludes(m, st.resource_usage@[r2]@[x1] as int, j1, st.resource_usage@[r2]@[x2] as int, j2)
}

/// Exclusions survive hard clauses that only grow.
proof fn lemma_excl_grow(m0: IntervalModel, m1: IntervalModel, p: Problem, st: IntervalState, k: int, r: int, k1: int, k2: int, i1: int, i2: int)
    requires
        m1.t_vars@ == m0.t_vars@,
        m1.solver.hard_clauses().len() >= m0.solver.hard_clauses().len(),
        m1.solver.hard_clauses().take(m0.solver.hard_clauses().len() as int) == m0.solver.hard_clauses(),
    ensures
        travel_done(m0, p, st, k) ==> travel_done(m1, p, st, k),
        resource_done(m0, p, st, r, k1, k2, i1, i2) ==> resource_done(m1, p, st, r, k1, k2, i1, i2),
        forall|u1: int, j1: int, u2: int, j2: int| excludes(m0, u1, j1, u2, j2) ==> #[trigger] excludes(m1, u1, j1, u2, j2),
{
    assert forall|u1: int, j1: int, u2: int, j2: int| excludes(m0, u1, j1, u2, j2) implies #[trigger] excludes(m1, u1, j1, u2, j2) by {
        assert forall|asg: spec_fn(int) -> bool| #[trigger] clauses_hold(asg, m1.solver.hard_clauses())
            implies !(lit_true(asg, m1.t_vars@[u1]@[j1]) && lit_true(asg, m1.t_vars@[u2]@[j2])) by {
            lemma_hold_prefix(asg, m0.solver.hard_clauses(), m1.solver.hard_clauses());
        }
    }
}

/// Splits the interval of `o` that holds `new_time` at `new_time`: the new
/// interval runs from `new_time` to where the old one ended, gets a fresh
/// literal that excludes every other interval's, its soft cost `cost`, and
/// a fresh closing literal. Returns the index of the interval that was
/// split and of the new one; `None` when the solver runs out of variables.
fn add_interval(solver: &mut External, o: &mut Occ, nocc: Ghost<int>, new_time: i32, cost: u32) -> (r: Option<(usize, usize)>)
    requires
        occ_wf(*old(o), nocc@, old(solver).wcnf.n_vars as int),
    ensures
        final(solver).wcnf.n_vars >= old(solver).wcnf.n_vars,
        occ_wf(*final(o), nocc@, final(solver).wcnf.n_vars as int),
        final(o).time@.len() >= old(o).time@.len(),
        r matches Some((a, b)) ==> a < old(o).time@.len() && b == old(o).time@.len() && final(o).time@.len() == b + 1
            && final(o).time@[b as int].start == new_time,
        forall|j: int| 0 <= j < old(o).time@.len() ==> #[trigger] final(o).time@[j].start == old(o).time@[j].start,
        r is None ==> final(solver).wcnf.n_vars + 3 + u32::MAX > isize::MAX,
        final(o).time@.len() == old(o).time@.len() || (final(o).time@.len() == old(o).time@.len() + 1
            && final(o).time@[old(o).time@.len() as int].start == new_time),
{
    let mut prev: usize = 0;
    let mut best: i32 = i32::MIN;
    let mut i: usize = 0;
    while i < o.time.len()
        invariant
            i <= o.time@.len(),
            o.time@.len() >= 1,
            prev < o.time@.len(),
        decreases o.time@.len() - i,
    {
        let st = o.time[i].start;
        if st <= new_time && st >= best {
            prev = i;
            best = st;
        }
        i = i + 1;
    }
    let end_time: i32 = o.time[prev].end;
    let ghost before = *o;
    o.time[prev].end = new_time;
    proof {
        assert forall|j: int| 0 <= j < o.time@.len() implies lit_ok(#[trigger] o.time@[j].lit, solver.wcnf.n_vars as int) by {
            assert(o.time@[j].lit == before.time@[j].lit);
        }
        assert forall|j: int, k: int| 0 <= j < o.time@.len() && 0 <= k < o.time@[j].incompat@.len() implies #[trigger] o.time@[j].incompat@[k].0 < nocc@ by {
            assert(o.time@[j].incompat == before.time@[j].incompat);
        }
    }
    if solver.wcnf.n_vars > (isize::MAX - 2) as usize {
        return None;
    }
    let v1 = solver.new_var();
    let mut j: usize = 0;
    while j < o.time.len()
        invariant
            j <= o.time@.len(),
            occ_wf(*o, nocc@, solver.wcnf.n_vars as int),
            lit_ok(v1, solver.wcnf.n_vars as int),
            solver.wcnf.n_vars >= old(solver).wcnf.n_vars,
            o.time@.len() == old(o).time@.len(),
            prev < o.time@.len(),
            forall|j2: int| 0 <= j2 < o.time@.len() ==> #[trigger] o.time@[j2].start == old(o).time@[j2].start,
        decreases o.time@.len() - j,
    {
        let ghost n0 = solver.wcnf.n_vars;
        let l = o.time[j].lit;
        if !at_most_one_of_two(solver, v1, l) {
            proof {
                lemma_occ_grow(*o, nocc@, n0 as int, solver.wcnf.n_vars as int);
            }
            return None;
        }
        proof {
            lemma_occ_grow(*o, nocc@, n0 as int, solver.wcnf.n_vars as int);
        }
        j = j + 1;
    }
    if solver.wcnf.n_vars >= isize::MAX as usize {
        return None;
    }
    let v2 = solver.new_var();
    proof {
        lemma_occ_grow(*o, nocc@, (solver.wcnf.n_vars - 1) as int, solver.wcnf.n_vars as int);
    }
    let next_idx: usize = o.time.len();
    let ghost before2 = *o;
    o.time.push(TimePoint { start: new_time, end: end_time, lit: v1, incompat: Vec::new() });
    let closing = -o.next_lit;
    solver.add_clause(None, vec![closing, v1, v2]);
    o.next_lit = v2;
    let neg_v1 = -v1;
    proof {
        assert forall|j: int| 0 <= j < o.time@.len() implies lit_ok(#[trigger] o.time@[j].lit, solver.wcnf.n_vars as int) by {
            if j < next_idx {
                assert(o.time@[j] == before2.time@[j]);
            }
        }
        assert forall|j: int, k: int| 0 <= j < o.time@.len() && 0 <= k < o.time@[j].incompat@.len() implies #[trigger] o.time@[j].incompat@[k].0 < nocc@ by {
            if j < next_idx {
                assert(o.time@[j] == before2.time@[j]);
            }
        }
    }
    let ghost n1 = solver.wcnf.n_vars;
    let ok = set_soft_lit(solver, &mut o.cost_vars, neg_v1, cost);
    proof {
        assert forall|j: int| 0 <= j < o.time@.len() implies lit_ok(#[trigger] o.time@[j].lit, solver.wcnf.n_vars as int) by {
            assert(lit_ok(o.time@[j].lit, n1 as int));
        }
    }
    if !ok {
        return None;
    }
    Some((prev, next_idx))
}

/// Every train has a visit, so there are at least as many visits as trains.
proof fn lemma_offs_ge(p: Problem, t: int)
    requires
        0 <= t <= p.trains@.len(),
        forall|t1: int| 0 <= t1 < p.trains@.len() ==> #[trigger] p.trains@[t1].visits@.len() >= 1,
    ensures
        offs(p, t) >= t,
    decreases t,
{
    if t > 0 {
        lemma_offs_ge(p, t - 1);
    }
}

/// Replacing one visit's description by a valid one keeps the state valid.
proof fn lemma_state_update(st0: DddState, st1: DddState, p: Problem, n: int, x: int)
    requires
        state_wf(st0, p, n),
        0 <= x < st0.occs@.len(),
        st1.occs@ == st0.occs@.update(x, st1.occs@[x]),
        occ_wf(st1.occs@[x], n_flat(p) as int, n),
        st1.train_offset == st0.train_offset,
        st1.occ_tv == st0.occ_tv,
        st1.resource_usage == st0.resource_usage,
        st1.visit_conflicts_map == st0.visit_conflicts_map,
    ensures
        state_wf(st1, p, n),
{
    assert forall|u: int| 0 <= u < n_flat(p) implies occ_wf(#[trigger] st1.occs@[u], n_flat(p) as int, n) by {
        if u != x {
            assert(st1.occs@[u] == st0.occs@[u]);
        }
    }
}

/// The intervals of a visit keep their number.
pub open spec fn same_lengths(a: DddState, b: DddState) -> bool {
    &&& a.occs@.len() == b.occs@.len()
    &&& forall|u: int| 0 <= u < a.occs@.len() ==> (#[trigger] a.occs@[u]).time@.len() == b.occs@[u].time@.len()
}

/// An interval of an existing visit.
pub open spec fn interval_ok(st: DddState, u: int, i: int) -> bool {
    0 <= u < st.occs@.len() && 0 <= i < st.occs@[u].time@.len()
}

/// Records that interval `a.1` of visit `a.0` and interval `b.1` of visit
/// `b.0` exclude each other, unless that is known already: each lists the
/// other, and at most one of their literals may hold. False when the solver
/// may run out of variables.
fn add_incompat(
    solver: &mut External,
    state: &mut DddState,
    p: Ghost<Problem>,
    a: (usize, usize),
    b: (usize, usize),
) -> (ok: bool)
    requires
        state_wf(*old(state), p@, old(solver).wcnf.n_vars as int),
        interval_ok(*old(state), a.0 as int, a.1 as int),
        interval_ok(*old(state), b.0 as int, b.1 as int),
        a.0 != b.0,
    ensures
        state_wf(*final(state), p@, final(solver).wcnf.n_vars as int),
        final(solver).wcnf.n_vars >= old(solver).wcnf.n_vars,
        same_lengths(*old(state), *final(state)),
        final(state).delay_cost_type == old(state).delay_cost_type,
        final(state).propagate == old(state).propagate,
        final(state).occ_tv == old(state).occ_tv,
        final(state).visit_conflicts_map == old(state).visit_conflicts_map,
        final(state).train_offset == old(state).train_offset,
        final(state).resource_usage == old(state).resource_usage,
        forall|u: int, i: int| interval_ok(*old(state), u, i) ==> #[trigger] final(state).occs@[u].time@[i].start == old(state).occs@[u].time@[i].start
            && final(state).occs@[u].time@[i].end == old(state).occs@[u].time@[i].end,
        !ok ==> final(solver).wcnf.n_vars > isize::MAX - 2,
{
    let ghost nocc = n_flat(p@) as int;
    let ghost n = solver.wcnf.n_vars as int;
    let mut k: usize = 0;
    {
        let inc = &state.occs[a.0].time[a.1].incompat;
        while k < inc.len()
            invariant
                k <= inc@.len(),
                *state == *old(state),
                solver.wcnf.n_vars == old(solver).wcnf.n_vars,
                state_wf(*state, p@, solver.wcnf.n_vars as int),
            decreases inc@.len() - k,
        {
            if inc[k].0 == b.0 && inc[k].1 == b.1 {
                return true;
            }
            k = k + 1;
        }
    }
    let ghost s0 = *state;
    assert(occ_wf(s0.occs@[a.0 as int], nocc, n));
    assert(occ_wf(s0.occs@[b.0 as int], nocc, n));
    state.occs[a.0].time[a.1].incompat.push(b);
    let ghost s1 = *state;
    proof {
        let o = s1.occs@[a.0 as int];
        let o0 = s0.occs@[a.0 as int];
        assert forall|i: int| 0 <= i < o.time@.len() implies lit_ok(#[trigger] o.time@[i].lit, n) by {
            assert(o.time@[i].lit == o0.time@[i].lit);
        }
        assert forall|i: int, k: int| 0 <= i < o.time@.len() && 0 <= k < o.time@[i].incompat@.len() implies #[trigger] o.time@[i].incompat@[k].0 < nocc by {
            if i != a.1 || k < o0.time@[i].incompat@.len() {
                assert(o.time@[i].incompat@[k] == o0.time@[i].incompat@[k]);
            }
        }
        assert(occ_wf(o, nocc, n));
        lemma_state_update(s0, s1, p@, n, a.0 as int);
    }
    state.occs[b.0].time[b.1].incompat.push(a);
    let ghost s2 = *state;
    proof {
        let o = s2.occs@[b.0 as int];
        let o0 = s1.occs@[b.0 as int];
        assert(o0 == s0.occs@[b.0 as int]);
        assert forall|i: int| 0 <= i < o.time@.len() implies lit_ok(#[trigger] o.time@[i].lit, n) by {
            assert(o.time@[i].lit == o0.time@[i].lit);
        }
        assert forall|i: int, k: int| 0 <= i < o.time@.len() && 0 <= k < o.time@[i].incompat@.len() implies #[trigger] o.time@[i].incompat@[k].0 < nocc by {
            if i != b.1 || k < o0.time@[i].incompat@.len() {
                assert(o.time@[i].incompat@[k] == o0.time@[i].incompat@[k]);
            }
        }
        assert(occ_wf(o, nocc, n));
        lemma_state_update(s1, s2, p@, n, b.0 as int);
        assert forall|u: int, i: int| interval_ok(s0, u, i) implies #[trigger] s2.occs@[u].time@[i].start == s0.occs@[u].time@[i].start
            && s2.occs@[u].time@[i].end == s0.occs@[u].time@[i].end by {
            if u == a.0 as int || u == b.0 as int {
            }
        }
    }
    let la = state.occs[a.0].time[a.1].lit;
    let lb = state.occs[b.0].time[b.1].lit;
    proof {
        assert(occ_wf(s2.occs@[a.0 as int], nocc, n));
        assert(occ_wf(s2.occs@[b.0 as int], nocc, n));
    }
    let ok = at_most_one_of_two(solver, la, lb);
    proof {
        lemma_state_grow(*state, p@, n, solver.wcnf.n_vars as int);
    }
    ok
}

/// A candidate pair of intervals that exclude each other: interval `.1` of
/// visit `.0` and interval `.3` of visit `.2`, two different visits.
pub open spec fn candidate_ok(st: DddState, e: (usize, usize, usize, usize)) -> bool {
    interval_ok(st, e.0 as int, e.1 as int) && interval_ok(st, e.2 as int, e.3 as int) && e.0 != e.2
}

/// Scans the intervals of visit `u2` against interval `x` of visit `u`:
/// `kind` 0 asks whether the other starts so late (plus `d2`) that it ends
/// no earlier than interval `x` ends; `kind` 1 whether interval `x` starts so
/// late (plus `d1`) that it reaches the other's end; `kind` 2 both ways round,
/// with the travel times `d1` and `d2`.
fn scan_pairs(state: &DddState, out: &mut Vec<(usize, usize, usize, usize)>, u: usize, x: usize, u2: usize, kind: u8, d1: i32, d2: i32)
    requires
        interval_ok(*state, u as int, x as int),
        u2 < state.occs@.len(),
        u2 != u,
        forall|k: int| 0 <= k < old(out)@.len() ==> candidate_ok(*state, #[trigger] old(out)@[k]),
    ensures
        forall|k: int| 0 <= k < final(out)@.len() ==> candidate_ok(*state, #[trigger] final(out)@[k]),
{
    let s1: i64 = state.occs[u].time[x].start as i64;
    let e1: i64 = state.occs[u].time[x].end as i64;
    let mut i2: usize = 0;
    while i2 < state.occs[u2].time.len()
        invariant
            interval_ok(*state, u as int, x as int),
            u2 < state.occs@.len(),
            u2 != u,
            i32::MIN <= s1 <= i32::MAX,
            i32::MIN <= e1 <= i32::MAX,
            forall|k: int| 0 <= k < out@.len() ==> candidate_ok(*state, #[trigger] out@[k]),
        decreases state.occs@[u2 as int].time@.len() - i2,
    {
        let s2: i64 = state.occs[u2].time[i2].start as i64;
        let e2: i64 = state.occs[u2].time[i2].end as i64;
        let hit = if kind == 0 {
            s2 + d2 as i64 >= e1
        } else if kind == 1 {
            s1 + d1 as i64 >= e2
        } else {
            s2 + d2 as i64 >= e1 && s1 + d1 as i64 >= e2
        };
        if hit {
            let e = (u, x, u2, i2);
            assert(candidate_ok(*state, e));
            out.push(e);
        }
        i2 = i2 + 1;
    }
}

/// The pairs of intervals that exclude each other after interval `prev` of
/// visit `u` was split into `prev` and `next`: with the intervals of the
/// previous and the next visit of the train that the travel time rules out,
/// and with the overlapping intervals of the visits in conflict.
fn incompat_candidates(problem: &Problem, state: &DddState, u: usize, prev: usize, next: usize) -> (r: Vec<(usize, usize, usize, usize)>)
    requires
        state_wf(*state, *problem, isize::MAX as int),
        interval_ok(*state, u as int, prev as int),
        interval_ok(*state, u as int, next as int),
    ensures
        forall|k: int| 0 <= k < r@.len() ==> candidate_ok(*state, #[trigger] r@[k]),
{
    let ghost p = *problem;
    let mut out: Vec<(usize, usize, usize, usize)> = Vec::new();
    let (t, v) = state.occ_tv[u];
    let nv: usize = problem.trains[t].visits.len();
    let xs: [usize; 2] = [prev, next];
    proof {
        assert(valid_tv(p, t as int, v as int));
        lemma_flat_bounds(p, t as int, v as int);
    }
    if v > 0 {
        let dt: i32 = problem.trains[t].visits[v - 1].travel_time;
        proof {
            lemma_flat_bounds(p, t as int, v - 1);
        }
        let mut j: usize = 0;
        while j < 2
            invariant
                state_wf(*state, p, isize::MAX as int),
                interval_ok(*state, u as int, prev as int),
                interval_ok(*state, u as int, next as int),
                xs@ == seq![prev, next],
                1 <= u < state.occs@.len(),
                forall|k: int| 0 <= k < out@.len() ==> candidate_ok(*state, #[trigger] out@[k]),
            decreases 2 - j,
        {
            scan_pairs(state, &mut out, u, xs[j], u - 1, 0, 0, dt);
            j = j + 1;
        }
    }
    if v + 1 < nv {
        let dt: i32 = problem.trains[t].visits[v].travel_time;
        proof {
            lemma_flat_bounds(p, t as int, v + 1);
        }
        let mut j: usize = 0;
        while j < 2
            invariant
                state_wf(*state, p, isize::MAX as int),
                interval_ok(*state, u as int, prev as int),
                interval_ok(*state, u as int, next as int),
                xs@ == seq![prev, next],
                u + 1 < state.occs@.len(),
                forall|k: int| 0 <= k < out@.len() ==> candidate_ok(*state, #[trigger] out@[k]),
            decreases 2 - j,
        {
            scan_pairs(state, &mut out, u, xs[j], u + 1, 1, dt, 0);
            j = j + 1;
        }
    }
    let d1: i32 = problem.trains[t].visits[v].travel_time;
    let others = &state.visit_conflicts_map[u];
    let mut k: usize = 0;
    while k < others.len()
        invariant
            state_wf(*state, p, isize::MAX as int),
            p == *problem,
            interval_ok(*state, u as int, prev as int),
            interval_ok(*state, u as int, next as int),
            xs@ == seq![prev, next],
            *others == state.visit_conflicts_map@[u as int],
            u < state.occs@.len(),
            forall|k: int| 0 <= k < out@.len() ==> candidate_ok(*state, #[trigger] out@[k]),
        decreases others@.len() - k,
    {
        let u2: usize = others[k];
        assert(u2 < state.occs@.len());
        if u2 != u {
            let d2: i32 = travel_of(problem, state, u2);
            let mut j: usize = 0;
            while j < 2
                invariant
                    interval_ok(*state, u as int, prev as int),
                    interval_ok(*state, u as int, next as int),
                    xs@ == seq![prev, next],
                    u2 < state.occs@.len(),
                    u2 != u,
                    forall|k: int| 0 <= k < out@.len() ==> candidate_ok(*state, #[trigger] out@[k]),
                decreases 2 - j,
            {
                scan_pairs(state, &mut out, u, xs[j], u2, 2, d1, d2);
                j = j + 1;
            }
        }
        k = k + 1;
    }
    out
}

/// How far visit `u` is from the end of its train (at least 1).
pub open spec fn wt(p: Problem, tv: Seq<(usize, usize)>, u: int) -> nat {
    (p.trains@[tv[u].0 as int].visits@.len() - tv[u].1) as nat
}

/// The summed distance to the end of the trains of the queued visits.
pub open spec fn qweight(p: Problem, tv: Seq<(usize, usize)>, q: Seq<(usize, i32)>) -> nat
    decreases q.len(),
{
    if q.len() == 0 {
        0
    } else {
        qweight(p, tv, q.drop_last()) + wt(p, tv, q.last().0 as int)
    }
}

proof fn lemma_qweight_front(p: Problem, tv: Seq<(usize, usize)>, q: Seq<(usize, i32)>)
    requires
        q.len() > 0,
    ensures
        qweight(p, tv, q) == wt(p, tv, q[0].0 as int) + qweight(p, tv, q.skip(1)),
    decreases q.len(),
{
    if q.len() > 1 {
        lemma_qweight_front(p, tv, q.drop_last());
        assert(q.drop_last()[0] == q[0]);
        assert(q.skip(1).drop_last() =~= q.drop_last().skip(1));
        assert(q.skip(1).last() == q.last());
        assert(qweight(p, tv, q.skip(1)) == qweight(p, tv, q.skip(1).drop_last()) + wt(p, tv, q.skip(1).last().0 as int));
    } else {
        assert(q.skip(1).len() == 0);
        assert(q.drop_last().len() == 0);
        assert(q.last() == q[0]);
        assert(qweight(p, tv, q.drop_last()) == 0);
        assert(qweight(p, tv, q.skip(1)) == 0);
    }
}

/// Whether a start `new_time` would be an interval start already.
fn has_start(o: &Occ, new_time: i32) -> (b: bool)
    ensures
        b == exists|i: int| 0 <= i < o.time@.len() && (#[trigger] o.time@[i]).start == new_time,
{
    let mut i: usize = 0;
    while i < o.time.len()
        invariant
            i <= o.time@.len(),
            forall|j: int| 0 <= j < i ==> (#[trigger] o.time@[j]).start != new_time,
        decreases o.time@.len() - i,
    {
        if o.time[i].start == new_time {
            return true;
        }
        i = i + 1;
    }
    false
}

/// Visit `u` has a next visit in its train.
pub open spec fn has_next(p: Problem, st: DddState, u: int) -> bool {
    &&& 0 <= u && u + 1 < st.occs@.len()
    &&& st.occ_tv@[u].1 + 1 < p.trains@[st.occ_tv@[u].0 as int].visits@.len()
}

/// `x` is the start of an interval of visit `u`.
pub open spec fn is_start(st: DddState, u: int, x: i32) -> bool {
    exists|i: int| 0 <= i < st.occs@[u].time@.len() && (#[trigger] st.occs@[u].time@[i]).start == x
}

/// Every interval of `a` is in `b`, at the same place and with the same
/// start; `b` may have more.
pub open spec fn starts_kept(a: DddState, b: DddState) -> bool {
    &&& a.occs@.len() == b.occs@.len()
    &&& forall|u: int| 0 <= u < a.occs@.len() ==> (#[trigger] a.occs@[u]).time@.len() <= b.occs@[u].time@.len()
    &&& forall|u: int, i: int| #[trigger] interval_ok(a, u, i) ==> b.occs@[u].time@[i].start == a.occs@[u].time@[i].start
}

/// Interval `i` of visit `u` is in `b` and was not in `a`.
pub open spec fn new_interval(a: DddState, b: DddState, u: int, i: int) -> bool {
    0 <= u < b.occs@.len() && a.occs@[u].time@.len() <= i < b.occs@[u].time@.len()
}

/// The start of interval `i` of visit `w` plus the travel time of `w`.
pub open spec fn carried(p: Problem, b: DddState, w: int, i: int) -> int {
    b.occs@[w].time@[i].start + trav(p, b.occ_tv@[w].0 as int, b.occ_tv@[w].1 as int)
}

/// A new interval `i` of visit `w` passes a start on to the next visit of
/// its train: travel times are propagated and its start plus the travel time
/// reaches the first interval of the next visit.
pub open spec fn carries(p: Problem, a: DddState, b: DddState, w: int, i: int) -> bool {
    &&& new_interval(a, b, w, i)
    &&& b.propagate
    &&& has_next(p, b, w)
    &&& carried(p, b, w, i) >= b.occs@[w + 1].time@[0].start
}

/// Where a start added on the way from `a` to `b` comes from: the schedule of
/// `sel` in `a` asks for it, or a new interval passes it on.
pub open spec fn point_origin(p: Problem, a: DddState, sel: Seq<usize>, b: DddState, e: (usize, i32)) -> bool {
    ||| asked_point(p, a, sel, e)
    ||| exists|w: int, i: int| #[trigger] carries(p, a, b, w, i) && e.0 == w + 1 && e.1 == carried(p, b, w, i)
}

/// Every new interval of `b` starts where `point_origin` says.
pub open spec fn new_starts_origin(p: Problem, a: DddState, sel: Seq<usize>, b: DddState) -> bool {
    forall|w: int, i: int| #[trigger] new_interval(a, b, w, i) ==> point_origin(p, a, sel, b, (w as usize, b.occs@[w].time@[i].start))
}

/// The delay of start `e.1` of visit `e.0` leaves `i32`.
pub open spec fn delay_overflows(p: Problem, b: DddState, e: (usize, i32)) -> bool {
    e.0 < b.occs@.len() && !delay_fits(p.trains@[b.occ_tv@[e.0 as int].0 as int], b.occ_tv@[e.0 as int].1 as int, e.1)
}

/// Adding the starts that `sel` asks for in `a`, which reached `b` with `n`
/// variables, ran out of room: the variables may run out, a start passed on
/// leaves `i32`, or so does the delay of a start to add.
pub open spec fn add_overflow(p: Problem, a: DddState, sel: Seq<usize>, b: DddState, n: int) -> bool {
    ||| n + 3 + u32::MAX > isize::MAX
    ||| exists|w: int, i: int| #[trigger] carries(p, a, b, w, i) && carried(p, b, w, i) > i32::MAX
    ||| exists|e: (usize, i32)| #[trigger] point_origin(p, a, sel, b, e) && delay_overflows(p, b, e)
}

/// Growing a state keeps its starts, the new intervals and what they pass on.
proof fn lemma_kept_grow(p: Problem, a: DddState, sel: Seq<usize>, b: DddState, c: DddState)
    requires
        starts_kept(a, b),
        starts_kept(b, c),
        b.propagate == c.propagate,
        b.occ_tv@ == c.occ_tv@,
        forall|u: int| 0 <= u < b.occs@.len() ==> (#[trigger] b.occs@[u]).time@.len() >= 1,
    ensures
        starts_kept(a, c),
        forall|u: int, x: i32| 0 <= u < b.occs@.len() && #[trigger] is_start(b, u, x) ==> is_start(c, u, x),
        forall|w: int, i: int| #[trigger] carries(p, a, b, w, i) ==> carries(p, a, c, w, i) && carried(p, c, w, i) == carried(p, b, w, i),
        forall|w: int, i: int| #[trigger] carries(p, a, c, w, i) && i < b.occs@[w].time@.len() ==> carries(p, a, b, w, i)
            && carried(p, c, w, i) == carried(p, b, w, i),
        forall|e: (usize, i32)| #[trigger] point_origin(p, a, sel, b, e) ==> point_origin(p, a, sel, c, e),
        new_starts_origin(p, a, sel, b) ==> forall|w: int, i: int| #[trigger] new_interval(a, c, w, i) && i < b.occs@[w].time@.len()
            ==> point_origin(p, a, sel, c, (w as usize, c.occs@[w].time@[i].start)),
{
    assert forall|u: int, i: int| #[trigger] interval_ok(a, u, i) implies c.occs@[u].time@[i].start == a.occs@[u].time@[i].start by {
        assert(interval_ok(b, u, i));
    }
    assert forall|u: int, x: i32| 0 <= u < b.occs@.len() && #[trigger] is_start(b, u, x) implies is_start(c, u, x) by {
        let i = choose|i: int| 0 <= i < b.occs@[u].time@.len() && (#[trigger] b.occs@[u].time@[i]).start == x;
        assert(interval_ok(b, u, i));
        assert(c.occs@[u].time@[i].start == x);
    }
    assert forall|w: int, i: int| #[trigger] carries(p, a, b, w, i) implies carries(p, a, c, w, i) && carried(p, c, w, i) == carried(p, b, w, i) by {
        assert(interval_ok(b, w, i));
        assert(interval_ok(b, w + 1, 0));
    }
    assert forall|w: int, i: int| #[trigger] carries(p, a, c, w, i) && i < b.occs@[w].time@.len() implies carries(p, a, b, w, i)
        && carried(p, c, w, i) == carried(p, b, w, i) by {
        assert(interval_ok(b, w, i));
        assert(interval_ok(b, w + 1, 0));
    }
    assert forall|e: (usize, i32)| #[trigger] point_origin(p, a, sel, b, e) implies point_origin(p, a, sel, c, e) by {
        if !asked_point(p, a, sel, e) {
            let (w, i) = choose|w: int, i: int| #[trigger] carries(p, a, b, w, i) && e.0 == w + 1 && e.1 == carried(p, b, w, i);
            assert(carries(p, a, c, w, i));
        }
    }
    if new_starts_origin(p, a, sel, b) {
        assert forall|w: int, i: int| #[trigger] new_interval(a, c, w, i) && i < b.occs@[w].time@.len()
            implies point_origin(p, a, sel, c, (w as usize, c.occs@[w].time@[i].start)) by {
            assert(new_interval(a, b, w, i));
            assert(interval_ok(b, w, i));
        }
    }
}

/// Every start that a new interval of `b` passes on is in the queue `q`.
pub open spec fn carried_queued(p: Problem, a: DddState, b: DddState, q: Seq<(usize, i32)>) -> bool {
    forall|w: int, i: int| #[trigger] carries(p, a, b, w, i) ==> q.contains(((w + 1) as usize, carried(p, b, w, i) as i32))
}

/// Every start that a new interval of `b` passes on is an interval start of
/// the next visit.
pub open spec fn carried_added(p: Problem, a: DddState, b: DddState) -> bool {
    forall|w: int, i: int| #[trigger] carries(p, a, b, w, i) ==> is_start(b, w + 1, carried(p, b, w, i) as i32)
}

/// Splitting an interval of visit `u` at place `next` keeps the queue's
/// record of the starts passed on, once the queue holds what the new
/// interval passes on.
proof fn lemma_carry_queued(
    p: Problem,
    st0: DddState,
    s0: DddState,
    s1: DddState,
    q0: Seq<(usize, i32)>,
    q1: Seq<(usize, i32)>,
    u: int,
    next: int,
)
    requires
        starts_kept(st0, s0),
        starts_kept(s0, s1),
        s0.propagate == s1.propagate,
        s0.occ_tv@ == s1.occ_tv@,
        forall|x: int| 0 <= x < s0.occs@.len() ==> (#[trigger] s0.occs@[x]).time@.len() >= 1,
        carried_queued(p, st0, s0, q0),
        forall|y: (usize, i32)| q0.contains(y) ==> #[trigger] q1.contains(y),
        forall|w: int, i: int| #[trigger] new_interval(st0, s1, w, i) && i >= s0.occs@[w].time@.len() ==> w == u && i == next,
        carries(p, st0, s1, u, next) ==> q1.contains(((u + 1) as usize, carried(p, s1, u, next) as i32)),
    ensures
        carried_queued(p, st0, s1, q1),
{
    lemma_kept_grow(p, st0, Seq::empty(), s0, s1);
    assert forall|w: int, i: int| #[trigger] carries(p, st0, s1, w, i) implies q1.contains(((w + 1) as usize, carried(p, s1, w, i) as i32)) by {
        if i < s0.occs@[w].time@.len() {
            assert(carries(p, st0, s0, w, i));
            assert(q0.contains(((w + 1) as usize, carried(p, s0, w, i) as i32)));
        } else {
            assert(new_interval(st0, s1, w, i));
        }
    }
}

/// Adds the queued interval starts in order: a start that is an interval
/// start already is passed over; otherwise the interval that holds it is
/// split there, a start for the next visit of the train is queued where
/// travel times are propagated and the new start plus the travel time
/// reaches that visit's first interval, and the intervals that now exclude
/// each other are recorded. The queue holds starts that the schedule of
/// `sel` asks for. False when the solver may run out of variables or a time
/// leaves `i32`; otherwise every queued start is an interval start.
#[verifier::rlimit(100)]
fn add_time_points(
    solver: &mut External,
    state: &mut DddState,
    problem: &Problem,
    q: &mut Vec<(usize, i32)>,
    sel: Ghost<Seq<usize>>,
) -> (ok: bool)
    requires
        state_wf(*old(state), *problem, old(solver).wcnf.n_vars as int),
        forall|k: int| 0 <= k < old(q)@.len() ==> (#[trigger] old(q)@[k]).0 < old(state).occs@.len(),
        forall|k: int| 0 <= k < old(q)@.len() ==> asked_point(*problem, *old(state), sel@, #[trigger] old(q)@[k]),
    ensures
        state_wf(*final(state), *problem, final(solver).wcnf.n_vars as int),
        final(solver).wcnf.n_vars >= old(solver).wcnf.n_vars,
        final(state).delay_cost_type == old(state).delay_cost_type,
        final(state).propagate == old(state).propagate,
        final(state).occ_tv@ == old(state).occ_tv@,
        starts_kept(*old(state), *final(state)),
        new_starts_origin(*problem, *old(state), sel@, *final(state)),
        ok ==> forall|k: int| 0 <= k < old(q)@.len() ==> #[trigger] is_start(*final(state), old(q)@[k].0 as int, old(q)@[k].1),
        ok ==> carried_added(*problem, *old(state), *final(state)),
        !ok ==> add_overflow(*problem, *old(state), sel@, *final(state), final(solver).wcnf.n_vars as int),
{
    let ghost p = *problem;
    let ghost tv = state.occ_tv@;
    let ghost nocc = n_flat(p) as int;
    let ghost st0 = *state;
    let ghost q00 = q@;
    let mut qi: usize = 0;
    while qi < q.len()
        invariant
            p == *problem,
            nocc == n_flat(p),
            st0 == *old(state),
            tv == st0.occ_tv@,
            q00 == old(q)@,
            tv == state.occ_tv@,
            state_wf(*state, p, solver.wcnf.n_vars as int),
            solver.wcnf.n_vars >= old(solver).wcnf.n_vars,
            state.delay_cost_type == old(state).delay_cost_type,
            state.propagate == old(state).propagate,
            qi <= q@.len(),
            forall|k: int| 0 <= k < q@.len() ==> (#[trigger] q@[k]).0 < nocc,
            q@.len() >= q00.len(),
            forall|k: int| 0 <= k < q00.len() ==> #[trigger] q@[k] == q00[k],
            starts_kept(st0, *state),
            new_starts_origin(p, st0, sel@, *state),
            forall|k: int| 0 <= k < q@.len() ==> point_origin(p, st0, sel@, *state, #[trigger] q@[k]),
            forall|k: int| 0 <= k < qi ==> #[trigger] is_start(*state, q@[k].0 as int, q@[k].1),
            carried_queued(p, st0, *state, q@),
        decreases qweight(p, tv, q@.skip(qi as int)),
    {
        let ghost w0 = qweight(p, tv, q@.skip(qi as int));
        proof {
            lemma_qweight_front(p, tv, q@.skip(qi as int));
            assert(q@.skip(qi as int).skip(1) =~= q@.skip(qi + 1));
        }
        let (u, new_time) = q[qi];
        let ghost e = q@[qi as int];
        assert(point_origin(p, st0, sel@, *state, e));
        qi = qi + 1;
        if has_start(&state.occs[u], new_time) {
            assert(is_start(*state, e.0 as int, e.1));
            continue;
        }
        let (t, v) = state.occ_tv[u];
        proof {
            assert(valid_tv(p, t as int, v as int));
        }
        if let Some(a) = problem.trains[t].visits[v].aimed {
            let d: i64 = new_time as i64 - a as i64;
            if d < i32::MIN as i64 || d > i32::MAX as i64 {
                assert(delay_overflows(p, *state, e));
                return false;
            }
        }
        let cost = problem.trains[t].visit_delay_cost(state.delay_cost_type, v, new_time);
        let ghost s0 = *state;
        let ghost n0 = solver.wcnf.n_vars as int;
        assert(occ_wf(s0.occs@[u as int], nocc, n0));
        let r = add_interval(solver, &mut state.occs[u], Ghost(nocc), new_time, cost as u32);
        proof {
            lemma_state_grow(s0, p, n0, solver.wcnf.n_vars as int);
            lemma_state_update(s0, *state, p, solver.wcnf.n_vars as int, u as int);
            let s1 = *state;
            assert forall|x: int, i: int| #[trigger] interval_ok(s0, x, i) implies s1.occs@[x].time@[i].start == s0.occs@[x].time@[i].start by {
                if x != u {
                    assert(s1.occs@[x] == s0.occs@[x]);
                }
            }
            assert forall|x: int| 0 <= x < s0.occs@.len() implies (#[trigger] s0.occs@[x]).time@.len() <= s1.occs@[x].time@.len() by {
                if x != u {
                    assert(s1.occs@[x] == s0.occs@[x]);
                }
            }
            assert(starts_kept(s0, s1));
            assert forall|x: int| 0 <= x < s0.occs@.len() implies (#[trigger] s0.occs@[x]).time@.len() >= 1 by {
                assert(occ_wf(s0.occs@[x], nocc, n0));
            }
            lemma_kept_grow(p, st0, sel@, s0, s1);
            assert forall|w: int, i: int| #[trigger] new_interval(st0, s1, w, i)
                implies point_origin(p, st0, sel@, s1, (w as usize, s1.occs@[w].time@[i].start)) by {
                if i >= s0.occs@[w].time@.len() {
                    if w != u {
                        assert(s1.occs@[w] == s0.occs@[w]);
                    }
                    assert(w == u);
                    assert(s1.occs@[w].time@[i].start == new_time);
                    assert((w as usize, s1.occs@[w].time@[i].start) == e);
                }
            }
            assert forall|k: int| 0 <= k < q@.len() implies point_origin(p, st0, sel@, s1, #[trigger] q@[k]) by {
                assert(point_origin(p, st0, sel@, s0, q@[k]));
            }
            assert forall|k: int| 0 <= k < qi - 1 implies #[trigger] is_start(s1, q@[k].0 as int, q@[k].1) by {
                assert(is_start(s0, q@[k].0 as int, q@[k].1));
            }
        }
        let (prev, next) = match r {
            Some(x) => x,
            None => {
                return false;
            },
        };
        let ghost s1 = *state;
        proof {
            assert(s1.occs@[u as int].time@[next as int].start == new_time);
            assert(is_start(s1, e.0 as int, e.1));
            assert forall|k: int| 0 <= k < qi implies #[trigger] is_start(s1, q@[k].0 as int, q@[k].1) by {
                if k == qi - 1 {
                    assert(q@[k] == e);
                }
            }
            assert forall|w: int, i: int| #[trigger] new_interval(st0, s1, w, i) && i >= s0.occs@[w].time@.len() implies w == u
                && i == next by {
                if w != u {
                    assert(s1.occs@[w] == s0.occs@[w]);
                }
            }
        }
        let ghost q0 = q@;
        if state.propagate && v + 1 < problem.trains[t].visits.len() {
            proof {
                lemma_flat_bounds(p, t as int, v + 1);
            }
            let dt: i32 = problem.trains[t].visits[v].travel_time;
            let x: i64 = new_time as i64 + dt as i64;
            if x >= state.occs[u + 1].time[0].start as i64 {
                proof {
                    assert(new_interval(st0, s1, u as int, next as int));
                    assert(has_next(p, s1, u as int));
                    assert(carried(p, s1, u as int, next as int) == x);
                    assert(carries(p, st0, s1, u as int, next as int));
                }
                if x > i32::MAX as i64 {
                    return false;
                }
                q.push((u + 1, x as i32));
                proof {
                    assert(flat(p, tv[u + 1].0 as int, tv[u + 1].1 as int) == u + 1);
                    lemma_flat_injective(p, tv[u + 1].0 as int, tv[u + 1].1 as int, t as int, v + 1);
                    assert(q@.skip(qi as int) =~= q0.skip(qi as int).push(((u + 1) as usize, x as i32)));
                    assert(q@.skip(qi as int).drop_last() =~= q0.skip(qi as int));
                    assert forall|k: int| 0 <= k < q@.len() implies point_origin(p, st0, sel@, s1, #[trigger] q@[k]) by {
                        if k < q0.len() {
                            assert(q@[k] == q0[k]);
                        }
                    }
                    assert forall|k: int| 0 <= k < q00.len() implies #[trigger] q@[k] == q00[k] by {
                        assert(q@[k] == q0[k]);
                    }
                    assert forall|k: int| 0 <= k < qi implies #[trigger] is_start(s1, q@[k].0 as int, q@[k].1) by {
                        assert(q@[k] == q0[k]);
                    }
                    lemma_push_contains(q0, ((u + 1) as usize, x as i32));
                    lemma_carry_queued(p, st0, s0, s1, q0, q@, u as int, next as int);
                }
            } else {
                proof {
                    assert(carried(p, s1, u as int, next as int) == x);
                    lemma_carry_queued(p, st0, s0, s1, q0, q@, u as int, next as int);
                }
            }
        } else {
            proof {
                assert(!has_next(p, s1, u as int) || !s1.propagate);
                lemma_carry_queued(p, st0, s0, s1, q0, q@, u as int, next as int);
            }
        }
        let cands = incompat_candidates(problem, state, u, prev, next);
        let mut k: usize = 0;
        while k < cands.len()
            invariant
                p == *problem,
                nocc == n_flat(p),
                st0 == *old(state),
                tv == st0.occ_tv@,
            tv == st0.occ_tv@,
                q00 == old(q)@,
                tv == state.occ_tv@,
                state_wf(*state, p, solver.wcnf.n_vars as int),
                solver.wcnf.n_vars >= old(solver).wcnf.n_vars,
                state.delay_cost_type == old(state).delay_cost_type,
                state.propagate == old(state).propagate,
                same_lengths(s1, *state),
                forall|j: int| 0 <= j < cands@.len() ==> candidate_ok(s1, #[trigger] cands@[j]),
                0 < qi <= q@.len(),
                forall|k: int| 0 <= k < q@.len() ==> (#[trigger] q@[k]).0 < nocc,
                q@.len() >= q00.len(),
                forall|k: int| 0 <= k < q00.len() ==> #[trigger] q@[k] == q00[k],
                starts_kept(st0, *state),
                new_starts_origin(p, st0, sel@, *state),
                forall|k: int| 0 <= k < q@.len() ==> point_origin(p, st0, sel@, *state, #[trigger] q@[k]),
                forall|k: int| 0 <= k < qi ==> #[trigger] is_start(*state, q@[k].0 as int, q@[k].1),
                carried_queued(p, st0, *state, q@),
            decreases cands@.len() - k,
        {
            let (a0, a1, b0, b1) = cands[k];
            assert(candidate_ok(s1, cands@[k as int]));
            let ghost s2 = *state;
            let ok = add_incompat(solver, state, Ghost(p), (a0, a1), (b0, b1));
            proof {
                let s3 = *state;
                assert forall|x: int| 0 <= x < s1.occs@.len() implies (#[trigger] s1.occs@[x]).time@.len() == s3.occs@[x].time@.len() by {
                    assert(s1.occs@[x].time@.len() == s2.occs@[x].time@.len());
                }
                assert forall|x: int| 0 <= x < s2.occs@.len() implies (#[trigger] s2.occs@[x]).time@.len() <= s3.occs@[x].time@.len() by {
                    assert(s1.occs@[x].time@.len() == s2.occs@[x].time@.len());
                }
                assert forall|x: int, i: int| #[trigger] interval_ok(s2, x, i) implies s3.occs@[x].time@[i].start == s2.occs@[x].time@[i].start by {
                }
                assert(starts_kept(s2, s3));
                assert forall|x: int| 0 <= x < s2.occs@.len() implies (#[trigger] s2.occs@[x]).time@.len() >= 1 by {
                    assert(occ_wf(s2.occs@[x], nocc, solver.wcnf.n_vars as int));
                }
                lemma_kept_grow(p, st0, sel@, s2, s3);
                assert forall|w: int, i: int| #[trigger] new_interval(st0, s3, w, i)
                    implies point_origin(p, st0, sel@, s3, (w as usize, s3.occs@[w].time@[i].start)) by {
                    assert(s2.occs@[w].time@.len() == s3.occs@[w].time@.len());
                }
                assert forall|k: int| 0 <= k < q@.len() implies point_origin(p, st0, sel@, s3, #[trigger] q@[k]) by {
                    assert(point_origin(p, st0, sel@, s2, q@[k]));
                }
                assert forall|k: int| 0 <= k < qi implies #[trigger] is_start(s3, q@[k].0 as int, q@[k].1) by {
                    assert(is_start(s2, q@[k].0 as int, q@[k].1));
                }
                assert forall|w: int, i: int| #[trigger] carries(p, st0, s3, w, i)
                    implies q@.contains(((w + 1) as usize, carried(p, s3, w, i) as i32)) by {
                    assert(s2.occs@[w].time@.len() == s3.occs@[w].time@.len());
                    assert(carries(p, st0, s2, w, i));
                }
            }
            if !ok {
                return false;
            }
            k = k + 1;
        }
    }
    proof {
        assert forall|k: int| 0 <= k < q00.len() implies #[trigger] is_start(*state, q00[k].0 as int, q00[k].1) by {
            assert(q@[k] == q00[k]);
        }
        assert forall|w: int, i: int| #[trigger] carries(p, st0, *state, w, i)
            implies is_start(*state, w + 1, carried(p, *state, w, i) as i32) by {
            let y = ((w + 1) as usize, carried(p, *state, w, i) as i32);
            assert(q@.contains(y));
            let k = choose|k: int| 0 <= k < q@.len() && q@[k] == y;
            assert(is_start(*state, q@[k].0 as int, q@[k].1));
        }
    }
    true
}

/// `out` is the schedule reported for the selection `sel`, whose schedule
/// `rows` has no travel time conflict and no overlap of two trains on a
/// resource that conflicts with itself.
pub open spec fn done_schedule(p: Problem, st: DddState, sel: Seq<usize>, rows: Seq<Vec<i32>>, out: Seq<Vec<i32>>) -> bool {
    &&& selection_ok(st, sel)
    &&& rows_of(p, st, sel, rows)
    &&& travel_ok(p, st, sel)
    &&& usage_ok(p, st, sel)
    &&& adjusted(p, rows, out)
}

/// Visit `u` may take interval `x`: the model sets an interval of it no
/// earlier than `x`.
pub open spec fn chosen_above(st: DddState, bits: Seq<bool>, u: int, x: int) -> bool {
    exists|i: int| #[trigger] chosen(st, bits, u, i) && x <= i
}

/// A selection that takes, for every visit, an interval no later than one
/// that the model sets.
pub open spec fn below_chosen(st: DddState, bits: Seq<bool>, sel: Seq<usize>) -> bool {
    &&& selection_ok(st, sel)
    &&& forall|u: int| 0 <= u < sel.len() ==> #[trigger] chosen_above(st, bits, u, sel[u] as int)
}

/// The schedule of a selection needs no refinement, and it and its reported
/// form fit in `i32`.
pub open spec fn settled(p: Problem, st: DddState, sel: Seq<usize>) -> bool {
    &&& !last_end_overflows(p, st, sel)
    &&& travel_ok(p, st, sel)
    &&& usage_ok(p, st, sel)
    &&& forall|rows: Seq<Vec<i32>>| #[trigger] rows_of(p, st, sel, rows) ==> !adjusted_overflows(p, rows)
}

/// A round on the selection `sel` of state `a` runs out of room: the end of
/// a last visit leaves `i32`, or a start that its schedule asks for does, or
/// (with no conflict left) its reported form does, or adding the starts that
/// it asks for, which reached state `b` with `n` variables, ran out of room.
pub open spec fn step_overflow(p: Problem, a: DddState, sel: Seq<usize>, b: DddState, n: int) -> bool {
    ||| last_end_overflows(p, a, sel)
    ||| asked_overflow(p, a, sel)
    ||| travel_ok(p, a, sel) && usage_ok(p, a, sel) && exists|rows: Seq<Vec<i32>>| #[trigger] rows_of(p, a, sel, rows)
        && adjusted_overflows(p, rows)
    ||| !(travel_ok(p, a, sel) && usage_ok(p, a, sel)) && add_overflow(p, a, sel, b, n)
}

/// State `b` refines state `a` for the selection `sel`, whose schedule has a
/// conflict: every start that the schedule asks for is an interval start of
/// `b`, which keeps the intervals of `a` and adds only starts asked for or
/// passed on; and every start that a new interval passes on is there too.
pub open spec fn refined(p: Problem, a: DddState, sel: Seq<usize>, b: DddState) -> bool {
    &&& !(travel_ok(p, a, sel) && usage_ok(p, a, sel))
    &&& forall|e: (usize, i32)| #[trigger] asked_point(p, a, sel, e) ==> is_start(b, e.0 as int, e.1)
    &&& starts_kept(a, b)
    &&& new_starts_origin(p, a, sel, b)
    &&& carried_added(p, a, b)
}

/// The error of the solver, as the refinement reports it.
pub open spec fn solver_error(e: MaxSatError) -> SolverError {
    match e {
        MaxSatError::NoSolution => SolverError::NoSolution,
        MaxSatError::Timeout => SolverError::Timeout,
    }
}

/// One round of the refinement, given the solver's answer to the last
/// assumptions. An error of the solver ends the refinement with that error.
/// Otherwise the model chooses one interval per visit (`NoSolution` when it
/// does not); the choices move earlier while no incompatibility stops them;
/// where their schedule has no travel time conflict and no overlap of two
/// trains on a resource that conflicts with itself, the refinement ends with
/// that schedule (visits to resource 0 after the first of their train moved
/// to their predecessor's end); otherwise the new interval starts are added
/// and the caller solves again with the new assumptions. `OutOfMemory` only
/// when the end of a last visit, a start asked for or passed on, its delay or
/// a reported time leaves `i32`, or the solver may run out of variables.
pub fn maxsat_ddd_step(
    solver: &mut External,
    state: &mut DddState,
    problem: &Problem,
    outcome: Result<(i32, Vec<bool>), MaxSatError>,
) -> (action: DddAction)
    requires
        state_wf(*old(state), *problem, old(solver).wcnf.n_vars as int),
    ensures
        state_wf(*final(state), *problem, final(solver).wcnf.n_vars as int),
        final(solver).wcnf.n_vars >= old(solver).wcnf.n_vars,
        outcome matches Err(e) ==> action == DddAction::Fail(solver_error(e)) && *final(state) == *old(state),
        outcome matches Ok((c, bits)) ==> (action == DddAction::Fail(SolverError::NoSolution) <==> exists|u: int|
            0 <= u < old(state).occs@.len() && !#[trigger] reads_one(*old(state), bits@, u)),
        action matches DddAction::Solve(a) ==> a@ == assumptions_of(*final(state)),
        action matches DddAction::Done(out) ==> *final(state) == *old(state) && exists|sel: Seq<usize>, rows: Seq<Vec<i32>>|
            #[trigger] done_schedule(*problem, *old(state), sel, rows, out@),
        outcome matches Ok((c, bits)) ==> ((forall|u: int| 0 <= u < old(state).occs@.len() ==> #[trigger] reads_one(*old(state), bits@, u))
            && (forall|sel: Seq<usize>| #[trigger] below_chosen(*old(state), bits@, sel) ==> settled(*problem, *old(state), sel))
            ==> action is Done),
        outcome matches Ok((c, bits)) ==> (action is Solve ==> exists|sel: Seq<usize>|
            #[trigger] below_chosen(*old(state), bits@, sel) && refined(*problem, *old(state), sel, *final(state))),
        outcome matches Ok((c, bits)) ==> (action == DddAction::Fail(SolverError::OutOfMemory) ==> exists|sel: Seq<usize>|
            #[trigger] below_chosen(*old(state), bits@, sel) && step_overflow(*problem, *old(state), sel, *final(state),
            final(solver).wcnf.n_vars as int)),
{
    let ghost p = *problem;
    let bits = match outcome {
        Err(MaxSatError::NoSolution) => {
            return DddAction::Fail(SolverError::NoSolution);
        },
        Err(MaxSatError::Timeout) => {
            return DddAction::Fail(SolverError::Timeout);
        },
        Ok((_, b)) => b,
    };
    proof {
        lemma_state_grow(*state, p, solver.wcnf.n_vars as int, isize::MAX as int);
    }
    let mut sel = match select_intervals(state, &bits) {
        Some(x) => x,
        None => {
            return DddAction::Fail(SolverError::NoSolution);
        },
    };
    proof {
        lemma_offs_ge(p, p.trains@.len() as int);
    }
    let ghost sel0 = sel@;
    local_minimize(state, problem.trains.len(), &mut sel);
    proof {
        assert forall|u: int| 0 <= u < sel@.len() implies #[trigger] chosen_above(*state, bits@, u, sel@[u] as int) by {
            assert(chosen(*state, bits@, u, sel0[u] as int));
        }
        assert(below_chosen(*state, bits@, sel@));
    }
    let rows = match schedule_rows(problem, state, &sel) {
        Some(x) => x,
        None => {
            assert(step_overflow(p, *state, sel@, *state, solver.wcnf.n_vars as int));
            return DddAction::Fail(SolverError::OutOfMemory);
        },
    };
    let mut q = match find_refinements(problem, state, &sel) {
        Some(x) => x,
        None => {
            assert(step_overflow(p, *state, sel@, *state, solver.wcnf.n_vars as int));
            return DddAction::Fail(SolverError::OutOfMemory);
        },
    };
    if q.len() == 0 {
        let adj = adjust_schedule(problem, &rows);
        match adj {
            Some(out) => {
                assert(*state == *old(state));
                assert(done_schedule(p, *old(state), sel@, rows@, out@));
                let action = DddAction::Done(out);
                assert(action matches DddAction::Done(o) && done_schedule(p, *old(state), sel@, rows@, o@));
                return action;
            },
            None => {
                assert(rows_of(p, *state, sel@, rows@) && adjusted_overflows(p, rows@));
                assert(step_overflow(p, *state, sel@, *state, solver.wcnf.n_vars as int));
                return DddAction::Fail(SolverError::OutOfMemory);
            },
        }
    }
    assert(!(travel_ok(p, *state, sel@) && usage_ok(p, *state, sel@)));
    let ghost q0 = q@;
    let ghost s0 = *state;
    if !add_time_points(solver, state, problem, &mut q, Ghost(sel@)) {
        assert(step_overflow(p, s0, sel@, *state, solver.wcnf.n_vars as int));
        return DddAction::Fail(SolverError::OutOfMemory);
    }
    proof {
        lemma_state_grow(*state, p, solver.wcnf.n_vars as int, isize::MAX as int);
        assert forall|e: (usize, i32)| #[trigger] asked_point(p, s0, sel@, e) implies is_start(*state, e.0 as int, e.1) by {
            assert(q0.contains(e));
            let k = choose|k: int| 0 <= k < q0.len() && q0[k] == e;
            assert(is_start(*state, q0[k].0 as int, q0[k].1));
        }
        assert(refined(p, s0, sel@, *state));
    }
    DddAction::Solve(maxsat_ddd_assumptions(state))
}

// ---------------------------------------------------------------------------
// The refinement that rebuilds the formula in every round
// ---------------------------------------------------------------------------

/// The end given to the first interval of every visit.
pub const FIRST_INTERVAL_END: i32 = 100000;

/// The intervals of start times of each visit (in flat order, by increasing
/// start), the train and visit of each flat index, the flat index of the
/// first visit of each train, the visits of each resource that conflicts
/// with itself, and the pairs of visits of different trains on conflicting
/// resources.
pub struct IntervalState {
    pub intervals: Vec<Vec<(i32, i32)>>,
    pub occ_tv: Vec<(usize, usize)>,
    pub train_offset: Vec<usize>,
    pub resource_usage: Vec<Vec<usize>>,
    pub visit_conflicts: Vec<(usize, usize)>,
    pub delay_cost_type: DelayCostType,
}

/// The starts of the intervals increase.
pub open spec fn starts_increase(s: Seq<(i32, i32)>) -> bool {
    forall|i: int, j: int| 0 <= i < j < s.len() ==> (#[trigger] s[i]).0 < (#[trigger] s[j]).0
}

/// The state fits the problem: every visit has intervals by increasing
/// start, the first from its earliest time.
pub open spec fn interval_state_wf(st: IntervalState, p: Problem) -> bool {
    let nocc = n_flat(p) as int;
    &&& nocc <= isize::MAX
    &&& forall|t: int| 0 <= t < p.trains@.len() ==> #[trigger] p.trains@[t].visits@.len() >= 1
    &&& st.train_offset@.len() == p.trains@.len() + 1
    &&& forall|t: int| 0 <= t <= p.trains@.len() ==> #[trigger] st.train_offset@[t] == offs(p, t)
    &&& st.occ_tv@.len() == nocc
    &&& forall|u: int| 0 <= u < nocc ==> valid_tv(p, #[trigger] st.occ_tv@[u].0 as int, st.occ_tv@[u].1 as int)
        && flat(p, st.occ_tv@[u].0 as int, st.occ_tv@[u].1 as int) == u
    &&& st.intervals@.len() == nocc
    &&& forall|u: int| 0 <= u < nocc ==> (#[trigger] st.intervals@[u])@.len() >= 1 && starts_increase(st.intervals@[u]@)
    &&& forall|t: int, v: int| valid_tv(p, t, v) ==> (#[trigger] st.intervals@[flat(p, t, v)])@[0].0 == p.trains@[t].visits@[v].earliest
    &&& forall|r: int, k: int|
        0 <= r < st.resource_usage@.len() && 0 <= k < st.resource_usage@[r]@.len() ==> #[trigger] st.resource_usage@[r]@[k]
            < nocc
    &&& forall|k: int| 0 <= k < st.visit_conflicts@.len() ==> (#[trigger] st.visit_conflicts@[k]).0 < nocc
        && st.visit_conflicts@[k].1 < nocc
    &&& conflicts_listed(st, p)
}

/// Every pair of visits of different trains on resources listed as a
/// conflict (in either order) is among the pairs of visits in conflict, the
/// earlier visit (in flat order) first.
pub open spec fn conflicts_listed(st: IntervalState, p: Problem) -> bool {
    forall|t1: int, v1: int, t2: int, v2: int|
        #![trigger flat(p, t1, v1), flat(p, t2, v2)]
        valid_tv(p, t1, v1) && valid_tv(p, t2, v2) && t1 != t2 && flat(p, t1, v1) < flat(p, t2, v2) && (p.conflicts@.contains(
            (res(p, t1, v1), res(p, t2, v2)),
        ) || p.conflicts@.contains((res(p, t2, v2), res(p, t1, v1)))) ==> st.visit_conflicts@.contains(
            (flat(p, t1, v1) as usize, flat(p, t2, v2) as usize),
        )
}

/// The visits of each resource that conflicts with itself, by resource in
/// order of first use.
fn self_conflict_usage(problem: &Problem, resource: &Vec<usize>) -> (r: Vec<Vec<usize>>)
    ensures
        forall|r1: int, k: int| 0 <= r1 < r@.len() && 0 <= k < r@[r1]@.len() ==> #[trigger] r@[r1]@[k] < resource@.len(),
{
    let n = resource.len();
    let mut keys: Vec<usize> = Vec::new();
    let mut usage: Vec<Vec<usize>> = Vec::new();
    let mut u: usize = 0;
    while u < n
        invariant
            n == resource@.len(),
            u <= n,
            keys@.len() == usage@.len(),
            forall|r: int, k: int| 0 <= r < usage@.len() && 0 <= k < usage@[r]@.len() ==> #[trigger] usage@[r]@[k] < n,
        decreases n - u,
    {
        let r = resource[u];
        if listed_conflict(&problem.conflicts, r, r) {
            let mut j: usize = 0;
            while j < keys.len() && keys[j] != r
                invariant
                    j <= keys@.len(),
                decreases keys@.len() - j,
            {
                j = j + 1;
            }
            let ghost before = usage@;
            if j < keys.len() {
                usage[j].push(u);
                proof {
                    assert forall|r2: int, k: int| 0 <= r2 < usage@.len() && 0 <= k < usage@[r2]@.len() implies #[trigger] usage@[r2]@[k] < n by {
                        if r2 != j || k < before[r2]@.len() {
                            assert(usage@[r2]@[k] == before[r2]@[k]);
                        }
                    }
                }
            } else {
                keys.push(r);
                usage.push(vec![u]);
                proof {
                    assert forall|r2: int, k: int| 0 <= r2 < usage@.len() && 0 <= k < usage@[r2]@.len() implies #[trigger] usage@[r2]@[k] < n by {
                        if r2 < before.len() {
                            assert(usage@[r2] == before[r2]);
                        }
                    }
                }
            }
        }
        u = u + 1;
    }
    usage
}

/// The initial intervals: one per visit, from its earliest time to
/// `FIRST_INTERVAL_END`; with the visits of each resource that conflicts
/// with itself and the pairs of visits of different trains on conflicting
/// resources (in flat order).
pub fn maxsat_ddd_intervals_init(problem: &Problem, delay_cost_type: DelayCostType) -> (st: IntervalState)
    requires
        n_flat(*problem) <= isize::MAX,
        forall|t: int| 0 <= t < problem.trains@.len() ==> #[trigger] problem.trains@[t].visits@.len() >= 1,
    ensures
        interval_state_wf(st, *problem),
        st.delay_cost_type == delay_cost_type,
        forall|u: int| 0 <= u < st.intervals@.len() ==> (#[trigger] st.intervals@[u])@.len() == 1
            && st.intervals@[u]@[0].1 == FIRST_INTERVAL_END,
        forall|k: int| 0 <= k < st.visit_conflicts@.len() ==> {
            let a = (#[trigger] st.visit_conflicts@[k]).0 as int;
            let b = st.visit_conflicts@[k].1 as int;
            &&& a < b
            &&& st.occ_tv@[a].0 != st.occ_tv@[b].0
        },
{
    let ghost p = *problem;
    let n_trains: usize = problem.trains.len();
    let train_offset = train_offsets(problem);
    let n: usize = train_offset[n_trains];
    let (resource, travel, earliest, occ_tv) = flatten_visits(problem, &train_offset);
    let mut intervals: Vec<Vec<(i32, i32)>> = Vec::new();
    let mut u: usize = 0;
    while u < n
        invariant
            u <= n,
            earliest@.len() == n,
            intervals@.len() == u,
            forall|x: int| 0 <= x < u ==> (#[trigger] intervals@[x])@ == seq![(earliest@[x], FIRST_INTERVAL_END)],
        decreases n - u,
    {
        intervals.push(vec![(earliest[u], FIRST_INTERVAL_END)]);
        u = u + 1;
    }
    let resource_usage = self_conflict_usage(problem, &resource);
    let mut visit_conflicts: Vec<(usize, usize)> = Vec::new();
    let mut u1: usize = 0;
    while u1 < n
        invariant
            p == *problem,
            n_trains == p.trains@.len(),
            n == n_flat(p),
            u1 <= n,
            resource@.len() == n,
            occ_tv@.len() == n,
            forall|t: int, v: int| valid_tv(p, t, v) ==> #[trigger] resource@[flat(p, t, v)] == res(p, t, v),
            forall|t: int, v: int| valid_tv(p, t, v) ==> #[trigger] occ_tv@[flat(p, t, v)] == (t as usize, v as usize),
            forall|t1: int, v1: int, t2: int, v2: int|
                #![trigger flat(p, t1, v1), flat(p, t2, v2)]
                valid_tv(p, t1, v1) && valid_tv(p, t2, v2) && t1 != t2 && flat(p, t1, v1) < flat(p, t2, v2) && flat(p, t1, v1) < u1
                    && (p.conflicts@.contains((res(p, t1, v1), res(p, t2, v2))) || p.conflicts@.contains((res(p, t2, v2), res(p, t1, v1))))
                    ==> visit_conflicts@.contains((flat(p, t1, v1) as usize, flat(p, t2, v2) as usize)),
            forall|k: int| 0 <= k < visit_conflicts@.len() ==> {
                let a = (#[trigger] visit_conflicts@[k]).0 as int;
                let b = visit_conflicts@[k].1 as int;
                &&& a < b < n
                &&& occ_tv@[a].0 != occ_tv@[b].0
            },
        decreases n - u1,
    {
        let mut u2: usize = u1 + 1;
        while u2 < n
            invariant
                p == *problem,
                n_trains == p.trains@.len(),
                n == n_flat(p),
                u1 < n,
                u1 + 1 <= u2 <= n,
                resource@.len() == n,
                occ_tv@.len() == n,
                forall|t: int, v: int| valid_tv(p, t, v) ==> #[trigger] resource@[flat(p, t, v)] == res(p, t, v),
                forall|t: int, v: int| valid_tv(p, t, v) ==> #[trigger] occ_tv@[flat(p, t, v)] == (t as usize, v as usize),
                forall|t1: int, v1: int, t2: int, v2: int|
                    #![trigger flat(p, t1, v1), flat(p, t2, v2)]
                    valid_tv(p, t1, v1) && valid_tv(p, t2, v2) && t1 != t2 && flat(p, t1, v1) < flat(p, t2, v2)
                        && (flat(p, t1, v1) < u1 || (flat(p, t1, v1) == u1 && flat(p, t2, v2) < u2))
                        && (p.conflicts@.contains((res(p, t1, v1), res(p, t2, v2))) || p.conflicts@.contains((res(p, t2, v2), res(p, t1, v1))))
                        ==> visit_conflicts@.contains((flat(p, t1, v1) as usize, flat(p, t2, v2) as usize)),
                forall|k: int| 0 <= k < visit_conflicts@.len() ==> {
                    let a = (#[trigger] visit_conflicts@[k]).0 as int;
                    let b = visit_conflicts@[k].1 as int;
                    &&& a < b < n
                    &&& occ_tv@[a].0 != occ_tv@[b].0
                },
            decreases n - u2,
        {
            let ghost vc0 = visit_conflicts@;
            let other_train = occ_tv[u1].0 != occ_tv[u2].0;
            let listed = listed_conflict(&problem.conflicts, resource[u1], resource[u2]);
            let hit = other_train && listed;
            if hit {
                visit_conflicts.push((u1, u2));
            }
            proof {
                assert forall|t1: int, v1: int, t2: int, v2: int|
                    #![trigger flat(p, t1, v1), flat(p, t2, v2)]
                    valid_tv(p, t1, v1) && valid_tv(p, t2, v2) && t1 != t2 && flat(p, t1, v1) < flat(p, t2, v2)
                        && (flat(p, t1, v1) < u1 || (flat(p, t1, v1) == u1 && flat(p, t2, v2) < u2 + 1))
                        && (p.conflicts@.contains((res(p, t1, v1), res(p, t2, v2))) || p.conflicts@.contains((res(p, t2, v2), res(p, t1, v1))))
                        implies visit_conflicts@.contains((flat(p, t1, v1) as usize, flat(p, t2, v2) as usize)) by {
                    lemma_flat_bounds(p, t1, v1);
                    lemma_flat_bounds(p, t2, v2);
                    if flat(p, t1, v1) == u1 && flat(p, t2, v2) == u2 {
                        assert(resource@[flat(p, t1, v1)] == res(p, t1, v1));
                        assert(resource@[flat(p, t2, v2)] == res(p, t2, v2));
                        assert(occ_tv@[flat(p, t1, v1)] == (t1 as usize, v1 as usize));
                        assert(occ_tv@[flat(p, t2, v2)] == (t2 as usize, v2 as usize));
                        assert(occ_tv@[u1 as int] == (t1 as usize, v1 as usize));
                        assert(occ_tv@[u2 as int] == (t2 as usize, v2 as usize));
                        assert((t1 as usize) as int == t1);
                        assert((t2 as usize) as int == t2);
                        assert(occ_tv@[u1 as int].0 != occ_tv@[u2 as int].0);
                        assert(other_train);
                        assert(listed);
                        assert(hit);
                        assert(visit_conflicts@[visit_conflicts@.len() - 1] == (u1, u2));
                    } else {
                        assert(vc0.contains((flat(p, t1, v1) as usize, flat(p, t2, v2) as usize)));
                        let k = choose|k: int| 0 <= k < vc0.len() && vc0[k] == (flat(p, t1, v1) as usize, flat(p, t2, v2) as usize);
                        assert(visit_conflicts@[k] == vc0[k]);
                    }
                }
            }
            u2 = u2 + 1;
        }
        proof {
            assert forall|t1: int, v1: int, t2: int, v2: int|
                #![trigger flat(p, t1, v1), flat(p, t2, v2)]
                valid_tv(p, t1, v1) && valid_tv(p, t2, v2) && t1 != t2 && flat(p, t1, v1) < flat(p, t2, v2) && flat(p, t1, v1) < u1 + 1
                    && (p.conflicts@.contains((res(p, t1, v1), res(p, t2, v2))) || p.conflicts@.contains((res(p, t2, v2), res(p, t1, v1))))
                    implies visit_conflicts@.contains((flat(p, t1, v1) as usize, flat(p, t2, v2) as usize)) by {
                lemma_flat_bounds(p, t2, v2);
            }
        }
        u1 = u1 + 1;
    }
    let st = IntervalState { intervals, occ_tv, train_offset, resource_usage, visit_conflicts, delay_cost_type };
    proof {
        assert forall|t: int, v: int| valid_tv(p, t, v) implies (#[trigger] st.intervals@[flat(p, t, v)])@[0].0 == p.trains@[t].visits@[v].earliest by {
            lemma_flat_bounds(p, t, v);
        }
        assert forall|t1: int, v1: int, t2: int, v2: int|
            #![trigger flat(p, t1, v1), flat(p, t2, v2)]
            valid_tv(p, t1, v1) && valid_tv(p, t2, v2) && t1 != t2 && flat(p, t1, v1) < flat(p, t2, v2) && (p.conflicts@.contains(
                (res(p, t1, v1), res(p, t2, v2)),
            ) || p.conflicts@.contains((res(p, t2, v2), res(p, t1, v1)))) implies st.visit_conflicts@.contains(
                (flat(p, t1, v1) as usize, flat(p, t2, v2) as usize),
            ) by {
            lemma_flat_bounds(p, t1, v1);
        }
        assert forall|u: int| 0 <= u < n implies (#[trigger] st.intervals@[u])@.len() >= 1 && starts_increase(st.intervals@[u]@) by {
            assert(st.intervals@[u]@ == seq![(earliest@[u], FIRST_INTERVAL_END)]);
        }
    }
    st
}

/// The formula of one round: the solver, the literal of each interval, and
/// for each interval the intervals it excludes.
pub struct IntervalModel {
    pub solver: External,
    pub t_vars: Vec<Vec<isize>>,
    pub incompat: Vec<Vec<Vec<(usize, usize)>>>,
}

/// The exclusion lists have one list per interval, and name intervals there
/// are.
pub open spec fn incompat_ok(inc: Seq<Vec<Vec<(usize, usize)>>>, st: IntervalState) -> bool {
    &&& inc.len() == st.intervals@.len()
    &&& forall|u: int| 0 <= u < inc.len() ==> (#[trigger] inc[u])@.len() == st.intervals@[u]@.len()
    &&& forall|u: int, i: int, k: int|
        0 <= u < inc.len() && 0 <= i < inc[u]@.len() && 0 <= k < inc[u]@[i]@.len() ==> {
            let e = #[trigger] inc[u]@[i]@[k];
            e.0 < st.intervals@.len() && e.1 < st.intervals@[e.0 as int]@.len()
        }
}

/// The formula fits the intervals: one literal per interval, among the
/// solver's variables.
pub open spec fn model_wf(m: IntervalModel, st: IntervalState) -> bool {
    &&& m.t_vars@.len() == st.intervals@.len()
    &&& forall|u: int| 0 <= u < m.t_vars@.len() ==> (#[trigger] m.t_vars@[u])@.len() == st.intervals@[u]@.len()
    &&& forall|u: int, i: int| 0 <= u < m.t_vars@.len() && 0 <= i < m.t_vars@[u]@.len() ==> lit_ok(
        #[trigger] m.t_vars@[u]@[i],
        m.solver.wcnf.n_vars as int,
    )
    &&& incompat_ok(m.incompat@, st)
}

/// Adds `e` to the exclusion list of interval `i` of visit `u`.
fn push_incompat(inc: &mut Vec<Vec<Vec<(usize, usize)>>>, st: &IntervalState, u: usize, i: usize, e: (usize, usize))
    requires
        incompat_ok(old(inc)@, *st),
        u < old(inc)@.len(),
        i < old(inc)@[u as int]@.len(),
        e.0 < st.intervals@.len(),
        e.1 < st.intervals@[e.0 as int]@.len(),
    ensures
        incompat_ok(final(inc)@, *st),
{
    let ghost before = inc@;
    inc[u][i].push(e);
    proof {
        assert forall|x: int| 0 <= x < inc@.len() implies (#[trigger] inc@[x])@.len() == st.intervals@[x]@.len() by {
            if x != u {
                assert(inc@[x] == before[x]);
            }
        }
        assert forall|x: int, y: int, k: int|
            0 <= x < inc@.len() && 0 <= y < inc@[x]@.len() && 0 <= k < inc@[x]@[y]@.len() implies {
                let e2 = #[trigger] inc@[x]@[y]@[k];
                e2.0 < st.intervals@.len() && e2.1 < st.intervals@[e2.0 as int]@.len()
            } by {
            if x != u {
                assert(inc@[x] == before[x]);
            } else if y != i {
                assert(inc@[x]@[y] == before[x]@[y]);
            } else if k < before[x]@[y]@.len() {
                assert(inc@[x]@[y]@[k] == before[x]@[y]@[k]);
            }
        }
    }
}

/// Makes intervals `(u1, i1)` and `(u2, i2)` exclude each other: each lists
/// the other, and at most one of their literals may hold. False when the
/// solver may run out of variables.
fn exclude_pair(m: &mut IntervalModel, st: &IntervalState, u1: usize, i1: usize, u2: usize, i2: usize) -> (ok: bool)
    requires
        model_wf(*old(m), *st),
        u1 < st.intervals@.len(),
        i1 < st.intervals@[u1 as int]@.len(),
        u2 < st.intervals@.len(),
        i2 < st.intervals@[u2 as int]@.len(),
    ensures
        model_wf(*final(m), *st),
        final(m).solver.wcnf.n_vars == old(m).solver.wcnf.n_vars,
        final(m).t_vars@ == old(m).t_vars@,
        final(m).solver.soft_clauses() == old(m).solver.soft_clauses(),
        ok <==> old(m).solver.wcnf.n_vars <= isize::MAX - 2,
        final(m).solver.hard_clauses().len() >= old(m).solver.hard_clauses().len(),
        final(m).solver.hard_clauses().take(old(m).solver.hard_clauses().len() as int) == old(m).solver.hard_clauses(),
        ok ==> excludes(*final(m), u1 as int, i1 as int, u2 as int, i2 as int),
{
    push_incompat(&mut m.incompat, st, u1, i1, (u2, i2));
    push_incompat(&mut m.incompat, st, u2, i2, (u1, i1));
    let a = m.t_vars[u1][i1];
    let b = m.t_vars[u2][i2];
    let ghost n0 = m.solver.wcnf.n_vars as int;
    let ok = at_most_one_of_two(&mut m.solver, a, b);
    proof {
        assert forall|u: int, i: int| 0 <= u < m.t_vars@.len() && 0 <= i < m.t_vars@[u]@.len() implies lit_ok(
            #[trigger] m.t_vars@[u]@[i],
            m.solver.wcnf.n_vars as int,
        ) by {
            assert(lit_ok(m.t_vars@[u]@[i], n0));
        }
    }
    ok
}

/// The number of intervals of the first `k` visits.
pub open spec fn icount(st: IntervalState, k: int) -> int
    decreases k,
{
    if k <= 0 {
        0
    } else {
        icount(st, k - 1) + st.intervals@[k - 1]@.len()
    }
}

proof fn lemma_icount_monotone(st: IntervalState, j: int, k: int)
    requires
        0 <= j <= k,
    ensures
        icount(st, j) <= icount(st, k),
    decreases k - j,
{
    if j < k {
        lemma_icount_monotone(st, j, k - 1);
    }
}

/// The literal of interval `i` of visit `u` in the formula of a round.
pub open spec fn interval_lit(st: IntervalState, u: int, i: int) -> int {
    icount(st, u) + i + 1
}

/// The delay cost of the start of interval `i` of visit `u`, as its soft
/// clause weighs it.
pub open spec fn icost(p: Problem, st: IntervalState, u: int, i: int) -> u32 {
    let (t, v) = st.occ_tv@[u];
    visit_cost_spec(p.trains@[t as int], st.delay_cost_type, v as int, st.intervals@[u]@[i].0) as u32
}

/// The soft clause of interval `i` of visit `u`: its literal false, weighed
/// by its cost.
pub open spec fn soft_unit(p: Problem, st: IntervalState, u: int, i: int) -> (u32, Seq<isize>) {
    (icost(p, st, u, i), seq![(-interval_lit(st, u, i)) as isize])
}

/// The delay of every interval start fits in `i32`, and the formula's
/// variables (a literal per interval, at most as many again for the
/// exactly-one encodings) fit with room to spare.
pub open spec fn build_fits(p: Problem, st: IntervalState) -> bool {
    &&& forall|u: int, i: int| 0 <= u < st.intervals@.len() && 0 <= i < st.intervals@[u]@.len() ==> delay_fits(
        p.trains@[st.occ_tv@[u].0 as int],
        st.occ_tv@[u].1 as int,
        #[trigger] st.intervals@[u]@[i].0,
    )
    &&& 3 * icount(st, st.intervals@.len() as int) + 2 <= isize::MAX
}

/// Every assignment that satisfies the hard clauses of `m` sets exactly
/// one literal of each of the first `k` visits.
pub open spec fn one_per_visit(m: IntervalModel, k: int) -> bool {
    forall|a: spec_fn(int) -> bool, x: int|
        0 <= x < k && clauses_hold(a, m.solver.hard_clauses()) ==> #[trigger] count_true(a, m.t_vars@[x]@) == 1
}

/// Hard clauses that only grew keep their old ones: an assignment that
/// satisfies the new ones satisfies the old ones and the added ones.
pub(crate) proof fn lemma_hold_prefix(a: spec_fn(int) -> bool, h0: Seq<Seq<isize>>, h1: Seq<Seq<isize>>)
    requires
        h1.len() >= h0.len(),
        h1.take(h0.len() as int) == h0,
        clauses_hold(a, h1),
    ensures
        clauses_hold(a, h0),
        clauses_hold(a, h1.skip(h0.len() as int)),
{
    assert forall|j: int| 0 <= j < h0.len() implies #[trigger] crate::maxsatsolver::clause_holds(a, h0[j]) by {
        assert(h1.take(h0.len() as int)[j] == h1[j]);
        assert(crate::maxsatsolver::clause_holds(a, h1[j]));
    }
    assert forall|j: int| 0 <= j < h1.skip(h0.len() as int).len() implies #[trigger] crate::maxsatsolver::clause_holds(a, h1.skip(h0.len() as int)[j]) by {
        assert(h1.skip(h0.len() as int)[j] == h1[j + h0.len()]);
        assert(crate::maxsatsolver::clause_holds(a, h1[j + h0.len()]));
    }
}

/// The property survives hard clauses that only grow.
proof fn lemma_one_per_visit_grow(m0: IntervalModel, m1: IntervalModel, k: int)
    requires
        one_per_visit(m0, k),
        m1.t_vars@ == m0.t_vars@,
        m1.solver.hard_clauses().len() >= m0.solver.hard_clauses().len(),
        m1.solver.hard_clauses().take(m0.solver.hard_clauses().len() as int) == m0.solver.hard_clauses(),
    ensures
        one_per_visit(m1, k),
{
    assert forall|a: spec_fn(int) -> bool, x: int|
        0 <= x < k && clauses_hold(a, m1.solver.hard_clauses()) implies #[trigger] count_true(a, m1.t_vars@[x]@) == 1 by {
        lemma_hold_prefix(a, m0.solver.hard_clauses(), m1.solver.hard_clauses());
        assert(count_true(a, m0.t_vars@[x]@) == 1);
    }
}

/// The literals and the soft clauses stay, and the variables stay within
/// `bound`, which leaves room for two more where the formula fits.
pub open spec fn build_kept(
    m: IntervalModel,
    p: Problem,
    st: IntervalState,
    tvs: Seq<Vec<isize>>,
    soft: Seq<(u32, Seq<isize>)>,
    bound: int,
) -> bool {
    &&& m.t_vars@ == tvs
    &&& m.solver.soft_clauses() == soft
    &&& m.solver.wcnf.n_vars <= bound
    &&& build_fits(p, st) ==> bound + 2 <= isize::MAX
    &&& one_per_visit(m, st.intervals@.len() as int)
}

/// The formula of a round: a literal per interval, soft with the delay cost
/// of the interval's start; exactly one interval per visit; the intervals of
/// consecutive visits of a train that the travel time rules out together
/// (for each interval of a visit, the first intervals of the next visit that
/// end no later than it starts plus the travel time); and the pairs of
/// overlapping intervals of two trains on a resource that conflicts with
/// itself. `OutOfMemory` when the solver runs out of variables or a delay
/// leaves `i32`.
pub fn maxsat_ddd_build(problem: &Problem, state: &IntervalState) -> (r: Result<IntervalModel, SolverError>)
    requires
        interval_state_wf(*state, *problem),
    ensures
        r matches Ok(m) ==> model_wf(m, *state),
        r matches Err(e) ==> e == SolverError::OutOfMemory,
        build_fits(*problem, *state) ==> r is Ok,
        r matches Ok(m) ==> forall|u: int, i: int| 0 <= u < state.intervals@.len() && 0 <= i < state.intervals@[u]@.len()
            ==> #[trigger] m.t_vars@[u]@[i] == interval_lit(*state, u, i),
        r matches Ok(m) ==> one_per_visit(m, state.intervals@.len() as int),
        r matches Ok(m) ==> forall|u: int, i1: int, i2: int| #[trigger] travel_excluded(*problem, *state, u, i1, i2)
            ==> excludes(m, u, i1, u + 1, i2),
        r matches Ok(m) ==> forall|r2: int, k1: int, k2: int, i1: int, i2: int|
            #[trigger] resource_excluded(*problem, *state, r2, k1, k2, i1, i2) ==> excludes(
                m,
                state.resource_usage@[r2]@[k1] as int,
                i1,
                state.resource_usage@[r2]@[k2] as int,
                i2,
            ),
        r matches Ok(m) ==> forall|u: int, i: int| 0 <= u < state.intervals@.len() && 0 <= i < state.intervals@[u]@.len()
            && icost(*problem, *state, u, i) > 0 ==> m.solver.soft_clauses().contains(#[trigger] soft_unit(*problem, *state, u, i)),
{
    let ghost p = *problem;
    let ghost fits = build_fits(p, *state);
    let n: usize = state.intervals.len();
    let mut m = IntervalModel { solver: External::new(), t_vars: Vec::new(), incompat: Vec::new() };
    proof {
        lemma_icount_monotone(*state, 0, n as int);
    }
    // One literal per interval, soft with its cost.
    let mut u: usize = 0;
    while u < n
        invariant
            p == *problem,
            interval_state_wf(*state, p),
            n == state.intervals@.len(),
            u <= n,
            m.t_vars@.len() == u,
            m.incompat@.len() == u,
            forall|x: int| 0 <= x < u ==> (#[trigger] m.t_vars@[x])@.len() == state.intervals@[x]@.len(),
            forall|x: int| 0 <= x < u ==> (#[trigger] m.incompat@[x])@.len() == state.intervals@[x]@.len(),
            forall|x: int, i: int| 0 <= x < u && 0 <= i < m.incompat@[x]@.len() ==> (#[trigger] m.incompat@[x]@[i])@.len() == 0,
            forall|x: int, i: int| 0 <= x < u && 0 <= i < m.t_vars@[x]@.len() ==> lit_ok(#[trigger] m.t_vars@[x]@[i], m.solver.wcnf.n_vars as int),
            fits == build_fits(p, *state),
            m.solver.wcnf.n_vars == icount(*state, u as int),
            forall|x: int, i: int| 0 <= x < u && 0 <= i < m.t_vars@[x]@.len() ==> #[trigger] m.t_vars@[x]@[i] == interval_lit(*state, x, i),
            forall|x: int, i: int| 0 <= x < u && 0 <= i < state.intervals@[x]@.len() && icost(p, *state, x, i) > 0
                ==> m.solver.soft_clauses().contains(#[trigger] soft_unit(p, *state, x, i)),
        decreases n - u,
    {
        proof {
            lemma_icount_monotone(*state, u + 1, n as int);
        }
        let (t, v) = state.occ_tv[u];
        proof {
            assert(valid_tv(p, t as int, v as int));
            assert(flat(p, t as int, v as int) == u);
        }
        let len: usize = state.intervals[u].len();
        let mut vars: Vec<isize> = Vec::new();
        let mut incs: Vec<Vec<(usize, usize)>> = Vec::new();
        let ghost tv0 = m.t_vars@;
        let ghost ic0 = m.incompat@;
        let mut i: usize = 0;
        while i < len
            invariant
                m.t_vars@ == tv0,
                m.incompat@ == ic0,
                p == *problem,
                interval_state_wf(*state, p),
                u < n,
                n == state.intervals@.len(),
                len == state.intervals@[u as int]@.len(),
                valid_tv(p, t as int, v as int),
                flat(p, t as int, v as int) == u,
                i <= len,
                vars@.len() == i,
                incs@.len() == i,
                forall|y: int| 0 <= y < i ==> (#[trigger] incs@[y])@.len() == 0,
                forall|y: int| 0 <= y < i ==> lit_ok(#[trigger] vars@[y], m.solver.wcnf.n_vars as int),
                m.t_vars@.len() == u,
                m.incompat@.len() == u,
                forall|x: int, i: int| 0 <= x < u && 0 <= i < m.t_vars@[x]@.len() ==> lit_ok(#[trigger] m.t_vars@[x]@[i], m.solver.wcnf.n_vars as int),
                fits == build_fits(p, *state),
                icount(*state, u + 1) <= icount(*state, n as int),
                (t, v) == state.occ_tv@[u as int],
                m.solver.wcnf.n_vars == icount(*state, u as int) + i,
                forall|y: int| 0 <= y < i ==> #[trigger] vars@[y] == interval_lit(*state, u as int, y),
                forall|x: int, i: int| 0 <= x < u && 0 <= i < m.t_vars@[x]@.len() ==> #[trigger] m.t_vars@[x]@[i] == interval_lit(*state, x, i),
                forall|x: int, i: int| 0 <= x < u && 0 <= i < state.intervals@[x]@.len() && icost(p, *state, x, i) > 0
                    ==> m.solver.soft_clauses().contains(#[trigger] soft_unit(p, *state, x, i)),
                forall|y: int| 0 <= y < i && icost(p, *state, u as int, y) > 0
                    ==> m.solver.soft_clauses().contains(#[trigger] soft_unit(p, *state, u as int, y)),
            decreases len - i,
        {
            let start: i32 = state.intervals[u][i].0;
            if let Some(a) = problem.trains[t].visits[v].aimed {
                let d: i64 = start as i64 - a as i64;
                if d < i32::MIN as i64 || d > i32::MAX as i64 {
                    proof {
                        assert(!delay_fits(p.trains@[t as int], v as int, state.intervals@[u as int]@[i as int].0));
                    }
                    return Err(SolverError::OutOfMemory);
                }
            }
            let cost = problem.trains[t].visit_delay_cost(state.delay_cost_type, v, start);
            if m.solver.wcnf.n_vars >= isize::MAX as usize {
                return Err(SolverError::OutOfMemory);
            }
            let ghost n0 = m.solver.wcnf.n_vars as int;
            let ghost sv0 = m.solver.soft_clauses();
            let ghost cv0 = m.solver.wcnf.clauses_view();
            let x = m.solver.new_var();
            let neg_x = -x;
            let cl = vec![neg_x];
            assert(cl@ =~= seq![neg_x]);
            m.solver.add_clause(Some(cost as u32), cl);
            proof {
                assert((cost as u32) == icost(p, *state, u as int, i as int));
                assert(x == interval_lit(*state, u as int, i as int));
                if icost(p, *state, u as int, i as int) > 0 {
                    let cv1 = m.solver.wcnf.clauses_view();
                    assert(cv1.drop_last() =~= cv0);
                    assert(cv1.last() == (Some(cost as u32), seq![neg_x]));
                    assert(soft_unit(p, *state, u as int, i as int) == (cost as u32, seq![neg_x]));
                    assert(m.solver.soft_clauses() == sv0.push(soft_unit(p, *state, u as int, i as int)));
                } else {
                    assert(m.solver.soft_clauses() == sv0);
                }
                assert forall|x1: int, i1: int| 0 <= x1 < u && 0 <= i1 < state.intervals@[x1]@.len() && icost(p, *state, x1, i1) > 0
                    implies m.solver.soft_clauses().contains(#[trigger] soft_unit(p, *state, x1, i1)) by {
                    let j = choose|j: int| 0 <= j < sv0.len() && sv0[j] == soft_unit(p, *state, x1, i1);
                    assert(m.solver.soft_clauses()[j] == sv0[j]);
                }
                assert forall|y: int| 0 <= y < i + 1 && icost(p, *state, u as int, y) > 0
                    implies m.solver.soft_clauses().contains(#[trigger] soft_unit(p, *state, u as int, y)) by {
                    if y < i {
                        let j = choose|j: int| 0 <= j < sv0.len() && sv0[j] == soft_unit(p, *state, u as int, y);
                        assert(m.solver.soft_clauses()[j] == sv0[j]);
                    } else {
                        assert(m.solver.soft_clauses()[sv0.len() as int] == soft_unit(p, *state, u as int, y));
                    }
                }
                assert forall|y: int| 0 <= y < i implies lit_ok(#[trigger] vars@[y], m.solver.wcnf.n_vars as int) by {
                    assert(lit_ok(vars@[y], n0));
                }
                assert forall|x1: int, i1: int| 0 <= x1 < u && 0 <= i1 < m.t_vars@[x1]@.len() implies lit_ok(#[trigger] m.t_vars@[x1]@[i1], m.solver.wcnf.n_vars as int) by {
                    assert(lit_ok(m.t_vars@[x1]@[i1], n0));
                }
            }
            vars.push(x);
            incs.push(Vec::new());
            i = i + 1;
        }
        let ghost tb = m.t_vars@;
        let ghost ib = m.incompat@;
        let ghost vv = vars@;
        let ghost iv = incs@;
        m.t_vars.push(vars);
        m.incompat.push(incs);
        proof {
            assert(m.t_vars@[u as int]@ == vv);
            assert(m.incompat@[u as int]@ == iv);
            assert forall|x: int| 0 <= x < u + 1 implies (#[trigger] m.t_vars@[x])@.len() == state.intervals@[x]@.len() by {
                if x < u {
                    assert(m.t_vars@[x] == tb[x]);
                } else {
                    assert(vv.len() == len);
                }
            }
            assert forall|x: int| 0 <= x < u + 1 implies (#[trigger] m.incompat@[x])@.len() == state.intervals@[x]@.len() by {
                if x < u {
                    assert(m.incompat@[x] == ib[x]);
                }
            }
            assert forall|x: int, i: int| 0 <= x < u + 1 && 0 <= i < m.incompat@[x]@.len() implies (#[trigger] m.incompat@[x]@[i])@.len() == 0 by {
                if x < u {
                    assert(m.incompat@[x] == ib[x]);
                }
            }
            assert forall|x: int, i: int| 0 <= x < u + 1 && 0 <= i < m.t_vars@[x]@.len() implies lit_ok(#[trigger] m.t_vars@[x]@[i], m.solver.wcnf.n_vars as int) by {
                if x < u {
                    assert(m.t_vars@[x] == tb[x]);
                }
            }
            assert forall|x: int, i: int| 0 <= x < u + 1 && 0 <= i < m.t_vars@[x]@.len() implies #[trigger] m.t_vars@[x]@[i] == interval_lit(*state, x, i) by {
                if x < u {
                    assert(m.t_vars@[x] == tb[x]);
                } else {
                    assert(m.t_vars@[x]@[i] == vv[i]);
                }
            }
        }
        u = u + 1;
    }
    proof {
        assert(incompat_ok(m.incompat@, *state));
    }
    let ghost tv1 = m.t_vars@;
    let ghost soft1 = m.solver.soft_clauses();
    // Exactly one interval per visit.
    let mut u: usize = 0;
    while u < n
        invariant
            interval_state_wf(*state, p),
            n == state.intervals@.len(),
            u <= n,
            model_wf(m, *state),
            fits == build_fits(p, *state),
            m.t_vars@ == tv1,
            m.solver.soft_clauses() == soft1,
            m.solver.wcnf.n_vars <= icount(*state, n as int) + icount(*state, u as int),
            one_per_visit(m, u as int),
        decreases n - u,
    {
        proof {
            lemma_icount_monotone(*state, u + 1, n as int);
            lemma_icount_monotone(*state, 0, u as int);
        }
        let set = &m.t_vars[u];
        if set.len() > isize::MAX as usize || m.solver.wcnf.n_vars > isize::MAX as usize - set.len() {
            return Err(SolverError::OutOfMemory);
        }
        proof {
            assert forall|i: int| 0 <= i < set@.len() implies 1 <= #[trigger] crate::maxsatsolver::lit_var(set@[i]) <= m.solver.wcnf.n_vars by {
                assert(lit_ok(m.t_vars@[u as int]@[i], m.solver.wcnf.n_vars as int));
            }
        }
        let ghost n0 = m.solver.wcnf.n_vars as int;
        let ghost m0 = m;
        let ghost setv = set@;
        m.solver.exactly_one(set.as_slice());
        proof {
            assert(setv == m.t_vars@[u as int]@);
            assert forall|a: spec_fn(int) -> bool, x: int|
                0 <= x < u + 1 && clauses_hold(a, m.solver.hard_clauses()) implies #[trigger] count_true(a, m.t_vars@[x]@) == 1 by {
                lemma_hold_prefix(a, m0.solver.hard_clauses(), m.solver.hard_clauses());
                if x < u {
                    assert(count_true(a, m0.t_vars@[x]@) == 1);
                }
            }
            assert forall|x: int, i: int| 0 <= x < m.t_vars@.len() && 0 <= i < m.t_vars@[x]@.len() implies lit_ok(
                #[trigger] m.t_vars@[x]@[i],
                m.solver.wcnf.n_vars as int,
            ) by {
                assert(lit_ok(m.t_vars@[x]@[i], n0));
            }
        }
        u = u + 1;
    }
    proof {
        lemma_icount_monotone(*state, 0, n as int);
    }
    let ghost bound = 2 * icount(*state, n as int);
    // Travel times between consecutive visits.
    let mut u: usize = 0;
    while u < n
        invariant
            p == *problem,
            interval_state_wf(*state, p),
            n == state.intervals@.len(),
            u <= n,
            model_wf(m, *state),
            build_kept(m, p, *state, tv1, soft1, bound),
            travel_done(m, p, *state, u as int),
        decreases n - u,
    {
        let (t, v) = state.occ_tv[u];
        proof {
            assert(valid_tv(p, t as int, v as int));
            assert(flat(p, t as int, v as int) == u);
        }
        if v + 1 < problem.trains[t].visits.len() {
            proof {
                lemma_flat_bounds(p, t as int, v + 1);
            }
            let dt: i32 = problem.trains[t].visits[v].travel_time;
            let mut idx1: usize = 0;
            while idx1 < state.intervals[u].len()
                invariant
                    interval_state_wf(*state, p),
                    n == state.intervals@.len(),
                    u + 1 < n,
                    model_wf(m, *state),
                    build_kept(m, p, *state, tv1, soft1, bound),
                    p == *problem,
                    (t, v) == state.occ_tv@[u as int],
                    dt == trav(p, t as int, v as int),
                    travel_done(m, p, *state, u as int),
                    forall|j1: int, j2: int| j1 < idx1 && #[trigger] travel_excluded(p, *state, u as int, j1, j2)
                        ==> excludes(m, u as int, j1, u + 1, j2),
                decreases state.intervals@[u as int]@.len() - idx1,
            {
                let s1: i64 = state.intervals[u][idx1].0 as i64;
                let mut idx2: usize = 0;
                while idx2 < state.intervals[u + 1].len() && s1 + dt as i64 >= state.intervals[u + 1][idx2].1 as i64
                    invariant
                        interval_state_wf(*state, p),
                        n == state.intervals@.len(),
                        u + 1 < n,
                        idx1 < state.intervals@[u as int]@.len(),
                        i32::MIN <= s1 <= i32::MAX,
                        s1 == state.intervals@[u as int]@[idx1 as int].0,
                        model_wf(m, *state),
                        build_kept(m, p, *state, tv1, soft1, bound),
                        p == *problem,
                        (t, v) == state.occ_tv@[u as int],
                        dt == trav(p, t as int, v as int),
                        travel_done(m, p, *state, u as int),
                        forall|j1: int, j2: int| j1 < idx1 && #[trigger] travel_excluded(p, *state, u as int, j1, j2)
                            ==> excludes(m, u as int, j1, u + 1, j2),
                        forall|j2: int| 0 <= j2 < idx2 ==> #[trigger] excludes(m, u as int, idx1 as int, u + 1, j2),
                        forall|j: int| 0 <= j < idx2 ==> s1 + dt >= #[trigger] state.intervals@[u + 1]@[j].1,
                    decreases state.intervals@[u + 1]@.len() - idx2,
                {
                    let ghost mb = m;
                    if !exclude_pair(&mut m, state, u, idx1, u + 1, idx2) {
                        return Err(SolverError::OutOfMemory);
                    }
                    proof {
                        lemma_one_per_visit_grow(mb, m, n as int);
                        lemma_excl_grow(mb, m, p, *state, u as int, 0, 0, 0, 0, 0);
                        assert forall|j1: int, j2: int| j1 < idx1 && #[trigger] travel_excluded(p, *state, u as int, j1, j2)
                            implies excludes(m, u as int, j1, u + 1, j2) by {
                            assert(excludes(mb, u as int, j1, u + 1, j2));
                        }
                        assert forall|j2: int| 0 <= j2 < idx2 + 1 implies #[trigger] excludes(m, u as int, idx1 as int, u + 1, j2) by {
                            if j2 < idx2 {
                                assert(excludes(mb, u as int, idx1 as int, u + 1, j2));
                            }
                        }
                    }
                    idx2 = idx2 + 1;
                }
                proof {
                    assert forall|j1: int, j2: int| j1 < idx1 + 1 && #[trigger] travel_excluded(p, *state, u as int, j1, j2)
                        implies excludes(m, u as int, j1, u + 1, j2) by {
                        if j1 == idx1 {
                            if j2 >= idx2 {
                                assert(s1 + dt < state.intervals@[u + 1]@[idx2 as int].1);
                            }
                        }
                    }
                }
                idx1 = idx1 + 1;
            }
            proof {
                assert forall|u2: int, j1: int, j2: int| u2 < u + 1 && #[trigger] travel_excluded(p, *state, u2, j1, j2)
                    implies excludes(m, u2, j1, u2 + 1, j2) by {
                    if u2 == u {
                        assert(j1 < idx1);
                    }
                }
            }
        } else {
            proof {
                assert forall|u2: int, j1: int, j2: int| u2 < u + 1 && #[trigger] travel_excluded(p, *state, u2, j1, j2)
                    implies excludes(m, u2, j1, u2 + 1, j2) by {
                    if u2 == u {
                        assert(!travel_excluded(p, *state, u2, j1, j2));
                    }
                }
            }
        }
        u = u + 1;
    }
    // Overlaps on resources that conflict with themselves.
    let mut r: usize = 0;
    while r < state.resource_usage.len()
        invariant
            p == *problem,
            interval_state_wf(*state, p),
            n == state.intervals@.len(),
            model_wf(m, *state),
            build_kept(m, p, *state, tv1, soft1, bound),
            travel_done(m, p, *state, n as int),
            r <= state.resource_usage@.len(),
            resource_done(m, p, *state, r as int, 0, 0, 0, 0),
        decreases state.resource_usage@.len() - r,
    {
        let vs = &state.resource_usage[r];
        let mut k1: usize = 0;
        while k1 < vs.len()
            invariant
                p == *problem,
                interval_state_wf(*state, p),
                n == state.intervals@.len(),
                r < state.resource_usage@.len(),
                *vs == state.resource_usage@[r as int],
                model_wf(m, *state),
                build_kept(m, p, *state, tv1, soft1, bound),
                travel_done(m, p, *state, n as int),
                k1 <= vs@.len(),
                resource_done(m, p, *state, r as int, k1 as int, 0, 0, 0),
            decreases vs@.len() - k1,
        {
            let mut k2: usize = 0;
            while k2 < vs.len()
                invariant
                    p == *problem,
                    interval_state_wf(*state, p),
                    n == state.intervals@.len(),
                    r < state.resource_usage@.len(),
                    *vs == state.resource_usage@[r as int],
                    k1 < vs@.len(),
                    model_wf(m, *state),
                    build_kept(m, p, *state, tv1, soft1, bound),
                    travel_done(m, p, *state, n as int),
                    k2 <= vs@.len(),
                    resource_done(m, p, *state, r as int, k1 as int, k2 as int, 0, 0),
                decreases vs@.len() - k2,
            {
                let a: usize = vs[k1];
                let b: usize = vs[k2];
                let (ta, va) = state.occ_tv[a];
                let (tb, vb) = state.occ_tv[b];
                if ta < tb {
                    proof {
                        assert(valid_tv(p, ta as int, va as int));
                        assert(valid_tv(p, tb as int, vb as int));
                    }
                    let d1: i64 = problem.trains[ta].visits[va].travel_time as i64;
                    let d2: i64 = problem.trains[tb].visits[vb].travel_time as i64;
                    let mut i1: usize = 0;
                    while i1 < state.intervals[a].len()
                        invariant
                            interval_state_wf(*state, p),
                            n == state.intervals@.len(),
                            a < n,
                            b < n,
                            i32::MIN <= d1 <= i32::MAX,
                            i32::MIN <= d2 <= i32::MAX,
                            model_wf(m, *state),
                            build_kept(m, p, *state, tv1, soft1, bound),
                            p == *problem,
                            r < state.resource_usage@.len(),
                            *vs == state.resource_usage@[r as int],
                            k1 < vs@.len(),
                            k2 < vs@.len(),
                            a == vs@[k1 as int],
                            b == vs@[k2 as int],
                            (ta, va) == state.occ_tv@[a as int],
                            (tb, vb) == state.occ_tv@[b as int],
                            ta < tb,
                            d1 == trav(p, ta as int, va as int),
                            d2 == trav(p, tb as int, vb as int),
                            travel_done(m, p, *state, n as int),
                            i1 <= state.intervals@[a as int]@.len(),
                            resource_done(m, p, *state, r as int, k1 as int, k2 as int, i1 as int, 0),
                        decreases state.intervals@[a as int]@.len() - i1,
                    {
                        let mut i2: usize = 0;
                        while i2 < state.intervals[b].len()
                            invariant
                                interval_state_wf(*state, p),
                                n == state.intervals@.len(),
                                a < n,
                                b < n,
                                i1 < state.intervals@[a as int]@.len(),
                                i32::MIN <= d1 <= i32::MAX,
                                i32::MIN <= d2 <= i32::MAX,
                                model_wf(m, *state),
                                build_kept(m, p, *state, tv1, soft1, bound),
                                p == *problem,
                                r < state.resource_usage@.len(),
                                *vs == state.resource_usage@[r as int],
                                k1 < vs@.len(),
                                k2 < vs@.len(),
                                a == vs@[k1 as int],
                                b == vs@[k2 as int],
                                (ta, va) == state.occ_tv@[a as int],
                                (tb, vb) == state.occ_tv@[b as int],
                                ta < tb,
                                d1 == trav(p, ta as int, va as int),
                                d2 == trav(p, tb as int, vb as int),
                                travel_done(m, p, *state, n as int),
                                i2 <= state.intervals@[b as int]@.len(),
                                resource_done(m, p, *state, r as int, k1 as int, k2 as int, i1 as int, i2 as int),
                            decreases state.intervals@[b as int]@.len() - i2,
                        {
                            let (s1, e1) = state.intervals[a][i1];
                            let (s2, e2) = state.intervals[b][i2];
                            let test1 = s2 as i64 + d2 >= e1 as i64;
                            let test2 = s1 as i64 + d1 >= e2 as i64;
                            let ghost mb = m;
                            if test1 && test2 {
                                if !exclude_pair(&mut m, state, a, i1, b, i2) {
                                    return Err(SolverError::OutOfMemory);
                                }
                                proof {
                                    lemma_one_per_visit_grow(mb, m, n as int);
                                    lemma_excl_grow(mb, m, p, *state, n as int, r as int, k1 as int, k2 as int, i1 as int, i2 as int);
                                }
                            }
                            proof {
                                assert forall|r2: int, x1: int, x2: int, j1: int, j2: int|
                                    #[trigger] resource_excluded(p, *state, r2, x1, x2, j1, j2) && (r2 < r || (r2 == r && (x1 < k1 || (x1 == k1
                                        && (x2 < k2 || (x2 == k2 && (j1 < i1 || (j1 == i1 && j2 < i2 + 1))))))))
                                    implies excludes(m, state.resource_usage@[r2]@[x1] as int, j1, state.resource_usage@[r2]@[x2] as int, j2) by {
                                    if r2 == r && x1 == k1 && x2 == k2 && j1 == i1 && j2 == i2 {
                                        assert(test1 && test2);
                                    }
                                }
                            }
                            i2 = i2 + 1;
                        }
                        proof {
                            assert forall|r2: int, x1: int, x2: int, j1: int, j2: int|
                                #[trigger] resource_excluded(p, *state, r2, x1, x2, j1, j2) && (r2 < r || (r2 == r && (x1 < k1 || (x1 == k1
                                    && (x2 < k2 || (x2 == k2 && (j1 < i1 + 1 || (j1 == i1 + 1 && j2 < 0))))))))
                                implies excludes(m, state.resource_usage@[r2]@[x1] as int, j1, state.resource_usage@[r2]@[x2] as int, j2) by {
                                if r2 == r && x1 == k1 && x2 == k2 && j1 == i1 {
                                    assert(j2 < i2);
                                }
                            }
                        }
                        i1 = i1 + 1;
                    }
                } else {
                    proof {
                        assert forall|r2: int, x1: int, x2: int, j1: int, j2: int|
                            #[trigger] resource_excluded(p, *state, r2, x1, x2, j1, j2) && r2 == r && x1 == k1 && x2 == k2
                            implies false by {
                            assert(state.resource_usage@[r2]@[x1] == a);
                            assert(state.resource_usage@[r2]@[x2] == b);
                        }
                    }
                }
                proof {
                    assert forall|r2: int, x1: int, x2: int, j1: int, j2: int|
                        #[trigger] resource_excluded(p, *state, r2, x1, x2, j1, j2) && (r2 < r || (r2 == r && (x1 < k1 || (x1 == k1
                            && (x2 < k2 + 1 || (x2 == k2 + 1 && (j1 < 0 || (j1 == 0 && j2 < 0))))))))
                        implies excludes(m, state.resource_usage@[r2]@[x1] as int, j1, state.resource_usage@[r2]@[x2] as int, j2) by {
                        if r2 == r && x1 == k1 && x2 == k2 {
                            assert(state.resource_usage@[r2]@[x1] == a);
                        }
                    }
                }
                k2 = k2 + 1;
            }
            k1 = k1 + 1;
        }
        r = r + 1;
    }
    Ok(m)
}

/// The start of the interval chosen for visit `u`.
pub open spec fn istart(st: IntervalState, sel: Seq<usize>, u: int) -> i32 {
    st.intervals@[u]@[sel[u] as int].0
}

/// One chosen interval per visit.
pub open spec fn iselection_ok(st: IntervalState, sel: Seq<usize>) -> bool {
    &&& sel.len() == st.intervals@.len()
    &&& forall|u: int| 0 <= u < sel.len() ==> #[trigger] sel[u] < st.intervals@[u]@.len()
}

/// The schedule of a selection: per train the chosen starts and the end of
/// the last visit.
pub open spec fn irows_of(p: Problem, st: IntervalState, sel: Seq<usize>, rows: Seq<Vec<i32>>) -> bool {
    &&& rows.len() == p.trains@.len()
    &&& forall|t: int| 0 <= t < rows.len() ==> #[trigger] rows[t]@.len() == p.trains@[t].visits@.len() + 1
    &&& forall|t: int, v: int| valid_tv(p, t, v) ==> #[trigger] rows[t]@[v] == istart(st, sel, flat(p, t, v))
    &&& forall|t: int| 0 <= t < rows.len() ==> #[trigger] rows[t]@[p.trains@[t].visits@.len() as int] == rows[t]@[p.trains@[t].visits@.len() - 1]
        + trav(p, t, p.trains@[t].visits@.len() - 1)
}

/// Visits `a` and `b` are separated in the schedule: one starts no earlier
/// than the other's next time (the next visit's start, or the end).
pub open spec fn rows_separated(st: IntervalState, rows: Seq<Vec<i32>>, a: int, b: int) -> bool {
    let (ta, va) = st.occ_tv@[a];
    let (tb, vb) = st.occ_tv@[b];
    rows[tb as int]@[vb as int] - rows[ta as int]@[va + 1] >= 0 || rows[ta as int]@[va as int] - rows[tb as int]@[vb + 1] >= 0
}

/// The schedule found: chosen starts no earlier than the earliest times,
/// the travel times kept, and every pair of visits in conflict separated.
pub open spec fn interval_done(p: Problem, st: IntervalState, sel: Seq<usize>, rows: Seq<Vec<i32>>) -> bool {
    &&& iselection_ok(st, sel)
    &&& irows_of(p, st, sel, rows)
    &&& forall|t: int, v: int| valid_tv(p, t, v) ==> #[trigger] rows[t]@[v] >= p.trains@[t].visits@[v].earliest
    &&& forall|t: int, v: int| valid_tv(p, t, v) && v + 1 < p.trains@[t].visits@.len() ==> #[trigger] rows[t]@[v] + trav(p, t, v) <= rows[t]@[v + 1]
    &&& forall|k: int| 0 <= k < st.visit_conflicts@.len() ==> rows_separated(st, rows, (#[trigger] st.visit_conflicts@[k]).0 as int, st.visit_conflicts@[k].1 as int)
}

/// The model sets the literal of interval `i` of visit `u`, and the
/// literals of the intervals up to it lie inside the model.
pub open spec fn iset(m: IntervalModel, bits: Seq<bool>, u: int, i: int) -> bool {
    &&& 0 <= i < m.t_vars@[u]@.len()
    &&& forall|j: int| 0 <= j <= i ==> #[trigger] m.t_vars@[u]@[j] <= bits.len()
    &&& bits[m.t_vars@[u]@[i] - 1]
}

/// Interval `i` is the first interval of visit `u` that the model sets.
pub open spec fn ifirst(m: IntervalModel, bits: Seq<bool>, u: int, i: int) -> bool {
    &&& iset(m, bits, u, i)
    &&& forall|j: int| 0 <= j < i ==> !bits[#[trigger] m.t_vars@[u]@[j] - 1]
}

/// The model reads an interval for visit `u`.
pub open spec fn ireads(m: IntervalModel, bits: Seq<bool>, u: int) -> bool {
    exists|i: int| #[trigger] iset(m, bits, u, i)
}

/// The model reads an interval for every visit.
pub open spec fn ireads_all(m: IntervalModel, bits: Seq<bool>) -> bool {
    forall|u: int| 0 <= u < m.t_vars@.len() ==> #[trigger] ireads(m, bits, u)
}

/// A selection that takes, for every visit, an interval no later than the
/// first one the model sets.
pub open spec fn below_model(st: IntervalState, m: IntervalModel, bits: Seq<bool>, sel: Seq<usize>) -> bool {
    &&& iselection_ok(st, sel)
    &&& forall|u: int, i: int| 0 <= u < sel.len() && #[trigger] ifirst(m, bits, u, i) ==> sel[u] <= i
}

/// The first interval whose literal the model sets, for each visit; `None`
/// when a visit has none or a literal before it lies outside the model.
fn iselect(state: &IntervalState, model: &IntervalModel, bits: &Vec<bool>) -> (r: Option<Vec<usize>>)
    requires
        model_wf(*model, *state),
    ensures
        r matches Some(sel) ==> iselection_ok(*state, sel@),
        r is Some <==> ireads_all(*model, bits@),
        r matches Some(sel) ==> forall|u: int| 0 <= u < sel@.len() ==> ifirst(*model, bits@, u, #[trigger] sel@[u] as int),
{
    let n = model.t_vars.len();
    let mut sel: Vec<usize> = Vec::new();
    let mut u: usize = 0;
    while u < n
        invariant
            n == model.t_vars@.len(),
            model_wf(*model, *state),
            u <= n,
            sel@.len() == u,
            forall|x: int| 0 <= x < u ==> #[trigger] sel@[x] < state.intervals@[x]@.len(),
            forall|x: int| 0 <= x < u ==> ifirst(*model, bits@, x, #[trigger] sel@[x] as int),
        decreases n - u,
    {
        let vars = &model.t_vars[u];
        let mut i: usize = 0;
        let mut found = false;
        while i < vars.len() && !found
            invariant
                *vars == model.t_vars@[u as int],
                model_wf(*model, *state),
                n == model.t_vars@.len(),
                u < n,
                i <= vars@.len(),
                found ==> i > 0,
                found ==> ifirst(*model, bits@, u as int, i - 1),
                !found ==> forall|j: int| 0 <= j < i ==> #[trigger] vars@[j] <= bits@.len() && !bits@[vars@[j] - 1],
            decreases vars@.len() - i + if found { 0int } else { 1int },
        {
            let l = vars[i];
            assert(lit_ok(model.t_vars@[u as int]@[i as int], model.solver.wcnf.n_vars as int));
            if (l as usize) > bits.len() {
                proof {
                    assert(!ireads(*model, bits@, u as int)) by {
                        if ireads(*model, bits@, u as int) {
                            let i2 = choose|i2: int| iset(*model, bits@, u as int, i2);
                            if i2 < i {
                                assert(vars@[i2] <= bits@.len() && !bits@[vars@[i2] - 1]);
                            } else {
                                assert(model.t_vars@[u as int]@[i as int] <= bits@.len());
                            }
                        }
                    }
                }
                return None;
            }
            if bits[(l - 1) as usize] {
                found = true;
            }
            i = i + 1;
        }
        if !found {
            proof {
                assert(!ireads(*model, bits@, u as int)) by {
                    if ireads(*model, bits@, u as int) {
                        let i2 = choose|i2: int| iset(*model, bits@, u as int, i2);
                        assert(vars@[i2] <= bits@.len() && !bits@[vars@[i2] - 1]);
                    }
                }
            }
            return None;
        }
        sel.push(i - 1);
        proof {
            assert(ifirst(*model, bits@, u as int, sel@[u as int] as int));
        }
        u = u + 1;
    }
    proof {
        assert forall|x: int| 0 <= x < model.t_vars@.len() implies #[trigger] ireads(*model, bits@, x) by {
            assert(ifirst(*model, bits@, x, sel@[x] as int));
        }
    }
    Some(sel)
}

/// Moves chosen intervals earlier while that meets no exclusion, visiting
/// the visits in turn until as many in a row as there are visits leave
/// theirs unchanged.
fn iminimize(state: &IntervalState, model: &IntervalModel, sel: &mut Vec<usize>)
    requires
        model_wf(*model, *state),
        iselection_ok(*state, old(sel)@),
    ensures
        iselection_ok(*state, final(sel)@),
        forall|u: int| 0 <= u < final(sel)@.len() ==> #[trigger] final(sel)@[u] <= old(sel)@[u],
{
    let n: usize = state.intervals.len();
    let mut consecutive: usize = 0;
    let mut i: usize = 0;
    while consecutive < n
        invariant
            n == state.intervals@.len(),
            model_wf(*model, *state),
            iselection_ok(*state, sel@),
            forall|x: int| 0 <= x < sel@.len() ==> #[trigger] sel@[x] <= old(sel)@[x],
            consecutive <= n,
            n > 0 ==> i < n,
        decreases index_sum(sel@), n - consecutive,
    {
        let u: usize = i;
        let ghost s0 = sel@;
        let mut touched = false;
        while sel[u] > 0
            invariant
                u < n,
                n == state.intervals@.len(),
                model_wf(*model, *state),
                iselection_ok(*state, sel@),
                forall|x: int| 0 <= x < sel@.len() ==> #[trigger] sel@[x] <= old(sel)@[x],
                touched ==> index_sum(sel@) < index_sum(s0),
                !touched ==> sel@ == s0,
            decreases sel@[u as int],
        {
            let prev: usize = sel[u] - 1;
            let inc = &model.incompat[u][prev];
            let mut is_blocked = false;
            let mut k: usize = 0;
            while k < inc.len()
                invariant
                    *inc == model.incompat@[u as int]@[prev as int],
                    model_wf(*model, *state),
                    n == state.intervals@.len(),
                    u < n,
                    prev < state.intervals@[u as int]@.len(),
                    sel@.len() == n,
                    k <= inc@.len(),
                decreases inc@.len() - k,
            {
                let (u2, i2) = inc[k];
                assert(model.incompat@[u as int]@[prev as int]@[k as int] == inc@[k as int]);
                assert(inc@[k as int].0 < n);
                if sel[u2] == i2 {
                    is_blocked = true;
                }
                k = k + 1;
            }
            if !is_blocked {
                proof {
                    lemma_index_sum_dec(sel@, u as int);
                }
                sel.set(u, prev);
                touched = true;
            } else {
                break;
            }
        }
        i = if i + 1 == n {
            0
        } else {
            i + 1
        };
        if touched {
            consecutive = 0;
        } else {
            consecutive = consecutive + 1;
        }
    }
}

/// The end of the last visit of train `t` in the schedule of a selection
/// (its chosen start plus its travel time) leaves `i32`.
pub open spec fn last_end_leaves(p: Problem, st: IntervalState, sel: Seq<usize>, t: int) -> bool {
    let n = p.trains@[t].visits@.len() as int;
    !(i32::MIN <= istart(st, sel, flat(p, t, n - 1)) + trav(p, t, n - 1) <= i32::MAX)
}

/// The schedule of a selection leaves `i32`: the end of some train's last
/// visit does.
pub open spec fn irows_overflow(p: Problem, st: IntervalState, sel: Seq<usize>) -> bool {
    exists|t: int| 0 <= t < p.trains@.len() && #[trigger] last_end_leaves(p, st, sel, t)
}

/// The schedule of a selection; `None` exactly when the end of a last visit
/// leaves `i32`.
fn irows(problem: &Problem, state: &IntervalState, sel: &Vec<usize>) -> (r: Option<Vec<Vec<i32>>>)
    requires
        interval_state_wf(*state, *problem),
        iselection_ok(*state, sel@),
    ensures
        r matches Some(rows) ==> irows_of(*problem, *state, sel@, rows@),
        r is None <==> irows_overflow(*problem, *state, sel@),
{
    let ghost p = *problem;
    let mut rows: Vec<Vec<i32>> = Vec::new();
    let mut t: usize = 0;
    while t < problem.trains.len()
        invariant
            p == *problem,
            interval_state_wf(*state, p),
            iselection_ok(*state, sel@),
            t <= p.trains@.len(),
            rows@.len() == t,
            forall|t1: int| 0 <= t1 < t ==> #[trigger] rows@[t1]@.len() == p.trains@[t1].visits@.len() + 1,
            forall|t1: int, v: int| valid_tv(p, t1, v) && t1 < t ==> #[trigger] rows@[t1]@[v] == istart(*state, sel@, flat(p, t1, v)),
            forall|t1: int| 0 <= t1 < t ==> #[trigger] rows@[t1]@[p.trains@[t1].visits@.len() as int] == rows@[t1]@[p.trains@[t1].visits@.len() - 1]
                + trav(p, t1, p.trains@[t1].visits@.len() - 1),
            forall|t1: int| 0 <= t1 < t ==> !#[trigger] last_end_leaves(p, *state, sel@, t1),
        decreases p.trains@.len() - t,
    {
        let nv: usize = problem.trains[t].visits.len();
        let base: usize = state.train_offset[t];
        proof {
            assert(nv >= 1);
            lemma_flat_bounds(p, t as int, nv - 1);
        }
        let mut row: Vec<i32> = Vec::new();
        let mut v: usize = 0;
        while v < nv
            invariant
                p == *problem,
                interval_state_wf(*state, p),
                iselection_ok(*state, sel@),
                t < p.trains@.len(),
                nv == p.trains@[t as int].visits@.len(),
                base == offs(p, t as int),
                v <= nv,
                row@.len() == v,
                forall|v1: int| 0 <= v1 < v ==> #[trigger] row@[v1] == istart(*state, sel@, flat(p, t as int, v1)),
            decreases nv - v,
        {
            proof {
                lemma_flat_bounds(p, t as int, v as int);
            }
            let u = base + v;
            row.push(state.intervals[u][sel[u]].0);
            v = v + 1;
        }
        let last: i32 = row[nv - 1];
        let tt: i32 = problem.trains[t].visits[nv - 1].travel_time;
        let end: i64 = last as i64 + tt as i64;
        if end < i32::MIN as i64 || end > i32::MAX as i64 {
            assert(last_end_leaves(p, *state, sel@, t as int));
            return None;
        }
        row.push(end as i32);
        rows.push(row);
        t = t + 1;
    }
    Some(rows)
}

/// Where `time` goes among the intervals of `u` (sorted by start): the
/// index of the first interval that starts no earlier.
fn insertion_index(is: &Vec<(i32, i32)>, time: i32) -> (idx: usize)
    ensures
        idx <= is@.len(),
        forall|i: int| 0 <= i < idx ==> (#[trigger] is@[i]).0 < time,
        idx < is@.len() ==> is@[idx as int].0 >= time,
{
    let mut idx: usize = 0;
    while idx < is.len() && is[idx].0 < time
        invariant
            idx <= is@.len(),
            forall|i: int| 0 <= i < idx ==> (#[trigger] is@[i]).0 < time,
        decreases is@.len() - idx,
    {
        idx = idx + 1;
    }
    idx
}

/// Time `time` starts an interval of visit `u`, or lies before the first
/// of them.
pub open spec fn covered(st: IntervalState, u: int, time: i32) -> bool {
    ||| exists|i: int| 0 <= i < st.intervals@[u]@.len() && #[trigger] st.intervals@[u]@[i].0 == time
    ||| time < st.intervals@[u]@[0].0
}

/// Splits the interval of visit `u` that holds `time` (where `time` is not
/// a start and not before the first start): the earlier part ends at
/// `time`, the later part starts there. Returns whether it split.
fn split_interval(state: &mut IntervalState, p: Ghost<Problem>, u: usize, time: i32) -> (split: bool)
    requires
        interval_state_wf(*old(state), p@),
        u < old(state).intervals@.len(),
    ensures
        interval_state_wf(*final(state), p@),
        final(state).occ_tv == old(state).occ_tv,
        final(state).visit_conflicts == old(state).visit_conflicts,
        final(state).delay_cost_type == old(state).delay_cost_type,
        final(state).intervals@.len() == old(state).intervals@.len(),
        covered(*final(state), u as int, time),
        forall|x: int, t2: i32| 0 <= x < old(state).intervals@.len() && #[trigger] covered(*old(state), x, t2)
            ==> covered(*final(state), x, t2),
{
    let idx = insertion_index(&state.intervals[u], time);
    let len = state.intervals[u].len();
    if idx < len && state.intervals[u][idx].0 == time {
        assert(state.intervals@[u as int]@[idx as int].0 == time);
        return false;
    }
    if idx == 0 {
        return false;
    }
    let ghost s0 = *state;
    let ghost is0 = state.intervals@[u as int]@;
    let old_end: i32 = state.intervals[u][idx - 1].1;
    let prev_start: i32 = state.intervals[u][idx - 1].0;
    state.intervals[u].set(idx - 1, (prev_start, time));
    state.intervals[u].insert(idx, (time, old_end));
    proof {
        let is1 = state.intervals@[u as int]@;
        assert(is1 =~= is0.update(idx - 1, (prev_start, time)).insert(idx as int, (time, old_end)));
        assert forall|i: int, j: int| 0 <= i < j < is1.len() implies (#[trigger] is1[i]).0 < (#[trigger] is1[j]).0 by {
            let si = if i < idx { is0[i].0 } else if i == idx { time } else { is0[i - 1].0 };
            let sj = if j < idx { is0[j].0 } else if j == idx { time } else { is0[j - 1].0 };
            assert(is1[i].0 == si);
            assert(is1[j].0 == sj);
            if j == idx {
                assert(is0[i].0 < time);
            } else if i == idx {
                assert(is0[j - 1].0 >= is0[idx as int].0);
                assert(is0[idx as int].0 > time);
            } else if i < idx && j > idx {
                assert(is0[i].0 < time);
                assert(is0[j - 1].0 >= is0[idx as int].0);
            }
        }
        assert(is1[0].0 == is0[0].0);
        assert forall|x: int| 0 <= x < s0.intervals@.len() implies (#[trigger] state.intervals@[x])@.len() >= 1 && starts_increase(state.intervals@[x]@) by {
            if x != u {
                assert(state.intervals@[x] == s0.intervals@[x]);
            }
        }
        assert forall|t: int, v: int| valid_tv(p@, t, v) implies (#[trigger] state.intervals@[flat(p@, t, v)])@[0].0 == p@.trains@[t].visits@[v].earliest by {
            lemma_flat_bounds(p@, t, v);
            if flat(p@, t, v) != u {
                assert(state.intervals@[flat(p@, t, v)] == s0.intervals@[flat(p@, t, v)]);
            }
        }
        assert(is1[idx as int].0 == time);
        assert forall|x: int, t2: i32| 0 <= x < s0.intervals@.len() && #[trigger] covered(s0, x, t2)
            implies covered(*state, x, t2) by {
            if x != u {
                assert(state.intervals@[x] == s0.intervals@[x]);
            } else if t2 < is0[0].0 {
                assert(is1[0].0 == is0[0].0);
            } else {
                let i = choose|i: int| 0 <= i < is0.len() && #[trigger] is0[i].0 == t2;
                if i < idx {
                    assert(is1[i].0 == is0[i].0);
                } else {
                    assert(is1[i + 1].0 == is0[i].0);
                }
            }
        }
    }
    true
}

/// Every travel time holds in the schedule.
pub open spec fn travel_kept(p: Problem, rows: Seq<Vec<i32>>) -> bool {
    forall|t: int, v: int| valid_tv(p, t, v) && v + 1 < p.trains@[t].visits@.len()
        ==> #[trigger] rows[t]@[v] + trav(p, t, v) <= rows[t]@[v + 1]
}

/// A selection below the model whose schedule breaks a travel time.
pub open spec fn travel_broken(
    p: Problem,
    st: IntervalState,
    m: IntervalModel,
    bits: Seq<bool>,
    sel: Seq<usize>,
    rows: Seq<Vec<i32>>,
) -> bool {
    &&& below_model(st, m, bits, sel)
    &&& irows_of(p, st, sel, rows)
    &&& !travel_kept(p, rows)
}

/// The time at which visit `a` is left in the schedule: the start of the
/// next visit of its train, or the end.
pub open spec fn next_time(st: IntervalState, rows: Seq<Vec<i32>>, a: int) -> i32 {
    rows[st.occ_tv@[a].0 as int]@[st.occ_tv@[a].1 + 1]
}

/// A round that refines: a selection below the model whose schedule keeps
/// the travel times has a pair of visits in conflict that overlap, and the
/// refined state `st1` has, for each of the two, the time at which the
/// other is left among its interval starts (or before the first).
pub open spec fn refine_conflict(
    p: Problem,
    st0: IntervalState,
    st1: IntervalState,
    m: IntervalModel,
    bits: Seq<bool>,
    sel: Seq<usize>,
    rows: Seq<Vec<i32>>,
) -> bool {
    &&& below_model(st0, m, bits, sel)
    &&& irows_of(p, st0, sel, rows)
    &&& travel_kept(p, rows)
    &&& exists|k: int| 0 <= k < st0.visit_conflicts@.len() && {
        let e = #[trigger] st0.visit_conflicts@[k];
        &&& !rows_separated(st0, rows, e.0 as int, e.1 as int)
        &&& covered(st1, e.1 as int, next_time(st0, rows, e.0 as int))
        &&& covered(st1, e.0 as int, next_time(st0, rows, e.1 as int))
    }
}

/// The times that a new start `time` of visit `u` carries on to the next
/// `j` visits of its train: `time`, then each plus the travel time of the
/// visit before.
pub open spec fn chain_time(p: Problem, st: IntervalState, u: int, time: int, j: nat) -> int
    decreases j,
{
    if j == 0 {
        time
    } else {
        let w = u + j - 1;
        chain_time(p, st, u, time, (j - 1) as nat) + trav(p, st.occ_tv@[w].0 as int, st.occ_tv@[w].1 as int)
    }
}

/// Visits `u` to `u + j - 1` each have a next visit in their train.
pub open spec fn run_ok(p: Problem, st: IntervalState, u: int, j: nat) -> bool {
    forall|k: int| 0 <= k < j ==> {
        let w = #[trigger] st.occ_tv@[u + k];
        0 <= u + k < st.occ_tv@.len() && w.1 + 1 < p.trains@[w.0 as int].visits@.len()
    }
}

/// The times carried on from `time` at visit `u` fit in `i32` up to the
/// `j`-th.
pub open spec fn chain_fits(p: Problem, st: IntervalState, u: int, time: int, j: nat) -> bool {
    forall|i: nat| i <= j ==> i32::MIN <= #[trigger] chain_time(p, st, u, time, i) <= i32::MAX
}

/// Carrying a new start `time` of visit `u` on through the travel times of
/// the following visits of its train leaves `i32`.
pub open spec fn chain_overflows(p: Problem, st: IntervalState, u: int, time: int) -> bool {
    exists|j: nat| run_ok(p, st, u, j + 1) && chain_fits(p, st, u, time, j)
        && !(i32::MIN <= #[trigger] chain_time(p, st, u, time, j + 1) <= i32::MAX)
}

/// Two visits in conflict overlap in the schedule, and the new start that
/// one of them gets from the other, carried on, leaves `i32`.
pub open spec fn conflict_chain_overflow(p: Problem, st: IntervalState, rows: Seq<Vec<i32>>) -> bool {
    exists|k: int| 0 <= k < st.visit_conflicts@.len() && {
        let e = #[trigger] st.visit_conflicts@[k];
        &&& !rows_separated(st, rows, e.0 as int, e.1 as int)
        &&& (chain_overflows(p, st, e.1 as int, next_time(st, rows, e.0 as int) as int)
            || chain_overflows(p, st, e.0 as int, next_time(st, rows, e.1 as int) as int))
    }
}

/// A round may run out of `i32` for selection `sel` below the model: its
/// schedule leaves `i32`, or its schedule keeps the travel times and a new
/// interval start it asks for, carried on, leaves `i32`.
pub open spec fn refine_overflow_at(
    p: Problem,
    st: IntervalState,
    m: IntervalModel,
    bits: Seq<bool>,
    sel: Seq<usize>,
) -> bool {
    &&& below_model(st, m, bits, sel)
    &&& (irows_overflow(p, st, sel) || exists|rows: Seq<Vec<i32>>|
        #[trigger] irows_of(p, st, sel, rows) && travel_kept(p, rows) && conflict_chain_overflow(p, st, rows))
}

/// A group of the round names a pair of visits in conflict that overlap.
pub open spec fn group_conflict(st: IntervalState, rows: Seq<Vec<i32>>, g: (usize, usize, usize, usize)) -> bool {
    exists|k2: int| 0 <= k2 < st.visit_conflicts@.len() && #[trigger] st.visit_conflicts@[k2] == (g.2, g.3)
        && !rows_separated(st, rows, g.2 as int, g.3 as int)
}

/// Entry `m` of the queue of new starts is one of the first `2 * ng`
/// entries carried on `j` visits.
pub open spec fn queued_in_chain(p: Problem, st: IntervalState, q: Seq<(usize, i32)>, ng: int, m: int) -> bool {
    exists|g: int, j: nat|
        0 <= g < 2 * ng && q[m].0 == q[g].0 + j && q[m].1 == #[trigger] chain_time(p, st, q[g].0 as int, q[g].1 as int, j)
            && run_ok(p, st, q[g].0 as int, j) && chain_fits(p, st, q[g].0 as int, q[g].1 as int, j)
}

/// One round of the refinement that rebuilds the formula, given the model
/// the solver found for `model`. The first interval that the model sets is
/// chosen for each visit (`NoSolution` when a visit has none), the choices
/// move earlier while no exclusion stops them, and their schedule is taken.
/// A travel time that the schedule breaks gives `NoSolution`. For every
/// pair of trains with visits in conflict that overlap, the pair of such
/// visits with the least summed visit indices gets, each of the two, a new
/// interval from the other's next time; a new interval also adds one for the
/// train's next visit, from its start plus the travel time. Without such a
/// pair the schedule is returned; otherwise the intervals are refined and
/// `None` asks for another round. `OutOfMemory` when a time leaves `i32`.
pub fn maxsat_ddd_refine(
    problem: &Problem,
    state: &mut IntervalState,
    model: &IntervalModel,
    bits: &Vec<bool>,
) -> (r: Result<Option<Vec<Vec<i32>>>, SolverError>)
    requires
        interval_state_wf(*old(state), *problem),
        model_wf(*model, *old(state)),
    ensures
        interval_state_wf(*final(state), *problem),
        final(state).delay_cost_type == old(state).delay_cost_type,
        !ireads_all(*model, bits@) ==> (r matches Err(e) && e == SolverError::NoSolution),
        r matches Err(e) ==> e == SolverError::NoSolution || e == SolverError::OutOfMemory,
        (r matches Err(e) && e == SolverError::NoSolution) ==> !ireads_all(*model, bits@) || exists|
            sel: Seq<usize>,
            rows: Seq<Vec<i32>>,
        | #[trigger] travel_broken(*problem, *old(state), *model, bits@, sel, rows),
        r matches Ok(Some(rows)) ==> *final(state) == *old(state) && exists|sel: Seq<usize>|
            below_model(*old(state), *model, bits@, sel) && #[trigger] interval_done(*problem, *old(state), sel, rows@),
        r matches Ok(Some(rows)) ==> (travel_nonneg(*problem) ==> feasible(*problem, rows@)),
        r matches Ok(None) ==> exists|sel: Seq<usize>, rows: Seq<Vec<i32>>|
            #[trigger] refine_conflict(*problem, *old(state), *final(state), *model, bits@, sel, rows),
        (r matches Err(e) && e == SolverError::OutOfMemory) ==> exists|sel: Seq<usize>|
            #[trigger] refine_overflow_at(*problem, *old(state), *model, bits@, sel),
{
    let ghost p = *problem;
    let mut sel = match iselect(state, model, bits) {
        Some(x) => x,
        None => {
            return Err(SolverError::NoSolution);
        },
    };
    let ghost sel0 = sel@;
    iminimize(state, model, &mut sel);
    proof {
        assert forall|u: int, i: int| 0 <= u < sel@.len() && #[trigger] ifirst(*model, bits@, u, i) implies sel@[u] <= i by {
            assert(ifirst(*model, bits@, u, sel0[u] as int));
            if i < sel0[u] {
                assert(!bits@[model.t_vars@[u]@[i] - 1]);
            } else if i > sel0[u] {
                assert(!bits@[model.t_vars@[u]@[sel0[u] as int] - 1]);
            }
        }
        assert(below_model(*state, *model, bits@, sel@));
    }
    let rows = match irows(problem, state, &sel) {
        Some(x) => x,
        None => {
            assert(refine_overflow_at(p, *state, *model, bits@, sel@));
            return Err(SolverError::OutOfMemory);
        },
    };
    // Travel times.
    let n: usize = state.intervals.len();
    let mut u: usize = 0;
    while u < n
        invariant
            p == *problem,
            n == state.intervals@.len(),
            interval_state_wf(*state, p),
            iselection_ok(*state, sel@),
            irows_of(p, *state, sel@, rows@),
            below_model(*state, *model, bits@, sel@),
            u <= n,
            forall|t: int, v: int| valid_tv(p, t, v) && v + 1 < p.trains@[t].visits@.len() && flat(p, t, v) < u
                ==> #[trigger] rows@[t]@[v] + trav(p, t, v) <= rows@[t]@[v + 1],
        decreases n - u,
    {
        let (t, v) = state.occ_tv[u];
        proof {
            assert(valid_tv(p, t as int, v as int));
        }
        if v + 1 < problem.trains[t].visits.len() {
            let dt: i32 = problem.trains[t].visits[v].travel_time;
            if rows[t][v] as i64 + dt as i64 > rows[t][v + 1] as i64 {
                proof {
                    assert(!travel_kept(p, rows@)) by {
                        assert(rows@[t as int]@[v as int] + trav(p, t as int, v as int) > rows@[t as int]@[v + 1]);
                    }
                    assert(travel_broken(p, *state, *model, bits@, sel@, rows@));
                }
                return Err(SolverError::NoSolution);
            }
        }
        proof {
            assert forall|t1: int, v1: int| valid_tv(p, t1, v1) && v1 + 1 < p.trains@[t1].visits@.len() && flat(p, t1, v1) < u + 1
                implies #[trigger] rows@[t1]@[v1] + trav(p, t1, v1) <= rows@[t1]@[v1 + 1] by {
                if flat(p, t1, v1) == u {
                    lemma_flat_injective(p, t1, v1, t as int, v as int);
                }
            }
        }
        u = u + 1;
    }
    proof {
        assert forall|t: int, v: int| valid_tv(p, t, v) && v + 1 < p.trains@[t].visits@.len()
            implies #[trigger] rows@[t]@[v] + trav(p, t, v) <= rows@[t]@[v + 1] by {
            lemma_flat_bounds(p, t, v);
        }
    }
    // Visits in conflict that overlap: per pair of trains, the pair of
    // visits with the least summed indices.
    let mut groups: Vec<(usize, usize, usize, usize)> = Vec::new();
    let mut k: usize = 0;
    while k < state.visit_conflicts.len()
        invariant
            p == *problem,
            n == state.intervals@.len(),
            interval_state_wf(*state, p),
            irows_of(p, *state, sel@, rows@),
            iselection_ok(*state, sel@),
            forall|t: int, v: int| valid_tv(p, t, v) && v + 1 < p.trains@[t].visits@.len()
                ==> #[trigger] rows@[t]@[v] + trav(p, t, v) <= rows@[t]@[v + 1],
            k <= state.visit_conflicts@.len(),
            forall|j: int| 0 <= j < groups@.len() ==> (#[trigger] groups@[j]).2 < n && groups@[j].3 < n,
            forall|j: int| 0 <= j < groups@.len() ==> exists|k2: int| 0 <= k2 < state.visit_conflicts@.len()
                && #[trigger] state.visit_conflicts@[k2] == ((#[trigger] groups@[j]).2, groups@[j].3)
                && !rows_separated(*state, rows@, groups@[j].2 as int, groups@[j].3 as int),
            groups@.len() == 0 ==> forall|j: int| 0 <= j < k ==> rows_separated(*state, rows@, (#[trigger] state.visit_conflicts@[j]).0 as int, state.visit_conflicts@[j].1 as int),
        decreases state.visit_conflicts@.len() - k,
    {
        let (a, b) = state.visit_conflicts[k];
        let (ta, va) = state.occ_tv[a];
        let (tb, vb) = state.occ_tv[b];
        proof {
            assert(valid_tv(p, ta as int, va as int));
            assert(valid_tv(p, tb as int, vb as int));
        }
        let gap1: i64 = rows[tb][vb] as i64 - rows[ta][va + 1] as i64;
        let gap2: i64 = rows[ta][va] as i64 - rows[tb][vb + 1] as i64;
        if !(gap1 >= 0 || gap2 >= 0) {
            let mut j: usize = 0;
            while j < groups.len() && !(groups[j].0 == ta && groups[j].1 == tb)
                invariant
                    j <= groups@.len(),
                decreases groups@.len() - j,
            {
                j = j + 1;
            }
            proof {
                assert(!rows_separated(*state, rows@, a as int, b as int));
                assert(state.visit_conflicts@[k as int] == (a, b));
            }
            let ghost g0 = groups@;
            if j < groups.len() {
                let (_, _, a0, b0) = groups[j];
                let s0: u128 = state.occ_tv[a0].1 as u128 + state.occ_tv[b0].1 as u128;
                if (va as u128) + (vb as u128) < s0 {
                    groups.set(j, (ta, tb, a, b));
                }
            } else {
                groups.push((ta, tb, a, b));
            }
            proof {
                assert forall|j2: int| 0 <= j2 < groups@.len() implies exists|k2: int| 0 <= k2 < state.visit_conflicts@.len()
                    && #[trigger] state.visit_conflicts@[k2] == ((#[trigger] groups@[j2]).2, groups@[j2].3)
                    && !rows_separated(*state, rows@, groups@[j2].2 as int, groups@[j2].3 as int) by {
                    if j2 < g0.len() && groups@[j2] == g0[j2] {
                    } else {
                        assert(groups@[j2] == (ta, tb, a, b));
                        assert(state.visit_conflicts@[k as int] == (groups@[j2].2, groups@[j2].3));
                    }
                }
            }
        }
        k = k + 1;
    }
    if groups.len() == 0 {
        proof {
            assert forall|t: int, v: int| valid_tv(p, t, v) implies #[trigger] rows@[t]@[v] >= p.trains@[t].visits@[v].earliest by {
                let u = flat(p, t, v);
                lemma_flat_bounds(p, t, v);
                assert(state.intervals@[u]@[0].0 == p.trains@[t].visits@[v].earliest);
                if sel@[u] > 0 {
                    assert(starts_increase(state.intervals@[u]@));
                    assert(state.intervals@[u]@[0].0 < state.intervals@[u]@[sel@[u] as int].0);
                }
            }
            assert(interval_done(p, *state, sel@, rows@));
            if travel_nonneg(p) {
                interval_done_is_feasible(p, *state, sel@, rows@);
            }
        }
        return Ok(Some(rows));
    }
    let ghost st0 = *state;
    let ghost pre = below_model(st0, *model, bits@, sel@) && irows_of(p, st0, sel@, rows@) && travel_kept(p, rows@);
    assert(pre);
    proof {
        assert forall|j2: int| 0 <= j2 < groups@.len() implies group_conflict(st0, rows@, #[trigger] groups@[j2]) by {
            let k2 = choose|k2: int| 0 <= k2 < state.visit_conflicts@.len()
                && #[trigger] state.visit_conflicts@[k2] == ((#[trigger] groups@[j2]).2, groups@[j2].3)
                && !rows_separated(*state, rows@, groups@[j2].2 as int, groups@[j2].3 as int);
            assert(st0.visit_conflicts@[k2] == (groups@[j2].2, groups@[j2].3));
        }
    }
    let mut q: Vec<(usize, i32)> = Vec::new();
    let mut j: usize = 0;
    while j < groups.len()
        invariant
            p == *problem,
            st0 == *state,
            n == state.intervals@.len(),
            interval_state_wf(*state, p),
            irows_of(p, *state, sel@, rows@),
            forall|j: int| 0 <= j < groups@.len() ==> (#[trigger] groups@[j]).2 < n && groups@[j].3 < n,
            forall|k: int| 0 <= k < q@.len() ==> (#[trigger] q@[k]).0 < n,
            forall|j2: int| 0 <= j2 < groups@.len() ==> group_conflict(st0, rows@, #[trigger] groups@[j2]),
            j <= groups@.len(),
            q@.len() == 2 * j,
            forall|j2: int| 0 <= j2 < j ==> q@[2 * j2] == ((#[trigger] groups@[j2]).3, next_time(st0, rows@, groups@[j2].2 as int))
                && q@[2 * j2 + 1] == (groups@[j2].2, next_time(st0, rows@, groups@[j2].3 as int)),
        decreases groups@.len() - j,
    {
        let (_, _, a, b) = groups[j];
        let (ta, va) = state.occ_tv[a];
        let (tb, vb) = state.occ_tv[b];
        proof {
            assert(valid_tv(p, ta as int, va as int));
            assert(valid_tv(p, tb as int, vb as int));
        }
        q.push((b, rows[ta][va + 1]));
        q.push((a, rows[tb][vb + 1]));
        j = j + 1;
    }
    // Refine the intervals.
    let ghost tv = state.occ_tv@;
    let ghost ng = groups@.len();
    proof {
        assert forall|m: int| 0 <= m < q@.len() implies #[trigger] queued_in_chain(p, st0, q@, ng as int, m) by {
            assert(chain_time(p, st0, q@[m].0 as int, q@[m].1 as int, 0) == q@[m].1);
            assert(chain_fits(p, st0, q@[m].0 as int, q@[m].1 as int, 0));
            assert(run_ok(p, st0, q@[m].0 as int, 0));
        }
    }
    let mut qi: usize = 0;
    while qi < q.len()
        invariant
            p == *problem,
            n == state.intervals@.len(),
            tv == state.occ_tv@,
            tv == st0.occ_tv@,
            state.visit_conflicts == st0.visit_conflicts,
            interval_state_wf(*state, p),
            state.delay_cost_type == old(state).delay_cost_type,
            qi <= q@.len(),
            forall|k: int| 0 <= k < q@.len() ==> (#[trigger] q@[k]).0 < n,
            ng == groups@.len(),
            pre,
            ireads_all(*model, bits@),
            q@.len() >= 2 * ng,
            forall|j2: int| 0 <= j2 < ng ==> q@[2 * j2] == ((#[trigger] groups@[j2]).3, next_time(st0, rows@, groups@[j2].2 as int))
                && q@[2 * j2 + 1] == (groups@[j2].2, next_time(st0, rows@, groups@[j2].3 as int)),
            forall|k: int| 0 <= k < qi ==> #[trigger] covered(*state, q@[k].0 as int, q@[k].1),
            forall|m: int| 0 <= m < q@.len() ==> #[trigger] queued_in_chain(p, st0, q@, ng as int, m),
            below_model(st0, *model, bits@, sel@),
            irows_of(p, st0, sel@, rows@),
            travel_kept(p, rows@),
            st0 == *old(state),
            forall|j2: int| 0 <= j2 < groups@.len() ==> group_conflict(st0, rows@, #[trigger] groups@[j2]),
        decreases qweight(p, tv, q@.skip(qi as int)),
    {
        proof {
            lemma_qweight_front(p, tv, q@.skip(qi as int));
            assert(q@.skip(qi as int).skip(1) =~= q@.skip(qi + 1));
        }
        let (u, time) = q[qi];
        let ghost sb = *state;
        let split = split_interval(state, Ghost(p), u, time);
        proof {
            assert forall|k: int| 0 <= k < qi + 1 implies #[trigger] covered(*state, q@[k].0 as int, q@[k].1) by {
                if k < qi {
                    assert(covered(sb, q@[k].0 as int, q@[k].1));
                }
            }
        }
        qi = qi + 1;
        if !split {
            continue;
        }
        let (t, v) = state.occ_tv[u];
        proof {
            assert(valid_tv(p, t as int, v as int));
        }
        if v + 1 < problem.trains[t].visits.len() {
            proof {
                lemma_flat_bounds(p, t as int, v + 1);
            }
            let next: i64 = time as i64 + problem.trains[t].visits[v].travel_time as i64;
            let ghost pi = (qi - 1) as int;
            proof {
                assert(q@[pi] == (u, time));
                assert(queued_in_chain(p, st0, q@, ng as int, pi));
            }
            let ghost (g, jc) = choose|g: int, j: nat|
                0 <= g < 2 * ng && q@[pi].0 == q@[g].0 + j && q@[pi].1 == #[trigger] chain_time(p, st0, q@[g].0 as int, q@[g].1 as int, j)
                    && run_ok(p, st0, q@[g].0 as int, j) && chain_fits(p, st0, q@[g].0 as int, q@[g].1 as int, j);
            proof {
                let g0 = q@[g].0 as int;
                let t0 = q@[g].1 as int;
                assert(chain_time(p, st0, g0, t0, jc + 1) == next);
                assert(run_ok(p, st0, g0, jc + 1)) by {
                    assert forall|k: int| 0 <= k < jc + 1 implies {
                        let w = #[trigger] st0.occ_tv@[g0 + k];
                        0 <= g0 + k < st0.occ_tv@.len() && w.1 + 1 < p.trains@[w.0 as int].visits@.len()
                    } by {
                        if k == jc {
                            assert(st0.occ_tv@[g0 + k] == (t, v));
                        } else {
                            assert(run_ok(p, st0, g0, jc));
                        }
                    }
                }
            }
            if next < i32::MIN as i64 || next > i32::MAX as i64 {
                proof {
                    let g0 = q@[g].0 as int;
                    let t0 = q@[g].1 as int;
                    assert(chain_overflows(p, st0, g0, t0));
                    let jj = g / 2;
                    assert(0 <= jj < ng);
                    let grp = groups@[jj];
                    assert(group_conflict(st0, rows@, grp));
                    let k2 = choose|k2: int| 0 <= k2 < st0.visit_conflicts@.len()
                        && #[trigger] st0.visit_conflicts@[k2] == (grp.2, grp.3)
                        && !rows_separated(st0, rows@, grp.2 as int, grp.3 as int);
                    if g == 2 * jj {
                        assert(q@[2 * jj] == (grp.3, next_time(st0, rows@, grp.2 as int)));
                    } else {
                        assert(g == 2 * jj + 1);
                        assert(q@[2 * jj + 1] == (grp.2, next_time(st0, rows@, grp.3 as int)));
                    }
                    assert(st0.visit_conflicts@[k2] == (grp.2, grp.3));
                    assert(conflict_chain_overflow(p, st0, rows@));
                    assert(pre);
                    assert(irows_of(p, st0, sel@, rows@) && travel_kept(p, rows@) && conflict_chain_overflow(p, st0, rows@));
                    assert(below_model(st0, *model, bits@, sel@));
                    assert(refine_overflow_at(p, st0, *model, bits@, sel@));
                    assert(st0 == *old(state));
                }
                return Err(SolverError::OutOfMemory);
            }
            let ghost q0 = q@;
            q.push((u + 1, next as i32));
            proof {
                let g0 = q0[g].0 as int;
                let t0 = q0[g].1 as int;
                assert(chain_fits(p, st0, g0, t0, jc + 1)) by {
                    assert forall|i: nat| i <= jc + 1 implies i32::MIN <= #[trigger] chain_time(p, st0, g0, t0, i) <= i32::MAX by {
                        if i <= jc {
                            assert(chain_fits(p, st0, g0, t0, jc));
                        }
                    }
                }
                assert forall|m: int| 0 <= m < q@.len() implies #[trigger] queued_in_chain(p, st0, q@, ng as int, m) by {
                    if m < q0.len() {
                        assert(queued_in_chain(p, st0, q0, ng as int, m));
                        let (g1, j1) = choose|g1: int, j1: nat|
                            0 <= g1 < 2 * ng && q0[m].0 == q0[g1].0 + j1 && q0[m].1 == #[trigger] chain_time(p, st0, q0[g1].0 as int, q0[g1].1 as int, j1)
                                && run_ok(p, st0, q0[g1].0 as int, j1) && chain_fits(p, st0, q0[g1].0 as int, q0[g1].1 as int, j1);
                        assert(q@[m] == q0[m] && q@[g1] == q0[g1]);
                        assert(q@[m].1 == chain_time(p, st0, q@[g1].0 as int, q@[g1].1 as int, j1));
                    } else {
                        assert(q@[m] == ((u + 1) as usize, next as i32));
                        assert(q@[g] == q0[g]);
                        assert(q@[m].1 == chain_time(p, st0, q@[g].0 as int, q@[g].1 as int, jc + 1));
                    }
                }
                assert forall|k: int| 0 <= k < qi implies #[trigger] covered(*state, q@[k].0 as int, q@[k].1) by {
                    assert(q@[k] == q0[k]);
                }
                assert forall|j2: int| 0 <= j2 < ng implies q@[2 * j2] == ((#[trigger] groups@[j2]).3, next_time(st0, rows@, groups@[j2].2 as int))
                    && q@[2 * j2 + 1] == (groups@[j2].2, next_time(st0, rows@, groups@[j2].3 as int)) by {
                    assert(q@[2 * j2] == q0[2 * j2]);
                    assert(q@[2 * j2 + 1] == q0[2 * j2 + 1]);
                }
                assert(flat(p, tv[u + 1].0 as int, tv[u + 1].1 as int) == u + 1);
                lemma_flat_injective(p, tv[u + 1].0 as int, tv[u + 1].1 as int, t as int, v + 1);
                assert(q@.skip(qi as int) =~= q0.skip(qi as int).push(((u + 1) as usize, next as i32)));
                assert(q@.skip(qi as int).drop_last() =~= q0.skip(qi as int));
            }
        }
    }
    proof {
        assert(ng > 0);
        let g = groups@[0];
        assert(q@[0] == (g.3, next_time(st0, rows@, g.2 as int)) && q@[1] == (g.2, next_time(st0, rows@, g.3 as int)));
        assert(covered(*state, q@[0].0 as int, q@[0].1));
        assert(covered(*state, q@[1].0 as int, q@[1].1));
        let k = choose|k2: int| 0 <= k2 < st0.visit_conflicts@.len()
            && #[trigger] st0.visit_conflicts@[k2] == (g.2, g.3)
            && !rows_separated(st0, rows@, g.2 as int, g.3 as int);
        assert(st0.visit_conflicts@[k] == (g.2, g.3));
        assert(refine_conflict(p, st0, *state, *model, bits@, sel@, rows@));
    }
    Ok(None)
}

/// The flat index of a visit names that visit.
proof fn lemma_occ_tv_of_flat(st: IntervalState, p: Problem, t: int, v: int)
    requires
        interval_state_wf(st, p),
        valid_tv(p, t, v),
    ensures
        st.occ_tv@[flat(p, t, v)].0 as int == t,
        st.occ_tv@[flat(p, t, v)].1 as int == v,
{
    lemma_flat_bounds(p, t, v);
    let u = flat(p, t, v);
    let (t2, v2) = st.occ_tv@[u];
    assert(valid_tv(p, t2 as int, v2 as int) && flat(p, t2 as int, v2 as int) == u);
    lemma_flat_injective(p, t2 as int, v2 as int, t, v);
}

/// Along a train whose travel times are kept and not negative, times do not
/// decrease.
proof fn lemma_rows_monotone(p: Problem, st: IntervalState, sel: Seq<usize>, rows: Seq<Vec<i32>>, t: int, j: int, k: int)
    requires
        interval_done(p, st, sel, rows),
        travel_nonneg(p),
        0 <= t < p.trains@.len(),
        0 <= j <= k <= p.trains@[t].visits@.len(),
    ensures
        rows[t]@[j] <= rows[t]@[k],
    decreases k - j,
{
    if j < k {
        lemma_rows_monotone(p, st, sel, rows, t, j, k - 1);
        let n = p.trains@[t].visits@.len() as int;
        assert(valid_tv(p, t, k - 1));
        assert(trav(p, t, k - 1) >= 0);
        if k < n {
            assert(rows[t]@[k - 1] + trav(p, t, k - 1) <= rows[t]@[k]);
        } else {
            assert(rows[t]@[n] == rows[t]@[n - 1] + trav(p, t, n - 1));
        }
    }
}

/// A schedule the refinement ends with is feasible for the problem when no
/// travel time is negative: every visit starts no earlier than its earliest
/// time and lasts its travel time, and no two visits to conflicting
/// resources overlap.
pub proof fn interval_done_is_feasible(p: Problem, st: IntervalState, sel: Seq<usize>, rows: Seq<Vec<i32>>)
    requires
        interval_state_wf(st, p),
        interval_done(p, st, sel, rows),
        travel_nonneg(p),
    ensures
        feasible(p, rows),
{
    assert forall|a: int, b: int| valid_visit(p, a, b) implies #[trigger] earliest_ok(p, rows, a, b) && visit_travel_ok(p, rows, a, b) by {
        assert(valid_tv(p, a, b));
        let n = p.trains@[a].visits@.len() as int;
        if b + 1 < n {
            assert(rows[a]@[b] + trav(p, a, b) <= rows[a]@[b + 1]);
        } else {
            assert(rows[a]@[n] == rows[a]@[n - 1] + trav(p, a, n - 1));
        }
    }
    assert forall|a: int, b: int, c: int, d: int| valid_visit(p, a, b) && valid_visit(p, c, d) implies !#[trigger] pair_conflict(p, rows, a, b, c, d) by {
        if (a != c || b != d) && p.conflicts@.contains((p.trains@[a].visits@[b].resource_id, p.trains@[c].visits@[d].resource_id)) {
            assert(valid_tv(p, a, b) && valid_tv(p, c, d));
            if a == c {
                if b < d {
                    lemma_rows_monotone(p, st, sel, rows, a, b + 1, d);
                } else {
                    lemma_rows_monotone(p, st, sel, rows, a, d + 1, b);
                }
            } else {
                lemma_flat_bounds(p, a, b);
                lemma_flat_bounds(p, c, d);
                lemma_occ_tv_of_flat(st, p, a, b);
                lemma_occ_tv_of_flat(st, p, c, d);
                let u1 = flat(p, a, b);
                let u2 = flat(p, c, d);
                if u1 == u2 {
                    lemma_flat_injective(p, a, b, c, d);
                }
                if u1 < u2 {
                    assert(st.visit_conflicts@.contains((u1 as usize, u2 as usize)));
                    let k = choose|k: int| 0 <= k < st.visit_conflicts@.len() && st.visit_conflicts@[k] == (u1 as usize, u2 as usize);
                    assert(rows_separated(st, rows, st.visit_conflicts@[k].0 as int, st.visit_conflicts@[k].1 as int));
                } else {
                    assert(st.visit_conflicts@.contains((u2 as usize, u1 as usize)));
                    let k = choose|k: int| 0 <= k < st.visit_conflicts@.len() && st.visit_conflicts@[k] == (u2 as usize, u1 as usize);
                    assert(rows_separated(st, rows, st.visit_conflicts@[k].0 as int, st.visit_conflicts@[k].1 as int));
                }
            }
        }
    }
}

} // verus!
