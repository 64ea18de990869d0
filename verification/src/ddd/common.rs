use vstd::prelude::*;
use crate::ddd::costtree::CostTree;
use crate::ddd::lits::{BoolLit, add_bool_clause, solver_clause};
use crate::maxsatsolver::MaxSatSolver;
use crate::problem::Problem;

verus! {

/// The index of a visit in the flat numbering of all visits of all trains.
#[derive(Clone, Copy, Debug, PartialEq, Eq, Hash, Structural)]
pub struct VisitId(pub u32);

/// The index of a resource.
#[derive(Clone, Copy, Debug)]
pub struct ResourceId(pub u32);

impl From<VisitId> for usize {
    fn from(v: VisitId) -> (r: usize) {
        v.0 as usize
    }
}

impl vstd::std_specs::convert::FromSpecImpl<VisitId> for usize {
    open spec fn obeys_from_spec() -> bool {
        true
    }

    open spec fn from_spec(v: VisitId) -> usize {
        v.0 as usize
    }
}

impl From<usize> for VisitId {
    fn from(x: usize) -> (r: VisitId) {
        VisitId(x as u32)
    }
}

impl vstd::std_specs::convert::FromSpecImpl<usize> for VisitId {
    open spec fn obeys_from_spec() -> bool {
        true
    }

    open spec fn from_spec(x: usize) -> VisitId {
        VisitId(x as u32)
    }
}

impl From<ResourceId> for usize {
    fn from(v: ResourceId) -> (r: usize) {
        v.0 as usize
    }
}

impl vstd::std_specs::convert::FromSpecImpl<ResourceId> for usize {
    open spec fn obeys_from_spec() -> bool {
        true
    }

    open spec fn from_spec(v: ResourceId) -> usize {
        v.0 as usize
    }
}

impl From<usize> for ResourceId {
    fn from(x: usize) -> (r: ResourceId) {
        ResourceId(x as u32)
    }
}

impl vstd::std_specs::convert::FromSpecImpl<usize> for ResourceId {
    open spec fn obeys_from_spec() -> bool {
        true
    }

    open spec fn from_spec(x: usize) -> ResourceId {
        ResourceId(x as u32)
    }
}

/// What an iteration of a DDD solver found.
#[derive(PartialEq, Eq, PartialOrd, Ord, Debug)]
pub enum IterationType {
    Objective,
    TravelTimeConflict,
    ResourceConflict,
    TravelAndResourceConflict,
    Solution,
}

/// Counters reported by the DDD solvers.
pub struct SolveStats {
    pub n_sat: usize,
    pub n_unsat: usize,
    pub n_travel: usize,
    pub n_conflict: usize,
    pub satsolver: String,
}

impl Default for SolveStats {
    fn default() -> (r: Self)
        ensures
            r.n_sat == 0,
            r.n_unsat == 0,
            r.n_travel == 0,
            r.n_conflict == 0,
            r.satsolver@ == Seq::<char>::empty(),
    {
        SolveStats { n_sat: 0, n_unsat: 0, n_travel: 0, n_conflict: 0, satsolver: String::new() }
    }
}

/// How delay costs are encoded.
#[derive(Clone, Copy)]
pub enum CostMode {
    Ladder,
    CostTree,
}

/// The encoding of one visit's start time: its cost literals, its cost
/// tree, and its time points, each a literal that means "the visit starts
/// at this time or later", in increasing order of time; `incumbent_idx`
/// is the time point of the current solution.
pub struct Occ {
    pub cost: Vec<BoolLit>,
    pub cost_tree: CostTree,
    pub delays: Vec<(BoolLit, i32)>,
    pub incumbent_idx: usize,
}

/// The time points are in strictly increasing order of time.
pub open spec fn times_sorted(d: Seq<(BoolLit, i32)>) -> bool {
    forall|i: int, j: int| 0 <= i < j < d.len() ==> #[trigger] d[i].1 < #[trigger] d[j].1
}

/// The number of leading time points before time `t`.
pub open spec fn count_before(d: Seq<(BoolLit, i32)>, t: i32) -> int
    decreases d.len(),
{
    if d.len() == 0 {
        0
    } else if d[0].1 < t {
        1 + count_before(d.drop_first(), t)
    } else {
        0
    }
}

/// The literals of the time points name no variable beyond `n`.
pub open spec fn delays_within(d: Seq<(BoolLit, i32)>, n: int) -> bool {
    forall|i: int| 0 <= i < d.len() ==> (#[trigger] d[i]).0.within(n)
}

/// On sorted time points, the points before `t` are exactly the first
/// `count_before` ones.
proof fn lemma_count_before(d: Seq<(BoolLit, i32)>, t: i32)
    requires
        times_sorted(d),
    ensures
        0 <= count_before(d, t) <= d.len(),
        forall|i: int| 0 <= i < count_before(d, t) ==> #[trigger] d[i].1 < t,
        forall|i: int| count_before(d, t) <= i < d.len() ==> #[trigger] d[i].1 >= t,
    decreases d.len(),
{
    if d.len() > 0 {
        let e = d.drop_first();
        assert forall|i: int, j: int| 0 <= i < j < e.len() implies #[trigger] e[i].1 < #[trigger] e[j].1 by {
            assert(e[i] == d[i + 1] && e[j] == d[j + 1]);
        }
        lemma_count_before(e, t);
        if d[0].1 < t {
            assert forall|i: int| 0 <= i < count_before(d, t) implies #[trigger] d[i].1 < t by {
                if i > 0 {
                    assert(d[i] == e[i - 1]);
                }
            }
            assert forall|i: int| count_before(d, t) <= i < d.len() implies #[trigger] d[i].1 >= t by {
                assert(d[i] == e[i - 1]);
            }
        } else {
            assert forall|i: int| count_before(d, t) <= i < d.len() implies #[trigger] d[i].1 >= t by {
                if i > 0 {
                    assert(d[0].1 < d[i].1);
                }
            }
        }
    }
}

/// Time point `t` is there already.
pub open spec fn tp_exists(d: Seq<(BoolLit, i32)>, t: i32) -> bool {
    d[count_before(d, t)].1 == t
}

/// The fresh variable of a new time point.
pub open spec fn tp_fresh(n0: int) -> BoolLit {
    BoolLit::Lit((n0 + 1) as isize)
}

/// The literal of time point `t`.
pub open spec fn tp_lit(d: Seq<(BoolLit, i32)>, t: i32, n0: int) -> BoolLit {
    if tp_exists(d, t) {
        d[count_before(d, t)].0
    } else {
        tp_fresh(n0)
    }
}

/// The time points after asking for `t`.
pub open spec fn tp_delays(d: Seq<(BoolLit, i32)>, t: i32, n0: int) -> Seq<(BoolLit, i32)> {
    if tp_exists(d, t) {
        d
    } else {
        d.insert(count_before(d, t), (tp_fresh(n0), t))
    }
}

/// The position of the current solution's point after asking for `t`.
pub open spec fn tp_incumbent(d: Seq<(BoolLit, i32)>, t: i32, inc: int) -> int {
    if !tp_exists(d, t) && count_before(d, t) <= inc {
        inc + 1
    } else {
        inc
    }
}

/// The number of variables after asking for `t`.
pub open spec fn tp_vars(d: Seq<(BoolLit, i32)>, t: i32, n0: int) -> int {
    if tp_exists(d, t) {
        n0
    } else {
        n0 + 1
    }
}

/// The hard clauses after asking for `t`: a new point implies the point
/// before it and is implied by the point after it.
pub open spec fn tp_hard(
    d: Seq<(BoolLit, i32)>,
    t: i32,
    n0: int,
    hard: Seq<Seq<isize>>,
) -> Seq<Seq<isize>> {
    let idx = count_before(d, t);
    let v = tp_fresh(n0);
    if tp_exists(d, t) {
        hard
    } else {
        let h1 = if idx > 0 {
            match solver_clause(seq![v.negated(), d[idx - 1].0]) {
                Some(x) => hard.push(x),
                None => hard,
            }
        } else {
            hard
        };
        match solver_clause(seq![d[idx].0.negated(), v]) {
            Some(x) => h1.push(x),
            None => h1,
        }
    }
}

/// Time point `t` can be asked for: the points are sorted, name only
/// variables up to `n0`, `t` lies between the first and the last, and the
/// current solution's point is one of them.
pub open spec fn tp_ok(d: Seq<(BoolLit, i32)>, inc: int, t: i32, n0: int) -> bool {
    &&& d.len() > 0
    &&& times_sorted(d)
    &&& d[0].1 <= t <= d.last().1
    &&& 0 <= inc < d.len()
    &&& delays_within(d, n0)
}

/// `x` is the time of one of the points.
pub open spec fn has_time(d: Seq<(BoolLit, i32)>, x: i32) -> bool {
    exists|i: int| 0 <= i < d.len() && (#[trigger] d[i]).1 == x
}

/// Asking for time point `t` keeps the points sorted and adds `t` to their
/// times, and no other time; the literal given back is that of the point at
/// `t`, and the point is new exactly when `t` was not among the times.
pub proof fn time_point_adds_time(d: Seq<(BoolLit, i32)>, inc: int, t: i32, n0: int)
    requires
        tp_ok(d, inc, t, n0),
    ensures
        times_sorted(tp_delays(d, t, n0)),
        forall|x: i32| #[trigger] has_time(tp_delays(d, t, n0), x) <==> has_time(d, x) || x == t,
        tp_delays(d, t, n0).contains((tp_lit(d, t, n0), t)),
        tp_exists(d, t) <==> has_time(d, t),
{
    lemma_count_before(d, t);
    let c = count_before(d, t);
    assert(c < d.len());
    if has_time(d, t) {
        let i = choose|i: int| 0 <= i < d.len() && (#[trigger] d[i]).1 == t;
        if i > c {
            assert(d[c].1 < d[i].1);
        }
        assert(i == c);
    }
    let d2 = tp_delays(d, t, n0);
    if tp_exists(d, t) {
        assert(d2[c] == d[c]);
    } else {
        let e = (tp_fresh(n0), t);
        assert(d2 == d.insert(c, e));
        assert(d2[c] == e);
        assert forall|i: int, j: int| 0 <= i < j < d2.len() implies #[trigger] d2[i].1 < #[trigger] d2[j].1 by {
            if i < c && j < c {
                assert(d2[i] == d[i] && d2[j] == d[j]);
            } else if i < c && j == c {
                assert(d2[i] == d[i]);
            } else if i < c {
                assert(d2[i] == d[i] && d2[j] == d[j - 1]);
            } else if i == c {
                assert(d2[j] == d[j - 1]);
            } else {
                assert(d2[i] == d[i - 1] && d2[j] == d[j - 1]);
            }
        }
        assert forall|x: i32| #[trigger] has_time(d2, x) <==> has_time(d, x) || x == t by {
            if has_time(d2, x) {
                let i = choose|i: int| 0 <= i < d2.len() && (#[trigger] d2[i]).1 == x;
                if i < c {
                    assert(d2[i] == d[i]);
                } else if i > c {
                    assert(d2[i] == d[i - 1]);
                }
            }
            if has_time(d, x) {
                let i = choose|i: int| 0 <= i < d.len() && (#[trigger] d[i]).1 == x;
                if i < c {
                    assert(d2[i] == d[i]);
                } else {
                    assert(d2[i + 1] == d[i]);
                }
            }
            if x == t {
                assert(d2[c].1 == x);
            }
        }
    }
}

impl Occ {
    /// The time of the current solution.
    pub fn incumbent_time(&self) -> (r: i32)
        requires
            self.incumbent_idx < self.delays@.len(),
        ensures
            r == self.delays@[self.incumbent_idx as int].1,
    {
        self.delays[self.incumbent_idx].1
    }

    /// The literal of time point `t`, added when it is new: `(lit, true)`
    /// for a new point with a fresh variable, inserted in order, that
    /// implies the point before it and is implied by the point after it;
    /// `(lit, false)` for a point that is there already. `t` may not lie
    /// before the first point or after the last one. The current solution's
    /// point stays the same.
    pub fn time_point<S: MaxSatSolver + ?Sized>(&mut self, solver: &mut S, t: i32) -> (r: (
        BoolLit,
        bool,
    ))
        requires
            tp_ok(
                old(self).delays@,
                old(self).incumbent_idx as int,
                t,
                old(solver).num_vars(),
            ),
            0 <= old(solver).num_vars() < isize::MAX,
        ensures
            ({
                let d = old(self).delays@;
                let n0 = old(solver).num_vars();
                let inc = old(self).incumbent_idx as int;
                &&& r == (tp_lit(d, t, n0), !tp_exists(d, t))
                &&& final(self).cost@ == old(self).cost@
                &&& final(self).cost_tree == old(self).cost_tree
                &&& final(self).delays@ == tp_delays(d, t, n0)
                &&& final(self).incumbent_idx == tp_incumbent(d, t, inc)
                &&& final(solver).num_vars() == tp_vars(d, t, n0)
                &&& final(solver).hard_clauses() == tp_hard(d, t, n0, old(solver).hard_clauses())
                &&& final(self).delays@[final(self).incumbent_idx as int] == d[inc]
                &&& final(self).delays@[0] == d[0]
                &&& final(self).delays@.last() == d.last()
                &&& r.0.within(final(solver).num_vars())
                &&& forall|t2: i32|
                    tp_ok(d, inc, t2, n0) ==> tp_ok(
                        final(self).delays@,
                        final(self).incumbent_idx as int,
                        t2,
                        final(solver).num_vars(),
                    )
            }),
    {
        let ghost d = self.delays@;
        proof {
            lemma_count_before(d, t);
        }
        // The first point at time `t` or later.
        let mut lo: usize = 0;
        let mut hi: usize = self.delays.len();
        while lo < hi
            invariant
                self.delays@ == d,
                times_sorted(d),
                0 <= lo <= hi <= d.len(),
                lo <= count_before(d, t) <= hi,
                0 <= count_before(d, t) <= d.len(),
                forall|i: int| 0 <= i < count_before(d, t) ==> #[trigger] d[i].1 < t,
                forall|i: int| count_before(d, t) <= i < d.len() ==> #[trigger] d[i].1 >= t,
            decreases hi - lo,
        {
            let mid = lo + (hi - lo) / 2;
            if self.delays[mid].1 < t {
                lo = mid + 1;
            } else {
                hi = mid;
            }
        }
        let idx = lo;
        let n = self.delays.len();
        if self.delays[idx].1 == t || (idx > 0 && self.delays[idx - 1].1 == t) {
            return (self.delays[idx].0, false);
        }
        let var = solver.new_var();
        let v = BoolLit::Lit(var);
        self.delays.insert(idx, (v, t));
        if idx <= self.incumbent_idx {
            self.incumbent_idx = self.incumbent_idx + 1;
        }
        if idx > 0 {
            let below = self.delays[idx - 1].0;
            let not_var = -var;
            let clause = vec![BoolLit::Lit(not_var), below];
            add_bool_clause(solver, clause.as_slice());
        }
        if idx < self.delays.len() {
            let above = self.delays[idx + 1].0;
            let clause = vec![above.not(), v];
            add_bool_clause(solver, clause.as_slice());
        }
        proof {
            let d2 = self.delays@;
            assert(d2 == d.insert(idx as int, (v, t)));
            assert(0 < idx < d.len());
            assert(d2[0] == d[0]);
            assert(d2[d2.len() - 1] == d[d.len() - 1]);
            assert forall|i: int, j: int| 0 <= i < j < d2.len() implies #[trigger] d2[i].1
                < #[trigger] d2[j].1 by {
                if i < idx && j < idx {
                    assert(d2[i] == d[i] && d2[j] == d[j]);
                } else if i < idx && j == idx {
                    assert(d2[i] == d[i]);
                } else if i < idx {
                    assert(d2[i] == d[i] && d2[j] == d[j - 1]);
                } else if i == idx {
                    assert(d2[j] == d[j - 1]);
                } else {
                    assert(d2[i] == d[i - 1] && d2[j] == d[j - 1]);
                }
            }
            assert forall|i: int| 0 <= i < d2.len() implies (#[trigger] d2[i]).0.within(
                solver.num_vars(),
            ) by {
                if i < idx {
                    assert(d2[i] == d[i]);
                } else if i > idx {
                    assert(d2[i] == d[i - 1]);
                }
            }
        }
        (v, true)
    }
}

/// The number of visits of the first `k` trains.
pub open spec fn visits_before(p: Problem, k: int) -> int
    decreases k,
{
    if k <= 0 {
        0
    } else {
        visits_before(p, k - 1) + p.trains@[k - 1].visits@.len()
    }
}

/// The times of train `t` in the current solution: the current time point
/// of each of its visits (numbered on from the visits of the trains before
/// it), then the time it leaves the last one.
pub open spec fn train_times(p: Problem, occ: Seq<Occ>, t: int) -> Seq<i32> {
    let base = visits_before(p, t);
    let n = p.trains@[t].visits@.len();
    let times = Seq::new(n, |v: int| occ[base + v].delays@[occ[base + v].incumbent_idx as int].1);
    times.push((times.last() + p.trains@[t].visits@[n - 1].travel_time) as i32)
}

/// A solution can be read off: one time-point table per visit, each with
/// the current solution's point among its points, each train with a visit,
/// and the last times plus travel fitting in `i32`.
pub open spec fn extract_ok(p: Problem, occ: Seq<Occ>) -> bool {
    &&& visits_before(p, p.trains@.len() as int) <= occ.len()
    &&& forall|i: int| 0 <= i < occ.len() ==> (#[trigger] occ[i]).incumbent_idx < occ[i].delays@.len()
    &&& forall|t: int| 0 <= t < p.trains@.len() ==> (#[trigger] p.trains@[t]).visits@.len() > 0
    &&& forall|t: int|
        0 <= t < p.trains@.len() ==> {
            let n = p.trains@[t].visits@.len();
            let o = occ[visits_before(p, t) + n - 1];
            i32::MIN <= (#[trigger] p.trains@[t]).visits@[n - 1].travel_time + o.delays@[o.incumbent_idx as int].1 <= i32::MAX
        }
}

/// More trains have no fewer visits.
proof fn lemma_visits_before_grow(p: Problem, a: int, b: int)
    requires
        0 <= a <= b,
    ensures
        visits_before(p, a) <= visits_before(p, b),
    decreases b - a,
{
    if a < b {
        lemma_visits_before_grow(p, a, b - 1);
    }
}

/// The solution that the current time points give: for each train, the
/// current time of each visit and then the time it leaves its last visit.
pub fn extract_solution(problem: &Problem, occupations: &Vec<Occ>) -> (r: Vec<Vec<i32>>)
    requires
        extract_ok(*problem, occupations@),
    ensures
        r@.len() == problem.trains@.len(),
        forall|t: int| 0 <= t < r@.len() ==> (#[trigger] r@[t])@ == train_times(*problem, occupations@, t),
{
    let p = problem;
    let n_occ = occupations.len();
    let mut trains: Vec<Vec<i32>> = Vec::new();
    let mut i: usize = 0;
    let mut t: usize = 0;
    while t < p.trains.len()
        invariant
            extract_ok(*p, occupations@),
            n_occ == occupations@.len(),
            t <= p.trains@.len(),
            i == visits_before(*p, t as int),
            trains@.len() == t,
            forall|q: int| 0 <= q < t ==> (#[trigger] trains@[q])@ == train_times(*p, occupations@, q),
        decreases p.trains@.len() - t,
    {
        proof {
            lemma_visits_before_grow(*p, t + 1, p.trains@.len() as int);
        }
        let n = p.trains[t].visits.len();
        let mut times: Vec<i32> = Vec::new();
        let mut v: usize = 0;
        while v < n
            invariant
                extract_ok(*p, occupations@),
                t < p.trains@.len(),
                n == p.trains@[t as int].visits@.len(),
                visits_before(*p, t + 1) <= occupations@.len(),
                n_occ == occupations@.len(),
                i == visits_before(*p, t as int) + v,
                v <= n,
                times@ == Seq::new(
                    v as nat,
                    |w: int| occupations@[visits_before(*p, t as int) + w].delays@[occupations@[visits_before(*p, t as int) + w].incumbent_idx as int].1,
                ),
            decreases n - v,
        {
            times.push(occupations[i].incumbent_time());
            proof {
                assert(times@ =~= Seq::new(
                    (v + 1) as nat,
                    |w: int| occupations@[visits_before(*p, t as int) + w].delays@[occupations@[visits_before(*p, t as int) + w].incumbent_idx as int].1,
                ));
            }
            i = i + 1;
            v = v + 1;
        }
        let visit = p.trains[t].visits[times.len() - 1];
        let last_t = times[times.len() - 1] + visit.travel_time;
        times.push(last_t);
        let ghost tv = times@;
        trains.push(times);
        proof {
            assert(tv =~= train_times(*p, occupations@, t as int));
        }
        t = t + 1;
    }
    trains
}

} // verus!
