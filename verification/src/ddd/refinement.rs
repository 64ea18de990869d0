//! Selective refinement for the DDD solvers: violations are collected into
//! packages, the packages are scored greedily, and only the selected ones are
//! applied.
use vstd::prelude::*;
use std::collections::HashMap;
use crate::ddd::common::{Occ, VisitId, tp_delays, tp_exists, tp_hard, tp_incumbent, tp_lit, tp_ok, tp_vars};
use crate::ddd::lits::{BoolLit, add_bool_clause, solver_clause};
use crate::maxsatsolver::MaxSatSolver;

verus! {

broadcast use vstd::std_specs::hash::group_hash_axioms;

/// Identifies a violation, for deduplication across iterations. A resource
/// violation names its smaller visit first.
#[derive(Clone, Copy, Debug, PartialEq, Eq, Hash, Structural)]
pub enum ViolationId {
    TravelTime(VisitId),
    Resource(VisitId, VisitId),
}

impl ViolationId {
    /// The resource violation between two visits, smaller visit first.
    pub fn resource(a: VisitId, b: VisitId) -> (r: Self)
        ensures
            r == (if a.0 <= b.0 { ViolationId::Resource(a, b) } else { ViolationId::Resource(b, a) }),
    {
        if a.0 <= b.0 {
            ViolationId::Resource(a, b)
        } else {
            ViolationId::Resource(b, a)
        }
    }
}

/// One refinement package: a violation, the time points that fixing it adds,
/// the first iteration in which it was seen, and the solver action that fixes it.
pub struct RefinementPackage<A> {
    pub violation: ViolationId,
    /// The `(visit, time)` pairs this package adds.
    pub planned_points: Vec<(VisitId, i32)>,
    /// The first iteration in which this violation was observed.
    pub first_seen: usize,
    pub action: A,
}

// ---------------------------------------------------------------------------
// Greedy selection, as a specification
// ---------------------------------------------------------------------------

/// The number of entries of `pts` that are not in `have` (with repetitions).
pub open spec fn count_new(pts: Seq<(VisitId, i32)>, have: Seq<(VisitId, i32)>) -> nat
    decreases pts.len(),
{
    if pts.len() == 0 {
        0
    } else {
        count_new(pts.drop_last(), have) + if have.contains(pts.last()) { 0nat } else { 1nat }
    }
}

/// The greedy state: the selected indices, their violations, the union of
/// their planned points, and the number of new points added so far.
pub struct SelState {
    pub selected: Seq<usize>,
    pub violations: Seq<ViolationId>,
    pub points: Seq<(VisitId, i32)>,
    pub total: nat,
}

pub open spec fn pkg_violation<A>(pkgs: Seq<RefinementPackage<A>>, i: int) -> ViolationId {
    pkgs[i].violation
}

pub open spec fn pkg_points<A>(pkgs: Seq<RefinementPackage<A>>, i: int) -> Seq<(VisitId, i32)> {
    pkgs[i].planned_points@
}

/// Package `i` can still be selected: it is not selected yet, its violation is
/// not yet covered, and its new points fit in the budget.
pub open spec fn eligible<A>(pkgs: Seq<RefinementPackage<A>>, st: SelState, budget: nat, i: int) -> bool {
    &&& !st.selected.contains(i as usize)
    &&& !st.violations.contains(pkg_violation(pkgs, i))
    &&& st.total + count_new(pkg_points(pkgs, i), st.points) <= budget
}

/// Among the first `k` packages, the first eligible one with the fewest new points.
pub open spec fn best_upto<A>(pkgs: Seq<RefinementPackage<A>>, st: SelState, budget: nat, k: int) -> Option<usize>
    decreases k,
{
    if k <= 0 {
        None
    } else {
        let b = best_upto(pkgs, st, budget, k - 1);
        if eligible(pkgs, st, budget, k - 1) && (b is None || count_new(pkg_points(pkgs, k - 1), st.points)
            < count_new(pkg_points(pkgs, b->0 as int), st.points)) {
            Some((k - 1) as usize)
        } else {
            b
        }
    }
}

/// The state after selecting package `i`.
pub open spec fn select<A>(pkgs: Seq<RefinementPackage<A>>, st: SelState, i: int) -> SelState {
    SelState {
        selected: st.selected.push(i as usize),
        violations: st.violations.push(pkg_violation(pkgs, i)),
        points: st.points + pkg_points(pkgs, i),
        total: st.total + count_new(pkg_points(pkgs, i), st.points),
    }
}

pub open spec fn empty_state() -> SelState {
    SelState { selected: Seq::empty(), violations: Seq::empty(), points: Seq::empty(), total: 0 }
}

/// The state after `m` greedy rounds.
pub open spec fn greedy_rounds<A>(pkgs: Seq<RefinementPackage<A>>, budget: nat, m: nat) -> SelState
    decreases m,
{
    if m == 0 {
        empty_state()
    } else {
        let st = greedy_rounds(pkgs, budget, (m - 1) as nat);
        match best_upto(pkgs, st, budget, pkgs.len() as int) {
            Some(i) => select(pkgs, st, i as int),
            None => st,
        }
    }
}

/// The first package with the smallest `first_seen`.
pub open spec fn oldest_upto<A>(pkgs: Seq<RefinementPackage<A>>, k: int) -> int
    decreases k,
{
    if k <= 1 {
        0
    } else {
        let b = oldest_upto(pkgs, k - 1);
        if pkgs[k - 1].first_seen < pkgs[b].first_seen {
            k - 1
        } else {
            b
        }
    }
}

/// The packages selected by the greedy: all of them without a budget;
/// otherwise the greedy rounds (at most one per package), or the oldest
/// package when the greedy selects none.
pub open spec fn selection_spec<A>(pkgs: Seq<RefinementPackage<A>>, budget: Option<usize>) -> Seq<usize> {
    if pkgs.len() == 0 {
        Seq::empty()
    } else {
        match budget {
            None => Seq::new(pkgs.len(), |i: int| i as usize),
            Some(b) => {
                let sel = greedy_rounds(pkgs, b as nat, pkgs.len()).selected;
                if sel.len() == 0 {
                    seq![oldest_upto(pkgs, pkgs.len() as int) as usize]
                } else {
                    sel
                }
            }
        }
    }
}

// ---------------------------------------------------------------------------
// Greedy selection
// ---------------------------------------------------------------------------

fn contains_index(v: &Vec<usize>, x: usize) -> (r: bool)
    ensures
        r == v@.contains(x),
{
    let mut i: usize = 0;
    while i < v.len()
        invariant
            i <= v@.len(),
            forall|k: int| 0 <= k < i ==> v@[k] != x,
        decreases v@.len() - i,
    {
        if v[i] == x {
            assert(v@[i as int] == x);
            return true;
        }
        i = i + 1;
    }
    false
}

fn contains_violation(v: &Vec<ViolationId>, x: &ViolationId) -> (r: bool)
    ensures
        r == v@.contains(*x),
{
    let mut i: usize = 0;
    while i < v.len()
        invariant
            i <= v@.len(),
            forall|k: int| 0 <= k < i ==> v@[k] != *x,
        decreases v@.len() - i,
    {
        if v[i] == *x {
            assert(v@[i as int] == *x);
            return true;
        }
        i = i + 1;
    }
    false
}

fn contains_point(v: &Vec<(VisitId, i32)>, x: (VisitId, i32)) -> (r: bool)
    ensures
        r == v@.contains(x),
{
    let mut i: usize = 0;
    while i < v.len()
        invariant
            i <= v@.len(),
            forall|k: int| 0 <= k < i ==> v@[k] != x,
        decreases v@.len() - i,
    {
        if v[i].0 == x.0 && v[i].1 == x.1 {
            assert(v@[i as int] == x);
            return true;
        }
        i = i + 1;
    }
    false
}

/// The number of `pts` that are not in `have`.
fn count_new_points(pts: &Vec<(VisitId, i32)>, have: &Vec<(VisitId, i32)>) -> (r: usize)
    ensures
        r == count_new(pts@, have@),
{
    let mut n: usize = 0;
    let mut i: usize = 0;
    while i < pts.len()
        invariant
            i <= pts@.len(),
            n == count_new(pts@.take(i as int), have@),
            n <= i,
        decreases pts@.len() - i,
    {
        assert(pts@.take(i + 1).drop_last() =~= pts@.take(i as int));
        if !contains_point(have, pts[i]) {
            n = n + 1;
        }
        i = i + 1;
    }
    assert(pts@.take(i as int) =~= pts@);
    n
}

proof fn lemma_selected_grows<A>(pkgs: Seq<RefinementPackage<A>>, budget: nat, m: nat)
    requires
        pkgs.len() <= usize::MAX,
    ensures
        greedy_rounds(pkgs, budget, m).selected.len() <= m,
        greedy_rounds(pkgs, budget, m).total <= budget,
        forall|k: int| 0 <= k < greedy_rounds(pkgs, budget, m).selected.len() ==> #[trigger] greedy_rounds(pkgs, budget, m).selected[k] < pkgs.len(),
        forall|j: int, k: int| 0 <= j < k < greedy_rounds(pkgs, budget, m).selected.len() ==> #[trigger] greedy_rounds(pkgs, budget, m).selected[j] != #[trigger] greedy_rounds(pkgs, budget, m).selected[k],
        greedy_rounds(pkgs, budget, m).selected.len() < m ==> best_upto(pkgs, greedy_rounds(pkgs, budget, m), budget, pkgs.len() as int) is None,
    decreases m,
{
    if m > 0 {
        lemma_selected_grows(pkgs, budget, (m - 1) as nat);
        let st = greedy_rounds(pkgs, budget, (m - 1) as nat);
        lemma_best_eligible(pkgs, st, budget, pkgs.len() as int);
        match best_upto(pkgs, st, budget, pkgs.len() as int) {
            Some(i) => {
                let st2 = select(pkgs, st, i as int);
                assert forall|j: int, k: int| 0 <= j < k < st2.selected.len() implies #[trigger] st2.selected[j] != #[trigger] st2.selected[k] by {
                    if k == st.selected.len() {
                        assert(st.selected.contains(st.selected[j]));
                    }
                }
            },
            None => {},
        }
    }
}

proof fn lemma_best_eligible<A>(pkgs: Seq<RefinementPackage<A>>, st: SelState, budget: nat, k: int)
    requires
        k <= usize::MAX + 1,
    ensures
        best_upto(pkgs, st, budget, k) matches Some(i) ==> 0 <= i < k && eligible(pkgs, st, budget, i as int),
        best_upto(pkgs, st, budget, k) is None ==> forall|j: int| 0 <= j < k ==> !eligible(pkgs, st, budget, j),
    decreases k,
{
    if k > 0 {
        lemma_best_eligible(pkgs, st, budget, k - 1);
    }
}

proof fn lemma_full_selection_stops<A>(pkgs: Seq<RefinementPackage<A>>, st: SelState, budget: nat)
    requires
        pkgs.len() <= usize::MAX,
        st.selected.len() >= pkgs.len(),
        forall|k: int| 0 <= k < st.selected.len() ==> #[trigger] st.selected[k] < pkgs.len(),
        forall|j: int, k: int| 0 <= j < k < st.selected.len() ==> #[trigger] st.selected[j] != #[trigger] st.selected[k],
    ensures
        best_upto(pkgs, st, budget, pkgs.len() as int) is None,
{
    lemma_best_eligible(pkgs, st, budget, pkgs.len() as int);
    if let Some(i) = best_upto(pkgs, st, budget, pkgs.len() as int) {
        // `i` is a package index not yet selected, but all of them are.
        let sel_set = st.selected.to_set();
        let all = Set::new(|x: usize| (x as int) < pkgs.len());
        assert(sel_set.subset_of(all));
        vstd::set_lib::lemma_int_range(0, pkgs.len() as int);
        st.selected.unique_seq_to_set();
        lemma_usize_range_finite(pkgs.len() as int);
        vstd::set_lib::lemma_len_subset(sel_set, all);
        assert(!sel_set.contains(i));
        assert(sel_set.subset_of(all.remove(i)));
        vstd::set_lib::lemma_len_subset(sel_set, all.remove(i));
    }
}

proof fn lemma_usize_range_finite(n: int)
    requires
        0 <= n <= usize::MAX + 1,
    ensures
        Set::new(|x: usize| (x as int) < n).finite(),
        Set::new(|x: usize| (x as int) < n).len() == n,
    decreases n,
{
    let s = Set::new(|x: usize| (x as int) < n);
    if n == 0 {
        assert(s =~= Set::empty());
    } else {
        lemma_usize_range_finite(n - 1);
        let s0 = Set::new(|x: usize| (x as int) < n - 1);
        assert(s =~= s0.insert((n - 1) as usize));
    }
}

/// Greedy package selection. Without a budget every package is selected.
/// With a budget, packages are selected one at a time: among the packages
/// whose violation is not yet covered and whose new time points still fit in
/// the budget, the first with the fewest new time points. When none is
/// selected, the package seen first (smallest `first_seen`) is selected, so
/// that every iteration makes progress. Returns indices into `packages`.
pub fn select_packages<A>(packages: &[RefinementPackage<A>], budget: Option<usize>) -> (r: Vec<usize>)
    ensures
        r@ == selection_spec(packages@, budget),
{
    if packages.len() == 0 {
        return Vec::new();
    }
    let budget: usize = match budget {
        None => {
            let mut all: Vec<usize> = Vec::new();
            let mut i: usize = 0;
            while i < packages.len()
                invariant
                    i <= packages@.len(),
                    all@ =~= Seq::new(packages@.len(), |k: int| k as usize).take(i as int),
                decreases packages@.len() - i,
            {
                all.push(i);
                i = i + 1;
            }
            return all;
        },
        Some(b) => b,
    };
    let ghost pkgs = packages@;
    let mut selected: Vec<usize> = Vec::new();
    let mut sel_violations: Vec<ViolationId> = Vec::new();
    let mut sel_points: Vec<(VisitId, i32)> = Vec::new();
    let mut total_new_points: usize = 0;
    let ghost mut rounds: nat = 0;
    let n: usize = packages.len();
    loop
        invariant
            pkgs == packages@,
            n == pkgs.len(),
            pkgs.len() > 0,
            greedy_rounds(pkgs, budget as nat, rounds).selected == selected@,
            greedy_rounds(pkgs, budget as nat, rounds).violations == sel_violations@,
            greedy_rounds(pkgs, budget as nat, rounds).points == sel_points@,
            greedy_rounds(pkgs, budget as nat, rounds).total == total_new_points,
            selected@.len() == rounds,
            rounds <= pkgs.len(),
        ensures
            greedy_rounds(pkgs, budget as nat, pkgs.len()).selected == selected@,
        decreases pkgs.len() - rounds,
    {
        proof {
            lemma_selected_grows(pkgs, budget as nat, rounds);
        }
        let ghost st = greedy_rounds(pkgs, budget as nat, rounds);
        let mut best_new: usize = 0;
        let mut best_idx: Option<usize> = None;
        let mut i: usize = 0;
        while i < packages.len()
            invariant
                pkgs == packages@,
                i <= pkgs.len(),
                st.selected == selected@,
                st.violations == sel_violations@,
                st.points == sel_points@,
                st.total == total_new_points,
                total_new_points <= budget,
                best_idx == best_upto(pkgs, st, budget as nat, i as int),
                best_idx matches Some(b) ==> best_new == count_new(pkg_points(pkgs, b as int), st.points),
            decreases pkgs.len() - i,
        {
            let pkg = &packages[i];
            if !contains_index(&selected, i) && !contains_violation(&sel_violations, &pkg.violation) {
                let new_pts: usize = count_new_points(&pkg.planned_points, &sel_points);
                if new_pts <= budget - total_new_points {
                    let better: bool = match best_idx {
                        None => true,
                        Some(_) => new_pts < best_new,
                    };
                    if better {
                        best_idx = Some(i);
                        best_new = new_pts;
                    }
                }
            }
            i = i + 1;
        }
        proof {
            lemma_best_eligible(pkgs, st, budget as nat, pkgs.len() as int);
        }
        match best_idx {
            None => {
                proof {
                    // No package is eligible any more: further rounds change nothing.
                    lemma_rounds_stable(pkgs, budget as nat, rounds, pkgs.len());
                }
                break;
            },
            Some(b) => {
                proof {
                    if rounds >= pkgs.len() {
                        lemma_full_selection_stops(pkgs, st, budget as nat);
                    }
                }
                let pkg = &packages[b];
                let new_pts: usize = count_new_points(&pkg.planned_points, &sel_points);
                sel_violations.push(pkg.violation);
                let mut k: usize = 0;
                let ghost before_points = sel_points@;
                while k < pkg.planned_points.len()
                    invariant
                        k <= pkg.planned_points@.len(),
                        sel_points@ == before_points + pkg.planned_points@.take(k as int),
                    decreases pkg.planned_points@.len() - k,
                {
                    sel_points.push(pkg.planned_points[k]);
                    k = k + 1;
                }
                assert(pkg.planned_points@.take(k as int) =~= pkg.planned_points@);
                total_new_points = total_new_points + new_pts;
                selected.push(b);
                proof {
                    if rounds + 1 > pkgs.len() {
                        lemma_selected_grows(pkgs, budget as nat, (rounds + 1) as nat);
                    }
                    rounds = rounds + 1;
                }
                if selected.len() == packages.len() {
                    proof {
                        lemma_selected_grows(pkgs, budget as nat, rounds);
                    }
                    break;
                }
            },
        }
    }
    if selected.len() == 0 {
        let mut oldest: usize = 0;
        let mut i: usize = 1;
        while i < packages.len()
            invariant
                pkgs == packages@,
                1 <= i <= pkgs.len(),
                oldest == oldest_upto(pkgs, i as int),
                0 <= oldest < i,
            decreases pkgs.len() - i,
        {
            if packages[i].first_seen < packages[oldest].first_seen {
                oldest = i;
            }
            i = i + 1;
        }
        selected.push(oldest);
    }
    selected
}

proof fn lemma_rounds_stable<A>(pkgs: Seq<RefinementPackage<A>>, budget: nat, m: nat, n: nat)
    requires
        m <= n,
        best_upto(pkgs, greedy_rounds(pkgs, budget, m), budget, pkgs.len() as int) is None,
    ensures
        greedy_rounds(pkgs, budget, n) == greedy_rounds(pkgs, budget, m),
    decreases n - m,
{
    if m < n {
        lemma_rounds_stable(pkgs, budget, m, (n - 1) as nat);
    }
}

// ---------------------------------------------------------------------------
// Violation ages
// ---------------------------------------------------------------------------

/// The key under which a violation is stored: a tag in the high bits and the
/// two visit numbers below it.
pub open spec fn violation_key(id: ViolationId) -> u128 {
    match id {
        ViolationId::TravelTime(v) => v.0 as u128,
        ViolationId::Resource(a, b) => (0x1_0000_0000_0000_0000u128 + (a.0 as u128) * 0x1_0000_0000u128
            + b.0 as u128) as u128,
    }
}

proof fn lemma_violation_key_injective(x: ViolationId, y: ViolationId)
    ensures
        violation_key(x) == violation_key(y) ==> x == y,
{
    match (x, y) {
        (ViolationId::Resource(a, b), ViolationId::Resource(c, d)) => {
            if violation_key(x) == violation_key(y) {
                assert(a.0 == c.0 && b.0 == d.0) by (nonlinear_arith)
                    requires
                        (a.0 as int) * 0x1_0000_0000 + b.0 == (c.0 as int) * 0x1_0000_0000 + d.0,
                        0 <= b.0 < 0x1_0000_0000,
                        0 <= d.0 < 0x1_0000_0000,
                ;
            }
        },
        _ => {},
    }
}

fn key_of(id: &ViolationId) -> (r: u128)
    ensures
        r == violation_key(*id),
{
    match id {
        ViolationId::TravelTime(v) => v.0 as u128,
        ViolationId::Resource(a, b) => 0x1_0000_0000_0000_0000u128 + (a.0 as u128) * 0x1_0000_0000u128
            + b.0 as u128,
    }
}

/// Remembers the first iteration in which each violation was observed.
pub struct ViolationAgeTracker {
    map: HashMap<u128, usize>,
}

impl ViolationAgeTracker {
    /// The first iteration recorded for a violation, if any.
    pub closed spec fn first_seen(&self, id: ViolationId) -> Option<usize> {
        if self.map@.contains_key(violation_key(id)) {
            Some(self.map@[violation_key(id)])
        } else {
            None
        }
    }

    /// A tracker that has seen no violation.
    pub fn new() -> (r: Self)
        ensures
            forall|id: ViolationId| #[trigger] r.first_seen(id) is None,
    {
        ViolationAgeTracker { map: HashMap::new() }
    }

    /// Records a violation at `iteration` and returns the iteration in which it
    /// was first seen.
    pub fn record(&mut self, id: ViolationId, iteration: usize) -> (r: usize)
        ensures
            r == match old(self).first_seen(id) {
                Some(f) => f,
                None => iteration,
            },
            final(self).first_seen(id) == Some(r),
            forall|other: ViolationId| other != id ==> #[trigger] final(self).first_seen(other) == old(self).first_seen(other),
    {
        let key: u128 = key_of(&id);
        let existing: Option<usize> = match self.map.get(&key) {
            Some(f) => Some(*f),
            None => None,
        };
        match existing {
            Some(f) => {
                proof {
                    assert forall|other: ViolationId| other != id implies #[trigger] self.first_seen(other) == old(self).first_seen(other) by {
                        lemma_violation_key_injective(other, id);
                    }
                }
                f
            },
            None => {
                self.map.insert(key, iteration);
                proof {
                    assert forall|other: ViolationId| other != id implies #[trigger] self.first_seen(other) == old(self).first_seen(other) by {
                        lemma_violation_key_injective(other, id);
                    }
                }
                iteration
            },
        }
    }
}

impl Default for ViolationAgeTracker {
    fn default() -> (r: Self)
        ensures
            forall|id: ViolationId| #[trigger] r.first_seen(id) is None,
    {
        ViolationAgeTracker::new()
    }
}

// ---------------------------------------------------------------------------
// Applying a package
// ---------------------------------------------------------------------------

/// What a package makes the solver do.
#[derive(Clone, Copy, Debug)]
pub enum PackageAction {
    /// A travel time is violated: `next_visit` must start at `new_t` or
    /// later when `t1_in_var` holds.
    TravelTime { t1_in_var: BoolLit, next_visit: VisitId, new_t: i32 },
    /// Two trains overlap on a resource: one of them must leave, so each
    /// gets a time point at which the other is out.
    Resource {
        visit1: VisitId,
        visit2: VisitId,
        tp_for_v2: i32,
        tp_for_v1: i32,
        t1_out_lit: BoolLit,
        t2_out_lit: BoolLit,
    },
}

/// The hard clauses after a clause of literals is added.
pub open spec fn push_clause(hard: Seq<Seq<isize>>, c: Seq<BoolLit>) -> Seq<Seq<isize>> {
    match solver_clause(c) {
        Some(x) => hard.push(x),
        None => hard,
    }
}

/// Asking for time point `t` of `old` gave `new` over `n0` variables: only
/// the time points and the current solution's position change.
pub open spec fn occ_asked(old: Occ, new: Occ, t: i32, n0: int) -> bool {
    &&& new.cost@ == old.cost@
    &&& new.cost_tree == old.cost_tree
    &&& new.delays@ == tp_delays(old.delays@, t, n0)
    &&& new.incumbent_idx == tp_incumbent(old.delays@, t, old.incumbent_idx as int)
}

/// Time point `t` can be asked for of `o` over `n0` variables.
pub open spec fn occ_ok(o: Occ, t: i32, n0: int) -> bool {
    tp_ok(o.delays@, o.incumbent_idx as int, t, n0)
}

/// A new time point, reported when it is new.
pub open spec fn reported(v: VisitId, o: Occ, t: i32, n0: int) -> Seq<(VisitId, BoolLit, i32)> {
    if tp_exists(o.delays@, t) {
        seq![]
    } else {
        seq![(v, tp_lit(o.delays@, t, n0), t)]
    }
}

/// Applies one package to the solver: a travel-time package adds the time
/// point `new_t` to the next visit and the clause that `t1_in_var` implies
/// it; a resource package adds a time point to each visit and the clause
/// that, when both trains are on the resource, one of them is pushed out.
/// Returns the time points that are new, with their visit and literal.
#[verifier::rlimit(50)]
pub fn apply_package<S: MaxSatSolver + ?Sized>(
    pkg: RefinementPackage<PackageAction>,
    solver: &mut S,
    occupations: &mut Vec<Occ>,
    n_conflict_constraints: &mut usize,
    n_conflicts: &mut usize,
    n_travel: &mut usize,
) -> (r: Vec<(VisitId, BoolLit, i32)>)
    requires
        0 <= old(solver).num_vars(),
        old(solver).num_vars() + 2 < isize::MAX,
        match pkg.action {
            PackageAction::TravelTime { t1_in_var, next_visit, new_t } => {
                &&& (next_visit.0 as int) < old(occupations)@.len()
                &&& occ_ok(old(occupations)@[next_visit.0 as int], new_t, old(solver).num_vars())
                &&& t1_in_var.within(old(solver).num_vars())
                &&& *old(n_travel) < usize::MAX
            },
            PackageAction::Resource { visit1, visit2, tp_for_v2, tp_for_v1, t1_out_lit, t2_out_lit } => {
                &&& (visit1.0 as int) < old(occupations)@.len()
                &&& (visit2.0 as int) < old(occupations)@.len()
                &&& occ_ok(old(occupations)@[visit2.0 as int], tp_for_v2, old(solver).num_vars())
                &&& occ_ok(old(occupations)@[visit1.0 as int], tp_for_v1, old(solver).num_vars())
                &&& t1_out_lit.within(old(solver).num_vars())
                &&& t2_out_lit.within(old(solver).num_vars())
                &&& *old(n_conflict_constraints) < usize::MAX
                &&& *old(n_conflicts) < usize::MAX
            },
        },
    ensures
        final(occupations)@.len() == old(occupations)@.len(),
        match pkg.action {
            PackageAction::TravelTime { t1_in_var, next_visit, new_t } => {
                let v = next_visit.0 as int;
                let o = old(occupations)@[v];
                let n0 = old(solver).num_vars();
                &&& forall|i: int|
                    0 <= i < old(occupations)@.len() && i != v ==> #[trigger] final(occupations)@[i]
                        == old(occupations)@[i]
                &&& occ_asked(o, final(occupations)@[v], new_t, n0)
                &&& final(solver).num_vars() == tp_vars(o.delays@, new_t, n0)
                &&& final(solver).hard_clauses() == push_clause(
                    tp_hard(o.delays@, new_t, n0, old(solver).hard_clauses()),
                    seq![t1_in_var.negated(), tp_lit(o.delays@, new_t, n0)],
                )
                &&& *final(n_travel) == *old(n_travel) + 1
                &&& *final(n_conflicts) == *old(n_conflicts)
                &&& *final(n_conflict_constraints) == *old(n_conflict_constraints)
                &&& r@ == reported(next_visit, o, new_t, n0)
            },
            PackageAction::Resource { visit1, visit2, tp_for_v2, tp_for_v1, t1_out_lit, t2_out_lit } => {
                let v1 = visit1.0 as int;
                let v2 = visit2.0 as int;
                let n0 = old(solver).num_vars();
                let o2 = old(occupations)@[v2];
                let n1 = tp_vars(o2.delays@, tp_for_v2, n0);
                let h1 = tp_hard(o2.delays@, tp_for_v2, n0, old(solver).hard_clauses());
                let d1 = if v1 == v2 {
                    tp_delays(o2.delays@, tp_for_v2, n0)
                } else {
                    old(occupations)@[v1].delays@
                };
                let i1 = if v1 == v2 {
                    tp_incumbent(o2.delays@, tp_for_v2, o2.incumbent_idx as int)
                } else {
                    old(occupations)@[v1].incumbent_idx as int
                };
                let lit1 = tp_lit(d1, tp_for_v1, n1);
                let lit2 = tp_lit(o2.delays@, tp_for_v2, n0);
                &&& forall|i: int|
                    0 <= i < old(occupations)@.len() && i != v1 && i != v2
                        ==> #[trigger] final(occupations)@[i] == old(occupations)@[i]
                &&& v1 != v2 ==> occ_asked(o2, final(occupations)@[v2], tp_for_v2, n0)
                &&& final(occupations)@[v1].cost@ == old(occupations)@[v1].cost@
                &&& final(occupations)@[v1].cost_tree == old(occupations)@[v1].cost_tree
                &&& final(occupations)@[v1].delays@ == tp_delays(d1, tp_for_v1, n1)
                &&& final(occupations)@[v1].incumbent_idx == tp_incumbent(d1, tp_for_v1, i1)
                &&& final(solver).num_vars() == tp_vars(d1, tp_for_v1, n1)
                &&& final(solver).hard_clauses() == push_clause(
                    tp_hard(d1, tp_for_v1, n1, h1),
                    seq![t1_out_lit.negated(), t2_out_lit.negated(), lit1, lit2],
                )
                &&& *final(n_conflict_constraints) == *old(n_conflict_constraints) + 1
                &&& *final(n_conflicts) == *old(n_conflicts) + 1
                &&& *final(n_travel) == *old(n_travel)
                &&& r@ == (if tp_exists(d1, tp_for_v1) {
                    seq![]
                } else {
                    seq![(visit1, lit1, tp_for_v1)]
                }) + (if tp_exists(o2.delays@, tp_for_v2) {
                    seq![]
                } else {
                    seq![(visit2, lit2, tp_for_v2)]
                })
            },
        },
{
    let mut added: Vec<(VisitId, BoolLit, i32)> = Vec::new();
    match pkg.action {
        PackageAction::TravelTime { t1_in_var, next_visit, new_t } => {
            let v = next_visit.0 as usize;
            let (out_var, is_new) = occupations[v].time_point(solver, new_t);
            let clause = vec![t1_in_var.not(), out_var];
            add_bool_clause(solver, clause.as_slice());
            *n_travel = *n_travel + 1;
            if is_new {
                added.push((next_visit, out_var, new_t));
            }
            proof {
                assert(added@ =~= reported(next_visit, old(occupations)@[v as int], new_t, old(solver).num_vars()));
            }
        },
        PackageAction::Resource { visit1, visit2, tp_for_v2, tp_for_v1, t1_out_lit, t2_out_lit } => {
            let i1 = visit1.0 as usize;
            let i2 = visit2.0 as usize;
            let (delay_v2, v2_new) = occupations[i2].time_point(solver, tp_for_v2);
            let (delay_v1, v1_new) = occupations[i1].time_point(solver, tp_for_v1);
            if v1_new {
                added.push((visit1, delay_v1, tp_for_v1));
            }
            if v2_new {
                added.push((visit2, delay_v2, tp_for_v2));
            }
            let clause = vec![t1_out_lit.not(), t2_out_lit.not(), delay_v1, delay_v2];
            add_bool_clause(solver, clause.as_slice());
            *n_conflict_constraints = *n_conflict_constraints + 1;
            *n_conflicts = *n_conflicts + 1;
        },
    }
    added
}

} // verus!
