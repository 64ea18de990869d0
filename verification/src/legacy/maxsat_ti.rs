//! The time-indexed MaxSAT formulation: every visit chooses one of a fixed
//! list of times, a literal per time.
use vstd::prelude::*;
use crate::greedy::{res, trav, valid_tv};
use crate::legacy::maxsat_ddd::separated;
use crate::legacy::maxsat_ddd::lemma_hold_prefix;
use crate::maxsatsolver::{External, MaxSatSolver, clauses_hold, count_true, lits_within};
use crate::problem::{delay_fits, visit_cost_spec, DelayCostType, Problem};
use crate::solvers::SolverError;

verus! {

/// The literals of each time of each visit of each train: `(time, literal)`.
pub type TimeVars = Vec<Vec<Vec<(i32, isize)>>>;

/// The times of a visit whose literals the model sets.
pub open spec fn picked(cands: Seq<(i32, isize)>, bits: Seq<bool>) -> Seq<i32>
    decreases cands.len(),
{
    if cands.len() == 0 {
        Seq::empty()
    } else {
        let rest = picked(cands.drop_last(), bits);
        if bits[cands.last().1 - 1] {
            rest.push(cands.last().0)
        } else {
            rest
        }
    }
}

/// The literals name bits of the model, and there is a list of times for
/// every visit.
pub open spec fn vars_fit(p: Problem, tv: Seq<Vec<Vec<(i32, isize)>>>, n: int) -> bool {
    &&& tv.len() == p.trains@.len()
    &&& forall|t: int| 0 <= t < tv.len() ==> #[trigger] tv[t]@.len() == p.trains@[t].visits@.len()
    &&& forall|t: int, v: int, k: int|
        valid_tv(p, t, v) && 0 <= k < tv[t]@[v]@.len() ==> 1 <= (#[trigger] tv[t]@[v]@[k]).1 <= n
}

/// The model sets exactly one time of every visit.
pub open spec fn one_time_each(p: Problem, tv: Seq<Vec<Vec<(i32, isize)>>>, bits: Seq<bool>) -> bool {
    forall|t: int, v: int| valid_tv(p, t, v) ==> (#[trigger] picked(tv[t]@[v]@, bits)).len() == 1
}

/// The start of visit `v` of train `t` in the schedule the model gives: the
/// time it sets, but a visit to resource 0 after the first of its train
/// starts when its predecessor ends.
pub open spec fn ti_start(p: Problem, tv: Seq<Vec<Vec<(i32, isize)>>>, bits: Seq<bool>, t: int, v: int) -> int
    decreases v,
{
    if v > 0 && res(p, t, v) == 0 {
        ti_start(p, tv, bits, t, v - 1) + trav(p, t, v - 1)
    } else {
        picked(tv[t]@[v]@, bits)[0] as int
    }
}

/// The end of the last visit of train `t` in that schedule.
pub open spec fn ti_end(p: Problem, tv: Seq<Vec<Vec<(i32, isize)>>>, bits: Seq<bool>, t: int) -> int {
    let last = p.trains@[t].visits@.len() - 1;
    ti_start(p, tv, bits, t, last) + trav(p, t, last)
}

/// A start or an end of that schedule leaves `i32`.
pub open spec fn ti_overflows(p: Problem, tv: Seq<Vec<Vec<(i32, isize)>>>, bits: Seq<bool>) -> bool {
    ||| exists|t: int, v: int| valid_tv(p, t, v) && !(i32::MIN <= #[trigger] ti_start(p, tv, bits, t, v) <= i32::MAX)
    ||| exists|t: int| 0 <= t < p.trains@.len() && !(i32::MIN <= #[trigger] ti_end(p, tv, bits, t) <= i32::MAX)
}

/// The times of `cands` whose literals the model sets.
fn pick_times(cands: &Vec<(i32, isize)>, bits: &Vec<bool>) -> (r: Vec<i32>)
    requires
        forall|k: int| 0 <= k < cands@.len() ==> 1 <= (#[trigger] cands@[k]).1 <= bits@.len(),
    ensures
        r@ == picked(cands@, bits@),
{
    let mut out: Vec<i32> = Vec::new();
    let mut k: usize = 0;
    while k < cands.len()
        invariant
            k <= cands@.len(),
            forall|j: int| 0 <= j < cands@.len() ==> 1 <= (#[trigger] cands@[j]).1 <= bits@.len(),
            out@ == picked(cands@.take(k as int), bits@),
        decreases cands@.len() - k,
    {
        let (time, var) = cands[k];
        assert(cands@.take(k + 1).drop_last() =~= cands@.take(k as int));
        if bits[(var - 1) as usize] {
            out.push(time);
        }
        k = k + 1;
    }
    assert(cands@.take(k as int) =~= cands@);
    out
}

/// The schedule the solver's model gives: for every visit the time whose
/// literal it sets, but a visit to resource 0 after the first of its train
/// starts when its predecessor ends; the end of the last visit closes each
/// row. `None` where the model sets no time or more than one for a visit, or
/// a time leaves `i32`.
pub fn maxsat_ti_solution(problem: &Problem, tv: &TimeVars, bits: &Vec<bool>) -> (r: Option<Vec<Vec<i32>>>)
    requires
        vars_fit(*problem, tv@, bits@.len() as int),
        forall|t: int| 0 <= t < problem.trains@.len() ==> #[trigger] problem.trains@[t].visits@.len() >= 1,
    ensures
        r is None <==> !one_time_each(*problem, tv@, bits@) || ti_overflows(*problem, tv@, bits@),
        r matches Some(rows) ==> {
            &&& rows@.len() == problem.trains@.len()
            &&& forall|t: int| 0 <= t < rows@.len() ==> #[trigger] rows@[t]@.len() == problem.trains@[t].visits@.len() + 1
            &&& forall|t: int, v: int| valid_tv(*problem, t, v) ==> #[trigger] rows@[t]@[v] == ti_start(*problem, tv@, bits@, t, v)
            &&& forall|t: int| 0 <= t < rows@.len() ==> #[trigger] rows@[t]@[problem.trains@[t].visits@.len() as int]
                == ti_end(*problem, tv@, bits@, t)
        },
{
    let ghost p = *problem;
    let mut rows: Vec<Vec<i32>> = Vec::new();
    let mut bad: bool = false;
    let mut t: usize = 0;
    while t < problem.trains.len()
        invariant
            p == *problem,
            vars_fit(p, tv@, bits@.len() as int),
            forall|t2: int| 0 <= t2 < p.trains@.len() ==> #[trigger] p.trains@[t2].visits@.len() >= 1,
            t <= p.trains@.len(),
            rows@.len() == t,
            forall|t2: int| 0 <= t2 < t ==> #[trigger] rows@[t2]@.len() == p.trains@[t2].visits@.len() + 1,
            forall|t2: int, v: int| 0 <= t2 < t && valid_tv(p, t2, v) ==> #[trigger] rows@[t2]@[v] == ti_start(p, tv@, bits@, t2, v),
            forall|t2: int| 0 <= t2 < t ==> #[trigger] rows@[t2]@[p.trains@[t2].visits@.len() as int] == ti_end(p, tv@, bits@, t2),
            forall|t2: int, v: int| 0 <= t2 < t && valid_tv(p, t2, v) ==> (#[trigger] picked(tv@[t2]@[v]@, bits@)).len() == 1,
        decreases p.trains@.len() - t,
    {
        let n = problem.trains[t].visits.len();
        let mut row: Vec<i32> = Vec::new();
        let mut v: usize = 0;
        while v < n
            invariant
                p == *problem,
                vars_fit(p, tv@, bits@.len() as int),
                t < p.trains@.len(),
                n == p.trains@[t as int].visits@.len(),
                v <= n,
                row@.len() == v,
                forall|v2: int| 0 <= v2 < v ==> #[trigger] row@[v2] == ti_start(p, tv@, bits@, t as int, v2),
                forall|v2: int| 0 <= v2 < v ==> (#[trigger] picked(tv@[t as int]@[v2]@, bits@)).len() == 1,
            decreases n - v,
        {
            assert(valid_tv(p, t as int, v as int));
            let ts = pick_times(&tv[t][v], bits);
            if ts.len() != 1 {
                proof {
                    assert(!one_time_each(p, tv@, bits@));
                }
                return None;
            }
            let start: i32 = if v > 0 && problem.trains[t].visits[v].resource_id == 0 {
                let x: i64 = row[v - 1] as i64 + problem.trains[t].visits[v - 1].travel_time as i64;
                if x < i32::MIN as i64 || x > i32::MAX as i64 {
                    proof {
                        assert(!(i32::MIN <= ti_start(p, tv@, bits@, t as int, v as int) <= i32::MAX));
                    }
                    return None;
                }
                x as i32
            } else {
                ts[0]
            };
            row.push(start);
            v = v + 1;
        }
        let last: i64 = row[n - 1] as i64 + problem.trains[t].visits[n - 1].travel_time as i64;
        if last < i32::MIN as i64 || last > i32::MAX as i64 {
            proof {
                assert(!(i32::MIN <= ti_end(p, tv@, bits@, t as int) <= i32::MAX));
            }
            return None;
        }
        row.push(last as i32);
        rows.push(row);
        t = t + 1;
    }
    proof {
        assert(one_time_each(p, tv@, bits@));
        assert forall|t2: int, v: int| valid_tv(p, t2, v) implies i32::MIN <= #[trigger] ti_start(p, tv@, bits@, t2, v) <= i32::MAX by {
            assert(rows@[t2]@[v] == ti_start(p, tv@, bits@, t2, v));
        }
        assert forall|t2: int| 0 <= t2 < p.trains@.len() implies i32::MIN <= #[trigger] ti_end(p, tv@, bits@, t2) <= i32::MAX by {
            assert(rows@[t2]@[p.trains@[t2].visits@.len() as int] == ti_end(p, tv@, bits@, t2));
        }
    }
    Some(rows)
}

/// The clause that keeps the literals `a` and `b` from both holding.
pub open spec fn excl(a: isize, b: isize) -> Seq<isize> {
    seq![(-a) as isize, (-b) as isize]
}

/// Items only added keep the items there were, in place.
pub open spec fn grown<A>(h0: Seq<A>, h1: Seq<A>) -> bool {
    h1.len() >= h0.len() && h1.take(h0.len() as int) == h0
}

proof fn lemma_grown_contains<A>(h0: Seq<A>, h1: Seq<A>)
    requires
        grown(h0, h1),
    ensures
        forall|c: A| h0.contains(c) ==> #[trigger] h1.contains(c),
{
    assert forall|c: A| h0.contains(c) implies #[trigger] h1.contains(c) by {
        let j = choose|j: int| 0 <= j < h0.len() && h0[j] == c;
        assert(h1.take(h0.len() as int)[j] == h1[j]);
    }
}

proof fn lemma_grown_trans<A>(h0: Seq<A>, h1: Seq<A>, h2: Seq<A>)
    requires
        grown(h0, h1),
        grown(h1, h2),
    ensures
        grown(h0, h2),
{
    assert(h2.take(h0.len() as int) =~= h2.take(h1.len() as int).take(h0.len() as int));
}

proof fn lemma_grown_refl<A>(h: Seq<A>)
    ensures
        grown(h, h),
{
    assert(h.take(h.len() as int) =~= h);
}

proof fn lemma_pairs_grow(h0: Seq<Seq<isize>>, h1: Seq<Seq<isize>>, kind: u8, a: Seq<(i32, isize)>, da: i32, b: Seq<(i32, isize)>, db: i32)
    requires
        grown(h0, h1),
        pairs_excluded(h0, kind, a, da, b, db),
    ensures
        pairs_excluded(h1, kind, a, da, b, db),
{
    lemma_grown_contains(h0, h1);
    assert forall|k1: int, k2: int|
        0 <= k1 < a.len() && 0 <= k2 < b.len() && clash(kind, a[k1].0, da, b[k2].0, db) implies h1.contains(
            excl(#[trigger] a[k1].1, #[trigger] b[k2].1),
        ) by {
        assert(h0.contains(excl(a[k1].1, b[k2].1)));
    }
}

/// Times `x` and `y` of two visits that must exclude each other: with
/// `kind` 0, a visit from `x` taking `dx` does not reach the next visit at
/// `y`; otherwise, two visits from `x` taking `dx` and from `y` taking `dy`
/// overlap.
pub open spec fn clash(kind: u8, x: i32, dx: i32, y: i32, dy: i32) -> bool {
    if kind == 0 {
        x + dx > y
    } else {
        !separated(x as int, dx as int, y as int, dy as int)
    }
}

/// Every two times of `a` and `b` that clash exclude each other in `h`.
pub open spec fn pairs_excluded(h: Seq<Seq<isize>>, kind: u8, a: Seq<(i32, isize)>, da: i32, b: Seq<(i32, isize)>, db: i32) -> bool {
    forall|k1: int, k2: int|
        0 <= k1 < a.len() && 0 <= k2 < b.len() && clash(kind, a[k1].0, da, b[k2].0, db) ==> h.contains(
            excl(#[trigger] a[k1].1, #[trigger] b[k2].1),
        )
}

/// Adds, for every two times of `a` and `b` that clash, the clause that
/// keeps both from being chosen.
fn exclude_pairs(solver: &mut External, kind: u8, a: &Vec<(i32, isize)>, da: i32, b: &Vec<(i32, isize)>, db: i32)
    requires
        forall|k: int| 0 <= k < a@.len() ==> (#[trigger] a@[k]).1 >= 1,
        forall|k: int| 0 <= k < b@.len() ==> (#[trigger] b@[k]).1 >= 1,
    ensures
        final(solver).wcnf.n_vars == old(solver).wcnf.n_vars,
        final(solver).soft_clauses() == old(solver).soft_clauses(),
        grown(old(solver).hard_clauses(), final(solver).hard_clauses()),
        pairs_excluded(final(solver).hard_clauses(), kind, a@, da, b@, db),
{
    let ghost h00 = solver.hard_clauses();
    proof {
        lemma_grown_refl(h00);
    }
    let mut k1: usize = 0;
    while k1 < a.len()
        invariant
            k1 <= a@.len(),
            forall|k: int| 0 <= k < a@.len() ==> (#[trigger] a@[k]).1 >= 1,
            forall|k: int| 0 <= k < b@.len() ==> (#[trigger] b@[k]).1 >= 1,
            solver.wcnf.n_vars == old(solver).wcnf.n_vars,
            solver.soft_clauses() == old(solver).soft_clauses(),
            h00 == old(solver).hard_clauses(),
            grown(h00, solver.hard_clauses()),
            forall|j1: int, j2: int|
                0 <= j1 < k1 && 0 <= j2 < b@.len() && clash(kind, a@[j1].0, da, b@[j2].0, db) ==> solver.hard_clauses().contains(
                    excl(#[trigger] a@[j1].1, #[trigger] b@[j2].1),
                ),
        decreases a@.len() - k1,
    {
        let mut k2: usize = 0;
        while k2 < b.len()
            invariant
                k1 < a@.len(),
                k2 <= b@.len(),
                forall|k: int| 0 <= k < a@.len() ==> (#[trigger] a@[k]).1 >= 1,
                forall|k: int| 0 <= k < b@.len() ==> (#[trigger] b@[k]).1 >= 1,
                solver.wcnf.n_vars == old(solver).wcnf.n_vars,
                solver.soft_clauses() == old(solver).soft_clauses(),
                h00 == old(solver).hard_clauses(),
                grown(h00, solver.hard_clauses()),
                forall|j1: int, j2: int|
                    0 <= j1 < k1 && 0 <= j2 < b@.len() && clash(kind, a@[j1].0, da, b@[j2].0, db) ==> solver.hard_clauses().contains(
                        excl(#[trigger] a@[j1].1, #[trigger] b@[j2].1),
                    ),
                forall|j2: int|
                    0 <= j2 < k2 && clash(kind, a@[k1 as int].0, da, b@[j2].0, db) ==> solver.hard_clauses().contains(
                        excl(a@[k1 as int].1, #[trigger] b@[j2].1),
                    ),
            decreases b@.len() - k2,
        {
            let (x, lx) = a[k1];
            let (y, ly) = b[k2];
            let hit = if kind == 0 {
                x as i64 + da as i64 > y as i64
            } else {
                let gap1: i64 = y as i64 - (x as i64 + da as i64);
                let gap2: i64 = x as i64 - (y as i64 + db as i64);
                !(gap1 >= 0 || gap2 >= 0)
            };
            if hit {
                let ghost h0 = solver.hard_clauses();
                let nx = -lx;
                let ny = -ly;
                let c = vec![nx, ny];
                <External as MaxSatSolver>::add_clause(solver, None, c);
                proof {
                    assert(c@ =~= excl(lx, ly));
                    assert(solver.hard_clauses() == h0.push(excl(lx, ly)));
                    assert(solver.hard_clauses().take(h0.len() as int) =~= h0);
                    lemma_grown_trans(h00, h0, solver.hard_clauses());
                    lemma_grown_contains(h0, solver.hard_clauses());
                    assert(solver.hard_clauses()[h0.len() as int] == excl(lx, ly));
                }
            }
            k2 = k2 + 1;
        }
        k1 = k1 + 1;
    }
}

/// Every two times of visit `v1` of train `t1` and visit `v2` of train `t2`
/// that clash exclude each other in `h`.
pub open spec fn visits_excluded(p: Problem, tv: Seq<Vec<Vec<(i32, isize)>>>, h: Seq<Seq<isize>>, kind: u8, t1: int, v1: int, t2: int, v2: int) -> bool {
    pairs_excluded(h, kind, tv[t1]@[v1]@, trav(p, t1, v1), tv[t2]@[v2]@, trav(p, t2, v2))
}

/// Makes the overlapping times of visit `v1` of train `t1` and of every
/// visit of another train to resource `other` exclude each other.
fn exclude_resource(solver: &mut External, problem: &Problem, tv: &TimeVars, t1: usize, v1: usize, other: usize)
    requires
        vars_fit(*problem, tv@, old(solver).wcnf.n_vars as int),
        valid_tv(*problem, t1 as int, v1 as int),
    ensures
        final(solver).wcnf.n_vars == old(solver).wcnf.n_vars,
        final(solver).soft_clauses() == old(solver).soft_clauses(),
        grown(old(solver).hard_clauses(), final(solver).hard_clauses()),
        forall|t2: int, v2: int| valid_tv(*problem, t2, v2) && t2 != t1 && res(*problem, t2, v2) == other ==> #[trigger] visits_excluded(
            *problem, tv@, final(solver).hard_clauses(), 1, t1 as int, v1 as int, t2, v2),
{
    let ghost p = *problem;
    let ghost h00 = solver.hard_clauses();
    proof {
        lemma_grown_refl(h00);
    }
    let mut t2: usize = 0;
    while t2 < problem.trains.len()
        invariant
            p == *problem,
            vars_fit(p, tv@, solver.wcnf.n_vars as int),
            valid_tv(p, t1 as int, v1 as int),
            t2 <= p.trains@.len(),
            solver.wcnf.n_vars == old(solver).wcnf.n_vars,
            solver.soft_clauses() == old(solver).soft_clauses(),
            h00 == old(solver).hard_clauses(),
            grown(h00, solver.hard_clauses()),
            forall|t3: int, v3: int| valid_tv(p, t3, v3) && t3 < t2 && t3 != t1 && res(p, t3, v3) == other ==> #[trigger] visits_excluded(
                p, tv@, solver.hard_clauses(), 1, t1 as int, v1 as int, t3, v3),
        decreases p.trains@.len() - t2,
    {
        let n = problem.trains[t2].visits.len();
        let mut v2: usize = 0;
        while v2 < n
            invariant
                p == *problem,
                vars_fit(p, tv@, solver.wcnf.n_vars as int),
                valid_tv(p, t1 as int, v1 as int),
                t2 < p.trains@.len(),
                n == p.trains@[t2 as int].visits@.len(),
                v2 <= n,
                solver.wcnf.n_vars == old(solver).wcnf.n_vars,
                solver.soft_clauses() == old(solver).soft_clauses(),
                h00 == old(solver).hard_clauses(),
                grown(h00, solver.hard_clauses()),
                forall|t3: int, v3: int| valid_tv(p, t3, v3) && (t3 < t2 || (t3 == t2 && v3 < v2)) && t3 != t1 && res(p, t3, v3) == other
                    ==> #[trigger] visits_excluded(p, tv@, solver.hard_clauses(), 1, t1 as int, v1 as int, t3, v3),
            decreases n - v2,
        {
            if t2 != t1 && problem.trains[t2].visits[v2].resource_id == other {
                let ghost h0 = solver.hard_clauses();
                proof {
                    assert(valid_tv(p, t2 as int, v2 as int));
                    assert forall|k: int| 0 <= k < tv@[t1 as int]@[v1 as int]@.len() implies (#[trigger] tv@[t1 as int]@[v1 as int]@[k]).1 >= 1 by {}
                    assert forall|k: int| 0 <= k < tv@[t2 as int]@[v2 as int]@.len() implies (#[trigger] tv@[t2 as int]@[v2 as int]@[k]).1 >= 1 by {}
                }
                exclude_pairs(
                    solver,
                    1,
                    &tv[t1][v1],
                    problem.trains[t1].visits[v1].travel_time,
                    &tv[t2][v2],
                    problem.trains[t2].visits[v2].travel_time,
                );
                proof {
                    lemma_grown_trans(h00, h0, solver.hard_clauses());
                    assert forall|t3: int, v3: int| valid_tv(p, t3, v3) && (t3 < t2 || (t3 == t2 && v3 < v2 + 1)) && t3 != t1 && res(p, t3, v3) == other
                        implies #[trigger] visits_excluded(p, tv@, solver.hard_clauses(), 1, t1 as int, v1 as int, t3, v3) by {
                        if t3 < t2 || v3 < v2 {
                            assert(visits_excluded(p, tv@, h0, 1, t1 as int, v1 as int, t3, v3));
                            lemma_pairs_grow(h0, solver.hard_clauses(), 1, tv@[t1 as int]@[v1 as int]@, trav(p, t1 as int, v1 as int),
                                tv@[t3]@[v3]@, trav(p, t3, v3));
                        }
                    }
                }
            }
            v2 = v2 + 1;
        }
        t2 = t2 + 1;
    }
}

/// The resources of visits `(t1, v1)` and `(t2, v2)` are listed as in
/// conflict, in either order.
pub open spec fn in_conflict(p: Problem, t1: int, v1: int, t2: int, v2: int) -> bool {
    p.conflicts@.contains((res(p, t1, v1), res(p, t2, v2))) || p.conflicts@.contains((res(p, t2, v2), res(p, t1, v1)))
}

/// Makes the overlapping times of visit `v1` of train `t1` and of every
/// visit of another train to a resource in conflict with its own exclude
/// each other.
fn exclude_conflicts(solver: &mut External, problem: &Problem, tv: &TimeVars, t1: usize, v1: usize)
    requires
        vars_fit(*problem, tv@, old(solver).wcnf.n_vars as int),
        valid_tv(*problem, t1 as int, v1 as int),
    ensures
        final(solver).wcnf.n_vars == old(solver).wcnf.n_vars,
        final(solver).soft_clauses() == old(solver).soft_clauses(),
        grown(old(solver).hard_clauses(), final(solver).hard_clauses()),
        forall|t2: int, v2: int| valid_tv(*problem, t2, v2) && t2 != t1 && in_conflict(*problem, t1 as int, v1 as int, t2, v2)
            ==> #[trigger] visits_excluded(*problem, tv@, final(solver).hard_clauses(), 1, t1 as int, v1 as int, t2, v2),
{
    let ghost p = *problem;
    let ghost h00 = solver.hard_clauses();
    proof {
        lemma_grown_refl(h00);
    }
    let r1 = problem.trains[t1].visits[v1].resource_id;
    let mut j: usize = 0;
    while j < problem.conflicts.len()
        invariant
            p == *problem,
            vars_fit(p, tv@, solver.wcnf.n_vars as int),
            valid_tv(p, t1 as int, v1 as int),
            r1 == res(p, t1 as int, v1 as int),
            j <= p.conflicts@.len(),
            solver.wcnf.n_vars == old(solver).wcnf.n_vars,
            solver.soft_clauses() == old(solver).soft_clauses(),
            h00 == old(solver).hard_clauses(),
            grown(h00, solver.hard_clauses()),
            forall|j2: int, t2: int, v2: int|
                #![trigger p.conflicts@[j2], visits_excluded(p, tv@, solver.hard_clauses(), 1, t1 as int, v1 as int, t2, v2)]
                0 <= j2 < j && valid_tv(p, t2, v2) && t2 != t1 && ((p.conflicts@[j2].0 == r1
                && res(p, t2, v2) == p.conflicts@[j2].1) || (p.conflicts@[j2].1 == r1 && res(p, t2, v2) == p.conflicts@[j2].0))
                ==> visits_excluded(p, tv@, solver.hard_clauses(), 1, t1 as int, v1 as int, t2, v2),
        decreases p.conflicts@.len() - j,
    {
        let (a, b) = problem.conflicts[j];
        let ghost h0 = solver.hard_clauses();
        if a == r1 {
            exclude_resource(solver, problem, tv, t1, v1, b);
        }
        let ghost h1 = solver.hard_clauses();
        proof {
            if a != r1 {
                lemma_grown_refl(h0);
            }
        }
        if b == r1 && a != b {
            exclude_resource(solver, problem, tv, t1, v1, a);
        }
        proof {
            if !(b == r1 && a != b) {
                lemma_grown_refl(h1);
            }
            let h2 = solver.hard_clauses();
            lemma_grown_trans(h0, h1, h2);
            lemma_grown_trans(h00, h0, h2);
            assert forall|j2: int, t2: int, v2: int|
                #![trigger p.conflicts@[j2], visits_excluded(p, tv@, h2, 1, t1 as int, v1 as int, t2, v2)]
                0 <= j2 < j + 1 && valid_tv(p, t2, v2) && t2 != t1 && ((p.conflicts@[j2].0 == r1
                && res(p, t2, v2) == p.conflicts@[j2].1) || (p.conflicts@[j2].1 == r1 && res(p, t2, v2) == p.conflicts@[j2].0))
                implies visits_excluded(p, tv@, h2, 1, t1 as int, v1 as int, t2, v2) by {
                if j2 < j {
                    assert(visits_excluded(p, tv@, h0, 1, t1 as int, v1 as int, t2, v2));
                    lemma_pairs_grow(h0, h2, 1, tv@[t1 as int]@[v1 as int]@, trav(p, t1 as int, v1 as int), tv@[t2]@[v2]@, trav(p, t2, v2));
                } else if a == r1 && res(p, t2, v2) == b {
                    assert(visits_excluded(p, tv@, h1, 1, t1 as int, v1 as int, t2, v2));
                    lemma_pairs_grow(h1, h2, 1, tv@[t1 as int]@[v1 as int]@, trav(p, t1 as int, v1 as int), tv@[t2]@[v2]@, trav(p, t2, v2));
                } else {
                    assert(visits_excluded(p, tv@, h2, 1, t1 as int, v1 as int, t2, v2));
                }
            }
        }
        j = j + 1;
    }
    proof {
        assert forall|t2: int, v2: int| valid_tv(p, t2, v2) && t2 != t1 && in_conflict(p, t1 as int, v1 as int, t2, v2)
            implies #[trigger] visits_excluded(p, tv@, solver.hard_clauses(), 1, t1 as int, v1 as int, t2, v2) by {
            if p.conflicts@.contains((res(p, t1 as int, v1 as int), res(p, t2, v2))) {
                let j2 = choose|j2: int| 0 <= j2 < p.conflicts@.len() && p.conflicts@[j2] == (res(p, t1 as int, v1 as int), res(p, t2, v2));
                assert(p.conflicts@[j2].0 == r1 && res(p, t2, v2) == p.conflicts@[j2].1);
                assert(visits_excluded(p, tv@, solver.hard_clauses(), 1, t1 as int, v1 as int, t2, v2));
            } else {
                let j2 = choose|j2: int| 0 <= j2 < p.conflicts@.len() && p.conflicts@[j2] == (res(p, t2, v2), res(p, t1 as int, v1 as int));
                assert(p.conflicts@[j2].1 == r1 && res(p, t2, v2) == p.conflicts@[j2].0);
                assert(visits_excluded(p, tv@, solver.hard_clauses(), 1, t1 as int, v1 as int, t2, v2));
            }
        }
    }
}

/// The number of times of the first `v` visits of a train.
pub open spec fn vcount(row: Seq<Vec<i32>>, v: int) -> int
    decreases v,
{
    if v <= 0 {
        0
    } else {
        vcount(row, v - 1) + row[v - 1]@.len()
    }
}

/// The number of times of the first `t` trains.
pub open spec fn tcount(d: Seq<Vec<Vec<i32>>>, t: int) -> int
    decreases t,
{
    if t <= 0 {
        0
    } else {
        tcount(d, t - 1) + vcount(d[t - 1]@, d[t - 1]@.len() as int)
    }
}

proof fn lemma_vcount_nonneg(row: Seq<Vec<i32>>, v: int)
    ensures
        vcount(row, v) >= 0,
    decreases v,
{
    if v > 0 {
        lemma_vcount_nonneg(row, v - 1);
    }
}

proof fn lemma_counts_nonneg(d: Seq<Vec<Vec<i32>>>, t: int, row: Seq<Vec<i32>>, v: int)
    ensures
        tcount(d, t) >= 0,
        vcount(row, v) >= 0,
    decreases t,
{
    lemma_vcount_nonneg(row, v);
    if t > 0 {
        lemma_counts_nonneg(d, t - 1, d[t - 1]@, d[t - 1]@.len() as int);
    }
}

/// The literal of time `k` of visit `v` of train `t`: the times are
/// numbered train by train, visit by visit, after the solver's first `n0`
/// variables.
pub open spec fn ti_lit(d: Seq<Vec<Vec<i32>>>, n0: int, t: int, v: int, k: int) -> int {
    n0 + tcount(d, t) + vcount(d[t]@, v) + k + 1
}

/// The times fit the problem: a list per visit, each time's delay in `i32`.
pub open spec fn disc_ok(p: Problem, d: Seq<Vec<Vec<i32>>>) -> bool {
    &&& d.len() == p.trains@.len()
    &&& forall|t: int| 0 <= t < d.len() ==> #[trigger] d[t]@.len() == p.trains@[t].visits@.len()
    &&& forall|t: int, v: int, k: int| valid_tv(p, t, v) && 0 <= k < d[t]@[v]@.len() ==> delay_fits(p.trains@[t], v, #[trigger] d[t]@[v]@[k])
}

/// Time `k` of visit `v` of train `t` is one of the times.
pub open spec fn ti_index(p: Problem, d: Seq<Vec<Vec<i32>>>, t: int, v: int, k: int) -> bool {
    valid_tv(p, t, v) && 0 <= k < d[t]@[v]@.len()
}

/// `(t2, v2, k2)` comes before `(t, v, k)`, train by train, visit by visit.
pub open spec fn ti_before(t2: int, v2: int, k2: int, t: int, v: int, k: int) -> bool {
    t2 < t || (t2 == t && (v2 < v || (v2 == v && k2 < k)))
}

/// Each time of each visit, with its literal.
pub open spec fn ti_layout(p: Problem, d: Seq<Vec<Vec<i32>>>, n0: int, tv: Seq<Vec<Vec<(i32, isize)>>>) -> bool {
    &&& tv.len() == d.len()
    &&& forall|t: int| 0 <= t < tv.len() ==> #[trigger] tv[t]@.len() == d[t]@.len()
    &&& forall|t: int, v: int| valid_tv(p, t, v) ==> #[trigger] tv[t]@[v]@.len() == d[t]@[v]@.len()
    &&& forall|t: int, v: int, k: int| ti_index(p, d, t, v, k) ==> #[trigger] tv[t]@[v]@[k] == (d[t]@[v]@[k], ti_lit(d, n0, t, v, k) as isize)
}

/// The soft clause of time `k` of visit `v` of train `t`: its literal false,
/// weighed by the visit's delay cost at that time.
pub open spec fn ti_soft(p: Problem, ty: DelayCostType, d: Seq<Vec<Vec<i32>>>, n0: int, t: int, v: int, k: int) -> (u32, Seq<isize>) {
    (visit_cost_spec(p.trains@[t], ty, v, d[t]@[v]@[k]) as u32, seq![(-ti_lit(d, n0, t, v, k)) as isize])
}

/// The soft clauses added after the first `s0`: one per time before
/// `(t, v, k)` whose cost is not zero, and no other.
pub open spec fn softs_upto(p: Problem, ty: DelayCostType, d: Seq<Vec<Vec<i32>>>, n0: int, soft: Seq<(u32, Seq<isize>)>, s0: int, t: int, v: int, k: int) -> bool {
    softs_added(p, ty, d, n0, soft, t, v, k) && softs_known(p, ty, d, n0, soft, s0, t, v, k)
}

/// Every time before `(t, v, k)` whose cost is not zero has its soft clause.
pub open spec fn softs_added(p: Problem, ty: DelayCostType, d: Seq<Vec<Vec<i32>>>, n0: int, soft: Seq<(u32, Seq<isize>)>, t: int, v: int, k: int) -> bool {
    forall|t2: int, v2: int, k2: int| ti_index(p, d, t2, v2, k2) && ti_before(t2, v2, k2, t, v, k)
        && (#[trigger] ti_soft(p, ty, d, n0, t2, v2, k2)).0 != 0 ==> soft.contains(ti_soft(p, ty, d, n0, t2, v2, k2))
}

/// Every soft clause after the first `s0` is that of a time before `(t, v, k)`.
pub open spec fn softs_known(p: Problem, ty: DelayCostType, d: Seq<Vec<Vec<i32>>>, n0: int, soft: Seq<(u32, Seq<isize>)>, s0: int, t: int, v: int, k: int) -> bool {
    forall|j: int| s0 <= j < soft.len() ==> #[trigger] soft_of_time(p, ty, d, n0, soft[j], t, v, k)
}

/// `x` is the soft clause of a time before `(t, v, k)`.
pub open spec fn soft_of_time(p: Problem, ty: DelayCostType, d: Seq<Vec<Vec<i32>>>, n0: int, x: (u32, Seq<isize>), t: int, v: int, k: int) -> bool {
    exists|t2: int, v2: int, k2: int| #![trigger ti_soft(p, ty, d, n0, t2, v2, k2)] ti_index(p, d, t2, v2, k2)
        && ti_before(t2, v2, k2, t, v, k) && x == ti_soft(p, ty, d, n0, t2, v2, k2)
}

/// What holds of the times before one place holds of those before a later
/// place.
proof fn lemma_softs_later(p: Problem, ty: DelayCostType, d: Seq<Vec<Vec<i32>>>, n0: int, soft: Seq<(u32, Seq<isize>)>, s0: int,
    t: int, v: int, k: int, t1: int, v1: int, k1: int)
    requires
        softs_upto(p, ty, d, n0, soft, s0, t, v, k),
        forall|t2: int, v2: int, k2: int| ti_index(p, d, t2, v2, k2) && ti_before(t2, v2, k2, t, v, k) ==> ti_before(t2, v2, k2, t1, v1, k1),
        forall|t2: int, v2: int, k2: int| ti_index(p, d, t2, v2, k2) && ti_before(t2, v2, k2, t1, v1, k1) ==> ti_before(t2, v2, k2, t, v, k),
    ensures
        softs_upto(p, ty, d, n0, soft, s0, t1, v1, k1),
{
    assert forall|j: int| s0 <= j < soft.len() implies #[trigger] soft_of_time(p, ty, d, n0, soft[j], t1, v1, k1) by {
        assert(soft_of_time(p, ty, d, n0, soft[j], t, v, k));
        let (t2, v2, k2) = choose|t2: int, v2: int, k2: int| #![trigger ti_soft(p, ty, d, n0, t2, v2, k2)] ti_index(p, d, t2, v2, k2)
            && ti_before(t2, v2, k2, t, v, k) && soft[j] == ti_soft(p, ty, d, n0, t2, v2, k2);
        assert(ti_before(t2, v2, k2, t1, v1, k1));
    }
}

/// A literal per time of each visit, each with its soft clause. `None` when
/// the solver may run out of variables.
#[verifier::rlimit(60)]
fn make_time_vars(solver: &mut External, problem: &Problem, ty: DelayCostType, d: &Vec<Vec<Vec<i32>>>) -> (r: Option<TimeVars>)
    requires
        disc_ok(*problem, d@),
    ensures
        final(solver).hard_clauses() == old(solver).hard_clauses(),
        grown(old(solver).soft_clauses(), final(solver).soft_clauses()),
        final(solver).wcnf.n_vars >= old(solver).wcnf.n_vars,
        r matches Some(tv) ==> {
            &&& ti_layout(*problem, d@, old(solver).wcnf.n_vars as int, tv@)
            &&& vars_fit(*problem, tv@, final(solver).wcnf.n_vars as int)
            &&& softs_upto(*problem, ty, d@, old(solver).wcnf.n_vars as int, final(solver).soft_clauses(),
                old(solver).soft_clauses().len() as int, problem.trains@.len() as int, 0, 0)
        },
        r is None ==> final(solver).wcnf.n_vars >= isize::MAX && exists|t: int, v: int| #[trigger] valid_tv(*problem, t, v),
{
    let ghost p = *problem;
    let ghost n0 = solver.wcnf.n_vars as int;
    let ghost s00 = solver.soft_clauses();
    let ghost h00 = solver.hard_clauses();
    proof {
        lemma_grown_refl(s00);
    }
    let mut out: TimeVars = Vec::new();
    assert(solver.wcnf.n_vars == n0 + tcount(d@, 0));
    let mut t: usize = 0;
    while t < problem.trains.len()
        invariant
            p == *problem,
            disc_ok(p, d@),
            n0 == old(solver).wcnf.n_vars,
            s00 == old(solver).soft_clauses(),
            h00 == old(solver).hard_clauses(),
            solver.hard_clauses() == h00,
            grown(s00, solver.soft_clauses()),
            t <= p.trains@.len(),
            solver.wcnf.n_vars == n0 + tcount(d@, t as int),
            out@.len() == t,
            forall|t2: int| 0 <= t2 < t ==> #[trigger] out@[t2]@.len() == d@[t2]@.len(),
            forall|t2: int, v2: int| valid_tv(p, t2, v2) && t2 < t ==> #[trigger] out@[t2]@[v2]@.len() == d@[t2]@[v2]@.len(),
            forall|t2: int, v2: int, k2: int| ti_index(p, d@, t2, v2, k2) && t2 < t ==> #[trigger] out@[t2]@[v2]@[k2]
                == (d@[t2]@[v2]@[k2], ti_lit(d@, n0, t2, v2, k2) as isize),
            forall|t2: int, v2: int, k2: int| ti_index(p, d@, t2, v2, k2) && t2 < t ==> 1 <= #[trigger] ti_lit(d@, n0, t2, v2, k2) <= solver.wcnf.n_vars && ti_lit(d@, n0, t2, v2, k2) <= isize::MAX,
            softs_upto(p, ty, d@, n0, solver.soft_clauses(), s00.len() as int, t as int, 0, 0),
        decreases p.trains@.len() - t,
    {
        let nv = problem.trains[t].visits.len();
        let mut trow: Vec<Vec<(i32, isize)>> = Vec::new();
        let mut v: usize = 0;
        while v < nv
            invariant
                p == *problem,
                disc_ok(p, d@),
                n0 == old(solver).wcnf.n_vars,
                s00 == old(solver).soft_clauses(),
                h00 == old(solver).hard_clauses(),
                solver.hard_clauses() == h00,
                grown(s00, solver.soft_clauses()),
                t < p.trains@.len(),
                nv == p.trains@[t as int].visits@.len(),
                v <= nv,
                solver.wcnf.n_vars == n0 + tcount(d@, t as int) + vcount(d@[t as int]@, v as int),
                out@.len() == t,
                forall|t2: int| 0 <= t2 < t ==> #[trigger] out@[t2]@.len() == d@[t2]@.len(),
                forall|t2: int, v2: int| valid_tv(p, t2, v2) && t2 < t ==> #[trigger] out@[t2]@[v2]@.len() == d@[t2]@[v2]@.len(),
                forall|t2: int, v2: int, k2: int| ti_index(p, d@, t2, v2, k2) && t2 < t ==> #[trigger] out@[t2]@[v2]@[k2]
                    == (d@[t2]@[v2]@[k2], ti_lit(d@, n0, t2, v2, k2) as isize),
                trow@.len() == v,
                forall|v2: int| 0 <= v2 < v ==> #[trigger] trow@[v2]@.len() == d@[t as int]@[v2]@.len(),
                forall|v2: int, k2: int| ti_index(p, d@, t as int, v2, k2) && v2 < v ==> #[trigger] trow@[v2]@[k2]
                    == (d@[t as int]@[v2]@[k2], ti_lit(d@, n0, t as int, v2, k2) as isize),
                forall|t2: int, v2: int, k2: int| ti_index(p, d@, t2, v2, k2) && ti_before(t2, v2, k2, t as int, v as int, 0)
                    ==> 1 <= #[trigger] ti_lit(d@, n0, t2, v2, k2) <= solver.wcnf.n_vars && ti_lit(d@, n0, t2, v2, k2) <= isize::MAX,
                softs_upto(p, ty, d@, n0, solver.soft_clauses(), s00.len() as int, t as int, v as int, 0),
            decreases nv - v,
        {
            assert(valid_tv(p, t as int, v as int));
            let times = &d[t][v];
            let mut cell: Vec<(i32, isize)> = Vec::new();
            let mut k: usize = 0;
            while k < times.len()
                invariant
                    p == *problem,
                    disc_ok(p, d@),
                    n0 == old(solver).wcnf.n_vars,
                    s00 == old(solver).soft_clauses(),
                    h00 == old(solver).hard_clauses(),
                    solver.hard_clauses() == h00,
                    grown(s00, solver.soft_clauses()),
                    valid_tv(p, t as int, v as int),
                    *times == d@[t as int]@[v as int],
                    k <= times@.len(),
                    solver.wcnf.n_vars == n0 + tcount(d@, t as int) + vcount(d@[t as int]@, v as int) + k,
                    cell@.len() == k,
                    forall|k2: int| 0 <= k2 < k ==> #[trigger] cell@[k2] == (d@[t as int]@[v as int]@[k2], ti_lit(d@, n0, t as int, v as int, k2) as isize),
                    forall|t2: int, v2: int, k2: int| ti_index(p, d@, t2, v2, k2) && ti_before(t2, v2, k2, t as int, v as int, k as int)
                        ==> 1 <= #[trigger] ti_lit(d@, n0, t2, v2, k2) <= solver.wcnf.n_vars && ti_lit(d@, n0, t2, v2, k2) <= isize::MAX,
                    softs_upto(p, ty, d@, n0, solver.soft_clauses(), s00.len() as int, t as int, v as int, k as int),
                decreases times@.len() - k,
            {
                proof {
                    lemma_counts_nonneg(d@, t as int, d@[t as int]@, v as int);
                }
                if solver.wcnf.n_vars >= isize::MAX as usize {
                    assert(valid_tv(p, t as int, v as int));
                    return None;
                }
                let time = times[k];
                let var = solver.new_var();
                let cost = problem.trains[t].visit_delay_cost(ty, v, time);
                let neg = -var;
                let c32 = cost as u32;
                let cl = vec![neg];
                let ghost sf0 = solver.soft_clauses();
                let ghost e = ti_soft(p, ty, d@, n0, t as int, v as int, k as int);
                proof {
                    assert(var as int == ti_lit(d@, n0, t as int, v as int, k as int));
                    assert(cl@ =~= e.1);
                    assert(c32 == e.0);
                }
                <External as MaxSatSolver>::add_clause(solver, Some(c32), cl);
                proof {
                    let sf1 = solver.soft_clauses();
                    if c32 != 0 {
                        assert(sf1 == sf0.push(e));
                        assert(sf1[sf0.len() as int] == e);
                        assert(sf1.take(sf0.len() as int) =~= sf0);
                    } else {
                        lemma_grown_refl(sf0);
                    }
                    lemma_grown_trans(s00, sf0, sf1);
                    lemma_grown_contains(sf0, sf1);
                    assert forall|j: int| s00.len() <= j < sf1.len() implies #[trigger] soft_of_time(p, ty, d@, n0, sf1[j], t as int, v as int, k + 1) by {
                        if j < sf0.len() {
                            assert(sf1[j] == sf0[j]);
                            assert(soft_of_time(p, ty, d@, n0, sf0[j], t as int, v as int, k as int));
                            let (t2, v2, k2) = choose|t2: int, v2: int, k2: int| #![trigger ti_soft(p, ty, d@, n0, t2, v2, k2)] ti_index(p, d@, t2, v2, k2)
                                && ti_before(t2, v2, k2, t as int, v as int, k as int) && sf0[j] == ti_soft(p, ty, d@, n0, t2, v2, k2);
                            assert(ti_before(t2, v2, k2, t as int, v as int, k + 1));
                        } else {
                            assert(ti_index(p, d@, t as int, v as int, k as int));
                            assert(ti_before(t as int, v as int, k as int, t as int, v as int, k + 1));
                        }
                    }
                    assert forall|t2: int, v2: int, k2: int| ti_index(p, d@, t2, v2, k2) && ti_before(t2, v2, k2, t as int, v as int, k + 1)
                        && (#[trigger] ti_soft(p, ty, d@, n0, t2, v2, k2)).0 != 0 implies sf1.contains(ti_soft(p, ty, d@, n0, t2, v2, k2)) by {
                        if ti_before(t2, v2, k2, t as int, v as int, k as int) {
                            assert(sf0.contains(ti_soft(p, ty, d@, n0, t2, v2, k2)));
                        } else {
                            assert(t2 == t && v2 == v && k2 == k);
                        }
                    }
                    assert(softs_added(p, ty, d@, n0, sf1, t as int, v as int, k + 1));
                    assert(softs_known(p, ty, d@, n0, sf1, s00.len() as int, t as int, v as int, k + 1));
                }
                cell.push((time, var));
                k = k + 1;
            }
            proof {
                let sf = solver.soft_clauses();
                assert(vcount(d@[t as int]@, v + 1) == vcount(d@[t as int]@, v as int) + d@[t as int]@[v as int]@.len());
                assert forall|t2: int, v2: int, k2: int| ti_index(p, d@, t2, v2, k2) && ti_before(t2, v2, k2, t as int, v + 1, 0)
                    implies 1 <= #[trigger] ti_lit(d@, n0, t2, v2, k2) <= solver.wcnf.n_vars && ti_lit(d@, n0, t2, v2, k2) <= isize::MAX by {
                    assert(ti_before(t2, v2, k2, t as int, v as int, k as int));
                }
                lemma_softs_later(p, ty, d@, n0, sf, s00.len() as int, t as int, v as int, k as int, t as int, v + 1, 0);
                assert(softs_upto(p, ty, d@, n0, sf, s00.len() as int, t as int, v + 1, 0));
            }
            let ghost tr0 = trow@;
            trow.push(cell);
            proof {
                assert forall|v2: int, k2: int| ti_index(p, d@, t as int, v2, k2) && v2 < v + 1 implies #[trigger] trow@[v2]@[k2]
                    == (d@[t as int]@[v2]@[k2], ti_lit(d@, n0, t as int, v2, k2) as isize) by {
                    if v2 < v {
                        assert(trow@[v2] == tr0[v2]);
                    }
                }
            }
            v = v + 1;
        }
        proof {
            let sf = solver.soft_clauses();
            assert(tcount(d@, t + 1) == tcount(d@, t as int) + vcount(d@[t as int]@, d@[t as int]@.len() as int));
            assert(d@[t as int]@.len() == nv);
            assert forall|t2: int, v2: int, k2: int| ti_index(p, d@, t2, v2, k2) && t2 < t + 1
                implies 1 <= #[trigger] ti_lit(d@, n0, t2, v2, k2) <= solver.wcnf.n_vars && ti_lit(d@, n0, t2, v2, k2) <= isize::MAX by {
                assert(ti_before(t2, v2, k2, t as int, nv as int, 0));
            }
            lemma_softs_later(p, ty, d@, n0, sf, s00.len() as int, t as int, nv as int, 0, t + 1, 0, 0);
            assert(softs_upto(p, ty, d@, n0, sf, s00.len() as int, t + 1, 0, 0));
        }
        let ghost out0 = out@;
        out.push(trow);
        proof {
            assert forall|t2: int, v2: int, k2: int| ti_index(p, d@, t2, v2, k2) && t2 < t + 1 implies #[trigger] out@[t2]@[v2]@[k2]
                == (d@[t2]@[v2]@[k2], ti_lit(d@, n0, t2, v2, k2) as isize) by {
                if t2 < t {
                    assert(out@[t2] == out0[t2]);
                }
            }
            assert forall|t2: int, v2: int| valid_tv(p, t2, v2) && t2 < t + 1 implies #[trigger] out@[t2]@[v2]@.len() == d@[t2]@[v2]@.len() by {
                if t2 < t {
                    assert(out@[t2] == out0[t2]);
                }
            }
        }
        t = t + 1;
    }
    proof {
        lemma_counts_nonneg(d@, t as int, Seq::empty(), 0);
        assert forall|t2: int, v2: int, k2: int| valid_tv(p, t2, v2) && 0 <= k2 < out@[t2]@[v2]@.len()
            implies 1 <= (#[trigger] out@[t2]@[v2]@[k2]).1 <= solver.wcnf.n_vars by {
            assert(ti_index(p, d@, t2, v2, k2));
            assert(1 <= ti_lit(d@, n0, t2, v2, k2) <= solver.wcnf.n_vars && ti_lit(d@, n0, t2, v2, k2) <= isize::MAX);
        }
    }
    Some(out)
}

/// The literals of a visit's times.
pub open spec fn lits_of(c: Seq<(i32, isize)>) -> Seq<isize> {
    Seq::new(c.len(), |i: int| c[i].1)
}

/// Every assignment that satisfies the clauses `h` sets exactly one time of
/// every visit.
pub open spec fn one_each(p: Problem, tv: Seq<Vec<Vec<(i32, isize)>>>, h: Seq<Seq<isize>>) -> bool {
    forall|a: spec_fn(int) -> bool, t: int, v: int| clauses_hold(a, h) && valid_tv(p, t, v) ==> #[trigger] count_true(a, lits_of(tv[t]@[v]@)) == 1
}

/// The times of consecutive visits of a train that travel does not connect
/// exclude each other in `h`.
pub open spec fn travel_excluded(p: Problem, tv: Seq<Vec<Vec<(i32, isize)>>>, h: Seq<Seq<isize>>) -> bool {
    forall|t: int, v: int| valid_tv(p, t, v) && v + 1 < p.trains@[t].visits@.len() ==> #[trigger] visits_excluded(p, tv, h, 0, t, v, t, v + 1)
}

/// The overlapping times of visits of two trains to resources in conflict
/// exclude each other in `h`.
pub open spec fn conflicts_excluded(p: Problem, tv: Seq<Vec<Vec<(i32, isize)>>>, h: Seq<Seq<isize>>) -> bool {
    forall|t1: int, v1: int, t2: int, v2: int| valid_tv(p, t1, v1) && valid_tv(p, t2, v2) && t1 != t2 && in_conflict(p, t1, v1, t2, v2)
        ==> #[trigger] visits_excluded(p, tv, h, 1, t1, v1, t2, v2)
}

fn lits_vec(c: &Vec<(i32, isize)>) -> (r: Vec<isize>)
    ensures
        r@ == lits_of(c@),
{
    let mut out: Vec<isize> = Vec::new();
    let mut i: usize = 0;
    while i < c.len()
        invariant
            i <= c@.len(),
            out@ =~= lits_of(c@).take(i as int),
        decreases c@.len() - i,
    {
        out.push(c[i].1);
        i = i + 1;
    }
    assert(lits_of(c@).take(i as int) =~= lits_of(c@));
    out
}

/// Makes exactly one time of every visit hold. False when the solver may
/// run out of variables.
fn one_time_per_visit(solver: &mut External, problem: &Problem, tv: &TimeVars) -> (ok: bool)
    requires
        vars_fit(*problem, tv@, old(solver).wcnf.n_vars as int),
    ensures
        final(solver).wcnf.n_vars >= old(solver).wcnf.n_vars,
        final(solver).soft_clauses() == old(solver).soft_clauses(),
        grown(old(solver).hard_clauses(), final(solver).hard_clauses()),
        ok ==> one_each(*problem, tv@, final(solver).hard_clauses()),
        !ok ==> exists|t: int, v: int| valid_tv(*problem, t, v) && final(solver).wcnf.n_vars + (#[trigger] tv@[t]@[v]@.len()) > isize::MAX,
{
    let ghost p = *problem;
    let ghost h00 = solver.hard_clauses();
    let ghost n00 = solver.wcnf.n_vars as int;
    proof {
        lemma_grown_refl(h00);
    }
    let mut t: usize = 0;
    while t < problem.trains.len()
        invariant
            p == *problem,
            vars_fit(p, tv@, n00),
            n00 == old(solver).wcnf.n_vars,
            h00 == old(solver).hard_clauses(),
            solver.wcnf.n_vars >= n00,
            solver.soft_clauses() == old(solver).soft_clauses(),
            grown(h00, solver.hard_clauses()),
            t <= p.trains@.len(),
            forall|a: spec_fn(int) -> bool, t2: int, v2: int| clauses_hold(a, solver.hard_clauses()) && valid_tv(p, t2, v2) && t2 < t
                ==> #[trigger] count_true(a, lits_of(tv@[t2]@[v2]@)) == 1,
        decreases p.trains@.len() - t,
    {
        let n = problem.trains[t].visits.len();
        let mut v: usize = 0;
        while v < n
            invariant
                p == *problem,
                vars_fit(p, tv@, n00),
                n00 == old(solver).wcnf.n_vars,
                h00 == old(solver).hard_clauses(),
                solver.wcnf.n_vars >= n00,
                solver.soft_clauses() == old(solver).soft_clauses(),
                grown(h00, solver.hard_clauses()),
                t < p.trains@.len(),
                n == p.trains@[t as int].visits@.len(),
                v <= n,
                forall|a: spec_fn(int) -> bool, t2: int, v2: int| clauses_hold(a, solver.hard_clauses()) && valid_tv(p, t2, v2)
                    && (t2 < t || (t2 == t && v2 < v)) ==> #[trigger] count_true(a, lits_of(tv@[t2]@[v2]@)) == 1,
            decreases n - v,
        {
            assert(valid_tv(p, t as int, v as int));
            let set = lits_vec(&tv[t][v]);
            if set.len() > isize::MAX as usize || solver.wcnf.n_vars > isize::MAX as usize - set.len() {
                assert(solver.wcnf.n_vars + tv@[t as int]@[v as int]@.len() > isize::MAX);
                return false;
            }
            proof {
                assert forall|i: int| 0 <= i < set@.len() implies 1 <= #[trigger] crate::maxsatsolver::lit_var(set@[i]) <= solver.wcnf.n_vars by {
                    assert(1 <= tv@[t as int]@[v as int]@[i].1 <= n00);
                }
                assert(lits_within(set@, solver.wcnf.n_vars as int));
            }
            let ghost h0 = solver.hard_clauses();
            let ghost setv = set@;
            solver.exactly_one(set.as_slice());
            proof {
                let h1 = solver.hard_clauses();
                lemma_grown_trans(h00, h0, h1);
                assert forall|a: spec_fn(int) -> bool, t2: int, v2: int| clauses_hold(a, h1) && valid_tv(p, t2, v2)
                    && (t2 < t || (t2 == t && v2 < v + 1)) implies #[trigger] count_true(a, lits_of(tv@[t2]@[v2]@)) == 1 by {
                    lemma_hold_prefix(a, h0, h1);
                    if t2 == t && v2 == v {
                        assert(setv == lits_of(tv@[t2]@[v2]@));
                    }
                }
            }
            v = v + 1;
        }
        t = t + 1;
    }
    true
}

/// Makes the times of consecutive visits of a train that travel does not
/// connect exclude each other.
fn exclude_travel(solver: &mut External, problem: &Problem, tv: &TimeVars)
    requires
        vars_fit(*problem, tv@, old(solver).wcnf.n_vars as int),
    ensures
        final(solver).wcnf.n_vars == old(solver).wcnf.n_vars,
        final(solver).soft_clauses() == old(solver).soft_clauses(),
        grown(old(solver).hard_clauses(), final(solver).hard_clauses()),
        travel_excluded(*problem, tv@, final(solver).hard_clauses()),
{
    let ghost p = *problem;
    let ghost h00 = solver.hard_clauses();
    proof {
        lemma_grown_refl(h00);
    }
    let mut t: usize = 0;
    while t < problem.trains.len()
        invariant
            p == *problem,
            vars_fit(p, tv@, solver.wcnf.n_vars as int),
            solver.wcnf.n_vars == old(solver).wcnf.n_vars,
            solver.soft_clauses() == old(solver).soft_clauses(),
            h00 == old(solver).hard_clauses(),
            grown(h00, solver.hard_clauses()),
            t <= p.trains@.len(),
            forall|t2: int, v2: int| valid_tv(p, t2, v2) && v2 + 1 < p.trains@[t2].visits@.len() && t2 < t
                ==> #[trigger] visits_excluded(p, tv@, solver.hard_clauses(), 0, t2, v2, t2, v2 + 1),
        decreases p.trains@.len() - t,
    {
        let n = problem.trains[t].visits.len();
        let mut v: usize = 0;
        while v < n && n - v > 1
            invariant
                p == *problem,
                vars_fit(p, tv@, solver.wcnf.n_vars as int),
                solver.wcnf.n_vars == old(solver).wcnf.n_vars,
                solver.soft_clauses() == old(solver).soft_clauses(),
                h00 == old(solver).hard_clauses(),
                grown(h00, solver.hard_clauses()),
                t < p.trains@.len(),
                n == p.trains@[t as int].visits@.len(),
                v <= n,
                forall|t2: int, v2: int| valid_tv(p, t2, v2) && v2 + 1 < p.trains@[t2].visits@.len() && (t2 < t || (t2 == t && v2 < v))
                    ==> #[trigger] visits_excluded(p, tv@, solver.hard_clauses(), 0, t2, v2, t2, v2 + 1),
            decreases n - v,
        {
            assert(valid_tv(p, t as int, v as int));
            assert(valid_tv(p, t as int, v + 1));
            let ghost h0 = solver.hard_clauses();
            exclude_pairs(
                solver,
                0,
                &tv[t][v],
                problem.trains[t].visits[v].travel_time,
                &tv[t][v + 1],
                problem.trains[t].visits[v + 1].travel_time,
            );
            proof {
                let h1 = solver.hard_clauses();
                lemma_grown_trans(h00, h0, h1);
                assert forall|t2: int, v2: int| valid_tv(p, t2, v2) && v2 + 1 < p.trains@[t2].visits@.len() && (t2 < t || (t2 == t && v2 < v + 1))
                    implies #[trigger] visits_excluded(p, tv@, h1, 0, t2, v2, t2, v2 + 1) by {
                    if t2 < t || v2 < v {
                        assert(visits_excluded(p, tv@, h0, 0, t2, v2, t2, v2 + 1));
                        lemma_pairs_grow(h0, h1, 0, tv@[t2]@[v2]@, trav(p, t2, v2), tv@[t2]@[v2 + 1]@, trav(p, t2, v2 + 1));
                    }
                }
            }
            v = v + 1;
        }
        t = t + 1;
    }
}

/// Makes the overlapping times of visits of two trains to resources in
/// conflict exclude each other.
fn exclude_all_conflicts(solver: &mut External, problem: &Problem, tv: &TimeVars)
    requires
        vars_fit(*problem, tv@, old(solver).wcnf.n_vars as int),
    ensures
        final(solver).wcnf.n_vars == old(solver).wcnf.n_vars,
        final(solver).soft_clauses() == old(solver).soft_clauses(),
        grown(old(solver).hard_clauses(), final(solver).hard_clauses()),
        conflicts_excluded(*problem, tv@, final(solver).hard_clauses()),
{
    let ghost p = *problem;
    let ghost h00 = solver.hard_clauses();
    proof {
        lemma_grown_refl(h00);
    }
    let mut t: usize = 0;
    while t < problem.trains.len()
        invariant
            p == *problem,
            vars_fit(p, tv@, solver.wcnf.n_vars as int),
            solver.wcnf.n_vars == old(solver).wcnf.n_vars,
            solver.soft_clauses() == old(solver).soft_clauses(),
            h00 == old(solver).hard_clauses(),
            grown(h00, solver.hard_clauses()),
            t <= p.trains@.len(),
            forall|t1: int, v1: int, t2: int, v2: int| valid_tv(p, t1, v1) && valid_tv(p, t2, v2) && t1 != t2 && in_conflict(p, t1, v1, t2, v2)
                && t1 < t ==> #[trigger] visits_excluded(p, tv@, solver.hard_clauses(), 1, t1, v1, t2, v2),
        decreases p.trains@.len() - t,
    {
        let n = problem.trains[t].visits.len();
        let mut v: usize = 0;
        while v < n
            invariant
                p == *problem,
                vars_fit(p, tv@, solver.wcnf.n_vars as int),
                solver.wcnf.n_vars == old(solver).wcnf.n_vars,
                solver.soft_clauses() == old(solver).soft_clauses(),
                h00 == old(solver).hard_clauses(),
                grown(h00, solver.hard_clauses()),
                t < p.trains@.len(),
                n == p.trains@[t as int].visits@.len(),
                v <= n,
                forall|t1: int, v1: int, t2: int, v2: int| valid_tv(p, t1, v1) && valid_tv(p, t2, v2) && t1 != t2 && in_conflict(p, t1, v1, t2, v2)
                    && (t1 < t || (t1 == t && v1 < v)) ==> #[trigger] visits_excluded(p, tv@, solver.hard_clauses(), 1, t1, v1, t2, v2),
            decreases n - v,
        {
            assert(valid_tv(p, t as int, v as int));
            let ghost h0 = solver.hard_clauses();
            exclude_conflicts(solver, problem, tv, t, v);
            proof {
                let h1 = solver.hard_clauses();
                lemma_grown_trans(h00, h0, h1);
                assert forall|t1: int, v1: int, t2: int, v2: int| valid_tv(p, t1, v1) && valid_tv(p, t2, v2) && t1 != t2 && in_conflict(p, t1, v1, t2, v2)
                    && (t1 < t || (t1 == t && v1 < v + 1)) implies #[trigger] visits_excluded(p, tv@, h1, 1, t1, v1, t2, v2) by {
                    if t1 < t || v1 < v {
                        assert(visits_excluded(p, tv@, h0, 1, t1, v1, t2, v2));
                        lemma_pairs_grow(h0, h1, 1, tv@[t1]@[v1]@, trav(p, t1, v1), tv@[t2]@[v2]@, trav(p, t2, v2));
                    }
                }
            }
            v = v + 1;
        }
        t = t + 1;
    }
}

proof fn lemma_vars_fit_grow(p: Problem, tv: Seq<Vec<Vec<(i32, isize)>>>, n1: int, n2: int)
    requires
        vars_fit(p, tv, n1),
        n1 <= n2,
    ensures
        vars_fit(p, tv, n2),
{
    assert forall|t: int, v: int, k: int| valid_tv(p, t, v) && 0 <= k < tv[t]@[v]@.len() implies 1 <= (#[trigger] tv[t]@[v]@[k]).1 <= n2 by {
        assert(1 <= tv[t]@[v]@[k].1 <= n1);
    }
}

proof fn lemma_excluded_grow(p: Problem, tv: Seq<Vec<Vec<(i32, isize)>>>, h0: Seq<Seq<isize>>, h1: Seq<Seq<isize>>)
    requires
        grown(h0, h1),
    ensures
        one_each(p, tv, h0) ==> one_each(p, tv, h1),
        travel_excluded(p, tv, h0) ==> travel_excluded(p, tv, h1),
{
    if one_each(p, tv, h0) {
        assert forall|a: spec_fn(int) -> bool, t: int, v: int| clauses_hold(a, h1) && valid_tv(p, t, v)
            implies #[trigger] count_true(a, lits_of(tv[t]@[v]@)) == 1 by {
            lemma_hold_prefix(a, h0, h1);
        }
    }
    if travel_excluded(p, tv, h0) {
        assert forall|t: int, v: int| valid_tv(p, t, v) && v + 1 < p.trains@[t].visits@.len()
            implies #[trigger] visits_excluded(p, tv, h1, 0, t, v, t, v + 1) by {
            assert(visits_excluded(p, tv, h0, 0, t, v, t, v + 1));
            lemma_pairs_grow(h0, h1, 0, tv[t]@[v]@, trav(p, t, v), tv[t]@[v + 1]@, trav(p, t, v + 1));
        }
    }
}

/// The time-indexed formula for the times `times` of each visit: a fresh
/// literal per time, numbered train by train and visit by visit, whose
/// falsity is a soft clause weighed by the visit's delay cost at that time;
/// exactly one time per visit; the times of consecutive visits of a train
/// that travel does not connect exclude each other; and so do the
/// overlapping times of visits of two trains to resources in conflict. The
/// result gives each time with its literal. `OutOfMemory` when the solver may
/// run out of variables.
pub fn maxsat_ti_encode(
    solver: &mut External,
    problem: &Problem,
    delay_cost_type: DelayCostType,
    times: &Vec<Vec<Vec<i32>>>,
) -> (r: Result<TimeVars, SolverError>)
    requires
        disc_ok(*problem, times@),
    ensures
        final(solver).wcnf.n_vars >= old(solver).wcnf.n_vars,
        grown(old(solver).hard_clauses(), final(solver).hard_clauses()),
        grown(old(solver).soft_clauses(), final(solver).soft_clauses()),
        r matches Ok(tv) ==> {
            &&& ti_layout(*problem, times@, old(solver).wcnf.n_vars as int, tv@)
            &&& vars_fit(*problem, tv@, final(solver).wcnf.n_vars as int)
            &&& softs_upto(*problem, delay_cost_type, times@, old(solver).wcnf.n_vars as int, final(solver).soft_clauses(),
                old(solver).soft_clauses().len() as int, problem.trains@.len() as int, 0, 0)
            &&& one_each(*problem, tv@, final(solver).hard_clauses())
            &&& travel_excluded(*problem, tv@, final(solver).hard_clauses())
            &&& conflicts_excluded(*problem, tv@, final(solver).hard_clauses())
        },
        r matches Err(e) ==> e == SolverError::OutOfMemory && exists|t: int, v: int| valid_tv(*problem, t, v)
            && final(solver).wcnf.n_vars + (#[trigger] times@[t]@[v]@.len()) >= isize::MAX,
{
    let ghost p = *problem;
    let ghost h0 = solver.hard_clauses();
    let tv = match make_time_vars(solver, problem, delay_cost_type, times) {
        Some(x) => x,
        None => {
            proof {
                lemma_grown_refl(h0);
                let (t, v) = choose|t: int, v: int| #[trigger] valid_tv(p, t, v);
                assert(solver.wcnf.n_vars + times@[t]@[v]@.len() >= isize::MAX);
            }
            return Err(SolverError::OutOfMemory);
        },
    };
    let ghost s1 = solver.soft_clauses();
    let ghost h1 = solver.hard_clauses();
    let ghost n1 = solver.wcnf.n_vars as int;
    proof {
        lemma_grown_refl(h0);
    }
    if !one_time_per_visit(solver, problem, &tv) {
        proof {
            lemma_grown_trans(h0, h1, solver.hard_clauses());
            let (t, v) = choose|t: int, v: int| valid_tv(p, t, v) && solver.wcnf.n_vars + (#[trigger] tv@[t]@[v]@.len()) > isize::MAX;
            assert(tv@[t]@[v]@.len() == times@[t]@[v]@.len());
        }
        return Err(SolverError::OutOfMemory);
    }
    let ghost h2 = solver.hard_clauses();
    proof {
        lemma_vars_fit_grow(p, tv@, n1, solver.wcnf.n_vars as int);
    }
    exclude_travel(solver, problem, &tv);
    let ghost h3 = solver.hard_clauses();
    exclude_all_conflicts(solver, problem, &tv);
    proof {
        let h4 = solver.hard_clauses();
        lemma_grown_trans(h2, h3, h4);
        lemma_excluded_grow(p, tv@, h2, h4);
        lemma_excluded_grow(p, tv@, h3, h4);
        lemma_grown_trans(h1, h2, h4);
        lemma_grown_trans(h0, h1, h4);
    }
    Ok(tv)
}

/// `t` rounded to a multiple of `di` (a half rounded away from below), with
/// the quotient truncated towards zero.
pub open spec fn round_to(t: int, di: int) -> int {
    let x = t + di / 2;
    let q = if x >= 0 {
        x / di
    } else {
        -((-x) / di)
    };
    q * di
}

/// The times of a visit with earliest time `earliest`: from that time
/// rounded to a multiple of `interval`, every `interval` seconds, while
/// before `earliest + horizon`.
pub open spec fn visit_times_ok(r: Seq<i32>, earliest: int, interval: int, horizon: int) -> bool {
    &&& forall|i: int| 0 <= i < r.len() ==> #[trigger] r[i] == round_to(earliest, interval) + i * interval
    &&& forall|i: int| 0 <= i < r.len() ==> #[trigger] r[i] < earliest + horizon
    &&& round_to(earliest, interval) + r.len() * interval >= earliest + horizon
}

/// The fixed times of one visit for the time-indexed formula.
fn visit_times(earliest: i32, interval: i32, horizon: i32) -> (r: Vec<i32>)
    requires
        interval > 0,
        horizon >= 0,
        earliest + horizon + interval <= i32::MAX,
    ensures
        visit_times_ok(r@, earliest as int, interval as int, horizon as int),
{
    let x: i64 = earliest as i64 + (interval / 2) as i64;
    let di: i64 = interval as i64;
    let q: i64 = if x >= 0 {
        (x as u64 / di as u64) as i64
    } else {
        let y: i64 = -x;
        -((y as u64 / di as u64) as i64)
    };
    proof {
        let xi = x as int;
        let d = di as int;
        if xi >= 0 {
            vstd::arithmetic::div_mod::lemma_fundamental_div_mod(xi, d);
            assert(0 <= xi % d < d) by {
                vstd::arithmetic::div_mod::lemma_mod_bound(xi, d);
            }
            assert(q as int == xi / d);
            assert(0 <= q * d <= xi) by (nonlinear_arith)
                requires
                    xi == d * (xi / d) + xi % d,
                    0 <= xi % d,
                    q as int == xi / d,
                    d > 0,
                    xi >= 0,
            ;
        } else {
            let yi = -xi;
            vstd::arithmetic::div_mod::lemma_fundamental_div_mod(yi, d);
            assert(0 <= yi % d < d) by {
                vstd::arithmetic::div_mod::lemma_mod_bound(yi, d);
            }
            assert(-yi <= q * d <= 0) by (nonlinear_arith)
                requires
                    yi == d * (yi / d) + yi % d,
                    0 <= yi % d,
                    q as int == -(yi / d),
                    d > 0,
                    yi > 0,
            ;
        }
    }
    let start: i64 = q * di;
    assert(start == round_to(earliest as int, interval as int));
    let limit: i64 = earliest as i64 + horizon as i64;
    let mut out: Vec<i32> = Vec::new();
    let mut time: i64 = start;
    assert(out@.len() * interval == 0);
    while time < limit
        invariant
            di == interval,
            interval > 0,
            limit == earliest + horizon,
            limit + di <= i32::MAX,
            start == round_to(earliest as int, interval as int),
            i32::MIN <= start <= i32::MAX,
            time == start + out@.len() * interval,
            time == start || time <= limit + di,
            forall|i: int| 0 <= i < out@.len() ==> #[trigger] out@[i] == start + i * interval,
            forall|i: int| 0 <= i < out@.len() ==> #[trigger] out@[i] < limit,
        decreases limit + di - time,
    {
        out.push(time as i32);
        time = time + di;
        assert(time == start + out@.len() * interval) by (nonlinear_arith)
            requires
                time == start + (out@.len() - 1) * interval + interval,
        ;
    }
    out
}

/// The fixed times of every visit for the time-indexed formula: from the
/// visit's earliest time rounded to a multiple of `discretization_interval`,
/// every `discretization_interval` seconds, while before the earliest time
/// plus `big_m`.
pub fn ti_discretization(problem: &Problem, discretization_interval: u32, big_m: u32) -> (r: Vec<Vec<Vec<i32>>>)
    requires
        0 < discretization_interval <= i32::MAX,
        big_m <= i32::MAX,
        forall|t: int, v: int| valid_tv(*problem, t, v) ==> #[trigger] problem.trains@[t].visits@[v].earliest + big_m + discretization_interval
            <= i32::MAX,
    ensures
        r@.len() == problem.trains@.len(),
        forall|t: int| 0 <= t < r@.len() ==> #[trigger] r@[t]@.len() == problem.trains@[t].visits@.len(),
        forall|t: int, v: int| valid_tv(*problem, t, v) ==> visit_times_ok(
            #[trigger] r@[t]@[v]@,
            problem.trains@[t].visits@[v].earliest as int,
            discretization_interval as int,
            big_m as int,
        ),
{
    let ghost p = *problem;
    let di: i32 = discretization_interval as i32;
    let m: i32 = big_m as i32;
    let mut out: Vec<Vec<Vec<i32>>> = Vec::new();
    let mut t: usize = 0;
    while t < problem.trains.len()
        invariant
            p == *problem,
            di == discretization_interval,
            m == big_m,
            0 < di,
            0 <= m,
            forall|t2: int, v: int| valid_tv(p, t2, v) ==> #[trigger] p.trains@[t2].visits@[v].earliest + m + di <= i32::MAX,
            t <= p.trains@.len(),
            out@.len() == t,
            forall|t2: int| 0 <= t2 < t ==> #[trigger] out@[t2]@.len() == p.trains@[t2].visits@.len(),
            forall|t2: int, v: int| valid_tv(p, t2, v) && t2 < t ==> visit_times_ok(
                #[trigger] out@[t2]@[v]@,
                p.trains@[t2].visits@[v].earliest as int,
                di as int,
                m as int,
            ),
        decreases p.trains@.len() - t,
    {
        let n = problem.trains[t].visits.len();
        let mut row: Vec<Vec<i32>> = Vec::new();
        let mut v: usize = 0;
        while v < n
            invariant
                p == *problem,
                0 < di,
                0 <= m,
                forall|t2: int, v2: int| valid_tv(p, t2, v2) ==> #[trigger] p.trains@[t2].visits@[v2].earliest + m + di <= i32::MAX,
                t < p.trains@.len(),
                n == p.trains@[t as int].visits@.len(),
                v <= n,
                row@.len() == v,
                forall|v2: int| 0 <= v2 < v ==> visit_times_ok(
                    #[trigger] row@[v2]@,
                    p.trains@[t as int].visits@[v2].earliest as int,
                    di as int,
                    m as int,
                ),
            decreases n - v,
        {
            assert(valid_tv(p, t as int, v as int));
            let times = visit_times(problem.trains[t].visits[v].earliest, di, m);
            row.push(times);
            v = v + 1;
        }
        let ghost out0 = out@;
        out.push(row);
        proof {
            assert forall|t2: int, v2: int| valid_tv(p, t2, v2) && t2 < t + 1 implies visit_times_ok(
                #[trigger] out@[t2]@[v2]@,
                p.trains@[t2].visits@[v2].earliest as int,
                di as int,
                m as int,
            ) by {
                if t2 < t {
                    assert(out@[t2] == out0[t2]);
                }
            }
        }
        t = t + 1;
    }
    out
}

/// The assignment that a model gives: variable `x` takes bit `x - 1`.
pub open spec fn model_asg(bits: Seq<bool>) -> spec_fn(int) -> bool {
    |x: int| bits[x - 1]
}

/// The times a model sets are as many as the true literals of the times.
proof fn lemma_picked_count(c: Seq<(i32, isize)>, bits: Seq<bool>)
    requires
        forall|k: int| 0 <= k < c.len() ==> 1 <= (#[trigger] c[k]).1 <= bits.len(),
    ensures
        picked(c, bits).len() == count_true(model_asg(bits), lits_of(c)),
    decreases c.len(),
{
    if c.len() > 0 {
        let c0 = c.drop_last();
        assert forall|k: int| 0 <= k < c0.len() implies 1 <= (#[trigger] c0[k]).1 <= bits.len() by {
            assert(c0[k] == c[k]);
        }
        lemma_picked_count(c0, bits);
        assert(lits_of(c).drop_last() =~= lits_of(c0));
        assert(lits_of(c).last() == c.last().1);
    }
}

/// A model that satisfies the time-indexed formula sets exactly one time of
/// every visit, so reading the schedule off it fails only where a time
/// leaves `i32`.
pub proof fn formula_model_sets_one_time(p: Problem, tv: Seq<Vec<Vec<(i32, isize)>>>, h: Seq<Seq<isize>>, bits: Seq<bool>)
    requires
        one_each(p, tv, h),
        vars_fit(p, tv, bits.len() as int),
        clauses_hold(model_asg(bits), h),
    ensures
        one_time_each(p, tv, bits),
{
    assert forall|t: int, v: int| valid_tv(p, t, v) implies (#[trigger] picked(tv[t]@[v]@, bits)).len() == 1 by {
        assert(count_true(model_asg(bits), lits_of(tv[t]@[v]@)) == 1);
        assert forall|k: int| 0 <= k < tv[t]@[v]@.len() implies 1 <= (#[trigger] tv[t]@[v]@[k]).1 <= bits.len() by {}
        lemma_picked_count(tv[t]@[v]@, bits);
    }
}

} // verus!
