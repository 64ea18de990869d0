//! A greedy feasible schedule, used as a warm-start upper bound: the rule
//! that it follows, what the rule guarantees, and the building blocks.
pub mod schedule;

use vstd::prelude::*;
use crate::arith::{clamp_i32, sat_add, max_i32};
use crate::precedence::chain_lb;
use crate::problem::{Problem, Train, Visit};

verus! {

// ---------------------------------------------------------------------------
// Flat numbering of visits
// ---------------------------------------------------------------------------

/// The number of visits of the first `t` trains: the flat index of the first
/// visit of train `t`.
pub open spec fn offs(p: Problem, t: int) -> nat
    decreases t,
{
    if t <= 0 {
        0
    } else {
        offs(p, t - 1) + p.trains@[t - 1].visits@.len()
    }
}

/// The number of visits of all trains.
pub open spec fn n_flat(p: Problem) -> nat {
    offs(p, p.trains@.len() as int)
}

/// The flat index of visit `v` of train `t`.
pub open spec fn flat(p: Problem, t: int, v: int) -> int {
    offs(p, t) + v
}

pub open spec fn valid_tv(p: Problem, t: int, v: int) -> bool {
    0 <= t < p.trains@.len() && 0 <= v < p.trains@[t].visits@.len()
}

pub proof fn lemma_offs_monotone(p: Problem, a: int, b: int)
    requires
        0 <= a <= b <= p.trains@.len(),
    ensures
        offs(p, a) <= offs(p, b),
        a < b ==> offs(p, a) + p.trains@[a].visits@.len() <= offs(p, b),
    decreases b - a,
{
    if a < b {
        lemma_offs_monotone(p, a, b - 1);
    }
}

pub proof fn lemma_flat_bounds(p: Problem, t: int, v: int)
    requires
        valid_tv(p, t, v),
    ensures
        0 <= flat(p, t, v) < n_flat(p),
        offs(p, t) <= flat(p, t, v) < offs(p, t + 1),
{
    lemma_offs_monotone(p, t, p.trains@.len() as int);
    lemma_offs_monotone(p, t + 1, p.trains@.len() as int);
}

pub proof fn lemma_flat_injective(p: Problem, t1: int, v1: int, t2: int, v2: int)
    requires
        valid_tv(p, t1, v1),
        valid_tv(p, t2, v2),
        flat(p, t1, v1) == flat(p, t2, v2),
    ensures
        t1 == t2 && v1 == v2,
{
    if t1 < t2 {
        lemma_offs_monotone(p, t1, t2);
    } else if t2 < t1 {
        lemma_offs_monotone(p, t2, t1);
    }
}

// ---------------------------------------------------------------------------
// The greedy rule
// ---------------------------------------------------------------------------

pub open spec fn res(p: Problem, t: int, v: int) -> usize {
    p.trains@[t].visits@[v].resource_id
}

pub open spec fn trav(p: Problem, t: int, v: int) -> i32 {
    p.trains@[t].visits@[v].travel_time
}

/// The earliest start of a visit after chain propagation within its train.
pub open spec fn est(p: Problem, t: int, v: int) -> i32 {
    chain_lb(p.trains@[t].visits@, v)
}

/// The greedy handles visit `(t1, v1)` before visit `(t2, v2)`: by earliest
/// start, ties broken by flat index.
pub open spec fn goes_before(p: Problem, t1: int, v1: int, t2: int, v2: int) -> bool {
    est(p, t1, v1) < est(p, t2, v2) || (est(p, t1, v1) == est(p, t2, v2) && flat(p, t1, v1) < flat(p, t2, v2))
}

/// The two resources form a conflicting pair, in either order.
pub open spec fn adjacent(p: Problem, r: usize, y: usize) -> bool {
    p.conflicts@.contains((r, y)) || p.conflicts@.contains((y, r))
}

/// Using resource `r` marks resource `y` as busy: the resources in conflict
/// with `r` (which include `r` itself where `(r, r)` is a listed conflict).
pub open spec fn marks(p: Problem, r: usize, y: usize) -> bool {
    adjacent(p, r, y)
}

/// Visit `(t1, v1)` delays visit `(t2, v2)`: it is handled first and it
/// marks the resource of `(t2, v2)`.
pub open spec fn delays(p: Problem, t1: int, v1: int, t2: int, v2: int) -> bool {
    &&& goes_before(p, t1, v1, t2, v2)
    &&& marks(p, res(p, t1, v1), res(p, t2, v2))
}

/// The time at which a visit ends when started at `val(t, v)`.
pub open spec fn finish(p: Problem, val: spec_fn(int, int) -> i32, t: int, v: int) -> i32 {
    clamp_i32(val(t, v) + trav(p, t, v))
}

/// The lower bound that a visit gets from its predecessor in the train: the
/// predecessor's end when the predecessor is handled first, otherwise the
/// predecessor's travel time from 0.
pub open spec fn chain_start(p: Problem, val: spec_fn(int, int) -> i32, t: int, v: int) -> i32 {
    if v == 0 {
        0
    } else if goes_before(p, t, v - 1, t, v) {
        finish(p, val, t, v - 1)
    } else {
        clamp_i32(trav(p, t, v - 1) as int)
    }
}

/// The start of the visit is the greatest of 0, its earliest start, the
/// bound from its predecessor, and the ends of the visits that delay it.
pub open spec fn greedy_start(p: Problem, val: spec_fn(int, int) -> i32, t: int, v: int) -> bool {
    let x = val(t, v);
    &&& x >= 0
    &&& x >= est(p, t, v)
    &&& x >= chain_start(p, val, t, v)
    &&& forall|t1: int, v1: int| valid_tv(p, t1, v1) && #[trigger] delays(p, t1, v1, t, v) ==> x >= finish(p, val, t1, v1)
    &&& (x == 0 || x == est(p, t, v) || x == chain_start(p, val, t, v) || exists|t1: int, v1: int|
        valid_tv(p, t1, v1) && #[trigger] delays(p, t1, v1, t, v) && x == finish(p, val, t1, v1))
}

/// The start times of a schedule given as rows.
pub open spec fn row_val(rows: Seq<Vec<i32>>) -> spec_fn(int, int) -> i32 {
    |t: int, v: int| rows[t]@[v]
}

/// The schedule is the greedy one: one row per train holding the start of
/// each visit (chosen by the greedy rule) and the end of the last visit.
pub open spec fn is_greedy_schedule(p: Problem, rows: Seq<Vec<i32>>) -> bool {
    &&& rows.len() == p.trains@.len()
    &&& forall|t: int| 0 <= t < rows.len() ==> #[trigger] rows[t]@.len() == (if p.trains@[t].visits@.len() > 0 {
        p.trains@[t].visits@.len() + 1
    } else {
        0
    })
    &&& forall|t: int, v: int| valid_tv(p, t, v) ==> #[trigger] greedy_start(p, row_val(rows), t, v)
    &&& forall|t: int|
        0 <= t < rows.len() && p.trains@[t].visits@.len() > 0 ==> #[trigger] rows[t]@[p.trains@[t].visits@.len() as int]
            == finish(p, row_val(rows), t, p.trains@[t].visits@.len() - 1)
}


// ---------------------------------------------------------------------------
// What the greedy rule guarantees
// ---------------------------------------------------------------------------

proof fn lemma_est_ge_earliest(p: Problem, t: int, v: int)
    requires
        valid_tv(p, t, v),
    ensures
        est(p, t, v) >= p.trains@[t].visits@[v].earliest,
{
}

/// Every travel time is non-negative.
pub open spec fn travel_nonneg(p: Problem) -> bool {
    forall|t: int, v: int| valid_tv(p, t, v) ==> #[trigger] trav(p, t, v) >= 0
}

/// Every visit starts no earlier than its earliest time.
pub open spec fn respects_earliest(p: Problem, rows: Seq<Vec<i32>>) -> bool {
    forall|t: int, v: int| valid_tv(p, t, v) ==> #[trigger] rows[t]@[v] >= p.trains@[t].visits@[v].earliest
}

/// Every visit starts no earlier than its predecessor in the train ends.
pub open spec fn respects_travel(p: Problem, rows: Seq<Vec<i32>>) -> bool {
    forall|t: int, v: int| valid_tv(p, t, v) ==> #[trigger] rows[t]@[v + 1] >= clamp_i32(rows[t]@[v] + trav(p, t, v))
}

/// Of two different visits to a conflicting pair of resources, one starts no
/// earlier than the other ends.
pub open spec fn keeps_apart(p: Problem, rows: Seq<Vec<i32>>) -> bool {
    forall|t1: int, v1: int, t2: int, v2: int|
        #![trigger rows[t1]@[v1], rows[t2]@[v2]]
        valid_tv(p, t1, v1) && valid_tv(p, t2, v2) && (t1 != t2 || v1 != v2)
            && p.conflicts@.contains((res(p, t1, v1), res(p, t2, v2))) ==> rows[t2]@[v2] >= clamp_i32(
            rows[t1]@[v1] + trav(p, t1, v1),
        ) || rows[t1]@[v1] >= clamp_i32(rows[t2]@[v2] + trav(p, t2, v2))
}

/// The greedy schedule respects every earliest time; of two different
/// visits to a conflicting pair of resources, one
/// starts no earlier than the other ends; and, where travel times are
/// non-negative, each visit starts no earlier than its predecessor in the
/// train ends (times saturating at the bounds of `i32`).
pub proof fn greedy_schedule_is_feasible(p: Problem, rows: Seq<Vec<i32>>)
    requires
        is_greedy_schedule(p, rows),
    ensures
        respects_earliest(p, rows),
        travel_nonneg(p) ==> respects_travel(p, rows),
        keeps_apart(p, rows),
{
    let val = row_val(rows);
    assert forall|t: int, v: int| valid_tv(p, t, v) implies #[trigger] rows[t]@[v] >= p.trains@[t].visits@[v].earliest by {
        assert(greedy_start(p, val, t, v));
        lemma_est_ge_earliest(p, t, v);
    }
    if travel_nonneg(p) {
        assert forall|t: int, v: int| valid_tv(p, t, v) implies #[trigger] rows[t]@[v + 1] >= clamp_i32(rows[t]@[v] + trav(p, t, v)) by {
            if v + 1 < p.trains@[t].visits@.len() {
                assert(greedy_start(p, val, t, v + 1));
                assert(trav(p, t, v) >= 0);
                lemma_est_ge_earliest(p, t, v);
                assert(goes_before(p, t, v, t, v + 1));
            } else {
                assert(rows[t]@.len() == p.trains@[t].visits@.len() + 1);
            }
        }
    }
    assert forall|t1: int, v1: int, t2: int, v2: int|
        #![trigger rows[t1]@[v1], rows[t2]@[v2]]
        valid_tv(p, t1, v1) && valid_tv(p, t2, v2) && (t1 != t2 || v1 != v2)
            && p.conflicts@.contains((res(p, t1, v1), res(p, t2, v2)))
        implies rows[t2]@[v2] >= clamp_i32(rows[t1]@[v1] + trav(p, t1, v1)) || rows[t1]@[v1] >= clamp_i32(
            rows[t2]@[v2] + trav(p, t2, v2),
        ) by {
        let r1 = res(p, t1, v1);
        let r2 = res(p, t2, v2);
        assert(marks(p, r1, r2) && marks(p, r2, r1));
        if flat(p, t1, v1) == flat(p, t2, v2) {
            lemma_flat_injective(p, t1, v1, t2, v2);
        }
        if goes_before(p, t1, v1, t2, v2) {
            assert(greedy_start(p, val, t2, v2));
            assert(delays(p, t1, v1, t2, v2));
        } else {
            assert(goes_before(p, t2, v2, t1, v1));
            assert(greedy_start(p, val, t1, v1));
            assert(delays(p, t2, v2, t1, v1));
        }
    }
}

// ---------------------------------------------------------------------------
// Building blocks of the greedy
// ---------------------------------------------------------------------------

/// The flat index of the first visit of each train, and the total at the end.
pub(crate) fn train_offsets(problem: &Problem) -> (r: Vec<usize>)
    requires
        n_flat(*problem) <= usize::MAX,
    ensures
        r@.len() == problem.trains@.len() + 1,
        forall|t: int| 0 <= t <= problem.trains@.len() ==> #[trigger] r@[t] == offs(*problem, t),
{
    let mut train_offset: Vec<usize> = Vec::new();
    train_offset.push(0);
    let mut t: usize = 0;
    while t < problem.trains.len()
        invariant
            t <= problem.trains@.len(),
            n_flat(*problem) <= usize::MAX,
            train_offset@.len() == t + 1,
            forall|i: int| 0 <= i <= t ==> #[trigger] train_offset@[i] == offs(*problem, i),
        decreases problem.trains@.len() - t,
    {
        proof {
            lemma_offs_monotone(*problem, t + 1, problem.trains@.len() as int);
        }
        let next: usize = train_offset[t] + problem.trains[t].visits.len();
        train_offset.push(next);
        t = t + 1;
    }
    train_offset
}

/// Per flat index: resource, travel time, earliest time, and `(train, visit)`.
pub(crate) fn flatten_visits(problem: &Problem, train_offset: &Vec<usize>) -> (r: (Vec<usize>, Vec<i32>, Vec<i32>, Vec<(usize, usize)>))
    requires
        n_flat(*problem) <= usize::MAX,
        train_offset@.len() == problem.trains@.len() + 1,
        forall|t: int| 0 <= t <= problem.trains@.len() ==> #[trigger] train_offset@[t] == offs(*problem, t),
    ensures
        r.0@.len() == n_flat(*problem),
        r.1@.len() == n_flat(*problem),
        r.2@.len() == n_flat(*problem),
        r.3@.len() == n_flat(*problem),
        forall|t: int, v: int| valid_tv(*problem, t, v) ==> #[trigger] r.0@[flat(*problem, t, v)] == res(*problem, t, v),
        forall|t: int, v: int| valid_tv(*problem, t, v) ==> #[trigger] r.1@[flat(*problem, t, v)] == trav(*problem, t, v),
        forall|t: int, v: int| valid_tv(*problem, t, v) ==> #[trigger] r.2@[flat(*problem, t, v)] == problem.trains@[t].visits@[v].earliest,
        forall|t: int, v: int| valid_tv(*problem, t, v) ==> #[trigger] r.3@[flat(*problem, t, v)] == (t as usize, v as usize),
        forall|u: int| 0 <= u < n_flat(*problem) ==> valid_tv(*problem, #[trigger] r.3@[u].0 as int, r.3@[u].1 as int)
            && flat(*problem, r.3@[u].0 as int, r.3@[u].1 as int) == u,
{
    let mut resource: Vec<usize> = Vec::new();
    let mut travel: Vec<i32> = Vec::new();
    let mut est: Vec<i32> = Vec::new();
    let mut train_visit: Vec<(usize, usize)> = Vec::new();
    let ghost p = *problem;
    let mut t: usize = 0;
    while t < problem.trains.len()
        invariant
            p == *problem,
            t <= p.trains@.len(),
            n_flat(p) <= usize::MAX,
            resource@.len() == offs(p, t as int),
            travel@.len() == offs(p, t as int),
            est@.len() == offs(p, t as int),
            train_visit@.len() == offs(p, t as int),
            forall|t1: int, v: int| valid_tv(p, t1, v) && t1 < t ==> #[trigger] resource@[flat(p, t1, v)] == res(p, t1, v),
            forall|t1: int, v: int| valid_tv(p, t1, v) && t1 < t ==> #[trigger] travel@[flat(p, t1, v)] == trav(p, t1, v),
            forall|t1: int, v: int| valid_tv(p, t1, v) && t1 < t ==> #[trigger] est@[flat(p, t1, v)] == p.trains@[t1].visits@[v].earliest,
            forall|t1: int, v: int| valid_tv(p, t1, v) && t1 < t ==> #[trigger] train_visit@[flat(p, t1, v)] == (t1 as usize, v as usize),
            forall|u: int| 0 <= u < train_visit@.len() ==> valid_tv(p, #[trigger] train_visit@[u].0 as int, train_visit@[u].1 as int)
                && flat(p, train_visit@[u].0 as int, train_visit@[u].1 as int) == u,
        decreases p.trains@.len() - t,
    {
        let train = &problem.trains[t];
        let mut v: usize = 0;
        while v < train.visits.len()
            invariant
                p == *problem,
                t < p.trains@.len(),
                *train == p.trains@[t as int],
                v <= train.visits@.len(),
                resource@.len() == offs(p, t as int) + v,
                travel@.len() == offs(p, t as int) + v,
                est@.len() == offs(p, t as int) + v,
                train_visit@.len() == offs(p, t as int) + v,
                forall|t1: int, v1: int| valid_tv(p, t1, v1) && (t1 < t || (t1 == t && v1 < v)) ==> #[trigger] resource@[flat(p, t1, v1)] == res(p, t1, v1),
                forall|t1: int, v1: int| valid_tv(p, t1, v1) && (t1 < t || (t1 == t && v1 < v)) ==> #[trigger] travel@[flat(p, t1, v1)] == trav(p, t1, v1),
                forall|t1: int, v1: int| valid_tv(p, t1, v1) && (t1 < t || (t1 == t && v1 < v)) ==> #[trigger] est@[flat(p, t1, v1)] == p.trains@[t1].visits@[v1].earliest,
                forall|t1: int, v1: int| valid_tv(p, t1, v1) && (t1 < t || (t1 == t && v1 < v)) ==> #[trigger] train_visit@[flat(p, t1, v1)] == (t1 as usize, v1 as usize),
                forall|u: int| 0 <= u < train_visit@.len() ==> valid_tv(p, #[trigger] train_visit@[u].0 as int, train_visit@[u].1 as int)
                    && flat(p, train_visit@[u].0 as int, train_visit@[u].1 as int) == u,
            decreases train.visits@.len() - v,
        {
            proof {
                assert forall|t1: int, v1: int| valid_tv(p, t1, v1) && t1 < t implies flat(p, t1, v1) < offs(p, t as int) by {
                    lemma_offs_monotone(p, t1, t as int);
                }
            }
            let visit = &train.visits[v];
            resource.push(visit.resource_id);
            travel.push(visit.travel_time);
            est.push(visit.earliest);
            train_visit.push((t, v));
            v = v + 1;
        }
        proof {
            assert(offs(p, t + 1) == offs(p, t as int) + train.visits@.len());
        }
        t = t + 1;
    }
    (resource, travel, est, train_visit)
}

/// Propagates earliest times forward along one train's chain of visits,
/// stored from flat index `base` on.
fn propagate_train(est: &mut Vec<i32>, travel: &Vec<i32>, visits: &Vec<Visit>, base: usize)
    requires
        base + visits@.len() <= old(est)@.len(),
        old(est)@.len() == travel@.len(),
        forall|v: int| 0 <= v < visits@.len() ==> {
            &&& #[trigger] old(est)@[base + v] == visits@[v].earliest
            &&& travel@[base + v] == visits@[v].travel_time
        },
    ensures
        final(est)@.len() == old(est)@.len(),
        forall|v: int| 0 <= v < visits@.len() ==> #[trigger] final(est)@[base + v] == chain_lb(visits@, v),
        forall|i: int| 0 <= i < old(est)@.len() && !(base <= i < base + visits@.len()) ==> #[trigger] final(est)@[i] == old(est)@[i],
{
    if visits.len() == 0 {
        return;
    }
    let ghost e0 = est@;
    let n: usize = est.len();
    assert(est@[base + 0] == chain_lb(visits@, 0));
    let mut v_idx: usize = 1;
    while v_idx < visits.len()
        invariant
            n == e0.len(),
            base + visits@.len() <= e0.len(),
            1 <= v_idx <= visits@.len(),
            est@.len() == e0.len(),
            e0.len() == travel@.len(),
            forall|v: int| 0 <= v < visits@.len() ==> {
                &&& #[trigger] e0[base + v] == visits@[v].earliest
                &&& travel@[base + v] == visits@[v].travel_time
            },
            forall|v: int| 0 <= v < v_idx ==> #[trigger] est@[base + v] == chain_lb(visits@, v),
            forall|i: int| 0 <= i < e0.len() && !(base <= i < base + v_idx) ==> #[trigger] est@[i] == e0[i],
        decreases visits@.len() - v_idx,
    {
        let prev: usize = base + v_idx - 1;
        let cur: usize = base + v_idx;
        assert(est@[base + (v_idx - 1)] == chain_lb(visits@, v_idx - 1));
        assert(e0[base + (v_idx - 1)] == visits@[v_idx - 1].earliest);
        assert(travel@[base + (v_idx - 1)] == visits@[v_idx - 1].travel_time);
        assert(est@[cur as int] == e0[cur as int]);
        assert(e0[base + v_idx] == visits@[v_idx as int].earliest);
        let bound: i32 = sat_add(est[prev], travel[prev]);
        if est[cur] < bound {
            est.set(cur, bound);
        }
        assert(est@[base + v_idx] == chain_lb(visits@, v_idx as int));
        v_idx = v_idx + 1;
    }
}

/// Propagates earliest times forward along each train's chain of visits.
pub(crate) fn propagate_est_forward(est: &mut Vec<i32>, travel: &Vec<i32>, trains: &Vec<Train>, train_offset: &Vec<usize>)
    requires
        train_offset@.len() == trains@.len() + 1,
        old(est)@.len() == travel@.len(),
        forall|t: int| 0 <= t < trains@.len() ==> #[trigger] train_offset@[t] + trains@[t].visits@.len() == train_offset@[t + 1],
        train_offset@[trains@.len() as int] == old(est)@.len(),
        forall|t: int, v: int| 0 <= t < trains@.len() && 0 <= v < trains@[t].visits@.len() ==> {
            &&& #[trigger] old(est)@[train_offset@[t] + v] == trains@[t].visits@[v].earliest
            &&& travel@[train_offset@[t] + v] == trains@[t].visits@[v].travel_time
        },
    ensures
        final(est)@.len() == old(est)@.len(),
        forall|t: int, v: int| 0 <= t < trains@.len() && 0 <= v < trains@[t].visits@.len() ==>
            #[trigger] final(est)@[train_offset@[t] + v] == chain_lb(trains@[t].visits@, v),
{
    let ghost e0 = est@;
    let mut t_idx: usize = 0;
    while t_idx < trains.len()
        invariant
            t_idx <= trains@.len(),
            train_offset@.len() == trains@.len() + 1,
            est@.len() == e0.len(),
            e0.len() == travel@.len(),
            forall|t: int| 0 <= t < trains@.len() ==> #[trigger] train_offset@[t] + trains@[t].visits@.len() == train_offset@[t + 1],
            train_offset@[trains@.len() as int] == e0.len(),
            forall|t: int, v: int| 0 <= t < trains@.len() && 0 <= v < trains@[t].visits@.len() ==> {
                &&& #[trigger] e0[train_offset@[t] + v] == trains@[t].visits@[v].earliest
                &&& travel@[train_offset@[t] + v] == trains@[t].visits@[v].travel_time
            },
            forall|t: int, v: int| 0 <= t < t_idx && 0 <= v < trains@[t].visits@.len() ==>
                #[trigger] est@[train_offset@[t] + v] == chain_lb(trains@[t].visits@, v),
            forall|i: int| train_offset@[t_idx as int] <= i < e0.len() ==> #[trigger] est@[i] == e0[i],
        decreases trains@.len() - t_idx,
    {
        let train = &trains[t_idx];
        let base: usize = train_offset[t_idx];
        proof {
            lemma_offsets_sorted_pair(train_offset@, trains@, t_idx as int, t_idx + 1);
            lemma_offsets_sorted_pair(train_offset@, trains@, t_idx + 1, trains@.len() as int);
        }
        assert forall|v: int| 0 <= v < train.visits@.len() implies {
            &&& #[trigger] est@[base + v] == train.visits@[v].earliest
            &&& travel@[base + v] == train.visits@[v].travel_time
        } by {
            assert(e0[train_offset@[t_idx as int] + v] == trains@[t_idx as int].visits@[v].earliest);
        }
        let ghost before = est@;
        propagate_train(est, travel, &train.visits, base);
        proof {
            assert forall|t: int, v: int| 0 <= t < t_idx + 1 && 0 <= v < trains@[t].visits@.len() implies
                #[trigger] est@[train_offset@[t] + v] == chain_lb(trains@[t].visits@, v) by {
                if t < t_idx {
                    assert(train_offset@[t] + trains@[t].visits@.len() == train_offset@[t + 1]);
                    lemma_offsets_sorted_pair(train_offset@, trains@, t + 1, t_idx as int);
                    assert(before[train_offset@[t] + v] == chain_lb(trains@[t].visits@, v));
                }
            }
        }
        t_idx = t_idx + 1;
    }
}

proof fn lemma_offsets_sorted(o: Seq<usize>, trains: Seq<Train>)
    requires
        o.len() == trains.len() + 1,
        forall|t: int| 0 <= t < trains.len() ==> #[trigger] o[t] + trains[t].visits@.len() == o[t + 1],
    ensures
        forall|a: int, b: int| 0 <= a <= b <= trains.len() ==> #[trigger] o[a] <= #[trigger] o[b],
{
    assert forall|a: int, b: int| 0 <= a <= b <= trains.len() implies #[trigger] o[a] <= #[trigger] o[b] by {
        lemma_offsets_sorted_pair(o, trains, a, b);
    }
}

proof fn lemma_offsets_sorted_pair(o: Seq<usize>, trains: Seq<Train>, a: int, b: int)
    requires
        o.len() == trains.len() + 1,
        forall|t: int| 0 <= t < trains.len() ==> #[trigger] o[t] + trains[t].visits@.len() == o[t + 1],
        0 <= a <= b <= trains.len(),
    ensures
        o[a] <= o[b],
    decreases b - a,
{
    if a < b {
        lemma_offsets_sorted_pair(o, trains, a, b - 1);
        assert(o[b - 1] + trains[b - 1].visits@.len() == o[b]);
    }
}

/// Resource `r` occurs in one of the first `c` pairs.
pub open spec fn in_pairs_upto(cs: Seq<(usize, usize)>, c: int, r: usize) -> bool
    decreases c,
{
    if c <= 0 {
        false
    } else {
        in_pairs_upto(cs, c - 1, r) || cs[c - 1].0 == r || cs[c - 1].1 == r
    }
}

/// `(r, y)` is one of the first `c` pairs, in either order.
pub open spec fn adj_upto(cs: Seq<(usize, usize)>, c: int, r: usize, y: usize) -> bool
    decreases c,
{
    if c <= 0 {
        false
    } else {
        adj_upto(cs, c - 1, r, y) || cs[c - 1] == (r, y) || cs[c - 1] == (y, r)
    }
}

pub proof fn lemma_adj_upto(cs: Seq<(usize, usize)>, c: int, r: usize, y: usize)
    requires
        0 <= c <= cs.len(),
    ensures
        adj_upto(cs, c, r, y) <==> (cs.take(c).contains((r, y)) || cs.take(c).contains((y, r))),
        adj_upto(cs, c, r, y) ==> in_pairs_upto(cs, c, r),
    decreases c,
{
    if c > 0 {
        lemma_adj_upto(cs, c - 1, r, y);
        let t = cs.take(c);
        let t0 = cs.take(c - 1);
        assert(t =~= t0.push(cs[c - 1]));
        if t.contains((r, y)) {
            let i = choose|i: int| 0 <= i < t.len() && t[i] == (r, y);
            if i < c - 1 {
                assert(t0[i] == (r, y));
            }
        }
        if t.contains((y, r)) {
            let i = choose|i: int| 0 <= i < t.len() && t[i] == (y, r);
            if i < c - 1 {
                assert(t0[i] == (y, r));
            }
        }
        if t0.contains((r, y)) {
            let i = choose|i: int| 0 <= i < t0.len() && t0[i] == (r, y);
            assert(t[i] == (r, y));
        }
        if t0.contains((y, r)) {
            let i = choose|i: int| 0 <= i < t0.len() && t0[i] == (y, r);
            assert(t[i] == (y, r));
        }
        if cs[c - 1] == (r, y) {
            assert(t[c - 1] == (r, y));
        }
        if cs[c - 1] == (y, r) {
            assert(t[c - 1] == (y, r));
        }
    }
}

pub proof fn lemma_in_pairs_upto(cs: Seq<(usize, usize)>, c: int, r: usize)
    requires
        0 <= c <= cs.len(),
    ensures
        in_pairs_upto(cs, c, r) ==> exists|y: usize| #[trigger] adj_upto(cs, c, r, y),
    decreases c,
{
    if c > 0 {
        lemma_in_pairs_upto(cs, c - 1, r);
        if in_pairs_upto(cs, c - 1, r) {
            let y = choose|y: usize| #[trigger] adj_upto(cs, c - 1, r, y);
            assert(adj_upto(cs, c, r, y));
        } else if cs[c - 1].0 == r {
            assert(adj_upto(cs, c, r, cs[c - 1].1));
        } else if cs[c - 1].1 == r {
            assert(adj_upto(cs, c, r, cs[c - 1].0));
        }
    }
}

/// Flat index `a` comes before `b` when sorting by key, ties by index.
pub open spec fn keyless(key: Seq<i32>, a: int, b: int) -> bool {
    key[a] < key[b] || (key[a] == key[b] && a < b)
}

/// The indices `0..key.len()` sorted by `(key, index)`.
pub(crate) fn sorted_order(key: &Vec<i32>) -> (r: Vec<usize>)
    ensures
        r@.len() == key@.len(),
        forall|i: int| 0 <= i < r@.len() ==> #[trigger] r@[i] < key@.len(),
        forall|i: int, j: int| 0 <= i < j < r@.len() ==> keyless(key@, #[trigger] r@[i] as int, #[trigger] r@[j] as int),
        forall|u: int| 0 <= u < key@.len() ==> #[trigger] r@.contains(u as usize),
{
    let n: usize = key.len();
    let mut out: Vec<usize> = Vec::new();
    let mut u: usize = 0;
    while u < n
        invariant
            n == key@.len(),
            u <= n,
            out@.len() == u,
            forall|i: int| 0 <= i < out@.len() ==> #[trigger] out@[i] < u,
            forall|i: int, j: int| 0 <= i < j < out@.len() ==> keyless(key@, #[trigger] out@[i] as int, #[trigger] out@[j] as int),
            forall|x: int| 0 <= x < u ==> #[trigger] out@.contains(x as usize),
        decreases n - u,
    {
        let mut pos: usize = 0;
        while pos < out.len() && key[out[pos]] <= key[u]
            invariant
                n == key@.len(),
                u < n,
                pos <= out@.len(),
                forall|i: int| 0 <= i < out@.len() ==> #[trigger] out@[i] < u,
                forall|i: int| 0 <= i < pos ==> key@[#[trigger] out@[i] as int] <= key@[u as int],
            decreases out@.len() - pos,
        {
            pos = pos + 1;
        }
        let ghost before = out@;
        out.insert(pos, u);
        proof {
            assert forall|i: int, j: int| 0 <= i < j < out@.len() implies keyless(key@, #[trigger] out@[i] as int, #[trigger] out@[j] as int) by {
                if j < pos {
                    assert(out@[i] == before[i] && out@[j] == before[j]);
                } else if j == pos {
                    assert(out@[i] == before[i]);
                } else if i == pos {
                    assert(out@[j] == before[j - 1]);
                    if j - 1 > pos {
                        assert(keyless(key@, before[pos as int] as int, before[j - 1] as int));
                    }
                } else if i < pos {
                    assert(out@[i] == before[i] && out@[j] == before[j - 1]);
                } else {
                    assert(out@[i] == before[i - 1] && out@[j] == before[j - 1]);
                }
            }
            assert forall|x: int| 0 <= x < u + 1 implies #[trigger] out@.contains(x as usize) by {
                if x == u {
                    assert(out@[pos as int] == u);
                } else {
                    assert(before.contains(x as usize));
                    let k = choose|k: int| 0 <= k < before.len() && before[k] == x as usize;
                    if k < pos {
                        assert(out@[k] == x as usize);
                    } else {
                        assert(out@[k + 1] == x as usize);
                    }
                }
            }
            assert forall|i: int| 0 <= i < out@.len() implies #[trigger] out@[i] < u + 1 by {
                if i < pos {
                    assert(out@[i] == before[i]);
                } else if i > pos {
                    assert(out@[i] == before[i - 1]);
                }
            }
        }
        u = u + 1;
    }
    out
}

// ---------------------------------------------------------------------------
// The greedy schedule
// ---------------------------------------------------------------------------

/// The start times held in flat order.
pub open spec fn tgval(p: Problem, tg: Seq<i32>) -> spec_fn(int, int) -> i32 {
    |t: int, v: int| tg[flat(p, t, v)]
}

/// The latest end recorded for a resource (0 when none).
pub open spec fn lf_val(m: Map<usize, i32>, y: usize) -> i32 {
    if m.contains_key(y) {
        m[y]
    } else {
        0
    }
}

pub open spec fn processed(order: Seq<usize>, k: int, u: int) -> bool {
    order.take(k).contains(u as usize)
}

/// `order` lists `0..n` sorted by `(key, index)`.
pub open spec fn sorted_perm(order: Seq<usize>, key: Seq<i32>) -> bool {
    &&& order.len() == key.len()
    &&& forall|i: int| 0 <= i < order.len() ==> #[trigger] order[i] < key.len()
    &&& forall|i: int, j: int| 0 <= i < j < order.len() ==> keyless(key, #[trigger] order[i] as int, #[trigger] order[j] as int)
    &&& forall|u: int| 0 <= u < key.len() ==> #[trigger] order.contains(u as usize)
}

pub proof fn lemma_processed_iff(order: Seq<usize>, key: Seq<i32>, k: int, u: int)
    requires
        sorted_perm(order, key),
        key.len() <= usize::MAX,
        0 <= k < order.len(),
        0 <= u < key.len(),
    ensures
        processed(order, k, u) <==> keyless(key, u, order[k] as int),
{
    assert(order.contains(u as usize));
    let j = choose|j: int| 0 <= j < order.len() && order[j] == u as usize;
    if j < k {
        assert(keyless(key, order[j] as int, order[k] as int));
        assert(order.take(k)[j] == u as usize);
        assert(order.take(k).contains(u as usize));
    } else {
        if j > k {
            assert(keyless(key, order[k] as int, order[j] as int));
        }
        if processed(order, k, u) {
            let i = choose|i: int| 0 <= i < order.take(k).len() && order.take(k)[i] == u as usize;
            assert(order[i] == u as usize);
            assert(keyless(key, order[i] as int, order[j] as int) || i == j);
        }
    }
}

pub proof fn lemma_processed_step(order: Seq<usize>, k: int, u: int)
    requires
        0 <= k < order.len(),
    ensures
        processed(order, k + 1, u) <==> (processed(order, k, u) || order[k] == u as usize),
{
    let a = order.take(k + 1);
    let b = order.take(k);
    assert(a =~= b.push(order[k]));
    if a.contains(u as usize) {
        let i = choose|i: int| 0 <= i < a.len() && a[i] == u as usize;
        if i < k {
            assert(b[i] == u as usize);
        }
    }
    if b.contains(u as usize) {
        let i = choose|i: int| 0 <= i < b.len() && b[i] == u as usize;
        assert(a[i] == u as usize);
    }
    if order[k] == u as usize {
        assert(a[k] == u as usize);
    }
}

pub proof fn lemma_goes_before_transitive(p: Problem, t1: int, v1: int, t2: int, v2: int, t3: int, v3: int)
    requires
        goes_before(p, t1, v1, t2, v2),
        goes_before(p, t2, v2, t3, v3),
    ensures
        goes_before(p, t1, v1, t3, v3),
{
}

/// The greedy rule at a visit only reads the start of the visit and of the
/// visits handled before it.
pub proof fn lemma_greedy_start_frame(p: Problem, val1: spec_fn(int, int) -> i32, val2: spec_fn(int, int) -> i32, t: int, v: int)
    requires
        valid_tv(p, t, v),
        greedy_start(p, val1, t, v),
        val1(t, v) == val2(t, v),
        forall|t1: int, v1: int| valid_tv(p, t1, v1) && goes_before(p, t1, v1, t, v) ==> #[trigger] val1(t1, v1) == val2(t1, v1),
    ensures
        greedy_start(p, val2, t, v),
{
    if v > 0 && goes_before(p, t, v - 1, t, v) {
        assert(val1(t, v - 1) == val2(t, v - 1));
    }
    assert(chain_start(p, val1, t, v) == chain_start(p, val2, t, v));
    assert forall|t1: int, v1: int| valid_tv(p, t1, v1) && #[trigger] delays(p, t1, v1, t, v) implies val2(t, v) >= finish(p, val2, t1, v1) by {
        assert(val1(t1, v1) == val2(t1, v1));
    }
    let x = val1(t, v);
    if !(x == 0 || x == est(p, t, v) || x == chain_start(p, val1, t, v)) {
        let (t1, v1) = choose|t1: int, v1: int| valid_tv(p, t1, v1) && #[trigger] delays(p, t1, v1, t, v) && x == finish(p, val1, t1, v1);
        assert(val1(t1, v1) == val2(t1, v1));
        assert(valid_tv(p, t1, v1) && delays(p, t1, v1, t, v) && x == finish(p, val2, t1, v1));
    }
}

} // verus!
