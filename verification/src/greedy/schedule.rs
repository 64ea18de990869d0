//! Computing the greedy schedule.
use vstd::prelude::*;
use std::collections::HashMap;
use crate::arith::{sat_add, max_i32};
use crate::problem::Problem;
use crate::greedy::{
    n_flat, offs, flat, valid_tv, res, trav, est, goes_before, adjacent, marks, delays,
    finish, chain_start, greedy_start, row_val, is_greedy_schedule, in_pairs_upto, adj_upto,
    lemma_adj_upto, lemma_in_pairs_upto, train_offsets, flatten_visits, propagate_est_forward,
    sorted_order, tgval, lf_val, processed, sorted_perm, lemma_processed_iff, lemma_processed_step,
    lemma_goes_before_transitive, lemma_greedy_start_frame, lemma_flat_bounds, lemma_flat_injective,
    lemma_offs_monotone, greedy_schedule_is_feasible, respects_earliest, keeps_apart,
};

verus! {

broadcast use vstd::std_specs::hash::group_hash_axioms;

fn push_neighbour(m: &mut HashMap<usize, Vec<usize>>, a: usize, b: usize)
    ensures
        forall|r: usize| #[trigger] final(m)@.contains_key(r) <==> (old(m)@.contains_key(r) || r == a),
        forall|r: usize, y: usize| r != a && old(m)@.contains_key(r) ==> (#[trigger] final(m)@[r]@.contains(y) <==> old(m)@[r]@.contains(y)),
        forall|y: usize| #[trigger] final(m)@[a]@.contains(y) <==> ((old(m)@.contains_key(a) && old(m)@[a]@.contains(y)) || y == b),
{
    let mut list: Vec<usize> = match m.remove(&a) {
        Some(l) => l,
        None => Vec::new(),
    };
    let ghost before = list@;
    list.push(b);
    assert forall|y: usize| list@.contains(y) <==> (before.contains(y) || y == b) by {
        if before.contains(y) {
            let i = choose|i: int| 0 <= i < before.len() && before[i] == y;
            assert(list@[i] == y);
        }
        if list@.contains(y) && y != b {
            let i = choose|i: int| 0 <= i < list@.len() && list@[i] == y;
            assert(before[i] == y);
        }
        if y == b {
            assert(list@[before.len() as int] == b);
        }
    }
    m.insert(a, list);
}

/// The resources in conflict with each resource that is in some conflicting pair.
fn conflict_neighbours(conflicts: &Vec<(usize, usize)>) -> (m: HashMap<usize, Vec<usize>>)
    ensures
        forall|r: usize| #[trigger] m@.contains_key(r) <==> in_pairs_upto(conflicts@, conflicts@.len() as int, r),
        forall|r: usize, y: usize| m@.contains_key(r) ==> (#[trigger] m@[r]@.contains(y) <==> adj_upto(conflicts@, conflicts@.len() as int, r, y)),
{
    let mut m: HashMap<usize, Vec<usize>> = HashMap::new();
    let mut c: usize = 0;
    while c < conflicts.len()
        invariant
            c <= conflicts@.len(),
            forall|r: usize| #[trigger] m@.contains_key(r) <==> in_pairs_upto(conflicts@, c as int, r),
            forall|r: usize, y: usize| m@.contains_key(r) ==> (#[trigger] m@[r]@.contains(y) <==> adj_upto(conflicts@, c as int, r, y)),
        decreases conflicts@.len() - c,
    {
        let (a, b) = conflicts[c];
        let ghost m0 = m@;
        push_neighbour(&mut m, a, b);
        if a != b {
            push_neighbour(&mut m, b, a);
        }
        proof {
            assert forall|r: usize, y: usize| m@.contains_key(r) implies (#[trigger] m@[r]@.contains(y) <==> adj_upto(conflicts@, c + 1, r, y)) by {
                if adj_upto(conflicts@, c as int, r, y) {
                    lemma_adj_upto(conflicts@, c as int, r, y);
                }
            }
        }
        c = c + 1;
    }
    m
}

/// A greedy feasible schedule for a warm-start upper bound: visits are
/// handled by increasing chain-propagated earliest start (ties by flat
/// index), and each starts at the greatest of its earliest start, the end of
/// its predecessor in the train, and the latest end recorded on its
/// resource, which every visit records on the resources in conflict with its
/// own. Returns per train the start of each visit and the end of the last
/// visit. Two different visits to a conflicting pair of resources never
/// overlap.
pub fn greedy_schedule(problem: &Problem) -> (r: Vec<Vec<i32>>)
    requires
        n_flat(*problem) <= usize::MAX,
    ensures
        is_greedy_schedule(*problem, r@),
        respects_earliest(*problem, r@),
        keeps_apart(*problem, r@),
{
    let ghost p = *problem;
    let n_trains: usize = problem.trains.len();
    let train_offset = train_offsets(problem);
    let n: usize = train_offset[n_trains];
    let (resource, travel, mut est_v, train_visit) = flatten_visits(problem, &train_offset);
    proof {
        assert forall|t: int| 0 <= t < p.trains@.len() implies #[trigger] train_offset@[t] + p.trains@[t].visits@.len() == train_offset@[t + 1] by {}
        assert forall|t: int, v: int| 0 <= t < p.trains@.len() && 0 <= v < p.trains@[t].visits@.len() implies {
            &&& #[trigger] est_v@[train_offset@[t] + v] == p.trains@[t].visits@[v].earliest
            &&& travel@[train_offset@[t] + v] == p.trains@[t].visits@[v].travel_time
        } by {
            assert(valid_tv(p, t, v));
            assert(train_offset@[t] + v == flat(p, t, v));
        }
    }
    propagate_est_forward(&mut est_v, &travel, &problem.trains, &train_offset);
    proof {
        assert forall|t: int, v: int| valid_tv(p, t, v) implies #[trigger] est_v@[flat(p, t, v)] == est(p, t, v) by {
            assert(train_offset@[t] + v == flat(p, t, v));
        }
    }
    let cmap = conflict_neighbours(&problem.conflicts);
    proof {
        assert forall|r: usize, y: usize| !cmap@.contains_key(r) implies !#[trigger] adjacent(p, r, y) by {
            let c = p.conflicts@.len() as int;
            assert(p.conflicts@.take(c) =~= p.conflicts@);
            lemma_adj_upto(p.conflicts@, c, r, y);
        }
        assert forall|r: usize, y: usize| cmap@.contains_key(r) implies (#[trigger] cmap@[r]@.contains(y) <==> adjacent(p, r, y)) by {
            let c = p.conflicts@.len() as int;
            assert(p.conflicts@.take(c) =~= p.conflicts@);
            lemma_adj_upto(p.conflicts@, c, r, y);
        }
    }
    let order = sorted_order(&est_v);
    let mut t_greedy: Vec<i32> = vec![0; n];
    let mut last_finish: HashMap<usize, i32> = HashMap::new();
    let mut k: usize = 0;
    while k < n
        invariant
            p == *problem,
            n == n_flat(p),
            n_trains == p.trains@.len(),
            train_offset@.len() == n_trains + 1,
            forall|t: int| 0 <= t <= n_trains ==> #[trigger] train_offset@[t] == offs(p, t),
            resource@.len() == n,
            travel@.len() == n,
            est_v@.len() == n,
            train_visit@.len() == n,
            t_greedy@.len() == n,
            forall|t: int, v: int| valid_tv(p, t, v) ==> #[trigger] resource@[flat(p, t, v)] == res(p, t, v),
            forall|t: int, v: int| valid_tv(p, t, v) ==> #[trigger] travel@[flat(p, t, v)] == trav(p, t, v),
            forall|t: int, v: int| valid_tv(p, t, v) ==> #[trigger] train_visit@[flat(p, t, v)] == (t as usize, v as usize),
            forall|t: int, v: int| valid_tv(p, t, v) ==> #[trigger] est_v@[flat(p, t, v)] == est(p, t, v),
            forall|u: int| 0 <= u < n ==> valid_tv(p, #[trigger] train_visit@[u].0 as int, train_visit@[u].1 as int)
                && flat(p, train_visit@[u].0 as int, train_visit@[u].1 as int) == u,
            forall|r: usize, y: usize| !cmap@.contains_key(r) ==> !#[trigger] adjacent(p, r, y),
            forall|r: usize, y: usize| cmap@.contains_key(r) ==> (#[trigger] cmap@[r]@.contains(y) <==> adjacent(p, r, y)),
            sorted_perm(order@, est_v@),
            k <= n,
            forall|t: int, v: int| valid_tv(p, t, v) && processed(order@, k as int, flat(p, t, v)) ==> #[trigger] greedy_start(p, tgval(p, t_greedy@), t, v),
            forall|u: int| 0 <= u < n && !processed(order@, k as int, u) ==> #[trigger] t_greedy@[u] == 0,
            forall|y: usize| #[trigger] lf_val(last_finish@, y) >= 0,
            forall|y: usize, t1: int, v1: int| valid_tv(p, t1, v1) && processed(order@, k as int, flat(p, t1, v1)) && #[trigger] marks(p, res(p, t1, v1), y)
                ==> lf_val(last_finish@, y) >= #[trigger] finish(p, tgval(p, t_greedy@), t1, v1),
            forall|y: usize| #[trigger] lf_val(last_finish@, y) == 0 || exists|t1: int, v1: int| valid_tv(p, t1, v1) && processed(order@, k as int, flat(p, t1, v1))
                && #[trigger] marks(p, res(p, t1, v1), y) && lf_val(last_finish@, y) == finish(p, tgval(p, t_greedy@), t1, v1),
        decreases n - k,
    {
        let w: usize = order[k];
        let (tw, vw) = train_visit[w];
        let ghost tgi = t_greedy@;
        let ghost val0 = tgval(p, tgi);
        let ghost lf0 = last_finish@;
        proof {
            assert(valid_tv(p, tw as int, vw as int));
            assert(flat(p, tw as int, vw as int) == w);
            assert(!processed(order@, k as int, w as int)) by {
                lemma_processed_iff(order@, est_v@, k as int, w as int);
            }
            // Processed visits are exactly those handled before `w`.
            assert forall|t1: int, v1: int| valid_tv(p, t1, v1) implies (processed(order@, k as int, #[trigger] flat(p, t1, v1))
                <==> goes_before(p, t1, v1, tw as int, vw as int)) by {
                lemma_flat_bounds(p, t1, v1);
                lemma_processed_iff(order@, est_v@, k as int, flat(p, t1, v1));
            }
        }
        let r: usize = resource[w];
        // Bound from the predecessor in the train.
        let chain_lb: i32 = if vw > 0 {
            let prev: usize = train_offset[tw] + vw - 1;
            proof {
                assert(valid_tv(p, tw as int, vw - 1));
                assert(prev == flat(p, tw as int, vw - 1));
                lemma_flat_bounds(p, tw as int, vw - 1);
                assert(travel@[flat(p, tw as int, vw - 1)] == trav(p, tw as int, vw - 1));
                if !goes_before(p, tw as int, vw - 1, tw as int, vw as int) {
                    assert(!processed(order@, k as int, prev as int));
                    assert(t_greedy@[prev as int] == 0);
                }
            }
            sat_add(t_greedy[prev], travel[prev])
        } else {
            0
        };
        assert(chain_lb == chain_start(p, val0, tw as int, vw as int));
        // Bound from the visits that marked the resource.
        let resource_lb: i32 = match last_finish.get(&r) {
            Some(x) => *x,
            None => 0,
        };
        proof {
            assert(resource_lb == lf_val(last_finish@, r));
            assert forall|t1: int, v1: int| valid_tv(p, t1, v1) && #[trigger] delays(p, t1, v1, tw as int, vw as int) implies resource_lb >= finish(p, val0, t1, v1) by {
                assert(processed(order@, k as int, flat(p, t1, v1)));
                assert(marks(p, res(p, t1, v1), r));
            }
            if resource_lb != 0 {
                let (t1, v1) = choose|t1: int, v1: int| valid_tv(p, t1, v1) && processed(order@, k as int, flat(p, t1, v1))
                    && #[trigger] marks(p, res(p, t1, v1), r) && lf_val(last_finish@, r) == finish(p, tgval(p, t_greedy@), t1, v1);
                assert(goes_before(p, t1, v1, tw as int, vw as int));
                assert(delays(p, t1, v1, tw as int, vw as int));
            }
        }
        let t_v: i32 = max_i32(max_i32(est_v[w], resource_lb), chain_lb);
        t_greedy.set(w, t_v);
        let ghost val1 = tgval(p, t_greedy@);
        let finish_w: i32 = sat_add(t_v, travel[w]);
        proof {
            assert(val1(tw as int, vw as int) == t_v);
            // Visits handled before `w` keep their start times.
            assert forall|t1: int, v1: int| valid_tv(p, t1, v1) && processed(order@, k as int, flat(p, t1, v1)) implies #[trigger] val1(t1, v1) == val0(t1, v1) by {
                lemma_flat_bounds(p, t1, v1);
                assert(flat(p, t1, v1) != w as int);
                assert(t_greedy@[flat(p, t1, v1)] == tgi[flat(p, t1, v1)]);
            }
            if vw > 0 && goes_before(p, tw as int, vw - 1, tw as int, vw as int) {
                assert(val1(tw as int, vw - 1) == val0(tw as int, vw - 1));
            }
            assert(chain_start(p, val1, tw as int, vw as int) == chain_start(p, val0, tw as int, vw as int));
            assert forall|t1: int, v1: int| valid_tv(p, t1, v1) && #[trigger] delays(p, t1, v1, tw as int, vw as int) implies finish(p, val1, t1, v1) == finish(p, val0, t1, v1) by {
                assert(val1(t1, v1) == val0(t1, v1));
            }
            let x = t_v;
            if !(x == 0 || x == est(p, tw as int, vw as int) || x == chain_start(p, val1, tw as int, vw as int)) {
                assert(x == resource_lb);
                let (t1, v1) = choose|t1: int, v1: int| valid_tv(p, t1, v1) && #[trigger] delays(p, t1, v1, tw as int, vw as int) && resource_lb == finish(p, val0, t1, v1);
                assert(valid_tv(p, t1, v1) && delays(p, t1, v1, tw as int, vw as int) && x == finish(p, val1, t1, v1));
            }
            assert(greedy_start(p, val1, tw as int, vw as int));
            assert(finish_w == finish(p, val1, tw as int, vw as int));
        }
        // Record the end of `w` on the resources in conflict with its own.
        let ghost lf_before = last_finish@;
        match cmap.get(&r) {
            Some(rs) => {
                let mut i: usize = 0;
                while i < rs.len()
                    invariant
                        i <= rs@.len(),
                        forall|y: usize| #[trigger] lf_val(last_finish@, y) == (if rs@.take(i as int).contains(y) {
                            if finish_w > lf_val(lf_before, y) { finish_w } else { lf_val(lf_before, y) }
                        } else {
                            lf_val(lf_before, y)
                        }),
                    decreases rs@.len() - i,
                {
                    let r2: usize = rs[i];
                    let cur: i32 = match last_finish.get(&r2) {
                        Some(x) => *x,
                        None => 0,
                    };
                    assert(cur == lf_val(last_finish@, r2));
                    let newv: i32 = if finish_w > cur { finish_w } else { cur };
                    let ghost lf_prev = last_finish@;
                    last_finish.insert(r2, newv);
                    proof {
                        assert(last_finish@ == lf_prev.insert(r2, newv));
                        assert forall|y: usize| y != r2 implies lf_val(last_finish@, y) == lf_val(lf_prev, y) by {}
                        assert(lf_val(last_finish@, r2) == newv);
                        assert(rs@.take(i + 1) =~= rs@.take(i as int).push(r2));
                        let ghost ta = rs@.take(i + 1);
                        let ghost tb = rs@.take(i as int);
                        assert forall|y: usize| y != r2 implies (ta.contains(y) <==> tb.contains(y)) by {
                            if ta.contains(y) {
                                let j = choose|j: int| 0 <= j < ta.len() && ta[j] == y;
                                assert(tb[j] == y);
                            }
                            if tb.contains(y) {
                                let j = choose|j: int| 0 <= j < tb.len() && tb[j] == y;
                                assert(ta[j] == y);
                            }
                        }
                        assert(ta[i as int] == r2);
                        assert(ta.contains(r2));
                        assert forall|y: usize| #[trigger] lf_val(last_finish@, y) == (if ta.contains(y) {
                            if finish_w > lf_val(lf_before, y) { finish_w } else { lf_val(lf_before, y) }
                        } else {
                            lf_val(lf_before, y)
                        }) by {
                            if y != r2 {
                                assert(lf_val(last_finish@, y) == lf_val(lf_prev, y));
                            } else {
                                assert(lf_val(lf_prev, r2) == cur);
                            }
                        }
                    }
                    i = i + 1;
                }
                proof {
                    assert(rs@.take(rs@.len() as int) =~= rs@);
                    assert(*rs == cmap@[r]);
                    assert forall|y: usize| #[trigger] marks(p, r, y) <==> rs@.contains(y) by {}
                }
            },
            None => {
                proof {
                    assert forall|y: usize| !#[trigger] marks(p, r, y) by {}
                }
            },
        }
        proof {
            let ghost lf1 = last_finish@;
            assert forall|y: usize| #[trigger] lf_val(lf1, y) == (if marks(p, r, y) {
                if finish_w > lf_val(lf_before, y) { finish_w } else { lf_val(lf_before, y) }
            } else {
                lf_val(lf_before, y)
            }) by {}
            // Invariants for the next round.
            assert forall|u: int| 0 <= u < n implies (processed(order@, k + 1, u) <==> (processed(order@, k as int, u) || u == w)) by {
                lemma_processed_step(order@, k as int, u);
            }
            assert forall|t: int, v: int| valid_tv(p, t, v) && processed(order@, k + 1, flat(p, t, v)) implies #[trigger] greedy_start(p, val1, t, v) by {
                lemma_flat_bounds(p, t, v);
                if flat(p, t, v) == w {
                    lemma_flat_injective(p, t, v, tw as int, vw as int);
                } else {
                    assert(greedy_start(p, val0, t, v));
                    assert forall|t1: int, v1: int| valid_tv(p, t1, v1) && goes_before(p, t1, v1, t, v) implies #[trigger] val0(t1, v1) == val1(t1, v1) by {
                        lemma_goes_before_transitive(p, t1, v1, t, v, tw as int, vw as int);
                    }
                    lemma_greedy_start_frame(p, val0, val1, t, v);
                }
            }
            assert forall|u: int| 0 <= u < n && !processed(order@, k + 1, u) implies #[trigger] t_greedy@[u] == 0 by {}
            assert forall|y: usize, t1: int, v1: int| valid_tv(p, t1, v1) && processed(order@, k + 1, flat(p, t1, v1)) && #[trigger] marks(p, res(p, t1, v1), y)
                implies lf_val(lf1, y) >= #[trigger] finish(p, val1, t1, v1) by {
                lemma_flat_bounds(p, t1, v1);
                if flat(p, t1, v1) == w {
                    lemma_flat_injective(p, t1, v1, tw as int, vw as int);
                } else {
                    assert(val1(t1, v1) == val0(t1, v1));
                    assert(lf_val(lf_before, y) >= finish(p, val0, t1, v1));
                }
            }
            assert forall|y: usize| #[trigger] lf_val(lf1, y) == 0 || exists|t1: int, v1: int| valid_tv(p, t1, v1) && processed(order@, k + 1, flat(p, t1, v1))
                && #[trigger] marks(p, res(p, t1, v1), y) && lf_val(lf1, y) == finish(p, val1, t1, v1) by {
                if marks(p, r, y) && finish_w > lf_val(lf_before, y) {
                    assert(valid_tv(p, tw as int, vw as int) && processed(order@, k + 1, flat(p, tw as int, vw as int))
                        && marks(p, res(p, tw as int, vw as int), y) && lf_val(lf1, y) == finish(p, val1, tw as int, vw as int));
                } else if lf_val(lf1, y) != 0 {
                    assert(lf_val(lf1, y) == lf_val(lf_before, y));
                    let (t1, v1) = choose|t1: int, v1: int| valid_tv(p, t1, v1) && processed(order@, k as int, flat(p, t1, v1))
                        && #[trigger] marks(p, res(p, t1, v1), y) && lf_val(lf_before, y) == finish(p, val0, t1, v1);
                    assert(val1(t1, v1) == val0(t1, v1));
                    assert(valid_tv(p, t1, v1) && processed(order@, k + 1, flat(p, t1, v1))
                        && marks(p, res(p, t1, v1), y) && lf_val(lf1, y) == finish(p, val1, t1, v1));
                }
            }
        }
        k = k + 1;
    }
    // Scatter the flat start times back into one row per train.
    let mut rows: Vec<Vec<i32>> = Vec::new();
    let mut t: usize = 0;
    while t < n_trains
        invariant
            p == *problem,
            n == n_flat(p),
            n_trains == p.trains@.len(),
            train_offset@.len() == n_trains + 1,
            forall|t1: int| 0 <= t1 <= n_trains ==> #[trigger] train_offset@[t1] == offs(p, t1),
            travel@.len() == n,
            t_greedy@.len() == n,
            forall|t1: int, v: int| valid_tv(p, t1, v) ==> #[trigger] travel@[flat(p, t1, v)] == trav(p, t1, v),
            t <= n_trains,
            rows@.len() == t,
            forall|t1: int| 0 <= t1 < t ==> #[trigger] rows@[t1]@.len() == (if p.trains@[t1].visits@.len() > 0 {
                p.trains@[t1].visits@.len() + 1
            } else {
                0
            }),
            forall|t1: int, v: int| valid_tv(p, t1, v) && t1 < t ==> #[trigger] rows@[t1]@[v] == t_greedy@[flat(p, t1, v)],
            forall|t1: int| 0 <= t1 < t && p.trains@[t1].visits@.len() > 0 ==> #[trigger] rows@[t1]@[p.trains@[t1].visits@.len() as int]
                == finish(p, tgval(p, t_greedy@), t1, p.trains@[t1].visits@.len() - 1),
        decreases n_trains - t,
    {
        let n_visits: usize = problem.trains[t].visits.len();
        let base: usize = train_offset[t];
        proof {
            lemma_offs_monotone(p, t + 1, n_trains as int);
            assert(offs(p, t + 1) == offs(p, t as int) + n_visits);
        }
        let mut times: Vec<i32> = Vec::new();
        let mut v: usize = 0;
        while v < n_visits
            invariant
                p == *problem,
                t < n_trains,
                n_trains == p.trains@.len(),
                n_visits == p.trains@[t as int].visits@.len(),
                base == offs(p, t as int),
                base + n_visits <= n,
                t_greedy@.len() == n,
                v <= n_visits,
                times@.len() == v,
                forall|v1: int| 0 <= v1 < v ==> #[trigger] times@[v1] == t_greedy@[flat(p, t as int, v1)],
            decreases n_visits - v,
        {
            times.push(t_greedy[base + v]);
            v = v + 1;
        }
        if n_visits > 0 {
            let last: usize = base + n_visits - 1;
            assert(valid_tv(p, t as int, n_visits - 1));
            assert(last == flat(p, t as int, n_visits - 1));
            times.push(sat_add(t_greedy[last], travel[last]));
        }
        rows.push(times);
        t = t + 1;
    }
    proof {
        let tv = tgval(p, t_greedy@);
        let rv = row_val(rows@);
        assert forall|t1: int, v: int| valid_tv(p, t1, v) implies #[trigger] greedy_start(p, rv, t1, v) by {
            lemma_flat_bounds(p, t1, v);
            lemma_processed_step(order@, n as int - 1, flat(p, t1, v));
            assert(order@.take(n as int) =~= order@);
            assert(processed(order@, n as int, flat(p, t1, v)));
            assert(greedy_start(p, tv, t1, v));
            assert forall|t2: int, v2: int| valid_tv(p, t2, v2) && goes_before(p, t2, v2, t1, v) implies #[trigger] tv(t2, v2) == rv(t2, v2) by {}
            lemma_greedy_start_frame(p, tv, rv, t1, v);
        }
        assert forall|t1: int| 0 <= t1 < rows@.len() && p.trains@[t1].visits@.len() > 0 implies #[trigger] rows@[t1]@[p.trains@[t1].visits@.len() as int]
            == finish(p, rv, t1, p.trains@[t1].visits@.len() - 1) by {
            assert(valid_tv(p, t1, p.trains@[t1].visits@.len() - 1));
        }
        greedy_schedule_is_feasible(p, rows@);
    }
    rows
}
} // verus!
