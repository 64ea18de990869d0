//! Bounds on visit start times derived from the structure of the problem:
//! chain propagation within a train, cross-train forced orderings and
//! cost-budget upper bounds.
use vstd::prelude::*;
use crate::arith::{clamp_i32, sat_add, sat_sub, sat_mul, max_i32};
use crate::problem::{
    DelayCostType, Problem, Visit, Train, cost_spec, cost_upto, visit_cost_spec, solution_covers,
    train_cost_upto, train_cost_spec, lemma_cost_monotone, lemma_cost_nonneg,
    lemma_train_cost_monotone, lemma_train_cost_nonneg, delay_fits, staircase_spec, delay_of,
};

verus! {

// ---------------------------------------------------------------------------
// Within-train chain propagation of earliest start times
// ---------------------------------------------------------------------------

/// The earliest start of visit `v` of a train: its own earliest time, and no
/// earlier than the previous visit's earliest start plus its travel time.
pub open spec fn chain_lb(visits: Seq<Visit>, v: int) -> i32
    decreases v,
{
    if v <= 0 {
        visits[0].earliest
    } else {
        let prev = clamp_i32(chain_lb(visits, v - 1) + visits[v - 1].travel_time);
        if prev >= visits[v].earliest {
            prev
        } else {
            visits[v].earliest
        }
    }
}

/// The earliest start of every visit of every train, propagated along each
/// train's chain of visits (`est[v+1] = max(earliest[v+1], est[v] + travel[v])`,
/// saturating).
pub fn chain_earliest(problem: &Problem) -> (r: Vec<Vec<i32>>)
    ensures
        r@.len() == problem.trains@.len(),
        forall|ti: int|
            0 <= ti < r@.len() ==> #[trigger] r@[ti]@.len() == problem.trains@[ti].visits@.len(),
        forall|ti: int, vi: int|
            0 <= ti < r@.len() && 0 <= vi < problem.trains@[ti].visits@.len() ==> #[trigger] r@[ti]@[vi]
                == chain_lb(problem.trains@[ti].visits@, vi),
{
    let mut effective: Vec<Vec<i32>> = Vec::new();
    let mut ti: usize = 0;
    while ti < problem.trains.len()
        invariant
            ti <= problem.trains@.len(),
            effective@.len() == ti,
            forall|t: int|
                0 <= t < ti ==> #[trigger] effective@[t]@.len() == problem.trains@[t].visits@.len(),
            forall|t: int, v: int|
                0 <= t < ti && 0 <= v < problem.trains@[t].visits@.len() ==> #[trigger] effective@[t]@[v]
                    == chain_lb(problem.trains@[t].visits@, v),
        decreases problem.trains@.len() - ti,
    {
        let train = &problem.trains[ti];
        let mut train_bounds: Vec<i32> = Vec::new();
        let mut propagated_lb: Option<i32> = None;
        let mut vi: usize = 0;
        while vi < train.visits.len()
            invariant
                vi <= train.visits@.len(),
                train_bounds@.len() == vi,
                forall|v: int| 0 <= v < vi ==> #[trigger] train_bounds@[v] == chain_lb(train.visits@, v),
                vi == 0 ==> propagated_lb is None,
                vi > 0 ==> propagated_lb == Some(
                    clamp_i32(chain_lb(train.visits@, vi - 1) + train.visits@[vi - 1].travel_time),
                ),
            decreases train.visits@.len() - vi,
        {
            let visit = &train.visits[vi];
            let lb: i32 = match propagated_lb {
                None => visit.earliest,
                Some(prev_lb) => max_i32(prev_lb, visit.earliest),
            };
            train_bounds.push(lb);
            propagated_lb = Some(sat_add(lb, visit.travel_time));
            vi = vi + 1;
        }
        effective.push(train_bounds);
        ti = ti + 1;
    }
    effective
}

// ---------------------------------------------------------------------------
// Propagating lower and upper bounds along each train's chain
// ---------------------------------------------------------------------------

/// The lower bound of visit `k` after forward propagation of `row` along the
/// chain: `L[k+1] = max(L[k+1], L[k] + travel[k])`, saturating.
pub open spec fn fwd_at(row: Seq<i32>, visits: Seq<Visit>, k: int) -> i32
    decreases k,
{
    if k <= 0 {
        row[0]
    } else {
        let pushed = clamp_i32(fwd_at(row, visits, k - 1) + visits[k - 1].travel_time);
        if pushed > row[k] {
            pushed
        } else {
            row[k]
        }
    }
}

/// The upper bound of visit `k` after backward propagation of `row` along the
/// chain of `n` visits: `U[k] = min(U[k], U[k+1] - travel[k])`, saturating.
pub open spec fn bwd_at(row: Seq<i32>, visits: Seq<Visit>, n: int, k: int) -> i32
    decreases n - k,
{
    if k >= n - 1 {
        row[k]
    } else {
        let pulled = clamp_i32(bwd_at(row, visits, n, k + 1) - visits[k].travel_time);
        if pulled < row[k] {
            pulled
        } else {
            row[k]
        }
    }
}

/// The row after forward propagation along a chain of `n` visits (entries at
/// and beyond `n` are untouched; chains of fewer than two visits are untouched).
pub open spec fn fwd_row(row: Seq<i32>, visits: Seq<Visit>) -> Seq<i32> {
    let n = visits.len() as int;
    if n < 2 {
        row
    } else {
        Seq::new(row.len(), |k: int| if k < n { fwd_at(row, visits, k) } else { row[k] })
    }
}

/// The row after backward propagation along a chain of visits.
pub open spec fn bwd_row(row: Seq<i32>, visits: Seq<Visit>) -> Seq<i32> {
    let n = visits.len() as int;
    if n < 2 {
        row
    } else {
        Seq::new(row.len(), |k: int| if k < n { bwd_at(row, visits, n, k) } else { row[k] })
    }
}

/// The row already satisfies every forward precedence of the chain.
pub open spec fn fwd_closed(row: Seq<i32>, visits: Seq<Visit>) -> bool {
    forall|k: int|
        0 <= k < visits.len() - 1 ==> #[trigger] row[k + 1] >= clamp_i32(row[k] + visits[k].travel_time)
}

/// The row already satisfies every backward precedence of the chain.
pub open spec fn bwd_closed(row: Seq<i32>, visits: Seq<Visit>) -> bool {
    forall|k: int|
        0 <= k < visits.len() - 1 ==> #[trigger] row[k] <= clamp_i32(row[k + 1] - visits[k].travel_time)
}

/// The bound table has a row of at least `visits.len()` entries for every
/// train with two or more visits.
pub open spec fn bounds_cover_chains(p: Problem, b: Seq<Vec<i32>>) -> bool {
    forall|ti: int|
        #![trigger p.trains@[ti]]
        0 <= ti < p.trains@.len() && p.trains@[ti].visits@.len() >= 2 ==> ti < b.len()
            && b[ti]@.len() >= p.trains@[ti].visits@.len()
}

proof fn lemma_fwd_row_closed(row: Seq<i32>, visits: Seq<Visit>)
    requires
        visits.len() >= 2,
        row.len() >= visits.len(),
    ensures
        fwd_closed(fwd_row(row, visits), visits),
{
    let r = fwd_row(row, visits);
    assert forall|k: int| 0 <= k < visits.len() - 1 implies #[trigger] r[k + 1] >= clamp_i32(
        r[k] + visits[k].travel_time,
    ) by {
        assert(r[k] == fwd_at(row, visits, k));
        assert(r[k + 1] == fwd_at(row, visits, k + 1));
    }
}

proof fn lemma_bwd_row_closed(row: Seq<i32>, visits: Seq<Visit>)
    requires
        visits.len() >= 2,
        row.len() >= visits.len(),
    ensures
        bwd_closed(bwd_row(row, visits), visits),
{
    let r = bwd_row(row, visits);
    let n = visits.len() as int;
    assert forall|k: int| 0 <= k < visits.len() - 1 implies #[trigger] r[k] <= clamp_i32(
        r[k + 1] - visits[k].travel_time,
    ) by {
        assert(r[k] == bwd_at(row, visits, n, k));
        assert(r[k + 1] == bwd_at(row, visits, n, k + 1));
    }
}

proof fn lemma_fwd_closed_fixed(row: Seq<i32>, visits: Seq<Visit>, k: int)
    requires
        fwd_closed(row, visits),
        0 <= k < visits.len(),
        row.len() >= visits.len(),
    ensures
        fwd_at(row, visits, k) == row[k],
    decreases k,
{
    if k > 0 {
        lemma_fwd_closed_fixed(row, visits, k - 1);
        assert(row[(k - 1) + 1] >= clamp_i32(row[k - 1] + visits[k - 1].travel_time));
    }
}

proof fn lemma_bwd_closed_fixed(row: Seq<i32>, visits: Seq<Visit>, k: int)
    requires
        bwd_closed(row, visits),
        0 <= k < visits.len(),
        row.len() >= visits.len(),
    ensures
        bwd_at(row, visits, visits.len() as int, k) == row[k],
    decreases visits.len() - k,
{
    if k < visits.len() - 1 {
        lemma_bwd_closed_fixed(row, visits, k + 1);
    }
}

proof fn lemma_fwd_row_idem(row: Seq<i32>, visits: Seq<Visit>)
    requires
        fwd_closed(row, visits),
        row.len() >= visits.len(),
    ensures
        fwd_row(row, visits) == row,
{
    if visits.len() >= 2 {
        assert forall|k: int| 0 <= k < visits.len() implies fwd_at(row, visits, k) == row[k] by {
            lemma_fwd_closed_fixed(row, visits, k);
        }
        assert(fwd_row(row, visits) =~= row);
    }
}

proof fn lemma_bwd_row_idem(row: Seq<i32>, visits: Seq<Visit>)
    requires
        bwd_closed(row, visits),
        row.len() >= visits.len(),
    ensures
        bwd_row(row, visits) == row,
{
    if visits.len() >= 2 {
        assert forall|k: int| 0 <= k < visits.len() implies bwd_at(row, visits, visits.len() as int, k) == row[k] by {
            lemma_bwd_closed_fixed(row, visits, k);
        }
        assert(bwd_row(row, visits) =~= row);
    }
}

/// One forward pass over a train's row of lower bounds.
fn forward_pass(row: &mut Vec<i32>, visits: &Vec<Visit>) -> (changed: bool)
    requires
        visits@.len() >= 2,
        old(row)@.len() >= visits@.len(),
    ensures
        final(row)@ == fwd_row(old(row)@, visits@),
        fwd_closed(old(row)@, visits@) ==> !changed,
        !changed ==> final(row)@ == old(row)@,
{
    let ghost orig = row@;
    let n: usize = visits.len();
    let mut changed: bool = false;
    let mut vi: usize = 0;
    while vi < n - 1
        invariant
            n == visits@.len(),
            n >= 2,
            vi <= n - 1,
            row@.len() == orig.len(),
            orig.len() >= n,
            forall|k: int| 0 <= k <= vi ==> #[trigger] row@[k] == fwd_at(orig, visits@, k),
            forall|k: int| vi < k < orig.len() ==> #[trigger] row@[k] == orig[k],
            fwd_closed(orig, visits@) ==> !changed,
            !changed ==> row@ == orig,
        decreases n - 1 - vi,
    {
        let p: i32 = visits[vi].travel_time;
        let new_lb: i32 = sat_add(row[vi], p);
        if new_lb > row[vi + 1] {
            proof {
                if fwd_closed(orig, visits@) {
                    lemma_fwd_closed_fixed(orig, visits@, vi as int);
                    assert(orig[vi + 1] >= clamp_i32(orig[vi as int] + visits@[vi as int].travel_time));
                }
            }
            row.set(vi + 1, new_lb);
            changed = true;
        }
        vi = vi + 1;
    }
    assert(row@ =~= fwd_row(orig, visits@));
    changed
}

/// One backward pass over a train's row of upper bounds.
fn backward_pass(row: &mut Vec<i32>, visits: &Vec<Visit>) -> (changed: bool)
    requires
        visits@.len() >= 2,
        old(row)@.len() >= visits@.len(),
    ensures
        final(row)@ == bwd_row(old(row)@, visits@),
        bwd_closed(old(row)@, visits@) ==> !changed,
        !changed ==> final(row)@ == old(row)@,
{
    let ghost orig = row@;
    let n: usize = visits.len();
    let ghost ni = n as int;
    let mut changed: bool = false;
    let mut vi: usize = n - 1;
    while vi > 0
        invariant
            n == visits@.len(),
            ni == n,
            n >= 2,
            vi <= n - 1,
            row@.len() == orig.len(),
            orig.len() >= n,
            forall|k: int| vi <= k < n ==> #[trigger] row@[k] == bwd_at(orig, visits@, ni, k),
            forall|k: int| (0 <= k < vi || n <= k < orig.len()) ==> #[trigger] row@[k] == orig[k],
            bwd_closed(orig, visits@) ==> !changed,
            !changed ==> row@ == orig,
        decreases vi,
    {
        let k: usize = vi - 1;
        let p: i32 = visits[k].travel_time;
        let new_ub: i32 = sat_sub(row[k + 1], p);
        if new_ub < row[k] {
            proof {
                if bwd_closed(orig, visits@) {
                    lemma_bwd_closed_fixed(orig, visits@, k + 1);
                }
            }
            row.set(k, new_ub);
            changed = true;
        }
        vi = k;
    }
    assert(row@ =~= bwd_row(orig, visits@));
    changed
}

/// The lower-bound table after forward propagation along every train.
pub open spec fn propagated_lb(p: Problem, lb: Seq<Vec<i32>>, ti: int) -> Seq<i32> {
    if ti < p.trains@.len() {
        fwd_row(lb[ti]@, p.trains@[ti].visits@)
    } else {
        lb[ti]@
    }
}

/// The upper-bound table after backward propagation along every train.
pub open spec fn propagated_ub(p: Problem, ub: Seq<Vec<i32>>, ti: int) -> Seq<i32> {
    if ti < p.trains@.len() {
        bwd_row(ub[ti]@, p.trains@[ti].visits@)
    } else {
        ub[ti]@
    }
}

/// Propagation reaches a fixed point: the propagated lower bounds meet every
/// forward precedence and the upper bounds every backward one, so
/// propagating them again changes nothing.
pub proof fn propagation_is_idempotent(
    p: Problem,
    lb: Seq<Vec<i32>>,
    ub: Seq<Vec<i32>>,
    lb2: Seq<Vec<i32>>,
    ub2: Seq<Vec<i32>>,
)
    requires
        bounds_cover_chains(p, lb),
        bounds_cover_chains(p, ub),
        lb2.len() == lb.len(),
        ub2.len() == ub.len(),
        forall|ti: int| 0 <= ti < lb.len() ==> #[trigger] lb2[ti]@ == propagated_lb(p, lb, ti),
        forall|ti: int| 0 <= ti < ub.len() ==> #[trigger] ub2[ti]@ == propagated_ub(p, ub, ti),
    ensures
        forall|ti: int| 0 <= ti < p.trains@.len() && ti < lb2.len() ==> fwd_closed(#[trigger] lb2[ti]@, p.trains@[ti].visits@),
        forall|ti: int| 0 <= ti < p.trains@.len() && ti < ub2.len() ==> bwd_closed(#[trigger] ub2[ti]@, p.trains@[ti].visits@),
        forall|ti: int| 0 <= ti < lb2.len() ==> #[trigger] propagated_lb(p, lb2, ti) == lb2[ti]@,
        forall|ti: int| 0 <= ti < ub2.len() ==> #[trigger] propagated_ub(p, ub2, ti) == ub2[ti]@,
{
    assert forall|ti: int| 0 <= ti < p.trains@.len() && ti < lb2.len() implies fwd_closed(#[trigger] lb2[ti]@, p.trains@[ti].visits@) by {
        let vs = p.trains@[ti].visits@;
        if vs.len() >= 2 {
            assert(lb[ti]@.len() >= vs.len());
            lemma_fwd_row_closed(lb[ti]@, vs);
        }
    }
    assert forall|ti: int| 0 <= ti < p.trains@.len() && ti < ub2.len() implies bwd_closed(#[trigger] ub2[ti]@, p.trains@[ti].visits@) by {
        let vs = p.trains@[ti].visits@;
        if vs.len() >= 2 {
            assert(ub[ti]@.len() >= vs.len());
            lemma_bwd_row_closed(ub[ti]@, vs);
        }
    }
    assert forall|ti: int| 0 <= ti < lb2.len() implies #[trigger] propagated_lb(p, lb2, ti) == lb2[ti]@ by {
        if ti < p.trains@.len() {
            let vs = p.trains@[ti].visits@;
            if vs.len() >= 2 {
                assert(lb[ti]@.len() >= vs.len());
                assert(fwd_closed(lb2[ti]@, vs));
                lemma_fwd_row_idem(lb2[ti]@, vs);
            }
        }
    }
    assert forall|ti: int| 0 <= ti < ub2.len() implies #[trigger] propagated_ub(p, ub2, ti) == ub2[ti]@ by {
        if ti < p.trains@.len() {
            let vs = p.trains@[ti].visits@;
            if vs.len() >= 2 {
                assert(ub[ti]@.len() >= vs.len());
                assert(bwd_closed(ub2[ti]@, vs));
                lemma_bwd_row_idem(ub2[ti]@, vs);
            }
        }
    }
}

/// One pass of forward and backward propagation over every train.
fn propagation_pass(problem: &Problem, lb: &mut Vec<Vec<i32>>, ub: &mut Vec<Vec<i32>>) -> (changed: bool)
    requires
        bounds_cover_chains(*problem, old(lb)@),
        bounds_cover_chains(*problem, old(ub)@),
    ensures
        final(lb)@.len() == old(lb)@.len(),
        final(ub)@.len() == old(ub)@.len(),
        forall|ti: int| 0 <= ti < old(lb)@.len() ==> #[trigger] final(lb)@[ti]@ == propagated_lb(*problem, old(lb)@, ti),
        forall|ti: int| 0 <= ti < old(ub)@.len() ==> #[trigger] final(ub)@[ti]@ == propagated_ub(*problem, old(ub)@, ti),
        (forall|ti: int|
            0 <= ti < problem.trains@.len() && problem.trains@[ti].visits@.len() >= 2 ==> fwd_closed(
                #[trigger] old(lb)@[ti]@,
                problem.trains@[ti].visits@,
            ) && bwd_closed(old(ub)@[ti]@, problem.trains@[ti].visits@)) ==> !changed,
{
    let ghost lb0 = lb@;
    let ghost ub0 = ub@;
    let mut changed: bool = false;
    let mut ti: usize = 0;
    while ti < problem.trains.len()
        invariant
            ti <= problem.trains@.len(),
            bounds_cover_chains(*problem, lb0),
            bounds_cover_chains(*problem, ub0),
            lb@.len() == lb0.len(),
            ub@.len() == ub0.len(),
            forall|t: int| 0 <= t < ti && t < lb0.len() ==> #[trigger] lb@[t]@ == propagated_lb(*problem, lb0, t),
            forall|t: int| (ti <= t < lb0.len()) ==> #[trigger] lb@[t] == lb0[t],
            forall|t: int| 0 <= t < ti && t < ub0.len() ==> #[trigger] ub@[t]@ == propagated_ub(*problem, ub0, t),
            forall|t: int| (ti <= t < ub0.len()) ==> #[trigger] ub@[t] == ub0[t],
            (forall|t: int|
                0 <= t < problem.trains@.len() && problem.trains@[t].visits@.len() >= 2 ==> fwd_closed(
                    #[trigger] lb0[t]@,
                    problem.trains@[t].visits@,
                ) && bwd_closed(ub0[t]@, problem.trains@[t].visits@)) ==> !changed,
        decreases problem.trains@.len() - ti,
    {
        let visits = &problem.trains[ti].visits;
        if visits.len() >= 2 {
            assert(lb0[ti as int]@.len() >= visits@.len());
            assert(ub0[ti as int]@.len() >= visits@.len());
            assert(lb@[ti as int] == lb0[ti as int]);
            let c1: bool = forward_pass(&mut lb[ti], visits);
            assert(ub@[ti as int] == ub0[ti as int]);
            let c2: bool = backward_pass(&mut ub[ti], visits);
            if c1 || c2 {
                changed = true;
            }
        } else {
            proof {
                if (ti as int) < lb0.len() {
                    assert(lb@[ti as int]@ == propagated_lb(*problem, lb0, ti as int));
                }
                if (ti as int) < ub0.len() {
                    assert(ub@[ti as int]@ == propagated_ub(*problem, ub0, ti as int));
                }
            }
        }
        ti = ti + 1;
    }
    proof {
        assert forall|t: int| 0 <= t < lb0.len() implies #[trigger] lb@[t]@ == propagated_lb(*problem, lb0, t) by {
            if t >= problem.trains@.len() {
                assert(lb@[t] == lb0[t]);
            }
        }
        assert forall|t: int| 0 <= t < ub0.len() implies #[trigger] ub@[t]@ == propagated_ub(*problem, ub0, t) by {
            if t >= problem.trains@.len() {
                assert(ub@[t] == ub0[t]);
            }
        }
    }
    changed
}

/// Propagates lower bounds forward (`L[v+1] = max(L[v+1], L[v] + travel[v])`)
/// and upper bounds backward (`U[v] = min(U[v], U[v+1] - travel[v])`) along
/// every train's chain of visits, with saturating arithmetic, until nothing
/// changes.
pub fn propagate_bounds(problem: &Problem, lb: Vec<Vec<i32>>, ub: Vec<Vec<i32>>) -> (r: (
    Vec<Vec<i32>>,
    Vec<Vec<i32>>,
))
    requires
        bounds_cover_chains(*problem, lb@),
        bounds_cover_chains(*problem, ub@),
    ensures
        r.0@.len() == lb@.len(),
        r.1@.len() == ub@.len(),
        forall|ti: int| 0 <= ti < lb@.len() ==> #[trigger] r.0@[ti]@ == propagated_lb(*problem, lb@, ti),
        forall|ti: int| 0 <= ti < ub@.len() ==> #[trigger] r.1@[ti]@ == propagated_ub(*problem, ub@, ti),
{
    let ghost lb0 = lb@;
    let ghost ub0 = ub@;
    let mut lb = lb;
    let mut ub = ub;
    let mut changed: bool = true;
    let mut passes: usize = 0;
    while changed
        invariant
            bounds_cover_chains(*problem, lb0),
            bounds_cover_chains(*problem, ub0),
            passes == 0 ==> lb@ == lb0 && ub@ == ub0,
            passes == 0 ==> changed,
            lb@.len() == lb0.len(),
            ub@.len() == ub0.len(),
            passes > 0 ==> forall|ti: int| 0 <= ti < lb0.len() ==> #[trigger] lb@[ti]@ == propagated_lb(*problem, lb0, ti),
            passes > 0 ==> forall|ti: int| 0 <= ti < ub0.len() ==> #[trigger] ub@[ti]@ == propagated_ub(*problem, ub0, ti),
        decreases (if passes == 0 { 2int } else if changed { 1int } else { 0int }),
    {
        let ghost before_lb = lb@;
        let ghost before_ub = ub@;
        proof {
            assert(bounds_cover_chains(*problem, lb@)) by {
                assert forall|ti: int|
                    0 <= ti < problem.trains@.len() && problem.trains@[ti].visits@.len() >= 2 implies ti < lb@.len()
                    && #[trigger] lb@[ti]@.len() >= problem.trains@[ti].visits@.len() by {
                    assert(lb0[ti]@.len() >= problem.trains@[ti].visits@.len());
                    if passes > 0 {
                        assert(lb@[ti]@ == propagated_lb(*problem, lb0, ti));
                    }
                }
            }
            assert(bounds_cover_chains(*problem, ub@)) by {
                assert forall|ti: int|
                    0 <= ti < problem.trains@.len() && problem.trains@[ti].visits@.len() >= 2 implies ti < ub@.len()
                    && #[trigger] ub@[ti]@.len() >= problem.trains@[ti].visits@.len() by {
                    assert(ub0[ti]@.len() >= problem.trains@[ti].visits@.len());
                    if passes > 0 {
                        assert(ub@[ti]@ == propagated_ub(*problem, ub0, ti));
                    }
                }
            }
            if passes > 0 {
                assert forall|t: int|
                    0 <= t < problem.trains@.len() && problem.trains@[t].visits@.len() >= 2 implies fwd_closed(
                    #[trigger] lb@[t]@,
                    problem.trains@[t].visits@,
                ) && bwd_closed(ub@[t]@, problem.trains@[t].visits@) by {
                    lemma_fwd_row_closed(lb0[t]@, problem.trains@[t].visits@);
                    lemma_bwd_row_closed(ub0[t]@, problem.trains@[t].visits@);
                    assert(lb@[t]@ == propagated_lb(*problem, lb0, t));
                    assert(ub@[t]@ == propagated_ub(*problem, ub0, t));
                }
            }
        }
        changed = propagation_pass(problem, &mut lb, &mut ub);
        proof {
            if passes > 0 {
                assert(!changed);
                assert forall|ti: int| 0 <= ti < lb0.len() implies #[trigger] lb@[ti]@ == propagated_lb(*problem, lb0, ti) by {
                    assert(lb@[ti]@ == propagated_lb(*problem, before_lb, ti));
                    if ti < problem.trains@.len() && problem.trains@[ti].visits@.len() >= 2 {
                        lemma_fwd_row_closed(lb0[ti]@, problem.trains@[ti].visits@);
                        lemma_fwd_row_idem(before_lb[ti]@, problem.trains@[ti].visits@);
                    }
                }
                assert forall|ti: int| 0 <= ti < ub0.len() implies #[trigger] ub@[ti]@ == propagated_ub(*problem, ub0, ti) by {
                    assert(ub@[ti]@ == propagated_ub(*problem, before_ub, ti));
                    if ti < problem.trains@.len() && problem.trains@[ti].visits@.len() >= 2 {
                        lemma_bwd_row_closed(ub0[ti]@, problem.trains@[ti].visits@);
                        lemma_bwd_row_idem(before_ub[ti]@, problem.trains@[ti].visits@);
                    }
                }
            }
        }
        if passes == 0 {
            passes = 1;
        }
    }
    (lb, ub)
}


// ---------------------------------------------------------------------------
// Cross-train forced orderings
// ---------------------------------------------------------------------------

/// A forced ordering: visit `first` must finish before visit `second` starts,
/// with a separation of `gap`.
#[derive(Debug, Clone, Copy)]
pub struct ForcedOrder {
    /// `(train_idx, visit_idx)` of the visit that goes first.
    pub first: (usize, usize),
    /// `(train_idx, visit_idx)` of the visit that goes second.
    pub second: (usize, usize),
    /// Minimum separation: `t_second >= e_first + gap`.
    pub gap: i32,
}

/// The earliest exit of a visit: the lower bound of the next visit, or for the
/// last visit its own lower bound plus its travel time (saturating).
pub open spec fn exit_lb(p: Problem, lb: Seq<Vec<i32>>, ti: int, vi: int) -> i32 {
    if vi + 1 < p.trains@[ti].visits@.len() {
        lb[ti]@[vi + 1]
    } else {
        clamp_i32(lb[ti]@[vi] + p.trains@[ti].visits@[vi].travel_time)
    }
}

/// The pair of visits is examined for the conflict `(r1, r2)`: the first uses
/// `r1`, the second uses `r2`, and the first comes strictly before the second
/// in `(train, visit)` order.
pub open spec fn pair_examined(p: Problem, r1: usize, r2: usize, t1: int, v1: int, t2: int, v2: int) -> bool {
    &&& p.trains@[t1].visits@[v1].resource_id == r1
    &&& p.trains@[t2].visits@[v2].resource_id == r2
    &&& (t1 < t2 || (t1 == t2 && v1 < v2))
}

/// What one examined pair contributes: the surviving order if exactly one
/// order is impossible, and whether both orders are impossible.
pub open spec fn pair_outcome(p: Problem, lb: Seq<Vec<i32>>, ub: Seq<Vec<i32>>, t1: int, v1: int, t2: int, v2: int) -> (Seq<ForcedOrder>, bool) {
    let a = exit_lb(p, lb, t1, v1) > ub[t2]@[v2];
    let b = exit_lb(p, lb, t2, v2) > ub[t1]@[v1];
    if a && b {
        (Seq::empty(), true)
    } else if a {
        (seq![ForcedOrder { first: (t2 as usize, v2 as usize), second: (t1 as usize, v1 as usize), gap: 0 }], false)
    } else if b {
        (seq![ForcedOrder { first: (t1 as usize, v1 as usize), second: (t2 as usize, v2 as usize), gap: 0 }], false)
    } else {
        (Seq::empty(), false)
    }
}

pub open spec fn join(x: (Seq<ForcedOrder>, bool), y: (Seq<ForcedOrder>, bool)) -> (Seq<ForcedOrder>, bool) {
    (x.0 + y.0, x.1 || y.1)
}

pub open spec fn nothing() -> (Seq<ForcedOrder>, bool) {
    (Seq::empty(), false)
}

/// The outcome of the pairs with second visits `(t2, 0..k)`.
pub open spec fn fold_v2(p: Problem, lb: Seq<Vec<i32>>, ub: Seq<Vec<i32>>, c: int, t1: int, v1: int, t2: int, k: int) -> (Seq<ForcedOrder>, bool)
    decreases k,
{
    if k <= 0 {
        nothing()
    } else {
        let (r1, r2) = p.conflicts@[c];
        join(
            fold_v2(p, lb, ub, c, t1, v1, t2, k - 1),
            if pair_examined(p, r1, r2, t1, v1, t2, k - 1) {
                pair_outcome(p, lb, ub, t1, v1, t2, k - 1)
            } else {
                nothing()
            },
        )
    }
}

/// The outcome of the pairs with second visits in trains `0..k`.
pub open spec fn fold_t2(p: Problem, lb: Seq<Vec<i32>>, ub: Seq<Vec<i32>>, c: int, t1: int, v1: int, k: int) -> (Seq<ForcedOrder>, bool)
    decreases k,
{
    if k <= 0 {
        nothing()
    } else {
        join(
            fold_t2(p, lb, ub, c, t1, v1, k - 1),
            fold_v2(p, lb, ub, c, t1, v1, k - 1, p.trains@[k - 1].visits@.len() as int),
        )
    }
}

/// The outcome of the pairs with first visits `(t1, 0..k)`.
pub open spec fn fold_v1(p: Problem, lb: Seq<Vec<i32>>, ub: Seq<Vec<i32>>, c: int, t1: int, k: int) -> (Seq<ForcedOrder>, bool)
    decreases k,
{
    if k <= 0 {
        nothing()
    } else {
        join(fold_v1(p, lb, ub, c, t1, k - 1), fold_t2(p, lb, ub, c, t1, k - 1, p.trains@.len() as int))
    }
}

/// The outcome of the pairs with first visits in trains `0..k`.
pub open spec fn fold_t1(p: Problem, lb: Seq<Vec<i32>>, ub: Seq<Vec<i32>>, c: int, k: int) -> (Seq<ForcedOrder>, bool)
    decreases k,
{
    if k <= 0 {
        nothing()
    } else {
        join(fold_t1(p, lb, ub, c, k - 1), fold_v1(p, lb, ub, c, k - 1, p.trains@[k - 1].visits@.len() as int))
    }
}

/// The outcome of the first `k` conflicts.
pub open spec fn fold_conflicts(p: Problem, lb: Seq<Vec<i32>>, ub: Seq<Vec<i32>>, k: int) -> (Seq<ForcedOrder>, bool)
    decreases k,
{
    if k <= 0 {
        nothing()
    } else {
        join(fold_conflicts(p, lb, ub, k - 1), fold_t1(p, lb, ub, k - 1, p.trains@.len() as int))
    }
}

/// `f` is an order that the bounds force: its two visits exist, use
/// resources listed as in conflict, and are different; the second cannot go
/// before the first, as its earliest exit comes after the first's latest
/// start; and the first can still go before the second.
pub open spec fn order_forced(p: Problem, lb: Seq<Vec<i32>>, ub: Seq<Vec<i32>>, f: ForcedOrder) -> bool {
    let (a, av) = (f.first.0 as int, f.first.1 as int);
    let (b, bv) = (f.second.0 as int, f.second.1 as int);
    let ra = p.trains@[a].visits@[av].resource_id;
    let rb = p.trains@[b].visits@[bv].resource_id;
    &&& 0 <= a < p.trains@.len() && 0 <= av < p.trains@[a].visits@.len()
    &&& 0 <= b < p.trains@.len() && 0 <= bv < p.trains@[b].visits@.len()
    &&& f.first != f.second
    &&& p.conflicts@.contains((ra, rb)) || p.conflicts@.contains((rb, ra))
    &&& exit_lb(p, lb, b, bv) > ub[a]@[av]
    &&& exit_lb(p, lb, a, av) <= ub[b]@[bv]
    &&& f.gap == 0
}

/// Every order of `s` is forced by the bounds.
pub open spec fn all_forced(p: Problem, lb: Seq<Vec<i32>>, ub: Seq<Vec<i32>>, s: Seq<ForcedOrder>) -> bool {
    forall|i: int| 0 <= i < s.len() ==> #[trigger] order_forced(p, lb, ub, s[i])
}

/// Some two visits that the search examines can go in neither order: each
/// one's earliest exit comes after the other's latest start.
pub open spec fn both_orders_ruled_out(p: Problem, lb: Seq<Vec<i32>>, ub: Seq<Vec<i32>>) -> bool {
    exists|c: int, t1: int, v1: int, t2: int, v2: int|
        0 <= c < p.conflicts@.len() && 0 <= t1 < p.trains@.len() && 0 <= v1 < p.trains@[t1].visits@.len() && 0 <= t2
            < p.trains@.len() && 0 <= v2 < p.trains@[t2].visits@.len() && #[trigger] pair_examined(p, p.conflicts@[c].0,
            p.conflicts@[c].1, t1, v1, t2, v2) && exit_lb(p, lb, t1, v1) > ub[t2]@[v2] && exit_lb(p, lb, t2, v2) > ub[t1]@[v1]
}

proof fn lemma_join_forced(p: Problem, lb: Seq<Vec<i32>>, ub: Seq<Vec<i32>>, x: Seq<ForcedOrder>, y: Seq<ForcedOrder>)
    requires
        all_forced(p, lb, ub, x),
        all_forced(p, lb, ub, y),
    ensures
        all_forced(p, lb, ub, x + y),
{
    assert forall|i: int| 0 <= i < (x + y).len() implies #[trigger] order_forced(p, lb, ub, (x + y)[i]) by {
        if i < x.len() {
            assert((x + y)[i] == x[i]);
        } else {
            assert((x + y)[i] == y[i - x.len()]);
        }
    }
}

proof fn lemma_pair_forced(p: Problem, lb: Seq<Vec<i32>>, ub: Seq<Vec<i32>>, c: int, t1: int, v1: int, t2: int, v2: int)
    requires
        0 <= c < p.conflicts@.len(),
        0 <= t1 < p.trains@.len(),
        0 <= v1 < p.trains@[t1].visits@.len(),
        0 <= t2 < p.trains@.len(),
        0 <= v2 < p.trains@[t2].visits@.len(),
        pair_examined(p, p.conflicts@[c].0, p.conflicts@[c].1, t1, v1, t2, v2),
    ensures
        all_forced(p, lb, ub, pair_outcome(p, lb, ub, t1, v1, t2, v2).0),
        pair_outcome(p, lb, ub, t1, v1, t2, v2).1 ==> both_orders_ruled_out(p, lb, ub),
{
    let s = pair_outcome(p, lb, ub, t1, v1, t2, v2).0;
    assert(p.conflicts@.contains(p.conflicts@[c]));
    vstd::std_specs::vec::axiom_spec_len(&p.trains);
    vstd::std_specs::vec::axiom_spec_len(&p.trains@[t1].visits);
    vstd::std_specs::vec::axiom_spec_len(&p.trains@[t2].visits);
    assert forall|i: int| 0 <= i < s.len() implies #[trigger] order_forced(p, lb, ub, s[i]) by {
        assert(i == 0);
    }
}

proof fn lemma_fold_v2_forced(p: Problem, lb: Seq<Vec<i32>>, ub: Seq<Vec<i32>>, c: int, t1: int, v1: int, t2: int, k: int)
    requires
        0 <= c < p.conflicts@.len(),
        0 <= t1 < p.trains@.len(),
        0 <= v1 < p.trains@[t1].visits@.len(),
        0 <= t2 < p.trains@.len(),
        k <= p.trains@[t2].visits@.len(),
    ensures
        all_forced(p, lb, ub, fold_v2(p, lb, ub, c, t1, v1, t2, k).0),
        fold_v2(p, lb, ub, c, t1, v1, t2, k).1 ==> both_orders_ruled_out(p, lb, ub),
    decreases k,
{
    if k > 0 {
        lemma_fold_v2_forced(p, lb, ub, c, t1, v1, t2, k - 1);
        let (r1, r2) = p.conflicts@[c];
        if pair_examined(p, r1, r2, t1, v1, t2, k - 1) {
            lemma_pair_forced(p, lb, ub, c, t1, v1, t2, k - 1);
            lemma_join_forced(p, lb, ub, fold_v2(p, lb, ub, c, t1, v1, t2, k - 1).0, pair_outcome(p, lb, ub, t1, v1, t2, k - 1).0);
        } else {
            lemma_join_forced(p, lb, ub, fold_v2(p, lb, ub, c, t1, v1, t2, k - 1).0, nothing().0);
        }
    }
}

proof fn lemma_fold_t2_forced(p: Problem, lb: Seq<Vec<i32>>, ub: Seq<Vec<i32>>, c: int, t1: int, v1: int, k: int)
    requires
        0 <= c < p.conflicts@.len(),
        0 <= t1 < p.trains@.len(),
        0 <= v1 < p.trains@[t1].visits@.len(),
        k <= p.trains@.len(),
    ensures
        all_forced(p, lb, ub, fold_t2(p, lb, ub, c, t1, v1, k).0),
        fold_t2(p, lb, ub, c, t1, v1, k).1 ==> both_orders_ruled_out(p, lb, ub),
    decreases k,
{
    if k > 0 {
        lemma_fold_t2_forced(p, lb, ub, c, t1, v1, k - 1);
        lemma_fold_v2_forced(p, lb, ub, c, t1, v1, k - 1, p.trains@[k - 1].visits@.len() as int);
        lemma_join_forced(p, lb, ub, fold_t2(p, lb, ub, c, t1, v1, k - 1).0,
            fold_v2(p, lb, ub, c, t1, v1, k - 1, p.trains@[k - 1].visits@.len() as int).0);
    }
}

proof fn lemma_fold_v1_forced(p: Problem, lb: Seq<Vec<i32>>, ub: Seq<Vec<i32>>, c: int, t1: int, k: int)
    requires
        0 <= c < p.conflicts@.len(),
        0 <= t1 < p.trains@.len(),
        k <= p.trains@[t1].visits@.len(),
    ensures
        all_forced(p, lb, ub, fold_v1(p, lb, ub, c, t1, k).0),
        fold_v1(p, lb, ub, c, t1, k).1 ==> both_orders_ruled_out(p, lb, ub),
    decreases k,
{
    if k > 0 {
        lemma_fold_v1_forced(p, lb, ub, c, t1, k - 1);
        lemma_fold_t2_forced(p, lb, ub, c, t1, k - 1, p.trains@.len() as int);
        lemma_join_forced(p, lb, ub, fold_v1(p, lb, ub, c, t1, k - 1).0, fold_t2(p, lb, ub, c, t1, k - 1, p.trains@.len() as int).0);
    }
}

proof fn lemma_fold_t1_forced(p: Problem, lb: Seq<Vec<i32>>, ub: Seq<Vec<i32>>, c: int, k: int)
    requires
        0 <= c < p.conflicts@.len(),
        k <= p.trains@.len(),
    ensures
        all_forced(p, lb, ub, fold_t1(p, lb, ub, c, k).0),
        fold_t1(p, lb, ub, c, k).1 ==> both_orders_ruled_out(p, lb, ub),
    decreases k,
{
    if k > 0 {
        lemma_fold_t1_forced(p, lb, ub, c, k - 1);
        lemma_fold_v1_forced(p, lb, ub, c, k - 1, p.trains@[k - 1].visits@.len() as int);
        lemma_join_forced(p, lb, ub, fold_t1(p, lb, ub, c, k - 1).0, fold_v1(p, lb, ub, c, k - 1, p.trains@[k - 1].visits@.len() as int).0);
    }
}

/// Every order that the search records is forced by the bounds: its two
/// visits use resources in conflict, the second's earliest exit comes after
/// the first's latest start, so the second cannot go first, while the first
/// can still go before the second. The bounds are reported infeasible only
/// when two examined visits can go in neither order.
pub proof fn recorded_orders_are_forced(p: Problem, lb: Seq<Vec<i32>>, ub: Seq<Vec<i32>>, k: int)
    requires
        k <= p.conflicts@.len(),
    ensures
        all_forced(p, lb, ub, fold_conflicts(p, lb, ub, k).0),
        fold_conflicts(p, lb, ub, k).1 ==> both_orders_ruled_out(p, lb, ub),
    decreases k,
{
    if k > 0 {
        recorded_orders_are_forced(p, lb, ub, k - 1);
        lemma_fold_t1_forced(p, lb, ub, k - 1, p.trains@.len() as int);
        lemma_join_forced(p, lb, ub, fold_conflicts(p, lb, ub, k - 1).0, fold_t1(p, lb, ub, k - 1, p.trains@.len() as int).0);
    }
}

/// What one examined pair contributes is in the outcome `r`.
pub open spec fn outcome_in(o: (Seq<ForcedOrder>, bool), r: (Seq<ForcedOrder>, bool)) -> bool {
    &&& forall|f: ForcedOrder| o.0.contains(f) ==> #[trigger] r.0.contains(f)
    &&& o.1 ==> r.1
}

proof fn lemma_in_join(o: (Seq<ForcedOrder>, bool), x: (Seq<ForcedOrder>, bool), y: (Seq<ForcedOrder>, bool))
    ensures
        outcome_in(o, x) ==> outcome_in(o, join(x, y)),
        outcome_in(o, y) ==> outcome_in(o, join(x, y)),
{
    if outcome_in(o, x) {
        assert forall|f: ForcedOrder| o.0.contains(f) implies #[trigger] join(x, y).0.contains(f) by {
            assert(x.0.contains(f));
            let i = choose|i: int| 0 <= i < x.0.len() && x.0[i] == f;
            assert((x.0 + y.0)[i] == f);
        }
    }
    if outcome_in(o, y) {
        assert forall|f: ForcedOrder| o.0.contains(f) implies #[trigger] join(x, y).0.contains(f) by {
            assert(y.0.contains(f));
            let i = choose|i: int| 0 <= i < y.0.len() && y.0[i] == f;
            assert((x.0 + y.0)[x.0.len() + i] == f);
        }
    }
}

proof fn lemma_in_v2(p: Problem, lb: Seq<Vec<i32>>, ub: Seq<Vec<i32>>, c: int, t1: int, v1: int, t2: int, v2: int, k: int)
    requires
        0 <= v2 < k,
        pair_examined(p, p.conflicts@[c].0, p.conflicts@[c].1, t1, v1, t2, v2),
    ensures
        outcome_in(pair_outcome(p, lb, ub, t1, v1, t2, v2), fold_v2(p, lb, ub, c, t1, v1, t2, k)),
    decreases k,
{
    let o = pair_outcome(p, lb, ub, t1, v1, t2, v2);
    let (r1, r2) = p.conflicts@[c];
    let x = fold_v2(p, lb, ub, c, t1, v1, t2, k - 1);
    let y = if pair_examined(p, r1, r2, t1, v1, t2, k - 1) {
        pair_outcome(p, lb, ub, t1, v1, t2, k - 1)
    } else {
        nothing()
    };
    assert(fold_v2(p, lb, ub, c, t1, v1, t2, k) == join(x, y));
    if k - 1 == v2 {
        assert(outcome_in(o, y));
    } else {
        lemma_in_v2(p, lb, ub, c, t1, v1, t2, v2, k - 1);
    }
    lemma_in_join(o, x, y);
}

proof fn lemma_in_t2(p: Problem, lb: Seq<Vec<i32>>, ub: Seq<Vec<i32>>, c: int, t1: int, v1: int, t2: int, v2: int, k: int)
    requires
        0 <= t2 < k,
        0 <= v2 < p.trains@[t2].visits@.len(),
        pair_examined(p, p.conflicts@[c].0, p.conflicts@[c].1, t1, v1, t2, v2),
    ensures
        outcome_in(pair_outcome(p, lb, ub, t1, v1, t2, v2), fold_t2(p, lb, ub, c, t1, v1, k)),
    decreases k,
{
    let o = pair_outcome(p, lb, ub, t1, v1, t2, v2);
    let x = fold_t2(p, lb, ub, c, t1, v1, k - 1);
    let y = fold_v2(p, lb, ub, c, t1, v1, k - 1, p.trains@[k - 1].visits@.len() as int);
    if k - 1 == t2 {
        lemma_in_v2(p, lb, ub, c, t1, v1, t2, v2, p.trains@[t2].visits@.len() as int);
    } else {
        lemma_in_t2(p, lb, ub, c, t1, v1, t2, v2, k - 1);
    }
    lemma_in_join(o, x, y);
}

proof fn lemma_in_v1(p: Problem, lb: Seq<Vec<i32>>, ub: Seq<Vec<i32>>, c: int, t1: int, v1: int, t2: int, v2: int, k: int)
    requires
        0 <= v1 < k,
        0 <= t2 < p.trains@.len(),
        0 <= v2 < p.trains@[t2].visits@.len(),
        pair_examined(p, p.conflicts@[c].0, p.conflicts@[c].1, t1, v1, t2, v2),
    ensures
        outcome_in(pair_outcome(p, lb, ub, t1, v1, t2, v2), fold_v1(p, lb, ub, c, t1, k)),
    decreases k,
{
    let o = pair_outcome(p, lb, ub, t1, v1, t2, v2);
    let x = fold_v1(p, lb, ub, c, t1, k - 1);
    let y = fold_t2(p, lb, ub, c, t1, k - 1, p.trains@.len() as int);
    if k - 1 == v1 {
        lemma_in_t2(p, lb, ub, c, t1, v1, t2, v2, p.trains@.len() as int);
    } else {
        lemma_in_v1(p, lb, ub, c, t1, v1, t2, v2, k - 1);
    }
    lemma_in_join(o, x, y);
}

proof fn lemma_in_t1(p: Problem, lb: Seq<Vec<i32>>, ub: Seq<Vec<i32>>, c: int, t1: int, v1: int, t2: int, v2: int, k: int)
    requires
        0 <= t1 < k,
        0 <= v1 < p.trains@[t1].visits@.len(),
        0 <= t2 < p.trains@.len(),
        0 <= v2 < p.trains@[t2].visits@.len(),
        pair_examined(p, p.conflicts@[c].0, p.conflicts@[c].1, t1, v1, t2, v2),
    ensures
        outcome_in(pair_outcome(p, lb, ub, t1, v1, t2, v2), fold_t1(p, lb, ub, c, k)),
    decreases k,
{
    let o = pair_outcome(p, lb, ub, t1, v1, t2, v2);
    let x = fold_t1(p, lb, ub, c, k - 1);
    let y = fold_v1(p, lb, ub, c, k - 1, p.trains@[k - 1].visits@.len() as int);
    if k - 1 == t1 {
        lemma_in_v1(p, lb, ub, c, t1, v1, t2, v2, p.trains@[t1].visits@.len() as int);
    } else {
        lemma_in_t1(p, lb, ub, c, t1, v1, t2, v2, k - 1);
    }
    lemma_in_join(o, x, y);
}

proof fn lemma_in_conflicts(p: Problem, lb: Seq<Vec<i32>>, ub: Seq<Vec<i32>>, c: int, t1: int, v1: int, t2: int, v2: int, k: int)
    requires
        0 <= c < k,
        0 <= t1 < p.trains@.len(),
        0 <= v1 < p.trains@[t1].visits@.len(),
        0 <= t2 < p.trains@.len(),
        0 <= v2 < p.trains@[t2].visits@.len(),
        pair_examined(p, p.conflicts@[c].0, p.conflicts@[c].1, t1, v1, t2, v2),
    ensures
        outcome_in(pair_outcome(p, lb, ub, t1, v1, t2, v2), fold_conflicts(p, lb, ub, k)),
    decreases k,
{
    let o = pair_outcome(p, lb, ub, t1, v1, t2, v2);
    let x = fold_conflicts(p, lb, ub, k - 1);
    let y = fold_t1(p, lb, ub, k - 1, p.trains@.len() as int);
    if k - 1 == c {
        lemma_in_t1(p, lb, ub, c, t1, v1, t2, v2, p.trains@.len() as int);
    } else {
        lemma_in_conflicts(p, lb, ub, c, t1, v1, t2, v2, k - 1);
    }
    lemma_in_join(o, x, y);
}

/// No forced order is missed: for two visits that use resources of a listed
/// conflict (the first before the second in train and visit order), when
/// the bounds rule out exactly one order, the other is recorded, and when
/// they rule out both, the bounds are reported infeasible.
pub proof fn forced_orders_are_found(p: Problem, lb: Seq<Vec<i32>>, ub: Seq<Vec<i32>>, c: int, t1: int, v1: int, t2: int, v2: int)
    requires
        0 <= c < p.conflicts@.len(),
        0 <= t1 < p.trains@.len(),
        0 <= v1 < p.trains@[t1].visits@.len(),
        0 <= t2 < p.trains@.len(),
        0 <= v2 < p.trains@[t2].visits@.len(),
        p.trains@[t1].visits@[v1].resource_id == p.conflicts@[c].0,
        p.trains@[t2].visits@[v2].resource_id == p.conflicts@[c].1,
        t1 < t2 || (t1 == t2 && v1 < v2),
    ensures
        ({
            let r = fold_conflicts(p, lb, ub, p.conflicts@.len() as int);
            let a = exit_lb(p, lb, t1, v1) > ub[t2]@[v2];
            let b = exit_lb(p, lb, t2, v2) > ub[t1]@[v1];
            &&& (a && !b ==> r.0.contains(ForcedOrder { first: (t2 as usize, v2 as usize), second: (t1 as usize, v1 as usize), gap: 0 }))
            &&& (b && !a ==> r.0.contains(ForcedOrder { first: (t1 as usize, v1 as usize), second: (t2 as usize, v2 as usize), gap: 0 }))
            &&& (a && b ==> r.1)
        }),
{
    lemma_in_conflicts(p, lb, ub, c, t1, v1, t2, v2, p.conflicts@.len() as int);
    let o = pair_outcome(p, lb, ub, t1, v1, t2, v2);
    if o.0.len() == 1 {
        assert(o.0.contains(o.0[0]));
    }
}

/// `x` is a schedule of a chain of visits: each start leaves the previous
/// visit its travel time.
pub open spec fn chain_schedule(x: Seq<i32>, visits: Seq<Visit>) -> bool {
    forall|k: int| 0 <= k < visits.len() - 1 ==> #[trigger] x[k + 1] >= x[k] + visits[k].travel_time
}

/// The propagated earliest starts are the earliest schedule of a train: no
/// visit starts before its earliest time, each leaves the previous one its
/// travel time (up to the `i32` limit), and every schedule of the train
/// that respects the earliest times starts each visit no earlier.
pub proof fn chain_is_earliest_schedule(visits: Seq<Visit>, x: Seq<i32>, v: int)
    requires
        0 <= v < visits.len(),
        x.len() >= visits.len(),
        chain_schedule(x, visits),
        forall|k: int| 0 <= k < visits.len() ==> #[trigger] x[k] >= visits[k].earliest,
    ensures
        visits[v].earliest <= chain_lb(visits, v) <= x[v],
        v + 1 < visits.len() ==> chain_lb(visits, v + 1) >= clamp_i32(chain_lb(visits, v) + visits[v].travel_time),
    decreases v,
{
    if v > 0 {
        chain_is_earliest_schedule(visits, x, v - 1);
        assert(x[v] >= x[v - 1] + visits[v - 1].travel_time);
    }
}

/// Forward propagation only raises lower bounds, and cuts off no schedule of
/// the train that stays above them.
pub proof fn forward_propagation_keeps_schedules(row: Seq<i32>, visits: Seq<Visit>, x: Seq<i32>, k: int)
    requires
        0 <= k < visits.len(),
        row.len() >= visits.len(),
        x.len() >= visits.len(),
        chain_schedule(x, visits),
        forall|j: int| 0 <= j < visits.len() ==> #[trigger] x[j] >= row[j],
    ensures
        row[k] <= fwd_at(row, visits, k) <= x[k],
    decreases k,
{
    if k > 0 {
        forward_propagation_keeps_schedules(row, visits, x, k - 1);
        assert(x[(k - 1) + 1] >= x[k - 1] + visits[k - 1].travel_time);
    }
}

/// Backward propagation only lowers upper bounds, and cuts off no schedule
/// of the train that stays below them.
pub proof fn backward_propagation_keeps_schedules(row: Seq<i32>, visits: Seq<Visit>, x: Seq<i32>, k: int)
    requires
        0 <= k < visits.len(),
        row.len() >= visits.len(),
        x.len() >= visits.len(),
        chain_schedule(x, visits),
        forall|j: int| 0 <= j < visits.len() ==> #[trigger] x[j] <= row[j],
    ensures
        x[k] <= bwd_at(row, visits, visits.len() as int, k) <= row[k],
    decreases visits.len() - k,
{
    if k < visits.len() - 1 {
        backward_propagation_keeps_schedules(row, visits, x, k + 1);
        assert(x[k + 1] >= x[k] + visits[k].travel_time);
    }
}

/// The bound table has a row for every train with an entry for every visit.
pub open spec fn bounds_cover(p: Problem, b: Seq<Vec<i32>>) -> bool {
    &&& b.len() >= p.trains@.len()
    &&& forall|ti: int|
        #![trigger p.trains@[ti]]
        0 <= ti < p.trains@.len() ==> b[ti]@.len() >= p.trains@[ti].visits@.len()
}

/// For every conflicting pair of resources and every two visits using them
/// (the first strictly before the second in `(train, visit)` order), checks
/// which orders are still possible under the bounds: ordering `v` before `w`
/// is impossible when the earliest exit of `v` is after the latest start of
/// `w`. When exactly one order is impossible, the other is recorded as forced;
/// when both are, the bounds are infeasible.
pub fn find_forced_orders(problem: &Problem, lb: &[Vec<i32>], ub: &[Vec<i32>]) -> (r: (Vec<ForcedOrder>, bool))
    requires
        bounds_cover(*problem, lb@),
        bounds_cover(*problem, ub@),
    ensures
        r.0@ == fold_conflicts(*problem, lb@, ub@, problem.conflicts@.len() as int).0,
        r.1 == fold_conflicts(*problem, lb@, ub@, problem.conflicts@.len() as int).1,
        all_forced(*problem, lb@, ub@, r.0@),
        r.1 ==> both_orders_ruled_out(*problem, lb@, ub@),
{
    let mut forced: Vec<ForcedOrder> = Vec::new();
    let mut infeasible: bool = false;
    let n: usize = problem.trains.len();
    let ghost pp = *problem;
    let ghost lbs = lb@;
    let ghost ubs = ub@;
    let mut c: usize = 0;
    while c < problem.conflicts.len()
        invariant
            pp == *problem,
            lbs == lb@,
            ubs == ub@,
            n == problem.trains@.len(),
            c <= problem.conflicts@.len(),
            bounds_cover(pp, lbs),
            bounds_cover(pp, ubs),
            forced@ == fold_conflicts(pp, lbs, ubs, c as int).0,
            infeasible == fold_conflicts(pp, lbs, ubs, c as int).1,
        decreases problem.conflicts@.len() - c,
    {
        let (r1, r2) = problem.conflicts[c];
        let ghost base = (forced@, infeasible);
        let mut t1: usize = 0;
        while t1 < n
            invariant
                pp == *problem,
                lbs == lb@,
                ubs == ub@,
                n == problem.trains@.len(),
                c < problem.conflicts@.len(),
                (r1, r2) == problem.conflicts@[c as int],
                t1 <= n,
                bounds_cover(pp, lbs),
                bounds_cover(pp, ubs),
                base == fold_conflicts(pp, lbs, ubs, c as int),
                (forced@, infeasible) == join(base, fold_t1(pp, lbs, ubs, c as int, t1 as int)),
            decreases n - t1,
        {
            let train1 = &problem.trains[t1];
            let ghost base1 = (forced@, infeasible);
            let mut v1: usize = 0;
            while v1 < train1.visits.len()
                invariant
                    pp == *problem,
                    lbs == lb@,
                    ubs == ub@,
                    n == problem.trains@.len(),
                    c < problem.conflicts@.len(),
                    (r1, r2) == problem.conflicts@[c as int],
                    t1 < n,
                    *train1 == problem.trains@[t1 as int],
                    v1 <= train1.visits@.len(),
                    bounds_cover(pp, lbs),
                    bounds_cover(pp, ubs),
                    base1 == join(base, fold_t1(pp, lbs, ubs, c as int, t1 as int)),
                    (forced@, infeasible) == join(base1, fold_v1(pp, lbs, ubs, c as int, t1 as int, v1 as int)),
                decreases train1.visits@.len() - v1,
            {
                let ghost base2 = (forced@, infeasible);
                assert(lb@[t1 as int]@.len() >= pp.trains@[t1 as int].visits@.len());
                assert(ub@[t1 as int]@.len() >= pp.trains@[t1 as int].visits@.len());
                if train1.visits[v1].resource_id == r1 {
                    let exit_lb_v1: i32 = if v1 + 1 < train1.visits.len() {
                        lb[t1][v1 + 1]
                    } else {
                        sat_add(lb[t1][v1], train1.visits[v1].travel_time)
                    };
                    let mut t2: usize = 0;
                    while t2 < n
                        invariant
                            pp == *problem,
                            lbs == lb@,
                            ubs == ub@,
                            n == problem.trains@.len(),
                            c < problem.conflicts@.len(),
                            (r1, r2) == problem.conflicts@[c as int],
                            t1 < n,
                            *train1 == problem.trains@[t1 as int],
                            v1 < train1.visits@.len(),
                            train1.visits@[v1 as int].resource_id == r1,
                            exit_lb_v1 == exit_lb(pp, lbs, t1 as int, v1 as int),
                            t2 <= n,
                            bounds_cover(pp, lbs),
                            bounds_cover(pp, ubs),
                            (forced@, infeasible) == join(base2, fold_t2(pp, lbs, ubs, c as int, t1 as int, v1 as int, t2 as int)),
                        decreases n - t2,
                    {
                        let train2 = &problem.trains[t2];
                        let ghost base3 = (forced@, infeasible);
                        let mut v2: usize = 0;
                        while v2 < train2.visits.len()
                            invariant
                                pp == *problem,
                                lbs == lb@,
                                ubs == ub@,
                                n == problem.trains@.len(),
                                c < problem.conflicts@.len(),
                                (r1, r2) == problem.conflicts@[c as int],
                                t1 < n,
                                t2 < n,
                                *train1 == problem.trains@[t1 as int],
                                *train2 == problem.trains@[t2 as int],
                                v1 < train1.visits@.len(),
                                train1.visits@[v1 as int].resource_id == r1,
                                exit_lb_v1 == exit_lb(pp, lbs, t1 as int, v1 as int),
                                v2 <= train2.visits@.len(),
                                bounds_cover(pp, lbs),
                                bounds_cover(pp, ubs),
                                base3 == join(base2, fold_t2(pp, lbs, ubs, c as int, t1 as int, v1 as int, t2 as int)),
                                (forced@, infeasible) == join(base3, fold_v2(pp, lbs, ubs, c as int, t1 as int, v1 as int, t2 as int, v2 as int)),
                            decreases train2.visits@.len() - v2,
                        {
                            let ghost before = (forced@, infeasible);
                            let before_pair: bool = t1 < t2 || (t1 == t2 && v1 < v2);
                            if before_pair && train2.visits[v2].resource_id == r2 {
                                assert(lb@[t2 as int]@.len() >= pp.trains@[t2 as int].visits@.len());
                                assert(ub@[t2 as int]@.len() >= pp.trains@[t2 as int].visits@.len());
                                let exit_lb_v2: i32 = if v2 + 1 < train2.visits.len() {
                                    lb[t2][v2 + 1]
                                } else {
                                    sat_add(lb[t2][v2], train2.visits[v2].travel_time)
                                };
                                let ub_v1: i32 = ub[t1][v1];
                                let ub_v2: i32 = ub[t2][v2];
                                let v1_before_v2_impossible: bool = exit_lb_v1 > ub_v2;
                                let v2_before_v1_impossible: bool = exit_lb_v2 > ub_v1;
                                if v1_before_v2_impossible && v2_before_v1_impossible {
                                    infeasible = true;
                                } else if v1_before_v2_impossible {
                                    forced.push(ForcedOrder { first: (t2, v2), second: (t1, v1), gap: 0 });
                                } else if v2_before_v1_impossible {
                                    forced.push(ForcedOrder { first: (t1, v1), second: (t2, v2), gap: 0 });
                                }
                                proof {
                                    assert(pair_examined(pp, r1, r2, t1 as int, v1 as int, t2 as int, v2 as int));
                                    let o = pair_outcome(pp, lbs, ubs, t1 as int, v1 as int, t2 as int, v2 as int);
                                    assert(forced@ =~= before.0 + o.0);
                                    assert(infeasible == (before.1 || o.1));
                                }
                            } else {
                                assert(!pair_examined(pp, r1, r2, t1 as int, v1 as int, t2 as int, v2 as int));
                                assert(forced@ =~= before.0 + nothing().0);
                            }
                            proof {
                                let f = fold_v2(pp, lbs, ubs, c as int, t1 as int, v1 as int, t2 as int, v2 as int);
                                let g = fold_v2(pp, lbs, ubs, c as int, t1 as int, v1 as int, t2 as int, v2 + 1);
                                assert(base3.0 + g.0 =~= (base3.0 + f.0) + (g.0.subrange(f.0.len() as int, g.0.len() as int)));
                            }
                            v2 = v2 + 1;
                        }
                        proof {
                            let f = fold_t2(pp, lbs, ubs, c as int, t1 as int, v1 as int, t2 as int);
                            let g = fold_v2(pp, lbs, ubs, c as int, t1 as int, v1 as int, t2 as int, v2 as int);
                            assert(base2.0 + (f.0 + g.0) =~= (base2.0 + f.0) + g.0);
                        }
                        t2 = t2 + 1;
                    }
                    proof {
                        let f = fold_v1(pp, lbs, ubs, c as int, t1 as int, v1 as int);
                        let g = fold_t2(pp, lbs, ubs, c as int, t1 as int, v1 as int, n as int);
                        assert(base1.0 + (f.0 + g.0) =~= (base1.0 + f.0) + g.0);
                    }
                } else {
                    proof {
                        lemma_fold_t2_unexamined(pp, lbs, ubs, c as int, t1 as int, v1 as int, n as int);
                        let f = fold_v1(pp, lbs, ubs, c as int, t1 as int, v1 as int);
                        assert(base1.0 + (f.0 + Seq::<ForcedOrder>::empty()) =~= (base1.0 + f.0));
                    }
                }
                v1 = v1 + 1;
            }
            proof {
                let f = fold_t1(pp, lbs, ubs, c as int, t1 as int);
                let g = fold_v1(pp, lbs, ubs, c as int, t1 as int, v1 as int);
                assert(base.0 + (f.0 + g.0) =~= (base.0 + f.0) + g.0);
            }
            t1 = t1 + 1;
        }
        proof {
            let f = fold_conflicts(pp, lbs, ubs, c as int);
            let g = fold_t1(pp, lbs, ubs, c as int, n as int);
            assert(f.0 + g.0 =~= base.0 + g.0);
        }
        c = c + 1;
    }
    proof {
        recorded_orders_are_forced(*problem, lb@, ub@, problem.conflicts@.len() as int);
    }
    (forced, infeasible)
}

proof fn lemma_fold_v2_unexamined(p: Problem, lb: Seq<Vec<i32>>, ub: Seq<Vec<i32>>, c: int, t1: int, v1: int, t2: int, k: int)
    requires
        0 <= c < p.conflicts@.len(),
        0 <= t1 < p.trains@.len(),
        0 <= v1 < p.trains@[t1].visits@.len(),
        p.trains@[t1].visits@[v1].resource_id != p.conflicts@[c].0,
    ensures
        fold_v2(p, lb, ub, c, t1, v1, t2, k) == nothing(),
    decreases k,
{
    if k > 0 {
        lemma_fold_v2_unexamined(p, lb, ub, c, t1, v1, t2, k - 1);
        assert(Seq::<ForcedOrder>::empty() + Seq::<ForcedOrder>::empty() =~= Seq::<ForcedOrder>::empty());
    }
}

proof fn lemma_fold_t2_unexamined(p: Problem, lb: Seq<Vec<i32>>, ub: Seq<Vec<i32>>, c: int, t1: int, v1: int, k: int)
    requires
        0 <= c < p.conflicts@.len(),
        0 <= t1 < p.trains@.len(),
        0 <= v1 < p.trains@[t1].visits@.len(),
        p.trains@[t1].visits@[v1].resource_id != p.conflicts@[c].0,
    ensures
        fold_t2(p, lb, ub, c, t1, v1, k) == nothing(),
    decreases k,
{
    if k > 0 {
        lemma_fold_t2_unexamined(p, lb, ub, c, t1, v1, k - 1);
        lemma_fold_v2_unexamined(p, lb, ub, c, t1, v1, k - 1, p.trains@[k - 1].visits@.len() as int);
        assert(Seq::<ForcedOrder>::empty() + Seq::<ForcedOrder>::empty() =~= Seq::<ForcedOrder>::empty());
    }
}

// ---------------------------------------------------------------------------
// Cost-budget upper bound tightening
// ---------------------------------------------------------------------------

/// The cost type maps delay to cost without a cap.
pub open spec fn uncapped(ty: DelayCostType) -> bool {
    match ty {
        DelayCostType::InfiniteSteps60 | DelayCostType::InfiniteSteps180
        | DelayCostType::InfiniteSteps360 | DelayCostType::Continuous => true,
        _ => false,
    }
}

/// The largest delay whose cost fits in `remaining`.
pub open spec fn max_delay_for(ty: DelayCostType, remaining: int) -> i32 {
    match ty {
        DelayCostType::Continuous => remaining as i32,
        DelayCostType::InfiniteSteps60 => clamp_i32(remaining * 60),
        DelayCostType::InfiniteSteps180 => clamp_i32(remaining * 180),
        DelayCostType::InfiniteSteps360 => clamp_i32(remaining * 360),
        _ => 0,
    }
}

/// The tightened upper bound of visit `vi` of train `ti`: the budget left for
/// this visit, after every other visit pays its cost at its lower bound, turns
/// into a latest start `aimed + max_delay`.
pub open spec fn tightened_ub(p: Problem, ty: DelayCostType, lb: Seq<Vec<i32>>, ub: Seq<Vec<i32>>, best_cost: i32, ti: int, vi: int) -> i32 {
    let old = ub[ti]@[vi];
    match p.trains@[ti].visits@[vi].aimed {
        None => old,
        Some(aimed) => {
            let own = visit_cost_spec(p.trains@[ti], ty, vi, lb[ti]@[vi]);
            let remaining = best_cost - (cost_spec(p, lb, ty) - own);
            if remaining < 0 {
                old
            } else {
                let new_ub = clamp_i32(aimed + max_delay_for(ty, remaining));
                if new_ub < old { new_ub } else { old }
            }
        }
    }
}

/// The budget left to each visit with an aimed time, `best_cost` less what
/// every other visit pays at its lower bound, fits in `i32`.
pub open spec fn budget_fits(p: Problem, ty: DelayCostType, lb: Seq<Vec<i32>>, best_cost: i32) -> bool {
    forall|ti: int, vi: int|
        0 <= ti < p.trains@.len() && 0 <= vi < p.trains@[ti].visits@.len() && (#[trigger] p.trains@[ti].visits@[vi]).aimed is Some
            ==> best_cost - (cost_spec(p, lb, ty) - visit_cost_spec(p.trains@[ti], ty, vi, lb[ti]@[vi])) >= i32::MIN
}

/// The upper-bound row of train `ti` after tightening (rows of trains beyond
/// the problem, and entries beyond the train's visits, are untouched).
pub open spec fn tightened_row(p: Problem, ty: DelayCostType, lb: Seq<Vec<i32>>, ub: Seq<Vec<i32>>, best_cost: i32, ti: int) -> Seq<i32> {
    if ti < p.trains@.len() {
        Seq::new(ub[ti]@.len(), |vi: int| if vi < p.trains@[ti].visits@.len() {
            tightened_ub(p, ty, lb, ub, best_cost, ti, vi)
        } else {
            ub[ti]@[vi]
        })
    } else {
        ub[ti]@
    }
}

proof fn lemma_own_le_total(p: Problem, lb: Seq<Vec<i32>>, ty: DelayCostType, ti: int, vi: int)
    requires
        0 <= ti < p.trains@.len(),
        0 <= vi < p.trains@[ti].visits@.len(),
    ensures
        visit_cost_spec(p.trains@[ti], ty, vi, lb[ti]@[vi]) <= cost_spec(p, lb, ty),
{
    let tr = p.trains@[ti];
    lemma_train_cost_monotone(tr, lb[ti]@, ty, vi + 1, tr.visits@.len() as int);
    lemma_train_cost_nonneg(tr, lb[ti]@, ty, vi);
    lemma_cost_monotone(p, lb, ty, ti + 1, p.trains@.len() as int);
    lemma_cost_nonneg(p, lb, ty, ti);
}

/// A staircase with a positive interval: a longer delay never costs less,
/// and a cost of at most `m` means a delay of at most `interval * m`.
proof fn lemma_staircase_bounds(d1: int, d2: int, interval: nat, m: int)
    requires
        interval > 0,
    ensures
        d1 <= d2 ==> staircase_spec(d1, interval) <= staircase_spec(d2, interval),
        0 <= m && staircase_spec(d1, interval) <= m ==> d1 <= interval * m,
{
    let i = interval as int;
    if d1 <= d2 && d1 > 0 {
        vstd::arithmetic::div_mod::lemma_div_is_ordered(d1 + i - 1, d2 + i - 1, i);
    }
    if 0 <= m && staircase_spec(d1, interval) <= m && d1 > 0 {
        let q = (d1 + i - 1) / i;
        vstd::arithmetic::div_mod::lemma_fundamental_div_mod(d1 + i - 1, i);
        assert(0 <= (d1 + i - 1) % i < i) by {
            vstd::arithmetic::div_mod::lemma_mod_bound(d1 + i - 1, i);
        }
        assert(d1 <= i * m) by (nonlinear_arith)
            requires
                d1 + i - 1 == i * q + (d1 + i - 1) % i,
                (d1 + i - 1) % i < i,
                q <= m,
                i > 0,
        ;
    }
    if 0 <= m && d1 <= 0 {
        assert(i * m >= 0) by (nonlinear_arith)
            requires
                i > 0,
                m >= 0,
        ;
    }
}

/// For an uncapped cost type, entering a visit later never costs less.
proof fn lemma_visit_cost_monotone(train: Train, ty: DelayCostType, v: int, t1: i32, t2: i32)
    requires
        uncapped(ty),
        t1 <= t2,
    ensures
        visit_cost_spec(train, ty, v, t1) <= visit_cost_spec(train, ty, v, t2),
{
    if let Some(a) = train.visits@[v].aimed {
        let d1 = crate::problem::delay_of(a, t1);
        let d2 = crate::problem::delay_of(a, t2);
        match ty {
            DelayCostType::InfiniteSteps60 => lemma_staircase_bounds(d1, d2, 60, 0),
            DelayCostType::InfiniteSteps180 => lemma_staircase_bounds(d1, d2, 180, 0),
            DelayCostType::InfiniteSteps360 => lemma_staircase_bounds(d1, d2, 360, 0),
            _ => {},
        }
    }
}

/// Every time of `x` lies between the lower and the upper bound.
pub open spec fn within_bounds(p: Problem, lb: Seq<Vec<i32>>, ub: Seq<Vec<i32>>, x: Seq<Vec<i32>>) -> bool {
    forall|ti: int, vi: int|
        0 <= ti < p.trains@.len() && 0 <= vi < p.trains@[ti].visits@.len() ==> lb[ti]@[vi] <= #[trigger] x[ti]@[vi]
            <= ub[ti]@[vi]
}

/// Raising the times of the first `k` visits of a train from `r1` to `r2`
/// raises its cost by at least the raise at visit `vi`.
proof fn lemma_train_cost_raise(train: Train, r1: Seq<i32>, r2: Seq<i32>, ty: DelayCostType, k: int, vi: int)
    requires
        uncapped(ty),
        0 <= k <= train.visits@.len(),
        forall|v: int| 0 <= v < k ==> r1[v] <= #[trigger] r2[v],
    ensures
        train_cost_upto(train, r2, ty, k) - train_cost_upto(train, r1, ty, k) >= if 0 <= vi < k {
            visit_cost_spec(train, ty, vi, r2[vi]) - visit_cost_spec(train, ty, vi, r1[vi])
        } else {
            0
        },
    decreases k,
{
    if k > 0 {
        lemma_train_cost_raise(train, r1, r2, ty, k - 1, vi);
        assert(r1[k - 1] <= r2[k - 1]);
        lemma_visit_cost_monotone(train, ty, k - 1, r1[k - 1], r2[k - 1]);
        if 0 <= vi < k - 1 {
        }
    }
}

/// Raising the times of the first `k` trains from `lb` to `x` raises the
/// cost by at least the raise at visit `vi` of train `ti`.
proof fn lemma_cost_raise(p: Problem, lb: Seq<Vec<i32>>, x: Seq<Vec<i32>>, ty: DelayCostType, k: int, ti: int, vi: int)
    requires
        uncapped(ty),
        0 <= k <= p.trains@.len(),
        0 <= ti < p.trains@.len(),
        0 <= vi < p.trains@[ti].visits@.len(),
        forall|t: int, v: int| 0 <= t < p.trains@.len() && 0 <= v < p.trains@[t].visits@.len() ==> lb[t]@[v] <= #[trigger] x[t]@[v],
    ensures
        cost_upto(p, x, ty, k) - cost_upto(p, lb, ty, k) >= if ti < k {
            visit_cost_spec(p.trains@[ti], ty, vi, x[ti]@[vi]) - visit_cost_spec(p.trains@[ti], ty, vi, lb[ti]@[vi])
        } else {
            0
        },
    decreases k,
{
    if k > 0 {
        lemma_cost_raise(p, lb, x, ty, k - 1, ti, vi);
        let tr = p.trains@[k - 1];
        assert forall|v: int| 0 <= v < tr.visits@.len() implies lb[k - 1]@[v] <= #[trigger] x[k - 1]@[v] by {
            assert(lb[k - 1]@[v] <= x[k - 1]@[v]);
        }
        lemma_train_cost_raise(tr, lb[k - 1]@, x[k - 1]@, ty, tr.visits@.len() as int, if ti == k - 1 { vi } else { -1 });
    }
}

/// Tightening by the cost budget cuts off no schedule within the budget: a
/// schedule between the bounds whose cost is at most `best_cost` stays below
/// the tightened upper bounds, and these never exceed the old ones.
pub proof fn tightening_keeps_budget_schedules(
    p: Problem,
    ty: DelayCostType,
    lb: Seq<Vec<i32>>,
    ub: Seq<Vec<i32>>,
    best_cost: i32,
    x: Seq<Vec<i32>>,
)
    requires
        uncapped(ty),
        solution_covers(p, lb),
        solution_covers(p, x),
        bounds_cover(p, ub),
        within_bounds(p, lb, ub, x),
        cost_spec(p, x, ty) <= best_cost,
    ensures
        forall|ti: int, vi: int|
            0 <= ti < p.trains@.len() && 0 <= vi < p.trains@[ti].visits@.len() ==> x[ti]@[vi]
                <= #[trigger] tightened_ub(p, ty, lb, ub, best_cost, ti, vi) <= ub[ti]@[vi],
{
    assert forall|ti: int, vi: int| 0 <= ti < p.trains@.len() && 0 <= vi < p.trains@[ti].visits@.len() implies x[ti]@[vi]
        <= #[trigger] tightened_ub(p, ty, lb, ub, best_cost, ti, vi) <= ub[ti]@[vi] by {
        let tr = p.trains@[ti];
        assert(lb[ti]@[vi] <= x[ti]@[vi] <= ub[ti]@[vi]);
        if let Some(a) = tr.visits@[vi].aimed {
            assert forall|t: int, v: int| 0 <= t < p.trains@.len() && 0 <= v < p.trains@[t].visits@.len() implies lb[t]@[v] <= #[trigger] x[t]@[v] by {
                assert(lb[t]@[v] <= x[t]@[v] <= ub[t]@[v]);
            }
            lemma_cost_raise(p, lb, x, ty, p.trains@.len() as int, ti, vi);
            let own_lb = visit_cost_spec(tr, ty, vi, lb[ti]@[vi]);
            let own_x = visit_cost_spec(tr, ty, vi, x[ti]@[vi]);
            let remaining = best_cost - (cost_spec(p, lb, ty) - own_lb);
            assert(own_x <= remaining);
            assert(delay_fits(tr, vi, x[ti]@[vi]));
            let d = crate::problem::delay_of(a, x[ti]@[vi]);
            assert(x[ti]@[vi] - a <= d);
            lemma_cost_nonneg(p, lb, ty, p.trains@.len() as int);
            lemma_own_le_total(p, lb, ty, ti, vi);
            assert(remaining <= best_cost);
            match ty {
                DelayCostType::InfiniteSteps60 => {
                    lemma_staircase_bounds(d, d, 60, remaining);
                },
                DelayCostType::InfiniteSteps180 => {
                    lemma_staircase_bounds(d, d, 180, remaining);
                },
                DelayCostType::InfiniteSteps360 => {
                    lemma_staircase_bounds(d, d, 360, remaining);
                },
                _ => {},
            }
        }
    }
}

/// The budget left to visit `vi` of train `ti` once every other visit pays
/// its cost at its lower bound.
pub open spec fn budget_left(p: Problem, ty: DelayCostType, lb: Seq<Vec<i32>>, best_cost: i32, ti: int, vi: int) -> int {
    best_cost - (cost_spec(p, lb, ty) - visit_cost_spec(p.trains@[ti], ty, vi, lb[ti]@[vi]))
}

/// The seconds of delay that one unit of cost buys under an uncapped cost
/// type.
pub open spec fn unit_seconds(ty: DelayCostType) -> int {
    match ty {
        DelayCostType::InfiniteSteps60 => 60,
        DelayCostType::InfiniteSteps180 => 180,
        DelayCostType::InfiniteSteps360 => 360,
        _ => 1,
    }
}

/// Tightening goes as far as the budget allows: where it lowers the upper
/// bound of an aimed visit, entering that visit one second after the new
/// bound would cost the visit more than the budget left to it (so long as
/// the longest delay within the budget fits in `i32`).
pub proof fn tightening_is_tight(p: Problem, ty: DelayCostType, lb: Seq<Vec<i32>>, ub: Seq<Vec<i32>>, best_cost: i32, ti: int, vi: int)
    requires
        uncapped(ty),
        0 <= ti < p.trains@.len(),
        0 <= vi < p.trains@[ti].visits@.len(),
        tightened_ub(p, ty, lb, ub, best_cost, ti, vi) < ub[ti]@[vi],
        budget_left(p, ty, lb, best_cost, ti, vi) * unit_seconds(ty) <= i32::MAX,
    ensures
        visit_cost_spec(p.trains@[ti], ty, vi, (tightened_ub(p, ty, lb, ub, best_cost, ti, vi) + 1) as i32)
            > budget_left(p, ty, lb, best_cost, ti, vi),
{
    let tr = p.trains@[ti];
    let a = tr.visits@[vi].aimed->0;
    let m = budget_left(p, ty, lb, best_cost, ti, vi);
    let k = unit_seconds(ty);
    lemma_own_le_total(p, lb, ty, ti, vi);
    assert(m >= 0);
    assert(m * k >= 0) by (nonlinear_arith)
        requires
            m >= 0,
            k >= 1,
    ;
    assert(max_delay_for(ty, m) == m * k);
    let t = tightened_ub(p, ty, lb, ub, best_cost, ti, vi) + 1;
    assert(t == a + m * k + 1);
    let d = delay_of(a, t as i32);
    assert(d == m * k + 1);
    match ty {
        DelayCostType::InfiniteSteps60 => {
            lemma_staircase_bounds(d, d, 60, m);
        },
        DelayCostType::InfiniteSteps180 => {
            lemma_staircase_bounds(d, d, 180, m);
        },
        DelayCostType::InfiniteSteps360 => {
            lemma_staircase_bounds(d, d, 360, m);
        },
        _ => {},
    }
}

/// The tightened bound keeps within the budget: when the budget left to an
/// aimed visit is not negative (and the longest delay within it fits in
/// `i32`), entering the visit at its tightened upper bound costs no more
/// than that budget.
pub proof fn tightened_bound_within_budget(p: Problem, ty: DelayCostType, lb: Seq<Vec<i32>>, ub: Seq<Vec<i32>>, best_cost: i32, ti: int, vi: int)
    requires
        uncapped(ty),
        0 <= ti < p.trains@.len(),
        0 <= vi < p.trains@[ti].visits@.len(),
        p.trains@[ti].visits@[vi].aimed is Some,
        budget_left(p, ty, lb, best_cost, ti, vi) >= 0,
        budget_left(p, ty, lb, best_cost, ti, vi) * unit_seconds(ty) <= i32::MAX,
    ensures
        visit_cost_spec(p.trains@[ti], ty, vi, tightened_ub(p, ty, lb, ub, best_cost, ti, vi))
            <= budget_left(p, ty, lb, best_cost, ti, vi),
{
    let tr = p.trains@[ti];
    let a = tr.visits@[vi].aimed->0;
    let m = budget_left(p, ty, lb, best_cost, ti, vi);
    let k = unit_seconds(ty);
    lemma_own_le_total(p, lb, ty, ti, vi);
    assert(m * k >= 0) by (nonlinear_arith)
        requires
            m >= 0,
            k >= 1,
    ;
    assert(max_delay_for(ty, m) == m * k);
    let t = tightened_ub(p, ty, lb, ub, best_cost, ti, vi);
    assert(t <= a + m * k);
    let d = delay_of(a, t);
    assert(d <= m * k);
    match ty {
        DelayCostType::InfiniteSteps60 => {
            crate::problem::staircase_steps(60, m as nat);
            lemma_staircase_bounds(d, 60 * m, 60, m);
        },
        DelayCostType::InfiniteSteps180 => {
            crate::problem::staircase_steps(180, m as nat);
            lemma_staircase_bounds(d, 180 * m, 180, m);
        },
        DelayCostType::InfiniteSteps360 => {
            crate::problem::staircase_steps(360, m as nat);
            lemma_staircase_bounds(d, 360 * m, 360, m);
        },
        _ => {},
    }
}

/// For uncapped cost types (continuous and infinite steps), tightens the
/// upper bound of each visit with an aimed time using the cost budget
/// `best_cost` left after every other visit pays its minimum cost (its cost
/// at its lower bound). For capped (finite-step) cost types the bounds are
/// returned unchanged.
pub fn tighten_ub_from_cost(problem: &Problem, delay_cost_type: DelayCostType, lb: &[Vec<i32>], ub: Vec<Vec<i32>>, best_cost: i32) -> (r: Vec<Vec<i32>>)
    requires
        uncapped(delay_cost_type) ==> {
            &&& solution_covers(*problem, lb@)
            &&& bounds_cover(*problem, ub@)
            &&& cost_spec(*problem, lb@, delay_cost_type) <= i32::MAX
            &&& budget_fits(*problem, delay_cost_type, lb@, best_cost)
        },
    ensures
        !uncapped(delay_cost_type) ==> r@ == ub@,
        uncapped(delay_cost_type) ==> {
            &&& r@.len() == ub@.len()
            &&& forall|ti: int| 0 <= ti < ub@.len() ==> #[trigger] r@[ti]@ == tightened_row(*problem, delay_cost_type, lb@, ub@, best_cost, ti)
        },
{
    match delay_cost_type {
        DelayCostType::FiniteSteps1_3Min | DelayCostType::FiniteSteps1_5Min
        | DelayCostType::FiniteSteps123 | DelayCostType::FiniteSteps12345
        | DelayCostType::FiniteSteps139 => return ub,
        _ => {},
    }
    let ghost ub0 = ub@;
    let ghost total_spec = cost_spec(*problem, lb@, delay_cost_type);
    // The cost of each visit at its lower bound.
    let mut min_costs: Vec<Vec<i32>> = Vec::new();
    let mut total_min_cost: i32 = 0;
    let mut ti: usize = 0;
    while ti < problem.trains.len()
        invariant
            ti <= problem.trains@.len(),
            solution_covers(*problem, lb@),
            total_spec == cost_spec(*problem, lb@, delay_cost_type),
            total_spec <= i32::MAX,
            min_costs@.len() == ti,
            forall|t: int| 0 <= t < ti ==> #[trigger] min_costs@[t]@.len() == problem.trains@[t].visits@.len(),
            forall|t: int, v: int| 0 <= t < ti && 0 <= v < problem.trains@[t].visits@.len() ==>
                #[trigger] min_costs@[t]@[v] == visit_cost_spec(problem.trains@[t], delay_cost_type, v, lb@[t]@[v]),
            total_min_cost == cost_upto(*problem, lb@, delay_cost_type, ti as int),
        decreases problem.trains@.len() - ti,
    {
        let train = &problem.trains[ti];
        assert(lb@[ti as int]@.len() >= train.visits@.len());
        proof {
            lemma_cost_monotone(*problem, lb@, delay_cost_type, ti + 1, problem.trains@.len() as int);
            lemma_cost_nonneg(*problem, lb@, delay_cost_type, ti as int);
        }
        let mut row: Vec<i32> = Vec::new();
        let mut tsum: i32 = 0;
        let mut vi: usize = 0;
        while vi < train.visits.len()
            invariant
                ti < problem.trains@.len(),
                *train == problem.trains@[ti as int],
                vi <= train.visits@.len(),
                solution_covers(*problem, lb@),
                lb@[ti as int]@.len() >= train.visits@.len(),
                row@.len() == vi,
                forall|v: int| 0 <= v < vi ==> #[trigger] row@[v] == visit_cost_spec(*train, delay_cost_type, v, lb@[ti as int]@[v]),
                tsum == train_cost_upto(*train, lb@[ti as int]@, delay_cost_type, vi as int),
                total_min_cost + train_cost_spec(*train, lb@[ti as int]@, delay_cost_type) <= i32::MAX,
                total_min_cost >= 0,
            decreases train.visits@.len() - vi,
        {
            proof {
                lemma_train_cost_monotone(*train, lb@[ti as int]@, delay_cost_type, vi + 1, train.visits@.len() as int);
                lemma_train_cost_nonneg(*train, lb@[ti as int]@, delay_cost_type, vi as int);
                assert(delay_fits(problem.trains@[ti as int], vi as int, lb@[ti as int]@[vi as int]));
            }
            let c: usize = train.visit_delay_cost(delay_cost_type, vi, lb[ti][vi]);
            row.push(c as i32);
            tsum = tsum + c as i32;
            vi = vi + 1;
        }
        min_costs.push(row);
        total_min_cost = total_min_cost + tsum;
        ti = ti + 1;
    }
    let mut ub = ub;
    let mut ti: usize = 0;
    while ti < problem.trains.len()
        invariant
            ti <= problem.trains@.len(),
            solution_covers(*problem, lb@),
            bounds_cover(*problem, ub0),
            total_spec == cost_spec(*problem, lb@, delay_cost_type),
            total_min_cost == total_spec,
            budget_fits(*problem, delay_cost_type, lb@, best_cost),
            uncapped(delay_cost_type),
            min_costs@.len() == problem.trains@.len(),
            forall|t: int| 0 <= t < problem.trains@.len() ==> #[trigger] min_costs@[t]@.len() == problem.trains@[t].visits@.len(),
            forall|t: int, v: int| 0 <= t < problem.trains@.len() && 0 <= v < problem.trains@[t].visits@.len() ==>
                #[trigger] min_costs@[t]@[v] == visit_cost_spec(problem.trains@[t], delay_cost_type, v, lb@[t]@[v]),
            ub@.len() == ub0.len(),
            forall|t: int| 0 <= t < ti ==> #[trigger] ub@[t]@ == tightened_row(*problem, delay_cost_type, lb@, ub0, best_cost, t),
            forall|t: int| ti <= t < ub0.len() ==> #[trigger] ub@[t] == ub0[t],
        decreases problem.trains@.len() - ti,
    {
        let train = &problem.trains[ti];
        assert(ub0[ti as int]@.len() >= train.visits@.len());
        let mut vi: usize = 0;
        while vi < train.visits.len()
            invariant
                ti < problem.trains@.len(),
                *train == problem.trains@[ti as int],
                vi <= train.visits@.len(),
                solution_covers(*problem, lb@),
                bounds_cover(*problem, ub0),
                total_spec == cost_spec(*problem, lb@, delay_cost_type),
                total_min_cost == total_spec,
                budget_fits(*problem, delay_cost_type, lb@, best_cost),
                uncapped(delay_cost_type),
                min_costs@.len() == problem.trains@.len(),
                forall|t: int| 0 <= t < problem.trains@.len() ==> #[trigger] min_costs@[t]@.len() == problem.trains@[t].visits@.len(),
                forall|t: int, v: int| 0 <= t < problem.trains@.len() && 0 <= v < problem.trains@[t].visits@.len() ==>
                    #[trigger] min_costs@[t]@[v] == visit_cost_spec(problem.trains@[t], delay_cost_type, v, lb@[t]@[v]),
                ub@.len() == ub0.len(),
                ub0[ti as int]@.len() >= train.visits@.len(),
                ub@[ti as int]@.len() == ub0[ti as int]@.len(),
                forall|v: int| 0 <= v < vi ==> #[trigger] ub@[ti as int]@[v] == tightened_ub(*problem, delay_cost_type, lb@, ub0, best_cost, ti as int, v),
                forall|v: int| vi <= v < ub0[ti as int]@.len() ==> #[trigger] ub@[ti as int]@[v] == ub0[ti as int]@[v],
                forall|t: int| 0 <= t < ti ==> #[trigger] ub@[t]@ == tightened_row(*problem, delay_cost_type, lb@, ub0, best_cost, t),
                forall|t: int| ti < t < ub0.len() ==> #[trigger] ub@[t] == ub0[t],
            decreases train.visits@.len() - vi,
        {
            let aimed_opt: Option<i32> = train.visits[vi].aimed;
            if let Some(aimed) = aimed_opt {
                let own_min: i32 = min_costs[ti][vi];
                proof {
                    lemma_own_le_total(*problem, lb@, delay_cost_type, ti as int, vi as int);
                    assert(problem.trains@[ti as int].visits@[vi as int].aimed is Some);
                }
                let remaining: i32 = best_cost - (total_min_cost - own_min);
                if remaining >= 0 {
                    let max_delay: i32 = match delay_cost_type {
                        DelayCostType::Continuous => remaining,
                        DelayCostType::InfiniteSteps60 => sat_mul(remaining, 60),
                        DelayCostType::InfiniteSteps180 => sat_mul(remaining, 180),
                        _ => sat_mul(remaining, 360),
                    };
                    let new_ub: i32 = sat_add(aimed, max_delay);
                    if new_ub < ub[ti][vi] {
                        ub[ti].set(vi, new_ub);
                    }
                }
            }
            vi = vi + 1;
        }
        proof {
            assert(ub@[ti as int]@ =~= tightened_row(*problem, delay_cost_type, lb@, ub0, best_cost, ti as int));
        }
        ti = ti + 1;
    }
    proof {
        assert forall|t: int| 0 <= t < ub0.len() implies #[trigger] ub@[t]@ == tightened_row(*problem, delay_cost_type, lb@, ub0, best_cost, t) by {
            if t >= problem.trains@.len() {
                assert(ub@[t] == ub0[t]);
            }
        }
    }
    ub
}
} // verus!
