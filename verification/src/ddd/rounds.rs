//! What a round of the SAT-based DDD solvers does with a model: the current
//! solution of each visit is read off its time points, and the travel times
//! that the current solution breaks become refinement packages.
use vstd::prelude::*;
use crate::ddd::common::{Occ, VisitId, delays_within, extract_ok, extract_solution, train_times, visits_before};
use crate::ddd::lits::BoolLit;
use crate::ddd::refinement::{
    PackageAction, RefinementPackage, ViolationAgeTracker, ViolationId, select_packages, selection_spec,
};
use crate::problem::Problem;
use crate::greedy::{n_flat, flat, offs, valid_tv, trav, res, lemma_flat_bounds};

verus! {

/// The assignment of a model: variable `v` is true when the model has it
/// and sets it.
pub open spec fn model_fn(bits: Seq<bool>) -> spec_fn(int) -> bool {
    |v: int| 1 <= v <= bits.len() && bits[v - 1]
}

/// The value of a literal in a model.
pub open spec fn model_value(bits: Seq<bool>, l: BoolLit) -> bool {
    l.holds(model_fn(bits))
}

/// The value of a literal in a model; variables beyond the model are false.
pub fn lit_value(bits: &Vec<bool>, l: BoolLit) -> (r: bool)
    requires
        l.within(isize::MAX as int),
    ensures
        r == model_value(bits@, l),
{
    match l {
        BoolLit::Const(b) => b,
        BoolLit::Lit(x) => {
            let v: usize = if x < 0 {
                (-x) as usize
            } else {
                x as usize
            };
            let set = 1 <= v && v <= bits.len() && bits[v - 1];
            if x > 0 {
                set
            } else {
                !set
            }
        },
    }
}

/// The time points of a visit open with a literal that always holds and
/// close with one that never does, name variables there are, and the
/// current solution is not the closing point.
pub open spec fn occ_framed(o: Occ) -> bool {
    &&& o.delays@.len() >= 2
    &&& o.delays@[0].0 == BoolLit::Const(true)
    &&& o.delays@.last().0 == BoolLit::Const(false)
    &&& o.incumbent_idx + 1 < o.delays@.len()
    &&& delays_within(o.delays@, isize::MAX as int)
}

/// The model places the visit at time point `i`: its literal holds and the
/// next one's does not.
pub open spec fn model_point(o: Occ, bits: Seq<bool>, i: int) -> bool {
    &&& 0 <= i
    &&& i + 1 < o.delays@.len()
    &&& model_value(bits, o.delays@[i].0)
    &&& !model_value(bits, o.delays@[i + 1].0)
}

/// Where reading the model moves the current solution from `i0` to `i1`:
/// up over points that hold while the next one holds, else down over points
/// that do not hold; it ends at a point where the model places the visit.
pub open spec fn model_move(o: Occ, bits: Seq<bool>, i0: int, i1: int) -> bool {
    &&& model_point(o, bits, i1)
    &&& model_value(bits, o.delays@[i0 + 1].0) ==> i0 < i1 && forall|i: int|
        i0 < i <= i1 ==> #[trigger] model_value(bits, o.delays@[i].0)
    &&& !model_value(bits, o.delays@[i0 + 1].0) ==> i1 <= i0 && forall|i: int|
        i1 < i <= i0 ==> !#[trigger] model_value(bits, o.delays@[i].0)
}

/// Moves the current solution of a visit to where the model places it:
/// up while the next time point holds, then down while the point does not.
/// Returns whether it moved.
pub fn read_incumbent(o: &mut Occ, bits: &Vec<bool>) -> (moved: bool)
    requires
        occ_framed(*old(o)),
    ensures
        occ_framed(*final(o)),
        final(o).delays@ == old(o).delays@,
        final(o).cost@ == old(o).cost@,
        final(o).cost_tree == old(o).cost_tree,
        model_move(*old(o), bits@, old(o).incumbent_idx as int, final(o).incumbent_idx as int),
        moved <==> final(o).incumbent_idx != old(o).incumbent_idx,
{
    let ghost d = o.delays@;
    let ghost i0 = o.incumbent_idx as int;
    let len: usize = o.delays.len();
    let up = lit_value(bits, o.delays[o.incumbent_idx + 1].0);
    let mut idx: usize = o.incumbent_idx;
    while lit_value(bits, o.delays[idx + 1].0)
        invariant
            o.delays@ == d,
            len == d.len(),
            occ_framed(*old(o)),
            d == old(o).delays@,
            i0 <= idx,
            idx + 1 < d.len(),
            d[idx + 1].0.within(isize::MAX as int),
            up == model_value(bits@, d[i0 + 1].0),
            !up ==> idx == i0,
            forall|i: int| i0 < i <= idx ==> #[trigger] model_value(bits@, d[i].0),
        decreases d.len() - idx,
    {
        proof {
            if idx + 2 == d.len() {
                assert(d[idx + 1].0 == BoolLit::Const(false));
            }
        }
        idx = idx + 1;
    }
    while !lit_value(bits, o.delays[idx].0)
        invariant
            o.delays@ == d,
            len == d.len(),
            occ_framed(*old(o)),
            d == old(o).delays@,
            idx + 1 < d.len(),
            idx <= i0 || up,
            up ==> i0 < idx,
            up ==> model_value(bits@, d[idx as int].0) || idx == i0,
            !model_value(bits@, d[idx + 1].0),
            forall|i: int| i0 < i <= idx && up ==> #[trigger] model_value(bits@, d[i].0),
            forall|i: int| idx < i <= i0 ==> !#[trigger] model_value(bits@, d[i].0),
        decreases idx,
    {
        proof {
            if idx == 0 {
                assert(d[0].0 == BoolLit::Const(true));
            }
        }
        idx = idx - 1;
    }
    let moved = idx != o.incumbent_idx;
    o.incumbent_idx = idx;
    moved
}

/// Reads the model for every visit; `moved[u]` tells whether the current
/// solution of visit `u` moved.
pub fn read_incumbents(occupations: &mut Vec<Occ>, bits: &Vec<bool>) -> (moved: Vec<bool>)
    requires
        forall|u: int| 0 <= u < old(occupations)@.len() ==> occ_framed(#[trigger] old(occupations)@[u]),
    ensures
        final(occupations)@.len() == old(occupations)@.len(),
        moved@.len() == old(occupations)@.len(),
        forall|u: int| 0 <= u < final(occupations)@.len() ==> {
            let o0 = old(occupations)@[u];
            let o1 = #[trigger] final(occupations)@[u];
            &&& occ_framed(o1)
            &&& o1.delays@ == o0.delays@
            &&& o1.cost@ == o0.cost@
            &&& o1.cost_tree == o0.cost_tree
            &&& model_move(o0, bits@, o0.incumbent_idx as int, o1.incumbent_idx as int)
            &&& moved@[u] == (o1.incumbent_idx != o0.incumbent_idx)
        },
{
    let mut moved: Vec<bool> = Vec::new();
    let mut u: usize = 0;
    while u < occupations.len()
        invariant
            occupations@.len() == old(occupations)@.len(),
            u <= occupations@.len(),
            moved@.len() == u,
            forall|x: int| u <= x < occupations@.len() ==> #[trigger] occupations@[x] == old(occupations)@[x],
            forall|x: int| 0 <= x < old(occupations)@.len() ==> occ_framed(#[trigger] old(occupations)@[x]),
            forall|x: int| 0 <= x < u ==> {
                let o0 = old(occupations)@[x];
                let o1 = #[trigger] occupations@[x];
                &&& occ_framed(o1)
                &&& o1.delays@ == o0.delays@
                &&& o1.cost@ == o0.cost@
                &&& o1.cost_tree == o0.cost_tree
                &&& model_move(o0, bits@, o0.incumbent_idx as int, o1.incumbent_idx as int)
                &&& moved@[x] == (o1.incumbent_idx != o0.incumbent_idx)
            },
        decreases occupations@.len() - u,
    {
        let ghost before = occupations@;
        let m = read_incumbent(&mut occupations[u], bits);
        proof {
            assert forall|x: int| 0 <= x < occupations@.len() && x != u implies #[trigger] occupations@[x] == before[x] by {}
        }
        moved.push(m);
        u = u + 1;
    }
    moved
}

// ---------------------------------------------------------------------------
// Broken travel times
// ---------------------------------------------------------------------------

/// The train and visit of every flat index, in flat order.
pub open spec fn visits_flat(p: Problem, visits: Seq<(usize, usize)>) -> bool {
    &&& visits.len() == n_flat(p)
    &&& forall|u: int| 0 <= u < visits.len() ==> valid_tv(p, #[trigger] visits[u].0 as int, visits[u].1 as int)
        && flat(p, visits[u].0 as int, visits[u].1 as int) == u
}

/// The time of the current solution of a visit.
pub open spec fn inc_time(o: Occ) -> i32 {
    o.delays@[o.incumbent_idx as int].1
}

/// Visit `u` has a next visit in its train.
pub open spec fn has_next(p: Problem, visits: Seq<(usize, usize)>, u: int) -> bool {
    visits[u].1 + 1 < p.trains@[visits[u].0 as int].visits@.len()
}

/// The time at which visit `u` ends in the current solution, by its travel
/// time.
pub open spec fn travel_end(p: Problem, visits: Seq<(usize, usize)>, occ: Seq<Occ>, u: int) -> int {
    inc_time(occ[u]) + trav(p, visits[u].0 as int, visits[u].1 as int)
}

/// The current solution starts the next visit of `u` before `u` ends.
pub open spec fn travel_broken_at(p: Problem, visits: Seq<(usize, usize)>, occ: Seq<Occ>, u: int) -> bool {
    has_next(p, visits, u) && travel_end(p, visits, occ, u) > inc_time(occ[u + 1])
}

/// The visits among `touched`, in order, whose travel time the current
/// solution breaks.
pub open spec fn broken_travel(p: Problem, visits: Seq<(usize, usize)>, occ: Seq<Occ>, touched: Seq<VisitId>) -> Seq<int>
    decreases touched.len(),
{
    if touched.len() == 0 {
        seq![]
    } else {
        let u = touched.last().0 as int;
        broken_travel(p, visits, occ, touched.drop_last()) + if travel_broken_at(p, visits, occ, u) {
            seq![u]
        } else {
            seq![]
        }
    }
}

/// The iteration in which a violation counts as first seen, when it is
/// recorded at `iteration`.
pub open spec fn seen_at(t: ViolationAgeTracker, id: ViolationId, iteration: usize) -> usize {
    match t.first_seen(id) {
        Some(f) => f,
        None => iteration,
    }
}

/// The package for the broken travel time of visit `u`: the next visit gets
/// a time point where `u` ends, implied by the time point of `u`'s current
/// solution.
pub open spec fn travel_package_ok(
    pkg: RefinementPackage<PackageAction>,
    p: Problem,
    visits: Seq<(usize, usize)>,
    occ: Seq<Occ>,
    u: int,
    first_seen: usize,
) -> bool {
    let new_t = travel_end(p, visits, occ, u) as i32;
    &&& pkg.violation == ViolationId::TravelTime(VisitId(u as u32))
    &&& pkg.planned_points@ == seq![(VisitId((u + 1) as u32), new_t)]
    &&& pkg.first_seen == first_seen
    &&& pkg.action == PackageAction::TravelTime {
        t1_in_var: occ[u].delays@[occ[u].incumbent_idx as int].0,
        next_visit: VisitId((u + 1) as u32),
        new_t,
    }
}

/// The refinement packages for the travel times that the current solution
/// breaks, for the visits in `touched` in order: a visit whose next visit
/// starts before it ends gets a package that gives the next visit a time
/// point at its end, implied by its current time point. Each violation is
/// recorded in `tracker`, and its package carries the iteration in which it
/// was first seen.
pub fn travel_packages(
    problem: &Problem,
    visits: &Vec<(usize, usize)>,
    occupations: &Vec<Occ>,
    touched: &Vec<VisitId>,
    tracker: &mut ViolationAgeTracker,
    iteration: usize,
) -> (pkgs: Vec<RefinementPackage<PackageAction>>)
    requires
        visits_flat(*problem, visits@),
        n_flat(*problem) <= u32::MAX,
        occupations@.len() == visits@.len(),
        forall|u: int| 0 <= u < occupations@.len() ==> occ_framed(#[trigger] occupations@[u]),
        forall|k: int| 0 <= k < touched@.len() ==> (#[trigger] touched@[k]).0 < visits@.len(),
        forall|k: int| 0 <= k < touched@.len() && has_next(*problem, visits@, touched@[k].0 as int)
            ==> i32::MIN <= #[trigger] travel_end(*problem, visits@, occupations@, touched@[k].0 as int) <= i32::MAX,
    ensures
        pkgs@.len() == broken_travel(*problem, visits@, occupations@, touched@).len(),
        forall|k: int| 0 <= k < pkgs@.len() ==> {
            let u = broken_travel(*problem, visits@, occupations@, touched@)[k];
            travel_package_ok(
                #[trigger] pkgs@[k],
                *problem,
                visits@,
                occupations@,
                u,
                seen_at(*old(tracker), ViolationId::TravelTime(VisitId(u as u32)), iteration),
            )
        },
        forall|id: ViolationId| #[trigger] final(tracker).first_seen(id) == (if exists|k: int|
            0 <= k < pkgs@.len() && (#[trigger] pkgs@[k]).violation == id {
            Some(seen_at(*old(tracker), id, iteration))
        } else {
            old(tracker).first_seen(id)
        }),
{
    let ghost p = *problem;
    let ghost occ = occupations@;
    let mut pkgs: Vec<RefinementPackage<PackageAction>> = Vec::new();
    let mut k: usize = 0;
    while k < touched.len()
        invariant
            p == *problem,
            occ == occupations@,
            visits_flat(p, visits@),
            n_flat(p) <= u32::MAX,
            occupations@.len() == visits@.len(),
            forall|u: int| 0 <= u < occupations@.len() ==> occ_framed(#[trigger] occupations@[u]),
            forall|k: int| 0 <= k < touched@.len() ==> (#[trigger] touched@[k]).0 < visits@.len(),
            forall|k: int| 0 <= k < touched@.len() && has_next(p, visits@, touched@[k].0 as int)
                ==> i32::MIN <= #[trigger] travel_end(p, visits@, occ, touched@[k].0 as int) <= i32::MAX,
            k <= touched@.len(),
            pkgs@.len() == broken_travel(p, visits@, occ, touched@.take(k as int)).len(),
            forall|j: int| 0 <= j < pkgs@.len() ==> {
                let u = broken_travel(p, visits@, occ, touched@.take(k as int))[j];
                travel_package_ok(
                    #[trigger] pkgs@[j],
                    p,
                    visits@,
                    occ,
                    u,
                    seen_at(*old(tracker), ViolationId::TravelTime(VisitId(u as u32)), iteration),
                )
            },
            forall|id: ViolationId| #[trigger] tracker.first_seen(id) == (if exists|j: int|
                0 <= j < pkgs@.len() && (#[trigger] pkgs@[j]).violation == id {
                Some(seen_at(*old(tracker), id, iteration))
            } else {
                old(tracker).first_seen(id)
            }),
        decreases touched@.len() - k,
    {
        let ghost pk0 = pkgs@;
        let ghost tr0 = *tracker;
        proof {
            assert(touched@.take(k + 1).drop_last() =~= touched@.take(k as int));
            assert(touched@.take(k + 1).last() == touched@[k as int]);
        }
        let vid = touched[k];
        let u: usize = vid.0 as usize;
        let (t, v) = visits[u];
        proof {
            assert(valid_tv(p, t as int, v as int) && flat(p, t as int, v as int) == u);
        }
        if v + 1 < problem.trains[t].visits.len() {
            proof {
                lemma_flat_bounds(p, t as int, v + 1);
                assert(flat(p, t as int, v + 1) == u + 1);
                assert(has_next(p, visits@, u as int));
            }
            let o = &occupations[u];
            let o2 = &occupations[u + 1];
            let t1_in: i32 = o.delays[o.incumbent_idx].1;
            let t1_out: i32 = o2.delays[o2.incumbent_idx].1;
            let dt: i32 = problem.trains[t].visits[v].travel_time;
            let end: i64 = t1_in as i64 + dt as i64;
            if end > t1_out as i64 {
                let new_t: i32 = end as i32;
                let id = ViolationId::TravelTime(VisitId(u as u32));
                assert(vid == VisitId(u as u32));
                let first_seen = tracker.record(id, iteration);
                let pkg = RefinementPackage {
                    violation: id,
                    planned_points: vec![(VisitId((u + 1) as u32), new_t)],
                    first_seen,
                    action: PackageAction::TravelTime {
                        t1_in_var: o.delays[o.incumbent_idx].0,
                        next_visit: VisitId((u + 1) as u32),
                        new_t,
                    },
                };
                proof {
                    assert(pkg.planned_points@ =~= seq![(VisitId((u + 1) as u32), new_t)]);
                    assert(travel_broken_at(p, visits@, occ, u as int));
                    assert(first_seen == seen_at(tr0, id, iteration));
                    assert(first_seen == seen_at(*old(tracker), id, iteration)) by {
                        if exists|j: int| 0 <= j < pk0.len() && (#[trigger] pk0[j]).violation == id {
                        } else {
                        }
                    }
                }
                pkgs.push(pkg);
                proof {
                    assert forall|id2: ViolationId| #[trigger] tracker.first_seen(id2) == (if exists|j: int|
                        0 <= j < pkgs@.len() && (#[trigger] pkgs@[j]).violation == id2 {
                        Some(seen_at(*old(tracker), id2, iteration))
                    } else {
                        old(tracker).first_seen(id2)
                    }) by {
                        if id2 == id {
                            assert(pkgs@[pk0.len() as int].violation == id);
                        } else {
                            if exists|j: int| 0 <= j < pkgs@.len() && (#[trigger] pkgs@[j]).violation == id2 {
                                let j = choose|j: int| 0 <= j < pkgs@.len() && (#[trigger] pkgs@[j]).violation == id2;
                                assert(pk0[j].violation == id2);
                            } else {
                                assert forall|j: int| 0 <= j < pk0.len() implies (#[trigger] pk0[j]).violation != id2 by {
                                    assert(pkgs@[j] == pk0[j]);
                                }
                            }
                        }
                    }
                }
            } else {
                proof {
                    assert(!travel_broken_at(p, visits@, occ, u as int));
                }
            }
        } else {
            proof {
                assert(!has_next(p, visits@, u as int));
            }
        }
        k = k + 1;
    }
    proof {
        assert(touched@.take(k as int) =~= touched@);
    }
    pkgs
}

// ---------------------------------------------------------------------------
// Overlaps on resources in conflict
// ---------------------------------------------------------------------------

/// The time at which visit `u` ends in the current solution: the start of
/// its next visit, or its start plus its travel time for the last visit.
pub open spec fn out_time(p: Problem, visits: Seq<(usize, usize)>, occ: Seq<Occ>, u: int) -> int {
    if has_next(p, visits, u) {
        inc_time(occ[u + 1]) as int
    } else {
        travel_end(p, visits, occ, u)
    }
}

/// The literal of the time at which visit `u` ends: that of its next
/// visit's current time point, or true for the last visit.
pub open spec fn out_lit(p: Problem, visits: Seq<(usize, usize)>, occ: Seq<Occ>, u: int) -> BoolLit {
    if has_next(p, visits, u) {
        occ[u + 1].delays@[occ[u + 1].incumbent_idx as int].0
    } else {
        BoolLit::Const(true)
    }
}

/// The resource of visit `u`.
pub open spec fn res_of(p: Problem, visits: Seq<(usize, usize)>, u: int) -> int {
    res(p, visits[u].0 as int, visits[u].1 as int) as int
}

/// Visits `a` and `b` of different trains overlap in the current solution.
pub open spec fn overlap(p: Problem, visits: Seq<(usize, usize)>, occ: Seq<Occ>, a: int, b: int) -> bool {
    &&& a != b
    &&& visits[a].0 != visits[b].0
    &&& !(out_time(p, visits, occ, a) <= inc_time(occ[b]) || out_time(p, visits, occ, b) <= inc_time(occ[a]))
}

/// Visit `b` uses a resource in conflict with that of visit `a`, and the
/// two overlap.
pub open spec fn clash(
    p: Problem,
    visits: Seq<(usize, usize)>,
    occ: Seq<Occ>,
    rv: Seq<Vec<VisitId>>,
    confl: Seq<Vec<usize>>,
    a: int,
    b: int,
) -> bool {
    &&& exists|r2: usize| {
        &&& 0 <= res_of(p, visits, a) < confl.len()
        &&& confl[res_of(p, visits, a)]@.contains(r2)
        &&& r2 < rv.len()
        &&& #[trigger] rv[r2 as int]@.contains(VisitId(b as u32))
    }
    &&& 0 <= b < visits.len()
    &&& overlap(p, visits, occ, a, b)
}

/// The resource violation between visits `a` and `b`, smaller visit first.
pub open spec fn resource_violation(a: int, b: int) -> ViolationId {
    if a <= b {
        ViolationId::Resource(VisitId(a as u32), VisitId(b as u32))
    } else {
        ViolationId::Resource(VisitId(b as u32), VisitId(a as u32))
    }
}

/// The package for the overlap of visit `a` with visit `b`: each gets a
/// time point at which the other ends.
pub open spec fn resource_package_ok(
    pkg: RefinementPackage<PackageAction>,
    p: Problem,
    visits: Seq<(usize, usize)>,
    occ: Seq<Occ>,
    a: int,
    b: int,
    first_seen: usize,
) -> bool {
    let ta = out_time(p, visits, occ, a) as i32;
    let tb = out_time(p, visits, occ, b) as i32;
    &&& pkg.violation == resource_violation(a, b)
    &&& pkg.planned_points@ == seq![(VisitId(b as u32), ta), (VisitId(a as u32), tb)]
    &&& pkg.first_seen == first_seen
    &&& pkg.action == PackageAction::Resource {
        visit1: VisitId(a as u32),
        visit2: VisitId(b as u32),
        tp_for_v2: ta,
        tp_for_v1: tb,
        t1_out_lit: out_lit(p, visits, occ, a),
        t2_out_lit: out_lit(p, visits, occ, b),
    }
}

/// A package for the overlap of a visit in `touched` with another visit on a
/// resource in conflict.
pub open spec fn resource_package_sound(
    pkg: RefinementPackage<PackageAction>,
    p: Problem,
    visits: Seq<(usize, usize)>,
    occ: Seq<Occ>,
    rv: Seq<Vec<VisitId>>,
    confl: Seq<Vec<usize>>,
    touched: Seq<VisitId>,
    tracker: ViolationAgeTracker,
    iteration: usize,
) -> bool {
    exists|a: int, b: int|
        touched.contains(VisitId(a as u32)) && 0 <= a < visits.len() && 0 <= b < visits.len()
        && clash(p, visits, occ, rv, confl, a, b)
        && #[trigger] resource_package_ok(pkg, p, visits, occ, a, b, seen_at(tracker, resource_violation(a, b), iteration))
}

/// Adds a pair to a set kept as a list; true when it was not there.
fn insert_pair(set: &mut Vec<(usize, usize)>, x: (usize, usize)) -> (r: bool)
    ensures
        r == !old(set)@.contains(x),
        final(set)@ == (if r {
            old(set)@.push(x)
        } else {
            old(set)@
        }),
{
    let mut i: usize = 0;
    while i < set.len()
        invariant
            i <= set@.len(),
            set@ == old(set)@,
            forall|j: int| 0 <= j < i ==> set@[j] != x,
        decreases set@.len() - i,
    {
        let (y0, y1) = set[i];
        if y0 == x.0 && y1 == x.1 {
            assert(set@[i as int] == x);
            return false;
        }
        i = i + 1;
    }
    set.push(x);
    true
}

/// The inputs of the overlap check: visits in flat order, one framed
/// occupation per visit, resource lists and conflict lists that name
/// visits and resources there are, and end times that fit in `i32`.
pub open spec fn overlap_inputs_ok(
    p: Problem,
    visits: Seq<(usize, usize)>,
    occ: Seq<Occ>,
    rv: Seq<Vec<VisitId>>,
    confl: Seq<Vec<usize>>,
) -> bool {
    &&& visits_flat(p, visits)
    &&& n_flat(p) <= u32::MAX
    &&& occ.len() == visits.len()
    &&& forall|u: int| 0 <= u < occ.len() ==> occ_framed(#[trigger] occ[u])
    &&& forall|r: int, k: int| 0 <= r < rv.len() && 0 <= k < rv[r]@.len() ==> (#[trigger] rv[r]@[k]).0 < visits.len()
    &&& forall|u: int| 0 <= u < visits.len() ==> i32::MIN <= #[trigger] out_time(p, visits, occ, u) <= i32::MAX
}

/// The refinement packages for overlaps on resources in conflict, for the
/// visits in `touched` in order: a visit is checked against every visit of
/// another train on a resource in conflict with its own; an overlapping
/// pair gives a package where each visit gets a time point at which the
/// other ends, unless a package for that pair of trains came before in this
/// call, in which case the visit stays in `touched` for the next round.
/// `touched` keeps, in order, the visits that stay. No package comes out
/// exactly when no visit in `touched` overlaps another on a resource in
/// conflict.
#[verifier::rlimit(60)]
pub fn resource_packages(
    problem: &Problem,
    visits: &Vec<(usize, usize)>,
    occupations: &Vec<Occ>,
    resource_visits: &Vec<Vec<VisitId>>,
    conflicts: &Vec<Vec<usize>>,
    touched: &mut Vec<VisitId>,
    tracker: &mut ViolationAgeTracker,
    iteration: usize,
) -> (pkgs: Vec<RefinementPackage<PackageAction>>)
    requires
        overlap_inputs_ok(*problem, visits@, occupations@, resource_visits@, conflicts@),
        forall|k: int| 0 <= k < old(touched)@.len() ==> (#[trigger] old(touched)@[k]).0 < visits@.len(),
    ensures
        forall|j: int| 0 <= j < pkgs@.len() ==> #[trigger] resource_package_sound(
            pkgs@[j],
            *problem,
            visits@,
            occupations@,
            resource_visits@,
            conflicts@,
            old(touched)@,
            *old(tracker),
            iteration,
        ),
        pkgs@.len() == 0 <==> forall|k: int, b: int| 0 <= k < old(touched)@.len() ==> !#[trigger] clash(
            *problem,
            visits@,
            occupations@,
            resource_visits@,
            conflicts@,
            old(touched)@[k].0 as int,
            b,
        ),
        forall|k: int| 0 <= k < final(touched)@.len() ==> old(touched)@.contains(#[trigger] final(touched)@[k]),
        forall|id: ViolationId| #[trigger] final(tracker).first_seen(id) == (if exists|j: int|
            0 <= j < pkgs@.len() && (#[trigger] pkgs@[j]).violation == id {
            Some(seen_at(*old(tracker), id, iteration))
        } else {
            old(tracker).first_seen(id)
        }),
{
    let ghost p = *problem;
    let ghost occ = occupations@;
    let ghost rv = resource_visits@;
    let ghost cf = conflicts@;
    let ghost t0 = touched@;
    let mut pkgs: Vec<RefinementPackage<PackageAction>> = Vec::new();
    let mut kept: Vec<VisitId> = Vec::new();
    let mut deconflicted: Vec<(usize, usize)> = Vec::new();
    let mut kt: usize = 0;
    while kt < touched.len()
        invariant
            p == *problem,
            occ == occupations@,
            rv == resource_visits@,
            cf == conflicts@,
            t0 == touched@,
            t0 == old(touched)@,
            overlap_inputs_ok(p, visits@, occ, rv, cf),
            forall|k: int| 0 <= k < t0.len() ==> (#[trigger] t0[k]).0 < visits@.len(),
            kt <= t0.len(),
            forall|j: int| 0 <= j < pkgs@.len() ==> #[trigger] resource_package_sound(pkgs@[j], p, visits@, occ, rv, cf, t0, *old(tracker), iteration),
            pkgs@.len() == 0 ==> deconflicted@.len() == 0,
            pkgs@.len() == 0 ==> forall|k: int, b: int| 0 <= k < kt ==> !#[trigger] clash(p, visits@, occ, rv, cf, t0[k].0 as int, b),
            forall|k: int| 0 <= k < kept@.len() ==> t0.contains(#[trigger] kept@[k]),
            forall|id: ViolationId| #[trigger] tracker.first_seen(id) == (if exists|j: int|
                0 <= j < pkgs@.len() && (#[trigger] pkgs@[j]).violation == id {
                Some(seen_at(*old(tracker), id, iteration))
            } else {
                old(tracker).first_seen(id)
            }),
        decreases t0.len() - kt,
    {
        let vid = touched[kt];
        let a: usize = vid.0 as usize;
        let (ta, va) = visits[a];
        proof {
            assert(valid_tv(p, ta as int, va as int) && flat(p, ta as int, va as int) == a);
            assert(t0.contains(VisitId(a as u32))) by {
                assert(t0[kt as int] == vid);
            }
        }
        let a_next = va + 1 < problem.trains[ta].visits.len();
        if a_next {
            proof {
                lemma_flat_bounds(p, ta as int, va + 1);
                assert(flat(p, ta as int, va + 1) == a + 1);
            }
        }
        let oa = &occupations[a];
        let t1_in: i32 = oa.delays[oa.incumbent_idx].1;
        let t1_out: i32 = if a_next {
            let on = &occupations[a + 1];
            on.delays[on.incumbent_idx].1
        } else {
            assert(i32::MIN <= out_time(p, visits@, occ, a as int) <= i32::MAX);
            t1_in + problem.trains[ta].visits[va].travel_time
        };
        let t1_out_lit: BoolLit = if a_next {
            let on = &occupations[a + 1];
            on.delays[on.incumbent_idx].0
        } else {
            BoolLit::Const(true)
        };
        let r: usize = problem.trains[ta].visits[va].resource_id;
        assert(r == res_of(p, visits@, a as int));
        let ghost pk_start = pkgs@.len();
        let mut retain = false;
        if r < conflicts.len() {
            let others = &conflicts[r];
            let mut ri: usize = 0;
            while ri < others.len()
                invariant
                    p == *problem,
                    occ == occupations@,
                    rv == resource_visits@,
                    cf == conflicts@,
                    overlap_inputs_ok(p, visits@, occ, rv, cf),
                    a < visits@.len(),
                    visits@[a as int] == (ta, va),
                    t0.contains(VisitId(a as u32)),
                    a as u32 == vid.0,
                    r == res_of(p, visits@, a as int),
                    r < cf.len(),
                    *others == cf[r as int],
                    t1_in == inc_time(occ[a as int]),
                    t1_out == out_time(p, visits@, occ, a as int),
                    t1_out_lit == out_lit(p, visits@, occ, a as int),
                    ri <= others@.len(),
                    pkgs@.len() >= pk_start,
                    retain ==> exists|b: int| #[trigger] clash(p, visits@, occ, rv, cf, a as int, b),
                    forall|j: int| 0 <= j < pkgs@.len() ==> #[trigger] resource_package_sound(pkgs@[j], p, visits@, occ, rv, cf, t0, *old(tracker), iteration),
                    pkgs@.len() == 0 ==> deconflicted@.len() == 0,
                    pkgs@.len() == 0 ==> forall|r2i: int, b: int| 0 <= r2i < ri && others@[r2i] < rv.len()
                        && #[trigger] rv[others@[r2i] as int]@.contains(VisitId(b as u32)) && 0 <= b < visits@.len() ==> !overlap(p, visits@, occ, a as int, b),
                    forall|id: ViolationId| #[trigger] tracker.first_seen(id) == (if exists|j: int|
                        0 <= j < pkgs@.len() && (#[trigger] pkgs@[j]).violation == id {
                        Some(seen_at(*old(tracker), id, iteration))
                    } else {
                        old(tracker).first_seen(id)
                    }),
                decreases others@.len() - ri,
            {
                let r2: usize = others[ri];
                if r2 < resource_visits.len() {
                    let list = &resource_visits[r2];
                    let mut oi: usize = 0;
                    while oi < list.len()
                        invariant
                            p == *problem,
                            occ == occupations@,
                            rv == resource_visits@,
                            cf == conflicts@,
                            overlap_inputs_ok(p, visits@, occ, rv, cf),
                            a < visits@.len(),
                            visits@[a as int] == (ta, va),
                            t0.contains(VisitId(a as u32)),
                            a as u32 == vid.0,
                            r == res_of(p, visits@, a as int),
                            r < cf.len(),
                            *others == cf[r as int],
                            ri < others@.len(),
                            r2 == others@[ri as int],
                            r2 < rv.len(),
                            *list == rv[r2 as int],
                            t1_in == inc_time(occ[a as int]),
                            t1_out == out_time(p, visits@, occ, a as int),
                            t1_out_lit == out_lit(p, visits@, occ, a as int),
                            oi <= list@.len(),
                            pkgs@.len() >= pk_start,
                            retain ==> exists|b: int| #[trigger] clash(p, visits@, occ, rv, cf, a as int, b),
                            forall|j: int| 0 <= j < pkgs@.len() ==> #[trigger] resource_package_sound(pkgs@[j], p, visits@, occ, rv, cf, t0, *old(tracker), iteration),
                            pkgs@.len() == 0 ==> deconflicted@.len() == 0,
                            pkgs@.len() == 0 ==> forall|r2i: int, b: int| 0 <= r2i < ri && others@[r2i] < rv.len()
                                && #[trigger] rv[others@[r2i] as int]@.contains(VisitId(b as u32)) && 0 <= b < visits@.len() ==> !overlap(p, visits@, occ, a as int, b),
                            pkgs@.len() == 0 ==> forall|oj: int| 0 <= oj < oi ==> !overlap(p, visits@, occ, a as int, (#[trigger] list@[oj]).0 as int),
                            forall|id: ViolationId| #[trigger] tracker.first_seen(id) == (if exists|j: int|
                                0 <= j < pkgs@.len() && (#[trigger] pkgs@[j]).violation == id {
                                Some(seen_at(*old(tracker), id, iteration))
                            } else {
                                old(tracker).first_seen(id)
                            }),
                        decreases list@.len() - oi,
                    {
                        let other = list[oi];
                        let b: usize = other.0 as usize;
                        proof {
                            assert(b < visits@.len());
                            assert(rv[r2 as int]@.contains(VisitId(b as u32))) by {
                                assert(rv[r2 as int]@[oi as int] == other);
                            }
                            assert(cf[r as int]@.contains(r2)) by {
                                assert(cf[r as int]@[ri as int] == r2);
                            }
                        }
                        if b != a {
                            let (tb, vb) = visits[b];
                            proof {
                                assert(valid_tv(p, tb as int, vb as int) && flat(p, tb as int, vb as int) == b);
                            }
                            if tb != ta {
                                let ob = &occupations[b];
                                let t2_in: i32 = ob.delays[ob.incumbent_idx].1;
                                let b_next = vb + 1 < problem.trains[tb].visits.len();
                                if b_next {
                                    proof {
                                        lemma_flat_bounds(p, tb as int, vb + 1);
                                        assert(flat(p, tb as int, vb + 1) == b + 1);
                                    }
                                }
                                let t2_out: i32 = if b_next {
                                    let on = &occupations[b + 1];
                                    on.delays[on.incumbent_idx].1
                                } else {
                                    assert(i32::MIN <= out_time(p, visits@, occ, b as int) <= i32::MAX);
                                    t2_in + problem.trains[tb].visits[vb].travel_time
                                };
                                if !(t1_out <= t2_in || t2_out <= t1_in) {
                                    proof {
                                        assert(overlap(p, visits@, occ, a as int, b as int));
                                        assert(clash(p, visits@, occ, rv, cf, a as int, b as int));
                                    }
                                    let ghost dc0 = deconflicted@;
                                    let fresh1 = insert_pair(&mut deconflicted, (ta, tb));
                                    let fresh = fresh1 && insert_pair(&mut deconflicted, (tb, ta));
                                    if !fresh {
                                        retain = true;
                                        proof {
                                            assert(dc0.len() > 0) by {
                                                if dc0.len() == 0 {
                                                    assert(fresh1);
                                                    assert(!dc0.push((ta, tb)).contains((tb, ta))) by {
                                                        if dc0.push((ta, tb)).contains((tb, ta)) {
                                                            let j = choose|j: int| 0 <= j < dc0.push((ta, tb)).len() && dc0.push((ta, tb))[j] == (tb, ta);
                                                            assert(j == 0);
                                                        }
                                                    }
                                                }
                                            }
                                        }
                                    } else {
                                        let b_out_lit: BoolLit = if b_next {
                                            let on = &occupations[b + 1];
                                            on.delays[on.incumbent_idx].0
                                        } else {
                                            BoolLit::Const(true)
                                        };
                                        let id = ViolationId::resource(VisitId(a as u32), VisitId(b as u32));
                                        assert(id == resource_violation(a as int, b as int));
                                        let ghost pk0 = pkgs@;
                                        let ghost tr0 = *tracker;
                                        let first_seen = tracker.record(id, iteration);
                                        let pkg = RefinementPackage {
                                            violation: id,
                                            planned_points: vec![(VisitId(b as u32), t1_out), (VisitId(a as u32), t2_out)],
                                            first_seen,
                                            action: PackageAction::Resource {
                                                visit1: VisitId(a as u32),
                                                visit2: VisitId(b as u32),
                                                tp_for_v2: t1_out,
                                                tp_for_v1: t2_out,
                                                t1_out_lit,
                                                t2_out_lit: b_out_lit,
                                            },
                                        };
                                        proof {
                                            assert(pkg.planned_points@ =~= seq![(VisitId(b as u32), t1_out), (VisitId(a as u32), t2_out)]);
                                            assert(first_seen == seen_at(tr0, id, iteration));
                                            assert(resource_package_ok(pkg, p, visits@, occ, a as int, b as int,
                                                seen_at(*old(tracker), resource_violation(a as int, b as int), iteration)));
                                        }
                                        pkgs.push(pkg);
                                        proof {
                                            assert forall|j: int| 0 <= j < pkgs@.len() implies #[trigger] resource_package_sound(pkgs@[j], p, visits@, occ, rv, cf, t0, *old(tracker), iteration) by {
                                                if j < pk0.len() {
                                                    assert(pkgs@[j] == pk0[j]);
                                                } else {
                                                    assert(pkgs@[j] == pkg);
                                                    assert(resource_package_ok(pkgs@[j], p, visits@, occ, a as int, b as int,
                                                        seen_at(*old(tracker), resource_violation(a as int, b as int), iteration)));
                                                }
                                            }
                                            assert forall|id2: ViolationId| #[trigger] tracker.first_seen(id2) == (if exists|j: int|
                                                0 <= j < pkgs@.len() && (#[trigger] pkgs@[j]).violation == id2 {
                                                Some(seen_at(*old(tracker), id2, iteration))
                                            } else {
                                                old(tracker).first_seen(id2)
                                            }) by {
                                                if id2 == id {
                                                    assert(pkgs@[pk0.len() as int].violation == id);
                                                } else {
                                                    if exists|j: int| 0 <= j < pkgs@.len() && (#[trigger] pkgs@[j]).violation == id2 {
                                                        let j = choose|j: int| 0 <= j < pkgs@.len() && (#[trigger] pkgs@[j]).violation == id2;
                                                        assert(pk0[j].violation == id2);
                                                    } else {
                                                        assert forall|j: int| 0 <= j < pk0.len() implies (#[trigger] pk0[j]).violation != id2 by {
                                                            assert(pkgs@[j] == pk0[j]);
                                                        }
                                                    }
                                                }
                                            }
                                        }
                                    }
                                }
                            }
                        }
                        oi = oi + 1;
                    }
                    proof {
                        assert forall|r2i: int, b: int| 0 <= r2i < ri + 1 && others@[r2i] < rv.len()
                            && #[trigger] rv[others@[r2i] as int]@.contains(VisitId(b as u32)) && pkgs@.len() == 0 && 0 <= b < visits@.len()
                            implies !overlap(p, visits@, occ, a as int, b) by {
                            if r2i == ri {
                                let oj = choose|oj: int| 0 <= oj < list@.len() && list@[oj] == VisitId(b as u32);
                                assert(list@[oj].0 as int == b as u32 as int);
                            }
                        }
                    }
                }
                ri = ri + 1;
            }
            proof {
                assert forall|b: int| pkgs@.len() == 0 implies !#[trigger] clash(p, visits@, occ, rv, cf, a as int, b) by {
                    if clash(p, visits@, occ, rv, cf, a as int, b) {
                        let r2 = choose|r2: usize| {
                            &&& 0 <= res_of(p, visits@, a as int) < cf.len()
                            &&& cf[res_of(p, visits@, a as int)]@.contains(r2)
                            &&& r2 < rv.len()
                            &&& #[trigger] rv[r2 as int]@.contains(VisitId(b as u32))
                        };
                        let r2i = choose|r2i: int| 0 <= r2i < others@.len() && others@[r2i] == r2;
                        assert(rv[others@[r2i] as int]@.contains(VisitId(b as u32)));
                    }
                }
            }
        } else {
            proof {
                assert forall|b: int| !#[trigger] clash(p, visits@, occ, rv, cf, a as int, b) by {}
            }
        }
        if retain {
            kept.push(vid);
        }
        proof {
            assert(pkgs@.len() == 0 ==> forall|b: int| !#[trigger] clash(p, visits@, occ, rv, cf, a as int, b));
            assert forall|k: int, b: int| 0 <= k < kt + 1 && pkgs@.len() == 0 implies !#[trigger] clash(p, visits@, occ, rv, cf, t0[k].0 as int, b) by {
                if k == kt {
                    assert(t0[k] == vid);
                    assert(t0[k].0 as int == a);
                }
            }
            assert forall|k: int| 0 <= k < kept@.len() implies t0.contains(#[trigger] kept@[k]) by {
                if k == kept@.len() - 1 && retain {
                    assert(t0[kt as int] == vid);
                }
            }
        }
        kt = kt + 1;
    }
    proof {
        if pkgs@.len() > 0 {
            let j = 0int;
            assert(resource_package_sound(pkgs@[j], p, visits@, occ, rv, cf, t0, *old(tracker), iteration));
            let (a1, b1) = choose|a1: int, b1: int|
                t0.contains(VisitId(a1 as u32)) && 0 <= a1 < visits@.len() && 0 <= b1 < visits@.len()
                && clash(p, visits@, occ, rv, cf, a1, b1)
                && #[trigger] resource_package_ok(pkgs@[j], p, visits@, occ, a1, b1, seen_at(*old(tracker), resource_violation(a1, b1), iteration));
            let k = choose|k: int| 0 <= k < t0.len() && t0[k] == VisitId(a1 as u32);
            assert(t0[k].0 as int == a1);
            assert(clash(p, visits@, occ, rv, cf, t0[k].0 as int, b1));
        }
    }
    *touched = kept;
    pkgs
}

// ---------------------------------------------------------------------------
// A round
// ---------------------------------------------------------------------------

/// The list of touched visits after the solutions of the first `k` visits
/// moved as `moved` says: for each visit that moved, in order, the visit
/// before it in its train (unless the list already ends with it), then the
/// visit itself.
pub open spec fn touched_after(visits: Seq<(usize, usize)>, moved: Seq<bool>, touched: Seq<VisitId>, k: int) -> Seq<VisitId>
    decreases k,
{
    if k <= 0 {
        touched
    } else {
        let t = touched_after(visits, moved, touched, k - 1);
        let u = k - 1;
        if moved[u] {
            let prev = VisitId((u - 1) as u32);
            let t1 = if visits[u].1 > 0 && !(t.len() > 0 && t.last() == prev) {
                t.push(prev)
            } else {
                t
            };
            t1.push(VisitId(u as u32))
        } else {
            t
        }
    }
}

proof fn lemma_touched_in_range(p: Problem, visits: Seq<(usize, usize)>, moved: Seq<bool>, touched: Seq<VisitId>, k: int)
    requires
        visits_flat(p, visits),
        n_flat(p) <= u32::MAX,
        moved.len() == visits.len(),
        0 <= k <= visits.len(),
        forall|j: int| 0 <= j < touched.len() ==> (#[trigger] touched[j]).0 < visits.len(),
    ensures
        forall|j: int| 0 <= j < touched_after(visits, moved, touched, k).len()
            ==> (#[trigger] touched_after(visits, moved, touched, k)[j]).0 < visits.len(),
    decreases k,
{
    if k > 0 {
        lemma_touched_in_range(p, visits, moved, touched, k - 1);
        let u = k - 1;
        assert(valid_tv(p, visits[u].0 as int, visits[u].1 as int) && flat(p, visits[u].0 as int, visits[u].1 as int) == u);
        let t = touched_after(visits, moved, touched, k - 1);
        let prev = VisitId((u - 1) as u32);
        if moved[u] {
            let t1 = if visits[u].1 > 0 && !(t.len() > 0 && t.last() == prev) {
                t.push(prev)
            } else {
                t
            };
            assert forall|j: int| 0 <= j < t1.len() implies (#[trigger] t1[j]).0 < visits.len() by {
                if j == t.len() {
                    assert(u >= 1);
                    assert(t1[j] == prev);
                } else {
                    assert(t1[j] == t[j]);
                }
            }
            assert(touched_after(visits, moved, touched, k) == t1.push(VisitId(u as u32)));
            assert forall|j: int| 0 <= j < t1.push(VisitId(u as u32)).len() implies (#[trigger] t1.push(VisitId(u as u32))[j]).0 < visits.len() by {
                if j < t1.len() {
                    assert(t1.push(VisitId(u as u32))[j] == t1[j]);
                }
            }
        }
    }
}

/// Adds the visits that a moved solution touches to `touched`.
pub fn mark_touched(visits: &Vec<(usize, usize)>, moved: &Vec<bool>, touched: &mut Vec<VisitId>)
    requires
        moved@.len() == visits@.len(),
        visits@.len() <= u32::MAX,
        forall|u: int| 0 <= u < visits@.len() ==> (#[trigger] visits@[u]).1 <= u,
    ensures
        final(touched)@ == touched_after(visits@, moved@, old(touched)@, moved@.len() as int),
{
    let mut u: usize = 0;
    while u < moved.len()
        invariant
            moved@.len() == visits@.len(),
            visits@.len() <= u32::MAX,
            forall|x: int| 0 <= x < visits@.len() ==> (#[trigger] visits@[x]).1 <= x,
            u <= moved@.len(),
            touched@ == touched_after(visits@, moved@, old(touched)@, u as int),
        decreases moved@.len() - u,
    {
        if moved[u] {
            if visits[u].1 > 0 {
                let prev = VisitId((u - 1) as u32);
                let ends_with = touched.len() > 0 && touched[touched.len() - 1] == prev;
                if !ends_with {
                    touched.push(prev);
                }
            }
            touched.push(VisitId(u as u32));
        }
        u = u + 1;
    }
}

/// Whether, for every visit, its start in the current solution plus its
/// travel time fits in `i32`.
pub fn travel_ends_fit(problem: &Problem, visits: &Vec<(usize, usize)>, occupations: &Vec<Occ>) -> (r: bool)
    requires
        visits_flat(*problem, visits@),
        occupations@.len() == visits@.len(),
        forall|u: int| 0 <= u < occupations@.len() ==> occ_framed(#[trigger] occupations@[u]),
    ensures
        r <==> forall|u: int| 0 <= u < visits@.len() ==> i32::MIN <= #[trigger] travel_end(*problem, visits@, occupations@, u) <= i32::MAX,
{
    let ghost p = *problem;
    let mut u: usize = 0;
    while u < visits.len()
        invariant
            p == *problem,
            visits_flat(p, visits@),
            occupations@.len() == visits@.len(),
            forall|x: int| 0 <= x < occupations@.len() ==> occ_framed(#[trigger] occupations@[x]),
            u <= visits@.len(),
            forall|x: int| 0 <= x < u ==> i32::MIN <= #[trigger] travel_end(p, visits@, occupations@, x) <= i32::MAX,
        decreases visits@.len() - u,
    {
        let (t, v) = visits[u];
        proof {
            assert(valid_tv(p, t as int, v as int) && flat(p, t as int, v as int) == u);
        }
        let o = &occupations[u];
        let end: i64 = o.delays[o.incumbent_idx].1 as i64 + problem.trains[t].visits[v].travel_time as i64;
        if end < i32::MIN as i64 || end > i32::MAX as i64 {
            assert(!(i32::MIN <= travel_end(p, visits@, occupations@, u as int) <= i32::MAX));
            return false;
        }
        u = u + 1;
    }
    true
}

proof fn lemma_visits_before_offs(p: Problem, k: int)
    requires
        0 <= k <= p.trains@.len(),
    ensures
        visits_before(p, k) == offs(p, k),
    decreases k,
{
    if k > 0 {
        lemma_visits_before_offs(p, k - 1);
    }
}

/// What a round ends in: the current solution, final; the packages found,
/// with the indices of those selected to be applied; or an end time that
/// leaves `i32`.
pub enum RoundOutcome {
    Final(Vec<Vec<i32>>),
    Refine(Vec<RefinementPackage<PackageAction>>, Vec<usize>),
    TimeOverflow,
}

/// The inputs of a round: visits in flat order (each train with a visit),
/// one framed occupation per visit, and resource and touched lists that
/// name visits there are.
pub open spec fn round_inputs_ok(
    p: Problem,
    visits: Seq<(usize, usize)>,
    occ: Seq<Occ>,
    rv: Seq<Vec<VisitId>>,
    touched: Seq<VisitId>,
) -> bool {
    &&& visits_flat(p, visits)
    &&& n_flat(p) <= u32::MAX
    &&& forall|t: int| 0 <= t < p.trains@.len() ==> (#[trigger] p.trains@[t]).visits@.len() > 0
    &&& occ.len() == visits.len()
    &&& forall|u: int| 0 <= u < occ.len() ==> occ_framed(#[trigger] occ[u])
    &&& forall|r: int, k: int| 0 <= r < rv.len() && 0 <= k < rv[r]@.len() ==> (#[trigger] rv[r]@[k]).0 < visits.len()
    &&& forall|k: int| 0 <= k < touched.len() ==> (#[trigger] touched[k]).0 < visits.len()
}

/// The current solutions moved from `occ0` to `occ1` as the model says.
pub open spec fn model_read(occ0: Seq<Occ>, occ1: Seq<Occ>, bits: Seq<bool>) -> bool {
    &&& occ1.len() == occ0.len()
    &&& forall|u: int| 0 <= u < occ1.len() ==> {
        let o0 = occ0[u];
        let o1 = #[trigger] occ1[u];
        &&& occ_framed(o1)
        &&& o1.delays@ == o0.delays@
        &&& o1.cost@ == o0.cost@
        &&& o1.cost_tree == o0.cost_tree
        &&& model_move(o0, bits, o0.incumbent_idx as int, o1.incumbent_idx as int)
    }
}

/// Which current solutions moved.
pub open spec fn moved_of(occ0: Seq<Occ>, occ1: Seq<Occ>) -> Seq<bool> {
    Seq::new(occ0.len(), |u: int| occ1[u].incumbent_idx != occ0[u].incumbent_idx)
}

/// One round of the SAT-based DDD solvers after the solver found a model.
/// The current solution of every visit moves to where the model places it,
/// and the visits whose solution moved (with the visit before each) join
/// `touched`. The touched visits whose travel time the current solution
/// breaks, and those that overlap a visit of another train on a resource
/// in conflict, give refinement packages (see `travel_packages` and
/// `resource_packages`). Without a package the current solution is final;
/// otherwise the packages are returned with the ones that `select_packages`
/// picks to be applied. An end time that leaves `i32` stops the round.
pub fn sat_ddd_round(
    problem: &Problem,
    visits: &Vec<(usize, usize)>,
    occupations: &mut Vec<Occ>,
    resource_visits: &Vec<Vec<VisitId>>,
    conflicts: &Vec<Vec<usize>>,
    touched: &mut Vec<VisitId>,
    tracker: &mut ViolationAgeTracker,
    iteration: usize,
    budget: Option<usize>,
    bits: &Vec<bool>,
) -> (r: RoundOutcome)
    requires
        round_inputs_ok(*problem, visits@, old(occupations)@, resource_visits@, old(touched)@),
    ensures
        model_read(old(occupations)@, final(occupations)@, bits@),
        ({
            let occ = final(occupations)@;
            let tch = touched_after(visits@, moved_of(old(occupations)@, occ), old(touched)@, visits@.len() as int);
            let fits = forall|u: int| 0 <= u < visits@.len() ==> i32::MIN <= #[trigger] travel_end(*problem, visits@, occ, u) <= i32::MAX;
            let calm = broken_travel(*problem, visits@, occ, tch).len() == 0 && forall|k: int, b: int|
                0 <= k < tch.len() ==> !#[trigger] clash(*problem, visits@, occ, resource_visits@, conflicts@, tch[k].0 as int, b);
            &&& r is TimeOverflow <==> !fits
            &&& r is Final <==> fits && calm
            &&& r matches RoundOutcome::Final(sol) ==> sol@.len() == problem.trains@.len() && forall|t: int|
                0 <= t < sol@.len() ==> (#[trigger] sol@[t])@ == train_times(*problem, occ, t)
            &&& r matches RoundOutcome::Refine(pkgs, sel) ==> {
                let nt = broken_travel(*problem, visits@, occ, tch).len();
                &&& pkgs@.len() > 0
                &&& sel@ == selection_spec(pkgs@, budget)
                &&& nt <= pkgs@.len()
                &&& forall|j: int| 0 <= j < nt ==> {
                    let u = broken_travel(*problem, visits@, occ, tch)[j];
                    travel_package_ok(
                        #[trigger] pkgs@[j],
                        *problem,
                        visits@,
                        occ,
                        u,
                        seen_at(*old(tracker), ViolationId::TravelTime(VisitId(u as u32)), iteration),
                    )
                }
                &&& forall|j: int| nt <= j < pkgs@.len() ==> #[trigger] resource_package_sound(
                    pkgs@[j],
                    *problem,
                    visits@,
                    occ,
                    resource_visits@,
                    conflicts@,
                    tch,
                    *old(tracker),
                    iteration,
                )
                &&& forall|k: int| 0 <= k < final(touched)@.len() ==> tch.contains(#[trigger] final(touched)@[k])
            }
        }),
{
    let ghost p = *problem;
    let ghost occ0 = occupations@;
    let moved = read_incumbents(occupations, bits);
    proof {
        assert(moved@ =~= moved_of(occ0, occupations@));
        assert forall|u: int| 0 <= u < visits@.len() implies (#[trigger] visits@[u]).1 <= u by {
            assert(valid_tv(p, visits@[u].0 as int, visits@[u].1 as int) && flat(p, visits@[u].0 as int, visits@[u].1 as int) == u);
        }
    }
    mark_touched(visits, &moved, touched);
    let ghost occ = occupations@;
    let ghost tch = touched@;
    proof {
        assert forall|k: int| 0 <= k < tch.len() implies (#[trigger] tch[k]).0 < visits@.len() by {
            lemma_touched_in_range(p, visits@, moved@, old(touched)@, visits@.len() as int);
        }
    }
    if !travel_ends_fit(problem, visits, occupations) {
        return RoundOutcome::TimeOverflow;
    }
    proof {
        assert forall|k: int| 0 <= k < tch.len() && has_next(p, visits@, tch[k].0 as int)
            implies i32::MIN <= #[trigger] travel_end(p, visits@, occ, tch[k].0 as int) <= i32::MAX by {
            let u = tch[k].0 as int;
            assert(i32::MIN <= travel_end(p, visits@, occ, u) <= i32::MAX);
        }
        assert forall|u: int| 0 <= u < visits@.len() implies i32::MIN <= #[trigger] out_time(p, visits@, occ, u) <= i32::MAX by {
            assert(i32::MIN <= travel_end(p, visits@, occ, u) <= i32::MAX);
        }
        assert(overlap_inputs_ok(p, visits@, occ, resource_visits@, conflicts@));
    }
    let ghost tr0 = *tracker;
    let mut pkgs = travel_packages(problem, visits, occupations, touched, tracker, iteration);
    let ghost tr1 = *tracker;
    let ghost pk1 = pkgs@;
    let mut rpkgs = resource_packages(problem, visits, occupations, resource_visits, conflicts, touched, tracker, iteration);
    let ghost rp = rpkgs@;
    if pkgs.len() == 0 && rpkgs.len() == 0 {
        proof {
            lemma_visits_before_offs(p, p.trains@.len() as int);
            assert forall|t: int| 0 <= t < p.trains@.len() implies {
                let n = p.trains@[t].visits@.len();
                let o = occ[visits_before(p, t) + n - 1];
                i32::MIN <= (#[trigger] p.trains@[t]).visits@[n - 1].travel_time + o.delays@[o.incumbent_idx as int].1 <= i32::MAX
            } by {
                let n = p.trains@[t].visits@.len();
                lemma_visits_before_offs(p, t);
                lemma_flat_bounds(p, t, n - 1);
                let u = flat(p, t, n - 1);
                assert(visits@[u].0 == t && visits@[u].1 == n - 1) by {
                    crate::greedy::lemma_flat_injective(p, visits@[u].0 as int, visits@[u].1 as int, t, n - 1);
                }
                assert(i32::MIN <= out_time(p, visits@, occ, u) <= i32::MAX);
            }
            assert(extract_ok(p, occ));
        }
        let sol = extract_solution(problem, occupations);
        return RoundOutcome::Final(sol);
    }
    pkgs.append(&mut rpkgs);
    let sel = select_packages(pkgs.as_slice(), budget);
    proof {
        assert(pkgs@ =~= pk1 + rp);
        assert forall|j: int| pk1.len() <= j < pkgs@.len() implies #[trigger] resource_package_sound(
            pkgs@[j], p, visits@, occ, resource_visits@, conflicts@, tch, *old(tracker), iteration) by {
            assert(pkgs@[j] == rp[j - pk1.len()]);
            assert(resource_package_sound(rp[j - pk1.len()], p, visits@, occ, resource_visits@, conflicts@, tch, tr1, iteration));
            let (a, b) = choose|a: int, b: int|
                tch.contains(VisitId(a as u32)) && 0 <= a < visits@.len() && 0 <= b < visits@.len()
                && clash(p, visits@, occ, resource_visits@, conflicts@, a, b)
                && #[trigger] resource_package_ok(rp[j - pk1.len()], p, visits@, occ, a, b, seen_at(tr1, resource_violation(a, b), iteration));
            let id = resource_violation(a, b);
            assert(!exists|i: int| 0 <= i < pk1.len() && (#[trigger] pk1[i]).violation == id) by {
                if exists|i: int| 0 <= i < pk1.len() && (#[trigger] pk1[i]).violation == id {
                    let i = choose|i: int| 0 <= i < pk1.len() && (#[trigger] pk1[i]).violation == id;
                    assert(pk1[i].violation is TravelTime);
                }
            }
            assert(tr1.first_seen(id) == tr0.first_seen(id));
            assert(resource_package_ok(pkgs@[j], p, visits@, occ, a, b, seen_at(tr0, id, iteration)));
        }
    }
    RoundOutcome::Refine(pkgs, sel)
}

} // verus!
