use vstd::prelude::*;
use std::rc::Rc;
use crate::heuristic::interval::{TimeInterval, intervals_overlap};
use crate::heuristic::problem::{Problem, TrainRef, TrackRef, network_wf};
use crate::heuristic::blocks::{Block, blocks_nonempty};
use crate::heuristic::occupation::{
    OccupationKey,
    ResourceConflicts,
    ResourceOccupation,
    is_first_conflict,
    key_occ,
    has_conflict,
};
use crate::heuristic::train::{ResourceUse, TrainSolver, TrainSolverStatus, step_post};

verus! {

/// Where the conflict search stands: trains still to route, a conflict to
/// branch on, nodes to explore, or nothing left.
#[derive(Debug)]
pub enum ConflictSolverStatus {
    Exhausted,
    SelectNode,
    Conflict,
    SolveTrains,
}

/// A block that the conflict search puts on a train: it may not use `track`
/// during `interval`.
#[derive(Clone, Copy, Debug)]
pub struct ConflictConstraint {
    pub train: TrainRef,
    pub track: TrackRef,
    pub interval: TimeInterval,
}

/// A node of the conflict search tree; nodes are held in an arena and
/// `parent` is the index of the parent (none below the root).
#[derive(Clone, Copy, Debug)]
pub struct ConflictSolverNode {
    pub constraint: ConflictConstraint,
    pub depth: u32,
    pub parent: Option<usize>,
}

/// The search over conflicts between trains: each train is routed on its
/// own, and a conflict on a resource is resolved by branching on which of
/// the two trains is blocked.
pub struct ConflictSolver {
    pub problem: Rc<Problem>,
    pub trains: Vec<TrainSolver>,
    pub conflicts: ResourceConflicts,
    /// The search tree; the root, without a constraint, is `None`.
    pub nodes: Vec<ConflictSolverNode>,
    pub queued_nodes: Vec<usize>,
    pub current_node: Option<usize>,
    pub dirty_trains: Vec<u32>,
    pub dirty_train_idxs: Vec<i32>,
}

/// Whether resource `r` holds the occupation `k`.
pub open spec fn has_fn(c: ResourceConflicts) -> spec_fn(int, OccupationKey) -> bool {
    |r: int, k: OccupationKey| 0 <= r < c.resources.len() && c.resources@[r].items().contains(k)
}

/// The key under which train `train` records a use.
pub open spec fn use_key(train: int, e: ResourceUse) -> OccupationKey {
    (train as i32, e.2.time_start, e.2.time_end)
}

/// The occupations after one change of train `train`.
pub open spec fn apply_one(
    has: spec_fn(int, OccupationKey) -> bool,
    train: int,
    e: ResourceUse,
) -> spec_fn(int, OccupationKey) -> bool {
    |r: int, k: OccupationKey|
        if r == e.1 as int && k == use_key(train, e) {
            e.0
        } else {
            has(r, k)
        }
}

/// The occupations after the changes `ev` of train `train`, in order.
pub open spec fn apply_uses(
    has: spec_fn(int, OccupationKey) -> bool,
    train: int,
    ev: Seq<ResourceUse>,
) -> spec_fn(int, OccupationKey) -> bool
    decreases ev.len(),
{
    if ev.len() == 0 {
        has
    } else {
        apply_uses(apply_one(has, train, ev[0]), train, ev.skip(1))
    }
}

/// The changes `ev` of train `train` can be recorded in order: each names
/// one of the `nres` resources, and each occupation dropped is recorded at
/// the time it is dropped.
pub open spec fn uses_apply_ok(
    has: spec_fn(int, OccupationKey) -> bool,
    nres: int,
    train: int,
    ev: Seq<ResourceUse>,
) -> bool
    decreases ev.len(),
{
    if ev.len() == 0 {
        true
    } else {
        &&& 0 <= ev[0].1 < nres
        &&& (ev[0].0 || has(ev[0].1 as int, use_key(train, ev[0])))
        &&& uses_apply_ok(apply_one(has, train, ev[0]), nres, train, ev.skip(1))
    }
}

/// The set of dirty trains and the positions they keep in it agree.
pub open spec fn dirty_wf(dirty: Seq<u32>, idxs: Seq<i32>) -> bool {
    &&& idxs.len() <= i32::MAX
    &&& forall|k: int|
        0 <= k < dirty.len() ==> {
            &&& #[trigger] dirty[k] < idxs.len()
            &&& idxs[dirty[k] as int] == k
        }
    &&& forall|t: int|
        0 <= t < idxs.len() ==> {
            &&& -1 <= #[trigger] idxs[t] < dirty.len()
            &&& idxs[t] >= 0 ==> dirty[idxs[t] as int] == t
        }
}

/// A sequence without duplicates, whose items all lie in `f`, is no longer
/// than `f` is large.
proof fn lemma_distinct_len(s: Seq<u32>, f: Set<int>)
    requires
        s.no_duplicates(),
        f.finite(),
        forall|k: int| 0 <= k < s.len() ==> f.contains(#[trigger] s[k] as int),
    ensures
        s.len() <= f.len(),
    decreases s.len(),
{
    if s.len() > 0 {
        let l = s.last() as int;
        let d = s.drop_last();
        assert forall|i: int, j: int| 0 <= i < d.len() && 0 <= j < d.len() && i != j implies d[i] != d[j] by {
            assert(d[i] == s[i] && d[j] == s[j]);
        }
        assert forall|k: int| 0 <= k < d.len() implies f.remove(l).contains(#[trigger] d[k] as int) by {
            assert(d[k] == s[k]);
            assert(s[k] != s[s.len() - 1]);
        }
        assert(f.contains(s[s.len() - 1] as int));
        lemma_distinct_len(d, f.remove(l));
    }
}

/// A train outside the dirty set leaves room for it.
proof fn lemma_dirty_has_room(dirty: Seq<u32>, idxs: Seq<i32>, x: int)
    requires
        dirty_wf(dirty, idxs),
        0 <= x < idxs.len(),
        idxs[x] < 0,
    ensures
        dirty.len() < idxs.len(),
{
    let f = vstd::set_lib::set_int_range(0, idxs.len() as int).remove(x);
    vstd::set_lib::lemma_int_range(0, idxs.len() as int);
    assert(vstd::set_lib::set_int_range(0, idxs.len() as int).contains(x));
    assert forall|i: int, j: int| 0 <= i < dirty.len() && 0 <= j < dirty.len() && i != j implies dirty[i]
        != dirty[j] by {
        if dirty[i] == dirty[j] {
            assert(idxs[dirty[i] as int] == i);
            assert(idxs[dirty[j] as int] == j);
        }
    }
    assert forall|k: int| 0 <= k < dirty.len() implies f.contains(#[trigger] dirty[k] as int) by {
        assert(idxs[dirty[k] as int] == k);
    }
    lemma_distinct_len(dirty, f);
}

/// Takes train `train_idx`, which is dirty, out of the dirty set; the last
/// dirty train takes its place.
pub fn remove_dirty_train(dirty_trains: &mut Vec<u32>, dirty_train_idxs: &mut Vec<i32>, train_idx: usize)
    requires
        dirty_wf(old(dirty_trains)@, old(dirty_train_idxs)@),
        train_idx < old(dirty_train_idxs).len(),
        old(dirty_train_idxs)@[train_idx as int] >= 0,
    ensures
        dirty_wf(final(dirty_trains)@, final(dirty_train_idxs)@),
        final(dirty_train_idxs)@.len() == old(dirty_train_idxs)@.len(),
        final(dirty_trains)@ == old(dirty_trains)@.update(
            old(dirty_train_idxs)@[train_idx as int] as int,
            old(dirty_trains)@.last(),
        ).drop_last(),
        final(dirty_train_idxs)@[train_idx as int] == -1,
        forall|t: int|
            0 <= t < old(dirty_train_idxs).len() && t != train_idx ==> (#[trigger] final(dirty_train_idxs)@[t] >= 0) == (old(dirty_train_idxs)@[t] >= 0),
{
    let ghost od = dirty_trains@;
    let ghost oi = dirty_train_idxs@;
    let dirty_idx = dirty_train_idxs[train_idx] as usize;
    dirty_trains.swap_remove(dirty_idx);
    if dirty_idx < dirty_trains.len() {
        let other_train = dirty_trains[dirty_idx] as usize;
        proof {
            assert(other_train == od[od.len() - 1]);
            assert(oi[other_train as int] == od.len() - 1);
        }
        dirty_train_idxs.set(other_train, dirty_idx as i32);
    }
    dirty_train_idxs.set(train_idx, -1);
    proof {
        let d = dirty_trains@;
        let ix = dirty_train_idxs@;
        assert forall|k: int| 0 <= k < d.len() implies {
            &&& #[trigger] d[k] < ix.len()
            &&& ix[d[k] as int] == k
        } by {
            if k != dirty_idx {
                assert(d[k] == od[k]);
                assert(oi[od[k] as int] == k);
                assert(od[k] != train_idx);
            }
        }
        assert forall|t: int| 0 <= t < ix.len() implies {
            &&& -1 <= #[trigger] ix[t] < d.len()
            &&& ix[t] >= 0 ==> d[ix[t] as int] == t
        } by {
            if t != train_idx && oi[t] >= 0 {
                if oi[t] == od.len() - 1 {
                    assert(od[oi[t] as int] == t);
                } else {
                    assert(oi[t] != dirty_idx);
                    assert(d[oi[t] as int] == od[oi[t] as int]);
                }
            }
        }
        assert forall|t: int| 0 <= t < oi.len() && t != train_idx implies (#[trigger] ix[t] >= 0) == (oi[t]
            >= 0) by {
            if oi[t] >= 0 && oi[t] == od.len() - 1 {
                assert(od[oi[t] as int] == t);
            }
        }
    }
}

/// Puts train `train_idx` into the dirty set, at its end, unless it is there.
pub fn add_dirty_train(dirty_trains: &mut Vec<u32>, dirty_train_idxs: &mut Vec<i32>, train_idx: usize)
    requires
        dirty_wf(old(dirty_trains)@, old(dirty_train_idxs)@),
        train_idx < old(dirty_train_idxs).len(),
    ensures
        dirty_wf(final(dirty_trains)@, final(dirty_train_idxs)@),
        final(dirty_train_idxs)@.len() == old(dirty_train_idxs)@.len(),
        final(dirty_trains)@ == (if old(dirty_train_idxs)@[train_idx as int] == -1 {
            old(dirty_trains)@.push(train_idx as u32)
        } else {
            old(dirty_trains)@
        }),
        final(dirty_train_idxs)@[train_idx as int] >= 0,
        forall|t: int|
            0 <= t < old(dirty_train_idxs).len() && t != train_idx ==> #[trigger] final(dirty_train_idxs)@[t]
                == old(dirty_train_idxs)@[t],
{
    if dirty_train_idxs[train_idx] == -1 {
        proof {
            lemma_dirty_has_room(dirty_trains@, dirty_train_idxs@, train_idx as int);
        }
        let ghost od = dirty_trains@;
        let ghost oi = dirty_train_idxs@;
        dirty_train_idxs.set(train_idx, dirty_trains.len() as i32);
        dirty_trains.push(train_idx as u32);
        proof {
            let d = dirty_trains@;
            let ix = dirty_train_idxs@;
            assert forall|k: int| 0 <= k < d.len() implies {
                &&& #[trigger] d[k] < ix.len()
                &&& ix[d[k] as int] == k
            } by {
                if k < od.len() {
                    assert(d[k] == od[k]);
                    assert(oi[od[k] as int] == k);
                }
            }
            assert forall|t: int| 0 <= t < ix.len() implies {
                &&& -1 <= #[trigger] ix[t] < d.len()
                &&& ix[t] >= 0 ==> d[ix[t] as int] == t
            } by {
                if t != train_idx && oi[t] >= 0 {
                    assert(d[oi[t] as int] == od[oi[t] as int]);
                }
            }
        }
    }
}

/// Records the resource changes `events` of train `train`, in order.
pub fn apply_uses_to(conflicts: &mut ResourceConflicts, train: usize, events: &Vec<ResourceUse>)
    requires
        old(conflicts).wf(),
        train <= i32::MAX,
        uses_apply_ok(has_fn(*old(conflicts)), old(conflicts).resources.len() as int, train as int, events@),
    ensures
        final(conflicts).wf(),
        final(conflicts).resources.len() == old(conflicts).resources.len(),
        has_fn(*final(conflicts)) == apply_uses(has_fn(*old(conflicts)), train as int, events@),
{
    let ghost n = conflicts.resources.len() as int;
    let mut i: usize = 0;
    proof {
        assert(events@.skip(0) =~= events@);
    }
    while i < events.len()
        invariant
            i <= events.len(),
            conflicts.wf(),
            conflicts.resources.len() == n,
            train <= i32::MAX,
            uses_apply_ok(has_fn(*conflicts), n, train as int, events@.skip(i as int)),
            apply_uses(has_fn(*conflicts), train as int, events@.skip(i as int)) == apply_uses(
                has_fn(*old(conflicts)),
                train as int,
                events@,
            ),
        decreases events.len() - i,
    {
        let e = events[i];
        let ghost rest = events@.skip(i as int);
        let ghost before = *conflicts;
        proof {
            assert(rest[0] == e);
            assert(rest.skip(1) =~= events@.skip(i + 1));
        }
        conflicts.add_or_remove(e.0, train as TrainRef, e.1, e.2);
        proof {
            let after = *conflicts;
            let occ = ResourceOccupation { train: train as TrainRef, interval: e.2 };
            assert(crate::heuristic::occupation::occ_key(occ) == use_key(train as int, e));
            assert(has_fn(after) =~= apply_one(has_fn(before), train as int, e)) by {
                assert forall|r: int, k: OccupationKey| #[trigger] has_fn(after)(r, k) == apply_one(
                    has_fn(before),
                    train as int,
                    e,
                )(r, k) by {
                    if 0 <= r < n && r != e.1 as int {
                        if e.0 {
                            assert(after.resources@[r] == before.resources@[r]);
                        } else {
                            assert(after.resources@[r].occupations == before.resources@[r].occupations);
                        }
                    }
                }
            }
        }
        i += 1;
    }
    proof {
        assert(events@.skip(events.len() as int) =~= Seq::<ResourceUse>::empty());
    }
}


/// The depth of a node of the conflict search (0 for the root).
pub open spec fn cdepth(nodes: Seq<ConflictSolverNode>, o: Option<usize>) -> int {
    match o {
        Some(i) => if i < nodes.len() {
            nodes[i as int].depth as int
        } else {
            0
        },
        None => 0,
    }
}

/// The nodes of the conflict search form a tree, parents first, with
/// depths that count from 1 below the root; each names a train, a track and
/// a non-empty interval.
pub open spec fn cnodes_wf(nodes: Seq<ConflictSolverNode>, ntrains: int, ntracks: int) -> bool {
    forall|i: int|
        0 <= i < nodes.len() ==> {
            let n = #[trigger] nodes[i];
            &&& match n.parent {
                Some(p) => p < i && n.depth == nodes[p as int].depth + 1,
                None => n.depth == 1,
            }
            &&& n.depth <= i + 1
            &&& 0 <= n.constraint.train < ntrains
            &&& 0 <= n.constraint.track < ntracks
            &&& n.constraint.interval.time_start < n.constraint.interval.time_end
        }
}

/// The steps of moving the conflict search from node `b` to node `f`: the
/// deeper walker moves up (the one from `b` when both are as deep); leaving
/// a node from `f` adds its constraint (`true`), leaving one from `b` drops it.
pub open spec fn cwalk(nodes: Seq<ConflictSolverNode>, b: Option<usize>, f: Option<usize>) -> Seq<
    (bool, usize),
>
    decreases cdepth(nodes, b) + cdepth(nodes, f),
{
    if b == f {
        seq![]
    } else if cdepth(nodes, b) < cdepth(nodes, f) {
        match f {
            Some(x) => if x < nodes.len() && cdepth(nodes, nodes[x as int].parent) < cdepth(nodes, f) {
                seq![(true, x)] + cwalk(nodes, b, nodes[x as int].parent)
            } else {
                seq![]
            },
            None => seq![],
        }
    } else {
        match b {
            Some(x) => if x < nodes.len() && cdepth(nodes, nodes[x as int].parent) < cdepth(nodes, b) {
                seq![(false, x)] + cwalk(nodes, nodes[x as int].parent, f)
            } else {
                seq![]
            },
            None => seq![],
        }
    }
}

/// The block a constraint puts on its train.
pub open spec fn constraint_block(c: ConflictConstraint) -> Block {
    Block { track: c.track, interval: c.interval }
}

/// The blocks of each train.
pub open spec fn train_blocks(trains: Seq<TrainSolver>) -> spec_fn(int) -> Set<Block> {
    |t: int| trains[t].blocks@.to_set()
}

/// The blocks of each train after one step of a walk.
pub open spec fn step_blocks(
    blocks: spec_fn(int) -> Set<Block>,
    t: int,
    add: bool,
    b: Block,
) -> spec_fn(int) -> Set<Block> {
    |u: int|
        if u == t {
            if add {
                blocks(t).insert(b)
            } else {
                blocks(t).remove(b)
            }
        } else {
            blocks(u)
        }
}

/// The resource changes the reset of train `t` reports in a walk that has
/// already reset the trains in `done`.
pub open spec fn walk_reset_events(s: ConflictSolver, done: Set<int>, t: int) -> Seq<ResourceUse> {
    if done.contains(t) {
        seq![]
    } else {
        s.trains@[t].reset_events()
    }
}

/// The steps `ops` of a walk of the search in state `s` can be taken: each
/// dropped constraint is a block of its train at that time, and the resource
/// changes of each reset can be recorded. `blocks`, `done` and `has` are the
/// blocks, the trains reset so far and the occupations before the steps.
pub open spec fn cwalk_ok(
    s: ConflictSolver,
    ops: Seq<(bool, usize)>,
    blocks: spec_fn(int) -> Set<Block>,
    done: Set<int>,
    has: spec_fn(int, OccupationKey) -> bool,
) -> bool
    decreases ops.len(),
{
    if ops.len() == 0 {
        true
    } else {
        let add = ops[0].0;
        let c = s.nodes@[ops[0].1 as int].constraint;
        let t = c.train as int;
        let ev = walk_reset_events(s, done, t);
        &&& (add || blocks(t).contains(constraint_block(c)))
        &&& uses_apply_ok(has, s.conflicts.resources.len() as int, t, ev)
        &&& cwalk_ok(
            s,
            ops.skip(1),
            step_blocks(blocks, t, add, constraint_block(c)),
            done.insert(t),
            apply_uses(has, t, ev),
        )
    }
}

/// The blocks of each train, the trains reset and the occupations after the
/// steps `ops` of a walk of the search in state `s`, from `blocks`, `done`
/// and `has`: each step puts its constraint on its train (or takes it off),
/// resets the train and records the changes of the reset.
pub open spec fn walk_effect(
    s: ConflictSolver,
    ops: Seq<(bool, usize)>,
    blocks: spec_fn(int) -> Set<Block>,
    done: Set<int>,
    has: spec_fn(int, OccupationKey) -> bool,
) -> (spec_fn(int) -> Set<Block>, Set<int>, spec_fn(int, OccupationKey) -> bool)
    decreases ops.len(),
{
    if ops.len() == 0 {
        (blocks, done, has)
    } else {
        let add = ops[0].0;
        let c = s.nodes@[ops[0].1 as int].constraint;
        let t = c.train as int;
        walk_effect(
            s,
            ops.skip(1),
            step_blocks(blocks, t, add, constraint_block(c)),
            done.insert(t),
            apply_uses(has, t, walk_reset_events(s, done, t)),
        )
    }
}

/// A train whose search was restarted: at the root, nothing queued, no
/// solution.
pub open spec fn train_reset(tr: TrainSolver) -> bool {
    &&& tr.nodes@.len() == 1
    &&& tr.current_node == 0
    &&& tr.queued_nodes@.len() == 0
    &&& tr.solution is None
}

/// `s1` is `s0` moved to its most recently queued node: walking from the
/// current node and from the new one up to their common ancestor, each
/// constraint left on the way from the current node is taken off its train
/// and each left on the way from the new node is put on its train; every
/// train the walk touches is reset and dirty, the others are unchanged, and
/// the occupations follow the changes the resets report.
pub open spec fn switched(s0: ConflictSolver, s1: ConflictSolver) -> bool {
    let ops = cwalk(s0.nodes@, s0.current_node, Some(s0.queued_nodes@.last()));
    let eff = walk_effect(s0, ops, train_blocks(s0.trains@), Set::empty(), has_fn(s0.conflicts));
    let n = s0.trains.len() as int;
    &&& s1.nodes == s0.nodes
    &&& s1.current_node == Some(s0.queued_nodes@.last())
    &&& s1.queued_nodes@ == s0.queued_nodes@.drop_last()
    &&& s1.trains.len() == s0.trains.len()
    &&& forall|t: int| 0 <= t < n ==> (#[trigger] s1.trains@[t]).blocks@.to_set() == (eff.0)(t)
    &&& forall|t: int| 0 <= t < n && eff.1.contains(t) ==> train_reset(#[trigger] s1.trains@[t])
        && s1.dirty_trains@.contains(t as u32)
    &&& forall|t: int| 0 <= t < n && !eff.1.contains(t) ==> #[trigger] s1.trains@[t] == s0.trains@[t]
    &&& has_fn(s1.conflicts) == eff.2
    &&& forall|x: u32| s0.dirty_trains@.contains(x) ==> #[trigger] s1.dirty_trains@.contains(x)
}

/// Marking a train dirty keeps the dirty trains dirty and adds it.
proof fn lemma_dirty_added(d0: Seq<u32>, idx0: Seq<i32>, d1: Seq<u32>, train: usize)
    requires
        dirty_wf(d0, idx0),
        train < idx0.len(),
        d1 == (if idx0[train as int] == -1 {
            d0.push(train as u32)
        } else {
            d0
        }),
    ensures
        d1.contains(train as u32),
        forall|x: u32| d0.contains(x) ==> #[trigger] d1.contains(x),
{
    if idx0[train as int] == -1 {
        assert(d1[d0.len() as int] == train as u32);
        assert forall|x: u32| d0.contains(x) implies #[trigger] d1.contains(x) by {
            let k = choose|k: int| 0 <= k < d0.len() && d0[k] == x;
            assert(d1[k] == x);
        }
    } else {
        assert(idx0[train as int] >= 0);
        assert(d0[idx0[train as int] as int] == train);
    }
}

/// `s1` is `s0` after branching on the conflict between occupations `a`
/// and `b` of resource `r` and moving to the second child: the train of
/// `b` carries the block on `r` from the start of `b` to the end of `a`, is
/// reset and is dirty; the other trains are unchanged; the occupations
/// follow the changes its reset reports.
pub open spec fn branched(s0: ConflictSolver, s1: ConflictSolver, a: ResourceOccupation, b: ResourceOccupation, r: int) -> bool {
    let tb = b.train as int;
    let blk = Block {
        track: r as i32,
        interval: TimeInterval { time_start: b.interval.time_start, time_end: a.interval.time_end },
    };
    &&& s1.trains.len() == s0.trains.len()
    &&& s1.trains@[tb].blocks@.to_set() == s0.trains@[tb].blocks@.to_set().insert(blk)
    &&& train_reset(s1.trains@[tb])
    &&& s1.dirty_trains@.contains(tb as u32)
    &&& forall|t: int| 0 <= t < s0.trains.len() && t != tb ==> #[trigger] s1.trains@[t] == s0.trains@[t]
    &&& has_fn(s1.conflicts) == apply_uses(has_fn(s0.conflicts), tb, s0.trains@[tb].reset_events())
    &&& forall|x: u32| s0.dirty_trains@.contains(x) ==> #[trigger] s1.dirty_trains@.contains(x)
}

/// Every occupation recorded names one of `ntrains` trains.
pub open spec fn occupations_name_trains(has: spec_fn(int, OccupationKey) -> bool, ntrains: int) -> bool {
    forall|r: int, k: OccupationKey| #[trigger] has(r, k) ==> 0 <= k.0 < ntrains
}

proof fn lemma_apply_keeps_trains(
    has: spec_fn(int, OccupationKey) -> bool,
    ntrains: int,
    t: int,
    ev: Seq<ResourceUse>,
)
    requires
        occupations_name_trains(has, ntrains),
        0 <= t < ntrains,
        t <= i32::MAX,
    ensures
        occupations_name_trains(apply_uses(has, t, ev), ntrains),
    decreases ev.len(),
{
    if ev.len() > 0 {
        let h1 = apply_one(has, t, ev[0]);
        assert forall|r: int, k: OccupationKey| #[trigger] h1(r, k) implies 0 <= k.0 < ntrains by {
            if !(r == ev[0].1 as int && k == use_key(t, ev[0])) {
                assert(has(r, k));
            }
        }
        lemma_apply_keeps_trains(h1, ntrains, t, ev.skip(1));
    }
}

/// The node that a branch on a conflict between occupations `x` and `y` of
/// resource `r` creates below the current node of `s`: train `x` is blocked
/// on `r` from the start of `x` to the end of `y`.
pub open spec fn branch_node(s: ConflictSolver, x: ResourceOccupation, y: ResourceOccupation, r: int) -> ConflictSolverNode {
    ConflictSolverNode {
        constraint: ConflictConstraint {
            train: x.train,
            track: r as i32,
            interval: TimeInterval { time_start: x.interval.time_start, time_end: y.interval.time_end },
        },
        depth: (cdepth(s.nodes@, s.current_node) + 1) as u32,
        parent: s.current_node,
    }
}

impl ConflictSolver {
    /// The invariant of the conflict search.
    pub open spec fn wf(&self) -> bool {
        &&& network_wf(&*self.problem)
        &&& self.trains.len() == self.problem.trains.len()
        &&& self.trains.len() <= i32::MAX
        &&& forall|t: int|
            0 <= t < self.trains.len() ==> {
                &&& (#[trigger] self.trains@[t]).wf()
                &&& blocks_nonempty(self.trains@[t].blocks@)
                &&& self.trains@[t].problem == self.problem
                &&& self.trains@[t].train_idx == t
            }
        &&& self.conflicts.wf()
        &&& self.conflicts.resources.len() == self.problem.tracks.len()
        &&& occupations_name_trains(has_fn(self.conflicts), self.trains.len() as int)
        &&& cnodes_wf(self.nodes@, self.trains.len() as int, self.problem.tracks.len() as int)
        &&& (self.current_node matches Some(c) ==> c < self.nodes.len())
        &&& forall|k: int|
            0 <= k < self.queued_nodes.len() ==> #[trigger] self.queued_nodes@[k] < self.nodes.len()
        &&& self.dirty_train_idxs.len() == self.trains.len()
        &&& dirty_wf(self.dirty_trains@, self.dirty_train_idxs@)
    }

    /// Moving to the most recently queued node can be done: the queue is not
    /// empty and the walk there can be taken.
    pub open spec fn switch_safe(&self) -> bool {
        &&& self.queued_nodes.len() > 0
        &&& cwalk_ok(
            *self,
            cwalk(self.nodes@, self.current_node, Some(self.queued_nodes@.last())),
            train_blocks(self.trains@),
            Set::empty(),
            has_fn(self.conflicts),
        )
    }

    /// Whether the search still has trains to route, a conflict to branch on,
    /// nodes to explore, or nothing left.
    pub fn status(&self) -> (r: ConflictSolverStatus)
        ensures
            r is SolveTrains <==> self.dirty_trains@.len() > 0,
            r is Conflict <==> self.dirty_trains@.len() == 0
                && self.conflicts.conflicting_resource_set@.len() > 0,
            r is SelectNode <==> self.dirty_trains@.len() == 0
                && self.conflicts.conflicting_resource_set@.len() == 0 && self.queued_nodes@.len() > 0,
            r is Exhausted <==> self.dirty_trains@.len() == 0
                && self.conflicts.conflicting_resource_set@.len() == 0 && self.queued_nodes@.len()
                == 0,
    {
        if self.dirty_trains.len() > 0 {
            ConflictSolverStatus::SolveTrains
        } else if self.conflicts.conflicting_resource_set.len() > 0 {
            ConflictSolverStatus::Conflict
        } else if self.queued_nodes.len() > 0 {
            ConflictSolverStatus::SelectNode
        } else {
            ConflictSolverStatus::Exhausted
        }
    }

    /// Takes the most recently queued node off the queue.
    fn select_node(&mut self) -> (r: Option<usize>)
        ensures
            old(self).queued_nodes@.len() == 0 ==> r is None && final(self).queued_nodes@ == old(
                self,
            ).queued_nodes@,
            old(self).queued_nodes@.len() > 0 ==> r == Some(old(self).queued_nodes@.last())
                && final(self).queued_nodes@ == old(self).queued_nodes@.drop_last(),
            final(self).problem == old(self).problem,
            final(self).trains == old(self).trains,
            final(self).conflicts == old(self).conflicts,
            final(self).nodes == old(self).nodes,
            final(self).current_node == old(self).current_node,
            final(self).dirty_trains == old(self).dirty_trains,
            final(self).dirty_train_idxs == old(self).dirty_train_idxs,
    {
        self.queued_nodes.pop()
    }

    /// Moves the search to the most recently queued node: walking from the
    /// current node and from the new one up to their common ancestor, the
    /// constraints left on the way from the current node are taken off their
    /// trains and those left on the way from the new node are put on theirs;
    /// every train touched restarts its search and becomes dirty.
    fn switch_node(&mut self)
        requires
            old(self).wf(),
            old(self).switch_safe(),
        ensures
            final(self).wf(),
            final(self).problem == old(self).problem,
            switched(*old(self), *final(self)),
    {
        let ghost s0 = *self;
        let ghost eff0 = walk_effect(
            s0,
            cwalk(s0.nodes@, s0.current_node, Some(s0.queued_nodes@.last())),
            train_blocks(s0.trains@),
            Set::empty(),
            has_fn(s0.conflicts),
        );
        let ghost ntrains = self.trains.len() as int;
        let ghost nres = self.conflicts.resources.len() as int;
        let new_node = self.select_node().unwrap();
        let ghost target = cwalk(s0.nodes@, s0.current_node, Some(new_node));
        let ghost mut blocks = train_blocks(s0.trains@);
        let ghost mut done = Set::<int>::empty();
        let ghost mut ops_done: Seq<(bool, usize)> = seq![];
        let mut backward = self.current_node;
        let mut forward: Option<usize> = Some(new_node);
        proof {
            assert(ops_done + target =~= target);
            assert(new_node == s0.queued_nodes@[s0.queued_nodes.len() - 1]);
        }
        while !same_node(backward, forward)
            invariant
                self.problem == s0.problem,
                self.nodes == s0.nodes,
                self.current_node == s0.current_node,
                self.queued_nodes@ == s0.queued_nodes@.drop_last(),
                network_wf(&*self.problem),
                self.trains.len() == ntrains,
                ntrains == self.problem.trains.len(),
                ntrains <= i32::MAX,
                forall|t: int|
                    0 <= t < ntrains ==> {
                        &&& (#[trigger] self.trains@[t]).wf()
                        &&& blocks_nonempty(self.trains@[t].blocks@)
                        &&& self.trains@[t].problem == self.problem
                        &&& self.trains@[t].train_idx == t
                    },
                self.conflicts.wf(),
                self.conflicts.resources.len() == nres,
                nres == s0.conflicts.resources.len(),
                nres == self.problem.tracks.len(),
                occupations_name_trains(has_fn(self.conflicts), ntrains),
                cnodes_wf(s0.nodes@, ntrains, self.problem.tracks.len() as int),
                self.dirty_train_idxs.len() == ntrains,
                dirty_wf(self.dirty_trains@, self.dirty_train_idxs@),
                backward matches Some(b) ==> b < s0.nodes.len(),
                forward matches Some(f) ==> f < s0.nodes.len(),
                ops_done + cwalk(s0.nodes@, backward, forward) == target,
                cwalk_ok(s0, cwalk(s0.nodes@, backward, forward), blocks, done, has_fn(self.conflicts)),
                forall|t: int| 0 <= t < ntrains ==> (#[trigger] self.trains@[t]).blocks@.to_set() == blocks(t),
                forall|t: int|
                    0 <= t < ntrains && !done.contains(t) ==> #[trigger] self.trains@[t] == s0.trains@[t],
                forall|t: int|
                    0 <= t < ntrains && done.contains(t) ==> train_reset(#[trigger] self.trains@[t])
                        && self.dirty_trains@.contains(t as u32),
                walk_effect(s0, cwalk(s0.nodes@, backward, forward), blocks, done, has_fn(self.conflicts)) == eff0,
                forall|x: u32| s0.dirty_trains@.contains(x) ==> #[trigger] self.dirty_trains@.contains(x),
            decreases cdepth(s0.nodes@, backward) + cdepth(s0.nodes@, forward),
        {
            let d1: u32 = match backward {
                Some(b) => self.nodes[b].depth,
                None => 0,
            };
            let d2: u32 = match forward {
                Some(f) => self.nodes[f].depth,
                None => 0,
            };
            let ghost ops = cwalk(s0.nodes@, backward, forward);
            if d1 < d2 {
                let x = forward.unwrap();
                let c = self.nodes[x].constraint;
                let parent = self.nodes[x].parent;
                let train = c.train as usize;
                proof {
                    let n = s0.nodes@[x as int];
                    assert(cdepth(s0.nodes@, parent) < cdepth(s0.nodes@, forward));
                    assert(ops == seq![(true, x)] + cwalk(s0.nodes@, backward, parent));
                    assert(ops[0] == (true, x));
                    assert(ops.skip(1) =~= cwalk(s0.nodes@, backward, parent));
                }
                let ghost t = train as int;
                let ghost ev_spec = walk_reset_events(s0, done, t);
                let ghost b = constraint_block(c);
                let ghost bl0 = self.trains@[t].blocks@;
                assert(c.interval.time_start < c.interval.time_end);
                let tr = &mut self.trains[train];
                let ev = tr.add_constraint(c.track, c.interval);
                proof {
                    let bl = self.trains@[t].blocks@;
                    assert forall|i: int| 0 <= i < bl.len() implies (#[trigger] bl[i]).interval.time_start < bl[i].interval.time_end by {
                        assert(bl.contains(bl[i]));
                        if bl[i] != (Block { track: c.track, interval: c.interval }) {
                            let k = choose|k: int| 0 <= k < bl0.len() && bl0[k] == bl[i];
                        }
                    }
                    if done.contains(t) {
                        assert(ev@ =~= ev_spec);
                    }
                    assert(ev@ == ev_spec);
                }
                let ghost has_before = has_fn(self.conflicts);
                apply_uses_to(&mut self.conflicts, train, &ev);
                let ghost dirty0 = self.dirty_trains@;
                let ghost idxs0 = self.dirty_train_idxs@;
                add_dirty_train(&mut self.dirty_trains, &mut self.dirty_train_idxs, train);
                proof {
                    lemma_dirty_added(dirty0, idxs0, self.dirty_trains@, train);
                    lemma_apply_keeps_trains(has_before, ntrains, t, ev@);
                    assert(self.trains@[t].blocks@.to_set() =~= step_blocks(blocks, t, true, b)(t));
                    blocks = step_blocks(blocks, t, true, b);
                    done = done.insert(t);
                    assert(ops_done.push((true, x)) + cwalk(s0.nodes@, backward, parent) =~= ops_done + ops);
                    ops_done = ops_done.push((true, x));
                }
                forward = parent;
            } else {
                proof {
                    if backward is None {
                        assert(cdepth(s0.nodes@, forward) == 0);
                        assert(forward is None);
                    }
                }
                let x = backward.unwrap();
                let c = self.nodes[x].constraint;
                let parent = self.nodes[x].parent;
                let train = c.train as usize;
                proof {
                    assert(cdepth(s0.nodes@, parent) < cdepth(s0.nodes@, backward));
                    assert(ops == seq![(false, x)] + cwalk(s0.nodes@, parent, forward));
                    assert(ops[0] == (false, x));
                    assert(ops.skip(1) =~= cwalk(s0.nodes@, parent, forward));
                }
                let ghost t = train as int;
                let ghost ev_spec = walk_reset_events(s0, done, t);
                let ghost b = constraint_block(c);
                proof {
                    assert(blocks(t).contains(b));
                    assert(self.trains@[t].blocks@.to_set().contains(b));
                    assert(self.trains@[t].blocks@.contains(Block { track: c.track, interval: c.interval }));
                }
                let ghost bl0 = self.trains@[t].blocks@;
                let tr = &mut self.trains[train];
                let ev = tr.remove_constraint(c.track, c.interval);
                proof {
                    let bl = self.trains@[t].blocks@;
                    assert forall|i: int| 0 <= i < bl.len() implies (#[trigger] bl[i]).interval.time_start < bl[i].interval.time_end by {
                        assert(bl.contains(bl[i]));
                        let k = choose|k: int| 0 <= k < bl0.len() && bl0[k] == bl[i];
                    }
                    if done.contains(t) {
                        assert(ev@ =~= ev_spec);
                    }
                    assert(ev@ == ev_spec);
                }
                let ghost has_before = has_fn(self.conflicts);
                apply_uses_to(&mut self.conflicts, train, &ev);
                let ghost dirty0 = self.dirty_trains@;
                let ghost idxs0 = self.dirty_train_idxs@;
                add_dirty_train(&mut self.dirty_trains, &mut self.dirty_train_idxs, train);
                proof {
                    lemma_dirty_added(dirty0, idxs0, self.dirty_trains@, train);
                    lemma_apply_keeps_trains(has_before, ntrains, t, ev@);
                    assert(self.trains@[t].blocks@.to_set() =~= step_blocks(blocks, t, false, b)(t));
                    blocks = step_blocks(blocks, t, false, b);
                    done = done.insert(t);
                    assert(ops_done.push((false, x)) + cwalk(s0.nodes@, parent, forward) =~= ops_done + ops);
                    ops_done = ops_done.push((false, x));
                }
                backward = parent;
            }
        }
        proof {
            if backward == forward {
                assert(cwalk(s0.nodes@, backward, forward) =~= Seq::<(bool, usize)>::empty());
            }
            assert(walk_effect(s0, Seq::<(bool, usize)>::empty(), blocks, done, has_fn(self.conflicts))
                == (blocks, done, has_fn(self.conflicts)));
        }
        self.current_node = Some(new_node);
    }

    /// Branching on the first conflict can be done: the first conflicting
    /// resource has a conflict between two non-empty occupations, and the
    /// train of the second can restart its search.
    pub open spec fn branch_safe(&self) -> bool {
        let r = self.conflicts.conflicting_resource_set@[0] as int;
        let items = self.conflicts.resources@[r].items();
        &&& self.conflicts.conflicting_resource_set@.len() > 0
        &&& has_conflict(items)
        &&& self.nodes.len() + 2 < u32::MAX
        &&& forall|i: int|
            #[trigger] is_first_conflict(items, i) ==> {
                let a = key_occ(items[i]);
                let b = key_occ(items[i + 1]);
                &&& a.interval.time_start < a.interval.time_end
                &&& b.interval.time_start < b.interval.time_end
                &&& uses_apply_ok(
                    has_fn(self.conflicts),
                    self.conflicts.resources.len() as int,
                    b.train as int,
                    self.trains@[b.train as int].reset_events(),
                )
            }
    }

    /// Branches on the first conflict of the first conflicting resource: two
    /// children of the current node block one of the two trains each, from
    /// the start of its own occupation to the end of the other's; the search
    /// moves to the second.
    fn branch(&mut self)
        requires
            old(self).wf(),
            old(self).branch_safe(),
        ensures
            final(self).wf(),
            final(self).problem == old(self).problem,
            ({
                let r = old(self).conflicts.conflicting_resource_set@[0] as int;
                let items = old(self).conflicts.resources@[r].items();
                exists|i: int|
                    #[trigger] is_first_conflict(items, i) && final(self).nodes@ == old(self).nodes@ + seq![
                        branch_node(*old(self), key_occ(items[i]), key_occ(items[i + 1]), r),
                        branch_node(*old(self), key_occ(items[i + 1]), key_occ(items[i]), r),
                    ] && branched(*old(self), *final(self), key_occ(items[i]), key_occ(items[i + 1]), r)
            }),
            final(self).current_node == Some((old(self).nodes.len() + 1) as usize),
            final(self).queued_nodes@ == old(self).queued_nodes@.push(old(self).nodes.len()),
    {
        let ghost s0 = *self;
        let conflict_resource = self.conflicts.conflicting_resource_set[0];
        let ghost r = conflict_resource as int;
        let ghost items = self.conflicts.resources@[r].items();
        let pair = self.conflicts.resources[conflict_resource as usize].get_conflict();
        let (occ_a, occ_b) = pair.unwrap();
        let ghost i = choose|i: int|
            #[trigger] is_first_conflict(items, i) && occ_a == key_occ(items[i]) && occ_b == key_occ(
                items[i + 1],
            );
        proof {
            assert(is_first_conflict(items, i));
            assert(has_fn(self.conflicts)(r, items[i]));
            assert(has_fn(self.conflicts)(r, items[i + 1]));
        }
        let block_a = TimeInterval {
            time_start: occ_a.interval.time_start,
            time_end: occ_b.interval.time_end,
        };
        let block_b = TimeInterval {
            time_start: occ_b.interval.time_start,
            time_end: occ_a.interval.time_end,
        };
        proof {
            assert(intervals_overlap(block_a, block_b));
        }
        let constraint_a = ConflictConstraint {
            train: occ_a.train,
            track: conflict_resource as TrackRef,
            interval: block_a,
        };
        let constraint_b = ConflictConstraint {
            train: occ_b.train,
            track: conflict_resource as TrackRef,
            interval: block_b,
        };
        let parent_depth: u32 = match self.current_node {
            Some(c) => self.nodes[c].depth,
            None => 0,
        };
        let depth = parent_depth + 1;
        let node_a = ConflictSolverNode { constraint: constraint_a, depth, parent: self.current_node };
        let node_b = ConflictSolverNode { constraint: constraint_b, depth, parent: self.current_node };
        let n = self.nodes.len();
        self.nodes.push(node_a);
        self.nodes.push(node_b);
        self.queued_nodes.push(n);
        self.queued_nodes.push(n + 1);
        proof {
            let nodes = self.nodes@;
            assert(nodes == s0.nodes@ + seq![
                branch_node(s0, key_occ(items[i]), key_occ(items[i + 1]), r),
                branch_node(s0, key_occ(items[i + 1]), key_occ(items[i]), r),
            ]);
            assert(cdepth(nodes, s0.current_node) == cdepth(s0.nodes@, s0.current_node));
            assert forall|j: int| 0 <= j < nodes.len() implies {
                let nd = #[trigger] nodes[j];
                &&& match nd.parent {
                    Some(p) => p < j && nd.depth == nodes[p as int].depth + 1,
                    None => nd.depth == 1,
                }
                &&& nd.depth <= j + 1
                &&& 0 <= nd.constraint.train < self.trains.len()
                &&& 0 <= nd.constraint.track < self.problem.tracks.len()
                &&& nd.constraint.interval.time_start < nd.constraint.interval.time_end
            } by {
                if j < n {
                    assert(nodes[j] == s0.nodes@[j]);
                    if let Some(p) = nodes[j].parent {
                        assert(nodes[p as int] == s0.nodes@[p as int]);
                    }
                } else if let Some(p) = nodes[j].parent {
                    assert(nodes[p as int] == s0.nodes@[p as int]);
                }
            }
            let ops = cwalk(nodes, s0.current_node, Some((n + 1) as usize));
            assert(cwalk(nodes, s0.current_node, s0.current_node) =~= Seq::<(bool, usize)>::empty());
            assert(ops == seq![(true, (n + 1) as usize)] + cwalk(nodes, s0.current_node, s0.current_node));
            assert(ops =~= seq![(true, (n + 1) as usize)]);
            assert(self.queued_nodes@.last() == n + 1);
            let tb = occ_b.train as int;
            assert(walk_reset_events(*self, Set::empty(), tb) == s0.trains@[tb].reset_events());
            assert(ops.skip(1) =~= Seq::<(bool, usize)>::empty());
            assert(self.nodes@[(n + 1) as int].constraint == constraint_b);
            assert(key_occ(items[i + 1]).train == tb);
            assert(uses_apply_ok(
                has_fn(self.conflicts),
                self.conflicts.resources.len() as int,
                tb,
                self.trains@[tb].reset_events(),
            ));
            reveal_with_fuel(cwalk_ok, 2);
            assert(cwalk_ok(
                *self,
                ops,
                train_blocks(self.trains@),
                Set::empty(),
                has_fn(self.conflicts),
            ));
            reveal_with_fuel(walk_effect, 2);
        }
        let ghost s1 = *self;
        let ghost tb = occ_b.train as int;
        self.switch_node();
        proof {
            let ops = cwalk(s1.nodes@, s1.current_node, Some(s1.queued_nodes@.last()));
            assert(ops =~= seq![(true, (n + 1) as usize)]);
            assert(ops.skip(1) =~= Seq::<(bool, usize)>::empty());
            let c = s1.nodes@[(n + 1) as int].constraint;
            assert(c == constraint_b);
            let eff = walk_effect(s1, ops, train_blocks(s1.trains@), Set::empty(), has_fn(s1.conflicts));
            assert(walk_reset_events(s1, Set::empty(), tb) == s0.trains@[tb].reset_events());
            assert(eff == walk_effect(
                s1,
                ops.skip(1),
                step_blocks(train_blocks(s1.trains@), tb, true, constraint_block(c)),
                Set::<int>::empty().insert(tb),
                apply_uses(has_fn(s1.conflicts), tb, s0.trains@[tb].reset_events()),
            ));
            assert(eff.1 =~= Set::<int>::empty().insert(tb));
            assert(self.trains@[tb].blocks@.to_set() == s0.trains@[tb].blocks@.to_set().insert(constraint_block(c)));
            assert forall|t: int| 0 <= t < s0.trains.len() && t != tb implies #[trigger] self.trains@[t] == s0.trains@[t] by {
                assert(!eff.1.contains(t));
            }
            assert(train_reset(self.trains@[tb]));
            assert(branched(s0, *self, key_occ(items[i]), key_occ(items[i + 1]), r));
        }
    }

    /// What the next step of the search can do without fault.
    pub open spec fn step_safe(&self) -> bool {
        if self.dirty_trains@.len() > 0 {
            let d = self.dirty_trains@.last() as int;
            let tr = self.trains@[d];
            match tr.solution {
                Some(Err(_)) => self.switch_safe(),
                Some(Ok(_)) => true,
                None => {
                    &&& tr.nodes.len() < u32::MAX
                    &&& tr.step_fits()
                    &&& uses_apply_ok(
                        has_fn(self.conflicts),
                        self.conflicts.resources.len() as int,
                        d,
                        tr.step_events(),
                    )
                },
            }
        } else if self.conflicts.conflicting_resource_set@.len() > 0 {
            self.branch_safe()
        } else if self.queued_nodes@.len() > 0 {
            self.switch_safe()
        } else {
            true
        }
    }

    /// One step of the search: the most recently dirtied train takes a step
    /// of its own search (or, when it is routed, stops being dirty; when it
    /// failed, the search moves on to the next queued node); with every
    /// train routed, the search branches on a conflict, or moves on to the
    /// next queued node, or has nothing left to do.
    pub fn step(&mut self)
        requires
            old(self).wf(),
            old(self).step_safe(),
        ensures
            final(self).wf(),
            final(self).problem == old(self).problem,
            ({
                let d = old(self).dirty_trains@.last() as int;
                let tr = old(self).trains@[d];
                old(self).dirty_trains@.len() > 0 ==> match tr.solution {
                    Some(Ok(_)) => {
                        &&& final(self).dirty_trains@ == old(self).dirty_trains@.drop_last()
                        &&& final(self).trains == old(self).trains
                        &&& final(self).conflicts == old(self).conflicts
                        &&& final(self).nodes == old(self).nodes
                        &&& final(self).current_node == old(self).current_node
                        &&& final(self).queued_nodes == old(self).queued_nodes
                    },
                    Some(Err(_)) => switched(*old(self), *final(self)),
                    None => {
                        &&& step_post(tr, final(self).trains@[d], tr.step_events())
                        &&& forall|t: int|
                            0 <= t < old(self).trains.len() && t != d ==> #[trigger] final(self).trains@[t]
                                == old(self).trains@[t]
                        &&& has_fn(final(self).conflicts) == apply_uses(
                            has_fn(old(self).conflicts),
                            d,
                            tr.step_events(),
                        )
                        &&& final(self).dirty_trains == old(self).dirty_trains
                        &&& final(self).nodes == old(self).nodes
                        &&& final(self).current_node == old(self).current_node
                        &&& final(self).queued_nodes == old(self).queued_nodes
                    },
                }
            }),
            old(self).dirty_trains@.len() == 0 && old(self).conflicts.conflicting_resource_set@.len() > 0
                ==> {
                let r = old(self).conflicts.conflicting_resource_set@[0] as int;
                let items = old(self).conflicts.resources@[r].items();
                &&& exists|i: int|
                    #[trigger] is_first_conflict(items, i) && final(self).nodes@ == old(self).nodes@ + seq![
                        branch_node(*old(self), key_occ(items[i]), key_occ(items[i + 1]), r),
                        branch_node(*old(self), key_occ(items[i + 1]), key_occ(items[i]), r),
                    ] && branched(*old(self), *final(self), key_occ(items[i]), key_occ(items[i + 1]), r)
                &&& final(self).current_node == Some((old(self).nodes.len() + 1) as usize)
                &&& final(self).queued_nodes@ == old(self).queued_nodes@.push(old(self).nodes.len())
            },
            old(self).dirty_trains@.len() == 0 && old(self).conflicts.conflicting_resource_set@.len() == 0
                && old(self).queued_nodes@.len() > 0 ==> switched(*old(self), *final(self)),
            old(self).dirty_trains@.len() == 0 && old(self).conflicts.conflicting_resource_set@.len() == 0
                && old(self).queued_nodes@.len() == 0 ==> *final(self) == *old(self),
    {
        let n_dirty = self.dirty_trains.len();
        if n_dirty > 0 {
            let dirty_train_idx = self.dirty_trains[n_dirty - 1] as usize;
            proof {
                assert(self.dirty_trains@.last() == self.dirty_trains@[n_dirty - 1]);
            }
            match self.trains[dirty_train_idx].status() {
                TrainSolverStatus::Failed => {
                    self.switch_node();
                },
                TrainSolverStatus::Optimal => {
                    proof {
                        assert(self.dirty_train_idxs@[dirty_train_idx as int] == n_dirty - 1);
                    }
                    remove_dirty_train(&mut self.dirty_trains, &mut self.dirty_train_idxs, dirty_train_idx);
                    proof {
                        assert(self.dirty_trains@ =~= old(self).dirty_trains@.drop_last());
                    }
                },
                TrainSolverStatus::Working => {
                    let ghost t = dirty_train_idx as int;
                    let ghost has_before = has_fn(self.conflicts);
                    let tr = &mut self.trains[dirty_train_idx];
                    let events = tr.step();
                    apply_uses_to(&mut self.conflicts, dirty_train_idx, &events);
                    proof {
                        lemma_apply_keeps_trains(has_before, self.trains.len() as int, t, events@);
                    }
                },
            }
        } else if self.conflicts.conflicting_resource_set.len() > 0 {
            self.branch();
        } else if self.queued_nodes.len() > 0 {
            self.switch_node();
        }
    }

    /// A fresh search: every train at the root of its own search and dirty,
    /// no occupations and no conflicts, at the root of the conflict search.
    pub fn new(problem: Rc<Problem>) -> (s: Self)
        requires
            network_wf(&*problem),
            problem.trains.len() <= i32::MAX,
        ensures
            s.wf(),
            s.problem == problem,
            s.trains.len() == problem.trains.len(),
            forall|t: int|
                0 <= t < s.trains.len() ==> (#[trigger] s.trains@[t]).nodes@.len() == 1
                    && s.trains@[t].blocks@.len() == 0 && s.trains@[t].solution is None,
            forall|r: int| 0 <= r < s.conflicts.resources.len() ==> (#[trigger] s.conflicts.resources@[r]).items().len() == 0,
            s.conflicts.conflicting_resource_set@.len() == 0,
            s.nodes@.len() == 0,
            s.current_node is None,
            s.queued_nodes@.len() == 0,
            s.dirty_trains@ == Seq::new(problem.trains.len() as nat, |t: int| t as u32),
    {
        let n = problem.trains.len();
        let mut trains: Vec<TrainSolver> = Vec::new();
        let mut dirty_trains: Vec<u32> = Vec::new();
        let mut dirty_train_idxs: Vec<i32> = Vec::new();
        let mut i: usize = 0;
        while i < n
            invariant
                i <= n,
                n == problem.trains.len(),
                n <= i32::MAX,
                trains.len() == i,
                forall|t: int|
                    0 <= t < i ==> {
                        &&& (#[trigger] trains@[t]).wf()
                        &&& trains@[t].problem == problem
                        &&& trains@[t].train_idx == t
                        &&& trains@[t].nodes@.len() == 1
                        &&& trains@[t].blocks@.len() == 0
                        &&& trains@[t].solution is None
                    },
                dirty_trains@ == Seq::new(i as nat, |t: int| t as u32),
                dirty_train_idxs@ == Seq::new(i as nat, |t: int| t as i32),
            decreases n - i,
        {
            let train = TrainSolver::new(rc_clone(&problem), i);
            trains.push(train);
            dirty_trains.push(i as u32);
            dirty_train_idxs.push(i as i32);
            proof {
                assert(dirty_trains@ =~= Seq::new((i + 1) as nat, |t: int| t as u32));
                assert(dirty_train_idxs@ =~= Seq::new((i + 1) as nat, |t: int| t as i32));
            }
            i += 1;
        }
        let conflicts = ResourceConflicts::empty(problem.tracks.len());
        let s = ConflictSolver {
            problem,
            trains,
            conflicts,
            nodes: Vec::new(),
            queued_nodes: Vec::new(),
            current_node: None,
            dirty_trains,
            dirty_train_idxs,
        };
        proof {
            assert forall|r: int, k: OccupationKey| #[trigger] has_fn(s.conflicts)(r, k) implies 0 <= k.0
                < s.trains.len() by {
                assert(s.conflicts.resources@[r].items().len() == 0);
            }
        }
        s
    }
}

/// `Rc::clone`: another pointer to the same problem.
#[verifier::external_body]
fn rc_clone(p: &Rc<Problem>) -> (r: Rc<Problem>)
    ensures
        r == *p,
{
    Rc::clone(p)
}

/// Whether two optional nodes are the same.
fn same_node(a: Option<usize>, b: Option<usize>) -> (r: bool)
    ensures
        r == (a == b),
{
    match (a, b) {
        (Some(x), Some(y)) => x == y,
        (None, None) => true,
        _ => false,
    }
}

} // verus!
