use vstd::prelude::*;
use vstd::multiset::Multiset;
use std::rc::Rc;
use crate::heuristic::interval::{TimeInterval, TimeValue};
use crate::heuristic::problem::{
    Problem,
    TrackRef,
    SENTINEL_TRACK,
    TRAIN_FINISHED,
    network_wf,
    travel_of,
};
use crate::heuristic::blocks::{
    Block,
    block_available,
    block_free,
    blocks_nonempty,
    blocks_sorted,
    insert_block,
    remove_block,
    transfer_times,
    valid_transfer_times,
    latest_exit_value,
    transfer_ok,
};

verus! {

/// Where the search of one train stands.
#[derive(Debug)]
pub enum TrainSolverStatus {
    Failed,
    Optimal,
    Working,
}

/// A node of the search tree of one train: the train enters `track` at `time`.
/// Nodes are held in an arena; `parent` is the index of the parent node.
#[derive(Clone, Copy, Debug)]
pub struct TrainSolverNode {
    pub track: TrackRef,
    pub time: TimeValue,
    pub depth: u32,
    pub parent: Option<usize>,
}

/// A change of the resources a train uses: whether the use is added (or
/// removed), the track and the interval.
pub type ResourceUse = (bool, TrackRef, TimeInterval);

/// The search for the route and times of one train, given the blocks that
/// the conflict search has put on the tracks.
pub struct TrainSolver {
    pub problem: Rc<Problem>,
    pub train_idx: usize,
    pub blocks: Vec<Block>,
    /// The search tree; its root, the train before it enters, is node 0.
    pub nodes: Vec<TrainSolverNode>,
    pub queued_nodes: Vec<usize>,
    pub current_node: usize,
    pub solution: Option<Result<usize, ()>>,
}

/// The index of the parent of a node, or -1 at the root.
pub open spec fn parent_of(n: TrainSolverNode) -> int {
    match n.parent {
        Some(p) => p as int,
        None => -1,
    }
}

/// The nodes form a tree rooted at node 0, each parent before its children,
/// and a node's depth is its distance from the root.
pub open spec fn tree_wf(nodes: Seq<TrainSolverNode>) -> bool {
    &&& nodes.len() >= 1
    &&& nodes[0].parent is None
    &&& nodes[0].depth == 0
    &&& forall|i: int|
        0 < i < nodes.len() ==> {
            &&& (#[trigger] nodes[i]).parent is Some
            &&& 0 <= parent_of(nodes[i]) < i
            &&& nodes[i].depth == nodes[parent_of(nodes[i])].depth + 1
            &&& nodes[i].depth <= i
        }
}

/// The resource a node's train uses to get there: the parent's track from
/// the parent's time to the node's time.
pub open spec fn node_use(nodes: Seq<TrainSolverNode>, i: int) -> Option<(TrackRef, TimeInterval)> {
    let p = parent_of(nodes[i]);
    if 0 <= p < nodes.len() && nodes[p].track >= 0 {
        Some((nodes[p].track, TimeInterval { time_start: nodes[p].time, time_end: nodes[i].time }))
    } else {
        None
    }
}

/// All resources used on the path from the root to node `i`.
pub open spec fn path_uses(nodes: Seq<TrainSolverNode>, i: int) -> Multiset<(TrackRef, TimeInterval)>
    decreases i,
{
    if 0 <= i < nodes.len() && 0 <= parent_of(nodes[i]) < i {
        let rest = path_uses(nodes, parent_of(nodes[i]));
        match node_use(nodes, i) {
            Some(u) => rest.insert(u),
            None => rest,
        }
    } else {
        Multiset::empty()
    }
}

/// The uses that a list of changes removes.
pub open spec fn removed_uses(ev: Seq<ResourceUse>) -> Multiset<(TrackRef, TimeInterval)>
    decreases ev.len(),
{
    if ev.len() == 0 {
        Multiset::empty()
    } else {
        let rest = removed_uses(ev.drop_last());
        if ev.last().0 {
            rest
        } else {
            rest.insert((ev.last().1, ev.last().2))
        }
    }
}

/// The uses that a list of changes adds.
pub open spec fn added_uses(ev: Seq<ResourceUse>) -> Multiset<(TrackRef, TimeInterval)>
    decreases ev.len(),
{
    if ev.len() == 0 {
        Multiset::empty()
    } else {
        let rest = added_uses(ev.drop_last());
        if ev.last().0 {
            rest.insert((ev.last().1, ev.last().2))
        } else {
            rest
        }
    }
}

/// The change a walker makes when it leaves node `i` upwards: the use of the
/// node is added (`add`) or dropped, if the node has one.
pub open spec fn leave_event(nodes: Seq<TrainSolverNode>, i: int, add: bool) -> Seq<ResourceUse> {
    match node_use(nodes, i) {
        Some(u) => seq![(add, u.0, u.1)],
        None => seq![],
    }
}

/// The changes, in order, of walking from node `b` and from node `f` up to
/// their common ancestor: the deeper walker moves up (the one from `b` when
/// both are as deep), dropping the uses it leaves from `b` and adding those
/// it leaves from `f`.
pub open spec fn walk_events(nodes: Seq<TrainSolverNode>, b: int, f: int) -> Seq<ResourceUse>
    decreases nodes[b].depth + nodes[f].depth,
{
    if !(0 <= b < nodes.len() && 0 <= f < nodes.len()) || b == f {
        seq![]
    } else if nodes[b].depth < nodes[f].depth {
        let p = parent_of(nodes[f]);
        if 0 <= p < nodes.len() && nodes[p].depth < nodes[f].depth {
            leave_event(nodes, f, true) + walk_events(nodes, b, p)
        } else {
            seq![]
        }
    } else {
        let p = parent_of(nodes[b]);
        if 0 <= p < nodes.len() && nodes[p].depth < nodes[b].depth {
            leave_event(nodes, b, false) + walk_events(nodes, p, f)
        } else {
            seq![]
        }
    }
}

/// The common ancestor of nodes `b` and `f`: where walkers from both meet,
/// moving up as `walk_events` says.
pub open spec fn meet_node(nodes: Seq<TrainSolverNode>, b: int, f: int) -> int
    decreases nodes[b].depth + nodes[f].depth,
{
    if !(0 <= b < nodes.len() && 0 <= f < nodes.len()) || b == f {
        b
    } else if nodes[b].depth < nodes[f].depth {
        let p = parent_of(nodes[f]);
        if 0 <= p < nodes.len() && nodes[p].depth < nodes[f].depth {
            meet_node(nodes, b, p)
        } else {
            b
        }
    } else {
        let p = parent_of(nodes[b]);
        if 0 <= p < nodes.len() && nodes[p].depth < nodes[b].depth {
            meet_node(nodes, p, f)
        } else {
            b
        }
    }
}

/// The changes turn the uses of the path to `from` into those of the path to
/// `to`: they remove only uses of the old path, and what remains together
/// with what they add is the new path.
pub open spec fn switch_ok(
    nodes: Seq<TrainSolverNode>,
    from: int,
    to: int,
    ev: Seq<ResourceUse>,
) -> bool {
    &&& removed_uses(ev).subset_of(path_uses(nodes, from))
    &&& path_uses(nodes, from).sub(removed_uses(ev)).add(added_uses(ev)) == path_uses(nodes, to)
}

/// A node may stand in the search: it is the root, a finished train, or a
/// track of the network entered at a time from which its travel is free.
pub open spec fn node_ok(p: &Problem, blocks: Seq<Block>, track: TrackRef, time: TimeValue) -> bool {
    ||| track == SENTINEL_TRACK
    ||| track == TRAIN_FINISHED
    ||| (0 <= track < p.tracks.len() && block_free(
        blocks,
        track as int,
        TimeInterval { time_start: time, time_end: (time + travel_of(p, track as int)) as u32 },
    ))
}

/// The node indices that appending `n` nodes to `len` nodes creates.
pub open spec fn new_indices(len: int, n: int) -> Seq<usize> {
    Seq::new(n as nat, |k: int| (len + k) as usize)
}

/// The children of a node are created in the search tree as children of
/// `parent` with the given depth.
pub open spec fn child_node(c: (TrackRef, TimeValue), depth: int, parent: usize) -> TrainSolverNode {
    TrainSolverNode { track: c.0, time: c.1, depth: depth as u32, parent: Some(parent) }
}

/// The first route segments of a train at time `t`: the tracks among the
/// first `n` without predecessors whose travel from `t` on is free.
pub open spec fn first_children(p: &Problem, blocks: Seq<Block>, t: TimeValue, n: int) -> Seq<
    (TrackRef, TimeValue),
>
    decreases n,
{
    if n <= 0 {
        seq![]
    } else {
        let prev = first_children(p, blocks, t, n - 1);
        let i = n - 1;
        if p.tracks[i].prevs.len() == 0 && block_free(
            blocks,
            i,
            TimeInterval { time_start: t, time_end: (t + p.tracks[i].travel_time) as u32 },
        ) {
            prev.push((i as TrackRef, t))
        } else {
            prev
        }
    }
}

/// The transfers from `r1`, entered at `t1`, to its first `n` successors.
pub open spec fn next_children(p: &Problem, blocks: Seq<Block>, r1: int, t1: int, n: int) -> Seq<
    (TrackRef, TimeValue),
>
    decreases n,
{
    if n <= 0 {
        seq![]
    } else {
        let r2 = p.tracks[r1].nexts[n - 1];
        next_children(p, blocks, r1, t1, n - 1) + transfer_times(
            p,
            blocks,
            r1,
            t1,
            r2 as int,
        ).map_values(|t2: TimeValue| (r2, t2))
    }
}

/// The children that expanding a node on `track` at `time` creates, in order.
pub open spec fn expansion(p: &Problem, blocks: Seq<Block>, track: TrackRef, time: TimeValue) -> Seq<
    (TrackRef, TimeValue),
> {
    if track == SENTINEL_TRACK {
        first_children(p, blocks, time, p.tracks.len() as int)
    } else {
        let nexts = next_children(p, blocks, track as int, time as int, p.tracks[track as int].nexts.len() as int);
        if p.tracks[track as int].nexts.len() == 0 {
            nexts.push((TRAIN_FINISHED, (time + p.tracks[track as int].travel_time) as u32))
        } else {
            nexts
        }
    }
}

/// What one step of the search does: a finished train becomes the solution;
/// otherwise the children of the current node join the tree and the queue,
/// and the search moves to the most recently queued node, reporting the
/// resource changes of the walk there, or fails when the queue is empty.
pub open spec fn step_post(old: TrainSolver, new: TrainSolver, events: Seq<ResourceUse>) -> bool {
    &&& new.problem == old.problem
    &&& new.train_idx == old.train_idx
    &&& new.blocks == old.blocks
    &&& ({
                let cur = old.nodes@[old.current_node as int];
                cur.track == TRAIN_FINISHED ==> {
                    &&& new.solution == Some(Ok::<usize, ()>(old.current_node))
                    &&& new.nodes == old.nodes
                    &&& new.queued_nodes == old.queued_nodes
                    &&& new.current_node == old.current_node
                    &&& events.len() == 0
                }
            })
    &&& ({
                let cur = old.nodes@[old.current_node as int];
                let kids = expansion(&*old.problem, old.blocks@, cur.track, cur.time);
                let q = old.queued_nodes@ + new_indices(
                    old.nodes.len() as int,
                    kids.len() as int,
                );
                cur.track != TRAIN_FINISHED ==> {
                    &&& new.nodes@ == old.nodes@ + kids.map_values(
                        |c: (TrackRef, TimeValue)| child_node(c, cur.depth + 1, old.current_node),
                    )
                    &&& q.len() == 0 ==> {
                        &&& new.solution == Some(Err::<usize, ()>(()))
                        &&& new.current_node == old.current_node
                        &&& new.queued_nodes@ == q
                        &&& events.len() == 0
                    }
                    &&& q.len() > 0 ==> {
                        &&& new.solution is None
                        &&& new.current_node == q.last()
                        &&& new.queued_nodes@ == q.drop_last()
                        &&& switch_ok(new.nodes@, old.current_node as int, q.last() as int, events)
                        &&& events == walk_events(new.nodes@, old.current_node as int, q.last() as int)
                    }
                }
            })
}

impl TrainSolver {
    /// The invariant of the search: the tree is well formed; every node is
    /// the root, a finished train or a track of the network entered at a time
    /// from which its travel is free of blocks; the blocks are sorted; the
    /// queue and the solution name nodes of the tree.
    pub open spec fn wf(&self) -> bool {
        &&& tree_wf(self.nodes@)
        &&& self.train_idx < self.problem.trains.len()
        &&& self.nodes@[0].track == SENTINEL_TRACK
        &&& self.nodes@[0].time == self.problem.trains[self.train_idx as int].appears_at
        &&& blocks_sorted(self.blocks@)
        &&& forall|i: int|
            0 <= i < self.nodes.len() ==> node_ok(
                &*self.problem,
                self.blocks@,
                (#[trigger] self.nodes@[i]).track,
                self.nodes@[i].time,
            )
        &&& self.current_node < self.nodes.len()
        &&& forall|k: int|
            0 <= k < self.queued_nodes.len() ==> #[trigger] self.queued_nodes@[k] < self.nodes.len()
        &&& (self.solution matches Some(Ok(s)) ==> s < self.nodes.len())
    }

    /// The invariant without the feasibility of the nodes: it holds while
    /// the blocks change, until the search is reset.
    pub open spec fn base_wf(&self) -> bool {
        &&& tree_wf(self.nodes@)
        &&& self.train_idx < self.problem.trains.len()
        &&& self.nodes@[0].track == SENTINEL_TRACK
        &&& self.nodes@[0].time == self.problem.trains[self.train_idx as int].appears_at
        &&& blocks_sorted(self.blocks@)
        &&& self.current_node < self.nodes.len()
    }

    /// The resources the train uses on the path to its current node.
    pub open spec fn current_uses(&self) -> Multiset<(TrackRef, TimeInterval)> {
        path_uses(self.nodes@, self.current_node as int)
    }

    /// The resource changes a reset reports: dropping every use of the path
    /// to the current node.
    pub open spec fn reset_events(&self) -> Seq<ResourceUse> {
        walk_events(self.nodes@, self.current_node as int, 0)
    }

    /// The resource changes the next step reports.
    pub open spec fn step_events(&self) -> Seq<ResourceUse> {
        let cur = self.nodes@[self.current_node as int];
        let kids = expansion(&*self.problem, self.blocks@, cur.track, cur.time);
        let nodes = self.nodes@ + kids.map_values(
            |c: (TrackRef, TimeValue)| child_node(c, cur.depth + 1, self.current_node),
        );
        let q = self.queued_nodes@ + new_indices(self.nodes.len() as int, kids.len() as int);
        if cur.track == TRAIN_FINISHED || q.len() == 0 {
            seq![]
        } else {
            walk_events(nodes, self.current_node as int, q.last() as int)
        }
    }

    /// Expanding the current node stays within the range of `TimeValue`.
    pub open spec fn step_fits(&self) -> bool {
        let t = self.nodes@[self.current_node as int].time;
        &&& forall|r1: int, r2: int|
            0 <= r1 < self.problem.tracks.len() && 0 <= r2 < self.problem.tracks.len() ==> t
                + #[trigger] travel_of(&*self.problem, r1) + #[trigger] travel_of(&*self.problem, r2)
                <= u32::MAX
        &&& forall|j: int, r: int|
            0 <= j < self.blocks.len() && 0 <= r < self.problem.tracks.len() ==> (#[trigger] self.blocks@[j]).interval.time_end
                + #[trigger] travel_of(&*self.problem, r) <= u32::MAX
    }

    /// The root of the search of train `train_idx`: the train before it
    /// enters the network, at the time it appears.
    pub fn start_node(problem: &Problem, train_idx: usize) -> (n: TrainSolverNode)
        requires
            train_idx < problem.trains.len(),
        ensures
            n == (TrainSolverNode {
                track: SENTINEL_TRACK,
                time: problem.trains[train_idx as int].appears_at,
                depth: 0,
                parent: None,
            }),
    {
        TrainSolverNode {
            time: problem.trains[train_idx].appears_at,
            track: SENTINEL_TRACK,
            parent: None,
            depth: 0,
        }
    }

    /// A fresh search for train `train_idx`, without blocks, at its root.
    pub fn new(problem: Rc<Problem>, train_idx: usize) -> (s: Self)
        requires
            train_idx < problem.trains.len(),
        ensures
            s.wf(),
            s.problem == problem,
            s.train_idx == train_idx,
            s.blocks@.len() == 0,
            s.nodes@ == seq![Self::start_node_spec(&*problem, train_idx)],
            s.current_node == 0,
            s.queued_nodes@.len() == 0,
            s.solution is None,
    {
        let root_node = Self::start_node(&problem, train_idx);
        let mut nodes: Vec<TrainSolverNode> = Vec::new();
        nodes.push(root_node);
        let s = TrainSolver {
            problem,
            train_idx,
            blocks: Vec::new(),
            nodes,
            queued_nodes: Vec::new(),
            current_node: 0,
            solution: None,
        };
        proof {
            assert(s.nodes@ =~= seq![Self::start_node_spec(&*s.problem, train_idx)]);
        }
        s
    }

    /// The root node of the search of a train.
    pub open spec fn start_node_spec(problem: &Problem, train_idx: usize) -> TrainSolverNode {
        TrainSolverNode {
            track: SENTINEL_TRACK,
            time: problem.trains[train_idx as int].appears_at,
            depth: 0,
            parent: None,
        }
    }

    /// Whether the search found a route, failed, or is still at work.
    pub fn status(&self) -> (r: TrainSolverStatus)
        ensures
            r is Optimal <==> self.solution matches Some(Ok(_)),
            r is Failed <==> self.solution matches Some(Err(_)),
            r is Working <==> self.solution is None,
    {
        match self.solution {
            Some(Ok(_)) => TrainSolverStatus::Optimal,
            Some(Err(())) => TrainSolverStatus::Failed,
            None => TrainSolverStatus::Working,
        }
    }

    /// Takes the most recently queued node off the queue.
    pub fn select_node(&mut self) -> (r: Option<usize>)
        ensures
            old(self).queued_nodes@.len() == 0 ==> r is None && final(self).queued_nodes@ == old(
                self,
            ).queued_nodes@,
            old(self).queued_nodes@.len() > 0 ==> r == Some(old(self).queued_nodes@.last())
                && final(self).queued_nodes@ == old(self).queued_nodes@.drop_last(),
            final(self).problem == old(self).problem,
            final(self).train_idx == old(self).train_idx,
            final(self).blocks == old(self).blocks,
            final(self).nodes == old(self).nodes,
            final(self).current_node == old(self).current_node,
            final(self).solution == old(self).solution,
    {
        self.queued_nodes.pop()
    }

    /// Moves the search to node `new_node`: walks from the current node and
    /// from the new node up to their common ancestor, and reports the
    /// resource uses to drop on the way up from the current node and those to
    /// add on the way down to the new one.
    pub fn switch_node(&mut self, new_node: usize) -> (events: Vec<ResourceUse>)
        requires
            tree_wf(old(self).nodes@),
            old(self).current_node < old(self).nodes.len(),
            new_node < old(self).nodes.len(),
        ensures
            final(self).current_node == new_node,
            final(self).problem == old(self).problem,
            final(self).train_idx == old(self).train_idx,
            final(self).blocks == old(self).blocks,
            final(self).nodes == old(self).nodes,
            final(self).queued_nodes == old(self).queued_nodes,
            final(self).solution == old(self).solution,
            switch_ok(old(self).nodes@, old(self).current_node as int, new_node as int, events@),
            events@ == walk_events(old(self).nodes@, old(self).current_node as int, new_node as int),
            uses_step(old(self).current_uses(), final(self).current_uses(), events@),
            removed_uses(events@) == path_uses(old(self).nodes@, old(self).current_node as int).sub(
                path_uses(old(self).nodes@, meet_node(old(self).nodes@, old(self).current_node as int, new_node as int))),
            added_uses(events@) == path_uses(old(self).nodes@, new_node as int).sub(
                path_uses(old(self).nodes@, meet_node(old(self).nodes@, old(self).current_node as int, new_node as int))),
    {
        let ghost nodes = self.nodes@;
        let ghost from = self.current_node as int;
        let ghost meet = meet_node(nodes, from, new_node as int);
        let mut backward = self.current_node;
        let mut forward = new_node;
        let mut events: Vec<ResourceUse> = Vec::new();
        proof {
            assert(events@ + walk_events(nodes, from, new_node as int) =~= walk_events(
                nodes,
                from,
                new_node as int,
            ));
            assert(path_uses(nodes, from) =~= path_uses(nodes, from).add(removed_uses(events@)));
            assert(path_uses(nodes, new_node as int) =~= path_uses(nodes, new_node as int).add(
                added_uses(events@),
            ));
        }
        while backward != forward
            invariant
                self.nodes@ == nodes,
                tree_wf(nodes),
                backward < nodes.len(),
                forward < nodes.len(),
                path_uses(nodes, from) == path_uses(nodes, backward as int).add(removed_uses(events@)),
                path_uses(nodes, new_node as int) == path_uses(nodes, forward as int).add(
                    added_uses(events@),
                ),
                events@ + walk_events(nodes, backward as int, forward as int) == walk_events(
                    nodes,
                    from,
                    new_node as int,
                ),
                meet_node(nodes, backward as int, forward as int) == meet,
            decreases nodes[backward as int].depth + nodes[forward as int].depth,
        {
            let bd = self.nodes[backward].depth;
            let fd = self.nodes[forward].depth;
            if bd < fd {
                assert(forward != 0);
                assert(nodes[forward as int].parent is Some);
                let p = self.nodes[forward].parent.unwrap();
                let ghost old_ev = events@;
                proof {
                    assert(walk_events(nodes, backward as int, forward as int) == leave_event(
                        nodes,
                        forward as int,
                        true,
                    ) + walk_events(nodes, backward as int, p as int));
                    assert(meet_node(nodes, backward as int, forward as int) == meet_node(nodes, backward as int, p as int));
                }
                if self.nodes[p].track >= 0 {
                    let u = (
                        true,
                        self.nodes[p].track,
                        TimeInterval { time_start: self.nodes[p].time, time_end: self.nodes[forward].time },
                    );
                    events.push(u);
                    proof {
                        assert(events@.drop_last() =~= old_ev);
                        assert(added_uses(events@) == added_uses(old_ev).insert((u.1, u.2)));
                        assert(path_uses(nodes, forward as int) == path_uses(nodes, p as int).insert((u.1, u.2)));
                        assert(path_uses(nodes, new_node as int) =~= path_uses(nodes, p as int).add(
                            added_uses(events@),
                        ));
                        assert(removed_uses(events@) == removed_uses(old_ev));
                        assert(leave_event(nodes, forward as int, true) =~= seq![u]);
                        assert(events@ + walk_events(nodes, backward as int, p as int) =~= old_ev + (
                        leave_event(nodes, forward as int, true) + walk_events(
                            nodes,
                            backward as int,
                            p as int,
                        )));
                    }
                } else {
                    proof {
                        assert(path_uses(nodes, forward as int) == path_uses(nodes, p as int));
                        assert(leave_event(nodes, forward as int, true) =~= Seq::<ResourceUse>::empty());
                        assert(leave_event(nodes, forward as int, true) + walk_events(
                            nodes,
                            backward as int,
                            p as int,
                        ) =~= walk_events(nodes, backward as int, p as int));
                    }
                }
                forward = p;
            } else {
                if backward == 0 {
                    assert(forward == 0);
                }
                assert(backward != 0);
                assert(nodes[backward as int].parent is Some);
                let p = self.nodes[backward].parent.unwrap();
                let ghost old_ev = events@;
                proof {
                    assert(walk_events(nodes, backward as int, forward as int) == leave_event(
                        nodes,
                        backward as int,
                        false,
                    ) + walk_events(nodes, p as int, forward as int));
                    assert(meet_node(nodes, backward as int, forward as int) == meet_node(nodes, p as int, forward as int));
                }
                if self.nodes[p].track >= 0 {
                    let u = (
                        false,
                        self.nodes[p].track,
                        TimeInterval { time_start: self.nodes[p].time, time_end: self.nodes[backward].time },
                    );
                    events.push(u);
                    proof {
                        assert(events@.drop_last() =~= old_ev);
                        assert(removed_uses(events@) == removed_uses(old_ev).insert((u.1, u.2)));
                        assert(path_uses(nodes, backward as int) == path_uses(nodes, p as int).insert((u.1, u.2)));
                        assert(path_uses(nodes, from) =~= path_uses(nodes, p as int).add(
                            removed_uses(events@),
                        ));
                        assert(added_uses(events@) == added_uses(old_ev));
                        assert(leave_event(nodes, backward as int, false) =~= seq![u]);
                        assert(events@ + walk_events(nodes, p as int, forward as int) =~= old_ev + (
                        leave_event(nodes, backward as int, false) + walk_events(
                            nodes,
                            p as int,
                            forward as int,
                        )));
                    }
                } else {
                    proof {
                        assert(path_uses(nodes, backward as int) == path_uses(nodes, p as int));
                        assert(leave_event(nodes, backward as int, false) =~= Seq::<ResourceUse>::empty());
                        assert(leave_event(nodes, backward as int, false) + walk_events(
                            nodes,
                            p as int,
                            forward as int,
                        ) =~= walk_events(nodes, p as int, forward as int));
                    }
                }
                backward = p;
            }
        }
        proof {
            assert(events@ + walk_events(nodes, backward as int, forward as int) =~= events@);
            let x = path_uses(nodes, backward as int);
            let r = removed_uses(events@);
            let a = added_uses(events@);
            assert(x.add(r).sub(r) =~= x);
            assert(r.subset_of(x.add(r)));
            assert(backward as int == meet);
            assert(x.add(r).sub(x) =~= r);
            assert(x.add(a).sub(x) =~= a);
        }
        self.current_node = new_node;
        events
    }

    /// Moves to the most recently queued node, or fails the search when the
    /// queue is empty.
    pub fn next_node(&mut self) -> (events: Vec<ResourceUse>)
        requires
            tree_wf(old(self).nodes@),
            old(self).current_node < old(self).nodes.len(),
            forall|k: int|
                0 <= k < old(self).queued_nodes.len() ==> #[trigger] old(self).queued_nodes@[k]
                    < old(self).nodes.len(),
        ensures
            final(self).problem == old(self).problem,
            final(self).train_idx == old(self).train_idx,
            final(self).blocks == old(self).blocks,
            final(self).nodes == old(self).nodes,
            old(self).queued_nodes@.len() == 0 ==> {
                &&& final(self).solution == Some(Err::<usize, ()>(()))
                &&& final(self).current_node == old(self).current_node
                &&& final(self).queued_nodes@ == old(self).queued_nodes@
                &&& events@.len() == 0
            },
            old(self).queued_nodes@.len() > 0 ==> {
                &&& final(self).solution == old(self).solution
                &&& final(self).current_node == old(self).queued_nodes@.last()
                &&& final(self).queued_nodes@ == old(self).queued_nodes@.drop_last()
                &&& switch_ok(
                    old(self).nodes@,
                    old(self).current_node as int,
                    old(self).queued_nodes@.last() as int,
                    events@,
                )
                &&& events@ == walk_events(
                    old(self).nodes@,
                    old(self).current_node as int,
                    old(self).queued_nodes@.last() as int,
                )
            },
            uses_step(old(self).current_uses(), final(self).current_uses(), events@),
    {
        if let Some(new_node) = self.select_node() {
            proof {
                assert(old(self).queued_nodes@[old(self).queued_nodes@.len() - 1] == new_node);
            }
            self.switch_node(new_node)
        } else {
            self.solution = Some(Err(()));
            proof {
                lemma_no_change(self.current_uses());
            }
            Vec::new()
        }
    }

    /// Empties the queue, forgets the solution and returns to the root,
    /// dropping every resource use of the current path and every node but
    /// the root.
    pub fn reset(&mut self) -> (events: Vec<ResourceUse>)
        requires
            old(self).base_wf(),
        ensures
            final(self).wf(),
            final(self).problem == old(self).problem,
            final(self).train_idx == old(self).train_idx,
            final(self).blocks == old(self).blocks,
            final(self).nodes@ == old(self).nodes@.take(1),
            final(self).queued_nodes@.len() == 0,
            final(self).current_node == 0,
            final(self).solution is None,
            removed_uses(events@) == old(self).current_uses(),
            added_uses(events@) =~= Multiset::<(TrackRef, TimeInterval)>::empty(),
            events@ == walk_events(old(self).nodes@, old(self).current_node as int, 0),
            uses_step(old(self).current_uses(), final(self).current_uses(), events@),
    {
        self.queued_nodes.clear();
        self.solution = None;
        let events = self.switch_node(0);
        proof {
            let x = path_uses(old(self).nodes@, old(self).current_node as int);
            let r = removed_uses(events@);
            let a = added_uses(events@);
            assert(path_uses(old(self).nodes@, 0) =~= Multiset::empty());
            assert forall|u: (TrackRef, TimeInterval)| a.count(u) == 0 && r.count(u) == x.count(u) by {
                assert(x.sub(r).add(a).count(u) == 0);
            }
            assert(a =~= Multiset::empty());
            assert(r =~= x);
        }
        self.nodes.truncate(1);
        proof {
            let n = self.nodes@;
            assert(n.len() == 1);
            assert(n[0] == old(self).nodes@[0]);
        }
        events
    }

    /// Puts a block on `track` during `interval` and restarts the search.
    pub fn add_constraint(&mut self, track: TrackRef, interval: TimeInterval) -> (events: Vec<
        ResourceUse,
    >)
        requires
            old(self).base_wf(),
        ensures
            final(self).wf(),
            forall|b: Block|
                final(self).blocks@.contains(b) <==> (old(self).blocks@.contains(b) || b == (Block {
                    track,
                    interval,
                })),
            final(self).problem == old(self).problem,
            final(self).train_idx == old(self).train_idx,
            final(self).nodes@ == old(self).nodes@.take(1),
            final(self).queued_nodes@.len() == 0,
            final(self).current_node == 0,
            final(self).solution is None,
            removed_uses(events@) == old(self).current_uses(),
            added_uses(events@) =~= Multiset::<(TrackRef, TimeInterval)>::empty(),
            events@ == walk_events(old(self).nodes@, old(self).current_node as int, 0),
            uses_step(old(self).current_uses(), final(self).current_uses(), events@),
    {
        let b = Block { interval, track };
        insert_block(&mut self.blocks, b);
        self.reset()
    }

    /// Takes the block on `track` during `interval` away and restarts the
    /// search.
    pub fn remove_constraint(&mut self, track: TrackRef, interval: TimeInterval) -> (events: Vec<
        ResourceUse,
    >)
        requires
            old(self).base_wf(),
            old(self).blocks@.contains(Block { track, interval }),
        ensures
            final(self).wf(),
            forall|b: Block|
                final(self).blocks@.contains(b) <==> (old(self).blocks@.contains(b) && b != (Block {
                    track,
                    interval,
                })),
            final(self).problem == old(self).problem,
            final(self).train_idx == old(self).train_idx,
            final(self).nodes@ == old(self).nodes@.take(1),
            final(self).queued_nodes@.len() == 0,
            final(self).current_node == 0,
            final(self).solution is None,
            removed_uses(events@) == old(self).current_uses(),
            added_uses(events@) =~= Multiset::<(TrackRef, TimeInterval)>::empty(),
            events@ == walk_events(old(self).nodes@, old(self).current_node as int, 0),
            uses_step(old(self).current_uses(), final(self).current_uses(), events@),
    {
        let b = Block { interval, track };
        remove_block(&mut self.blocks, b);
        self.reset()
    }

    /// Appends the children `kids` of node `parent`, at `depth`, to the tree
    /// and to the queue, in their order.
    fn push_children(&mut self, kids: &Vec<(TrackRef, TimeValue)>, depth: u32, parent: usize)
        requires
            tree_wf(old(self).nodes@),
            parent < old(self).nodes.len(),
            depth == old(self).nodes@[parent as int].depth + 1,
        ensures
            final(self).nodes@ == old(self).nodes@ + kids@.map_values(
                |c: (TrackRef, TimeValue)| child_node(c, depth as int, parent),
            ),
            final(self).queued_nodes@ == old(self).queued_nodes@ + new_indices(
                old(self).nodes.len() as int,
                kids.len() as int,
            ),
            tree_wf(final(self).nodes@),
            final(self).problem == old(self).problem,
            final(self).train_idx == old(self).train_idx,
            final(self).blocks == old(self).blocks,
            final(self).current_node == old(self).current_node,
            final(self).solution == old(self).solution,
    {
        let ghost old_nodes = self.nodes@;
        let ghost old_queue = self.queued_nodes@;
        let mut k: usize = 0;
        while k < kids.len()
            invariant
                k <= kids.len(),
                parent < old_nodes.len(),
                tree_wf(old_nodes),
                depth == old_nodes[parent as int].depth + 1,
                self.nodes@ == old_nodes + kids@.take(k as int).map_values(
                    |c: (TrackRef, TimeValue)| child_node(c, depth as int, parent),
                ),
                self.queued_nodes@ == old_queue + new_indices(old_nodes.len() as int, k as int),
                tree_wf(self.nodes@),
                self.problem == old(self).problem,
                self.train_idx == old(self).train_idx,
                self.blocks == old(self).blocks,
                self.current_node == old(self).current_node,
                self.solution == old(self).solution,
            decreases kids.len() - k,
        {
            let c = kids[k];
            let idx = self.nodes.len();
            let node = TrainSolverNode { track: c.0, time: c.1, depth, parent: Some(parent) };
            self.nodes.push(node);
            self.queued_nodes.push(idx);
            proof {
                assert(kids@.take(k + 1) =~= kids@.take(k as int).push(c));
                assert(self.nodes@ =~= old_nodes + kids@.take(k + 1).map_values(
                    |c: (TrackRef, TimeValue)| child_node(c, depth as int, parent),
                ));
                assert(self.queued_nodes@ =~= old_queue + new_indices(old_nodes.len() as int, k + 1));
                let n = self.nodes@;
                assert(n[parent as int] == old_nodes[parent as int]);
                assert forall|i: int| 0 < i < n.len() implies {
                    &&& (#[trigger] n[i]).parent is Some
                    &&& 0 <= parent_of(n[i]) < i
                    &&& n[i].depth == n[parent_of(n[i])].depth + 1
                    &&& n[i].depth <= i
                } by {
                    if i < n.len() - 1 {
                        assert(n[i] == self.nodes@.drop_last()[i]);
                    }
                }
            }
            k += 1;
        }
        proof {
            assert(kids@.take(kids.len() as int) =~= kids@);
        }
    }

    /// The children of node `cur`, which is not a finished train: the first
    /// route segments of the root, or the transfers to the successors of its
    /// track, or leaving the network from a track without successors.
    fn expand(&self, cur: TrainSolverNode) -> (kids: Vec<(TrackRef, TimeValue)>)
        requires
            self.wf(),
            blocks_nonempty(self.blocks@),
            network_wf(&*self.problem),
            cur == self.nodes@[self.current_node as int],
            cur.track != TRAIN_FINISHED,
            self.step_fits(),
        ensures
            kids@ == expansion(&*self.problem, self.blocks@, cur.track, cur.time),
            forall|k: int|
                0 <= k < kids.len() ==> node_ok(
                    &*self.problem,
                    self.blocks@,
                    (#[trigger] kids@[k]).0,
                    kids@[k].1,
                ),
    {
        let ghost p = &*self.problem;
        let t = cur.time;
        let mut kids: Vec<(TrackRef, TimeValue)> = Vec::new();
        assert(node_ok(p, self.blocks@, cur.track, cur.time));
        if cur.track == SENTINEL_TRACK {
            let n = self.problem.tracks.len();
            let mut i: usize = 0;
            while i < n
                invariant
                    i <= n,
                    n == p.tracks.len(),
                    p == &*self.problem,
                    network_wf(p),
                    self.step_fits(),
                    t == self.nodes@[self.current_node as int].time,
                    kids@ == first_children(p, self.blocks@, t, i as int),
                    forall|k: int|
                        0 <= k < kids.len() ==> node_ok(p, self.blocks@, (#[trigger] kids@[k]).0, kids@[k].1),
                decreases n - i,
            {
                if self.problem.tracks[i].prevs.len() == 0 {
                    let tt = self.problem.tracks[i].travel_time;
                    proof {
                        assert(travel_of(p, i as int) == tt);
                        assert(t + travel_of(p, i as int) + travel_of(p, i as int) <= u32::MAX);
                    }
                    let interval = TimeInterval::duration(t, tt);
                    if block_available(&self.blocks, Block { track: i as TrackRef, interval }) {
                        kids.push((i as TrackRef, t));
                        proof {
                            assert(kids@.last() == (i as TrackRef, t));
                        }
                    }
                }
                i += 1;
            }
        } else {
            let r1 = cur.track;
            assert(0 <= r1 < p.tracks.len());
            let nexts_len = self.problem.tracks[r1 as usize].nexts.len();
            let mut j: usize = 0;
            proof {
                lemma_exit_after_free(p, self.blocks@, r1 as int, t as int);
            }
            while j < nexts_len
                invariant
                    j <= nexts_len,
                    0 <= r1 < p.tracks.len(),
                    nexts_len == p.tracks[r1 as int].nexts.len(),
                    p == &*self.problem,
                    network_wf(p),
                    self.step_fits(),
                    blocks_nonempty(self.blocks@),
                    t == self.nodes@[self.current_node as int].time,
                    forall|jj: int|
                        0 <= jj < self.blocks.len() && crate::heuristic::blocks::at_or_after(
                            #[trigger] self.blocks@[jj],
                            r1 as int,
                            t as int,
                        ) ==> self.blocks@[jj].interval.time_start >= t + travel_of(p, r1 as int),
                    kids@ == next_children(p, self.blocks@, r1 as int, t as int, j as int),
                    forall|k: int|
                        0 <= k < kids.len() ==> node_ok(p, self.blocks@, (#[trigger] kids@[k]).0, kids@[k].1),
                decreases nexts_len - j,
            {
                let r2 = self.problem.tracks[r1 as usize].nexts[j];
                proof {
                    assert(0 <= r2 < p.tracks.len());
                    assert(t + travel_of(p, r1 as int) + travel_of(p, r2 as int) <= u32::MAX);
                    assert forall|jj: int|
                        0 <= jj < self.blocks.len() && (#[trigger] self.blocks@[jj]).track == r2 implies self.blocks@[jj].interval.time_end
                            + travel_of(p, r2 as int) <= u32::MAX by {
                        assert(self.blocks@[jj].interval.time_end + travel_of(p, r2 as int) <= u32::MAX);
                    }
                    assert forall|jj: int|
                        0 <= jj < self.blocks.len() && crate::heuristic::blocks::at_or_after(
                            #[trigger] self.blocks@[jj],
                            r2 as int,
                            t + travel_of(p, r1 as int),
                        ) implies self.blocks@[jj].interval.time_end >= t + travel_of(p, r1 as int) by {
                        assert(self.blocks@[jj].interval.time_start < self.blocks@[jj].interval.time_end);
                    }
                }
                let times = valid_transfer_times(&self.problem, &self.blocks, r1, t, r2);
                let ghost before = kids@;
                let mut k: usize = 0;
                while k < times.len()
                    invariant
                        k <= times.len(),
                        0 <= r2 < p.tracks.len(),
                        p == &*self.problem,
                        kids@ == before + times@.take(k as int).map_values(|t2: TimeValue| (r2, t2)),
                        forall|q: int|
                            0 <= q < before.len() ==> node_ok(p, self.blocks@, (#[trigger] before[q]).0, before[q].1),
                        forall|q: int|
                            0 <= q < times.len() ==> transfer_ok(
                                self.blocks@,
                                r2 as int,
                                latest_exit_value(self.blocks@, r1 as int, t as int),
                                travel_of(p, r2 as int),
                                #[trigger] times@[q],
                            ),
                        forall|q: int|
                            0 <= q < kids.len() ==> node_ok(p, self.blocks@, (#[trigger] kids@[q]).0, kids@[q].1),
                    decreases times.len() - k,
                {
                    kids.push((r2, times[k]));
                    proof {
                        assert(times@.take(k + 1) =~= times@.take(k as int).push(times@[k as int]));
                        assert(kids@ =~= before + times@.take(k + 1).map_values(|t2: TimeValue| (r2, t2)));
                        assert(transfer_ok(
                            self.blocks@,
                            r2 as int,
                            latest_exit_value(self.blocks@, r1 as int, t as int),
                            travel_of(p, r2 as int),
                            times@[k as int],
                        ));
                        assert(kids@[kids.len() - 1] == (r2, times@[k as int]));
                    }
                    k += 1;
                }
                proof {
                    assert(times@.take(times.len() as int) =~= times@);
                    assert(p.tracks[r1 as int].nexts[j as int] == r2);
                }
                j += 1;
            }
            if nexts_len == 0 {
                let tt = self.problem.tracks[r1 as usize].travel_time;
                proof {
                    assert(travel_of(p, r1 as int) == tt);
                    assert(t + travel_of(p, r1 as int) + travel_of(p, r1 as int) <= u32::MAX);
                }
                kids.push((TRAIN_FINISHED, t + tt));
                proof {
                    assert(kids@.last() == (TRAIN_FINISHED, (t + tt) as u32));
                }
            }
        }
        kids
    }

    /// One step of the search: a finished train is the solution; otherwise
    /// the current node is expanded, its children are queued, and the search
    /// moves to the most recently queued node (or fails when there is none).
    pub fn step(&mut self) -> (events: Vec<ResourceUse>)
        requires
            old(self).wf(),
            blocks_nonempty(old(self).blocks@),
            old(self).solution is None,
            network_wf(&*old(self).problem),
            old(self).step_fits(),
            old(self).nodes.len() < u32::MAX,
        ensures
            final(self).wf(),
            step_post(*old(self), *final(self), events@),
            events@ == old(self).step_events(),
            uses_step(old(self).current_uses(), final(self).current_uses(), events@),
    {
        let cur_idx = self.current_node;
        let cur = self.nodes[cur_idx];
        if cur.track == TRAIN_FINISHED {
            self.solution = Some(Ok(cur_idx));
            proof {
                lemma_no_change(self.current_uses());
            }
            return Vec::new();
        }
        let kids = self.expand(cur);
        proof {
            assert(cur.depth <= cur_idx);
        }
        self.push_children(&kids, cur.depth + 1, cur_idx);
        proof {
            let n = self.nodes@;
            let on = old(self).nodes@;
            assert forall|i: int| 0 <= i < n.len() implies node_ok(
                &*self.problem,
                self.blocks@,
                (#[trigger] n[i]).track,
                n[i].time,
            ) by {
                if i < on.len() {
                    assert(n[i] == on[i]);
                } else {
                    assert(n[i] == child_node(kids@[i - on.len()], cur.depth + 1, cur_idx));
                }
            }
            assert forall|k: int| 0 <= k < self.queued_nodes.len() implies #[trigger] self.queued_nodes@[k]
                < self.nodes.len() by {
                if k >= old(self).queued_nodes.len() {
                    assert(self.queued_nodes@[k] == new_indices(on.len() as int, kids.len() as int)[k
                        - old(self).queued_nodes.len()]);
                }
            }
            let more = n.subrange(on.len() as int, n.len() as int);
            assert(n =~= on + more);
            lemma_path_uses_extend(on, more, cur_idx as int);
            assert(self.current_uses() == old(self).current_uses());
        }
        self.next_node()
    }
}

/// A track entered at `t` with free travel cannot be left before its travel
/// time has passed.
proof fn lemma_exit_after_free(p: &Problem, blocks: Seq<Block>, r: int, t: int)
    requires
        0 <= r < p.tracks.len(),
        blocks_nonempty(blocks),
        block_free(
            blocks,
            r,
            TimeInterval { time_start: t as u32, time_end: (t + travel_of(p, r)) as u32 },
        ),
        0 <= t,
        t + travel_of(p, r) <= u32::MAX,
    ensures
        forall|j: int|
            0 <= j < blocks.len() && crate::heuristic::blocks::at_or_after(#[trigger] blocks[j], r, t)
                ==> blocks[j].interval.time_start >= t + travel_of(p, r),
{
    assert forall|j: int|
        0 <= j < blocks.len() && crate::heuristic::blocks::at_or_after(#[trigger] blocks[j], r, t)
            implies blocks[j].interval.time_start >= t + travel_of(p, r) by {
        assert(blocks[j].interval.time_start < blocks[j].interval.time_end);
    }
}


/// Putting a block that is not there on a track and then taking it away
/// again leaves the same blocks, and the search back at its root with
/// nothing queued and no solution: `s1` is `s0` after `add_constraint` and
/// `s2` is `s1` after `remove_constraint`, as their contracts describe them.
pub proof fn add_then_remove_restores(s0: TrainSolver, s1: TrainSolver, s2: TrainSolver, track: TrackRef, interval: TimeInterval)
    requires
        s0.nodes@.len() >= 1,
        !s0.blocks@.contains(Block { track, interval }),
        forall|b: Block| #[trigger] s1.blocks@.contains(b) <==> (s0.blocks@.contains(b) || b == (Block { track, interval })),
        s1.nodes@ == s0.nodes@.take(1),
        forall|b: Block| #[trigger] s2.blocks@.contains(b) <==> (s1.blocks@.contains(b) && b != (Block { track, interval })),
        s2.nodes@ == s1.nodes@.take(1),
        s2.queued_nodes@.len() == 0,
        s2.current_node == 0,
        s2.solution is None,
    ensures
        forall|b: Block| #[trigger] s2.blocks@.contains(b) <==> s0.blocks@.contains(b),
        s2.nodes@ == s0.nodes@.take(1),
        s2.queued_nodes@.len() == 0,
        s2.current_node == 0,
        s2.solution is None,
{
    assert(s0.nodes@.take(1).take(1) =~= s0.nodes@.take(1));
    assert forall|b: Block| #[trigger] s2.blocks@.contains(b) <==> s0.blocks@.contains(b) by {
        if s0.blocks@.contains(b) {
            assert(s1.blocks@.contains(b));
        }
    }
}


/// One call's changes turn the uses `u0` before it into the uses `u1`
/// after it: they remove only uses there were, and what remains together
/// with what they add is `u1`.
pub open spec fn uses_step(
    u0: Multiset<(TrackRef, TimeInterval)>,
    u1: Multiset<(TrackRef, TimeInterval)>,
    ev: Seq<ResourceUse>,
) -> bool {
    &&& removed_uses(ev).subset_of(u0)
    &&& u0.sub(removed_uses(ev)).add(added_uses(ev)) == u1
}

/// The uses that the changes of several calls remove, together.
pub open spec fn total_removed(evs: Seq<Seq<ResourceUse>>) -> Multiset<(TrackRef, TimeInterval)>
    decreases evs.len(),
{
    if evs.len() == 0 {
        Multiset::empty()
    } else {
        total_removed(evs.drop_last()).add(removed_uses(evs.last()))
    }
}

/// The uses that the changes of several calls add, together.
pub open spec fn total_added(evs: Seq<Seq<ResourceUse>>) -> Multiset<(TrackRef, TimeInterval)>
    decreases evs.len(),
{
    if evs.len() == 0 {
        Multiset::empty()
    } else {
        total_added(evs.drop_last()).add(added_uses(evs.last()))
    }
}

/// Over a run of calls, each of whose changes turns the uses before it into
/// the uses after it (as the search's calls promise of the uses of the path
/// to the current node), the uses at the end together with everything the
/// changes removed are the uses at the start together with everything they
/// added: counting the added changes up and the removed ones down gives the
/// uses of the current path.
pub proof fn changes_track_uses(uses: Seq<Multiset<(TrackRef, TimeInterval)>>, evs: Seq<Seq<ResourceUse>>)
    requires
        uses.len() == evs.len() + 1,
        forall|i: int| 0 <= i < evs.len() ==> #[trigger] uses_step(uses[i], uses[i + 1], evs[i]),
    ensures
        uses.last().add(total_removed(evs)) == uses[0].add(total_added(evs)),
    decreases evs.len(),
{
    if evs.len() > 0 {
        let k = evs.len() - 1;
        let u2 = uses.drop_last();
        let e2 = evs.drop_last();
        assert forall|i: int| 0 <= i < e2.len() implies #[trigger] uses_step(u2[i], u2[i + 1], e2[i]) by {
            assert(uses_step(uses[i], uses[i + 1], evs[i]));
        }
        changes_track_uses(u2, e2);
        assert(uses_step(uses[k], uses[k + 1], evs[k]));
        let r = removed_uses(evs[k]);
        let a = added_uses(evs[k]);
        assert(uses[k + 1].add(r) =~= uses[k].add(a)) by {
            assert forall|x: (TrackRef, TimeInterval)| #[trigger] uses[k + 1].add(r).count(x) == uses[k].add(a).count(x) by {
                assert(r.count(x) <= uses[k].count(x));
            }
        }
        assert(u2.last() == uses[k]);
        assert(evs.last() == evs[k]);
        assert(u2[0] == uses[0]);
        assert(total_removed(evs) == total_removed(e2).add(r));
        assert(total_added(evs) == total_added(e2).add(a));
        assert forall|x: (TrackRef, TimeInterval)| #[trigger] uses.last().add(total_removed(evs)).count(x)
            == uses[0].add(total_added(evs)).count(x) by {
            assert(uses[k].add(total_removed(e2)).count(x) == uses[0].add(total_added(e2)).count(x));
            assert(uses[k + 1].add(r).count(x) == uses[k].add(a).count(x));
        }
        assert(uses.last().add(total_removed(evs)) =~= uses[0].add(total_added(evs)));
    }
}

/// Extending the tree keeps the uses of the paths to the nodes it had.
proof fn lemma_path_uses_extend(nodes: Seq<TrainSolverNode>, more: Seq<TrainSolverNode>, i: int)
    requires
        tree_wf(nodes),
        0 <= i < nodes.len(),
    ensures
        path_uses(nodes + more, i) == path_uses(nodes, i),
    decreases i,
{
    let n2 = nodes + more;
    assert(n2[i] == nodes[i]);
    let p = parent_of(nodes[i]);
    if 0 <= p < i {
        lemma_path_uses_extend(nodes, more, p);
        assert(n2[p] == nodes[p]);
        assert(node_use(n2, i) == node_use(nodes, i));
    }
}

/// A call without changes keeps the uses.
proof fn lemma_no_change(u: Multiset<(TrackRef, TimeInterval)>)
    ensures
        uses_step(u, u, Seq::<ResourceUse>::empty()),
{
    assert(removed_uses(Seq::<ResourceUse>::empty()) =~= Multiset::empty());
    assert(added_uses(Seq::<ResourceUse>::empty()) =~= Multiset::empty());
    assert(u.sub(Multiset::empty()).add(Multiset::empty()) =~= u);
}


} // verus!
