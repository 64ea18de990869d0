//! A tree of cost levels for one visit: each node is a variable that means
//! "the cost is at least this", and implies the variable of the level below.
use vstd::prelude::*;
use crate::ddd::lits::{BoolLit, add_bool_clause, solver_clause};
use crate::maxsatsolver::{MaxSatSolver, neg};

verus! {

/// A cost level: its cost, the level below it (if any) and its variable.
#[derive(Clone, Copy, Debug, PartialEq, Eq)]
pub struct CostTreeNode {
    pub cost: usize,
    pub parent: Option<usize>,
    pub literal: isize,
}

/// The cost levels of one visit, in the order they were added.
#[derive(Debug)]
pub struct CostTree {
    pub nodes: Vec<CostTreeNode>,
}

/// The tree is well formed over the variables `1..=nv`: costs are positive
/// and distinct, variables are in range, and each level's parent comes
/// earlier and has a lower cost.
pub open spec fn tree_wf(ns: Seq<CostTreeNode>, nv: int) -> bool {
    &&& forall|i: int| 0 <= i < ns.len() ==> 0 < #[trigger] ns[i].cost
    &&& forall|i: int| 0 <= i < ns.len() ==> 1 <= #[trigger] ns[i].literal <= nv
    &&& forall|i: int, j: int|
        0 <= i < ns.len() && 0 <= j < ns.len() && i != j ==> #[trigger] ns[i].cost
            != #[trigger] ns[j].cost
    &&& forall|i: int|
        0 <= i < ns.len() ==> match #[trigger] ns[i].parent {
            None => true,
            Some(p) => 0 <= p < i && ns[p as int].cost < ns[i].cost,
        }
}

/// Some level has cost `c`.
pub open spec fn has_cost(ns: Seq<CostTreeNode>, c: int) -> bool {
    exists|i: int| 0 <= i < ns.len() && #[trigger] ns[i].cost == c
}

/// Among the first `k` levels, the one with the largest cost below `c` (the
/// last of them on a tie).
pub open spec fn max_below_upto(ns: Seq<CostTreeNode>, c: int, k: int) -> Option<usize>
    decreases k,
{
    if k <= 0 {
        None
    } else {
        let prev = max_below_upto(ns, c, k - 1);
        if ns[k - 1].cost < c && (prev is None || ns[prev->0 as int].cost <= ns[k - 1].cost) {
            Some((k - 1) as usize)
        } else {
            prev
        }
    }
}

/// The level with the largest cost below `c`.
pub open spec fn max_below(ns: Seq<CostTreeNode>, c: int) -> Option<usize> {
    max_below_upto(ns, c, ns.len() as int)
}

/// The cost of a level, 0 for none.
pub open spec fn cost_of(ns: Seq<CostTreeNode>, p: Option<usize>) -> int {
    match p {
        None => 0,
        Some(i) => ns[i as int].cost as int,
    }
}

/// The first new cost level when `c` is added: levels closer than 10 to the
/// level below are filled in one by one.
pub open spec fn first_new(ns: Seq<CostTreeNode>, c: int) -> int {
    let pc = cost_of(ns, max_below(ns, c));
    if c - pc < 10 {
        pc + 1
    } else {
        c
    }
}

/// How many levels adding `c` creates.
pub open spec fn n_new(ns: Seq<CostTreeNode>, c: int) -> int {
    if has_cost(ns, c) {
        0
    } else {
        c - first_new(ns, c) + 1
    }
}

/// The `j`-th level that adding `c` creates, with the variables numbered on
/// from `n0`.
pub open spec fn new_node(ns: Seq<CostTreeNode>, c: int, n0: int, j: int) -> CostTreeNode {
    CostTreeNode {
        cost: (first_new(ns, c) + j) as usize,
        parent: if j == 0 {
            max_below(ns, c)
        } else {
            Some((ns.len() + j - 1) as usize)
        },
        literal: (n0 + j + 1) as isize,
    }
}

/// The levels after adding `c`.
pub open spec fn grown(ns: Seq<CostTreeNode>, c: int, n0: int) -> Seq<CostTreeNode> {
    ns + Seq::new(n_new(ns, c) as nat, |j: int| new_node(ns, c, n0, j))
}

/// What adding `c` reports of the `j`-th new level: the cost it adds over
/// its parent, and its variable.
pub open spec fn new_notice(ns: Seq<CostTreeNode>, c: int, n0: int, j: int) -> (usize, BoolLit) {
    let gap = if j == 0 {
        first_new(ns, c) - cost_of(ns, max_below(ns, c))
    } else {
        1
    };
    (gap as usize, BoolLit::Lit((n0 + j + 1) as isize))
}

/// The clause that the `j`-th new level implies its parent, as literals.
pub open spec fn parent_clause(ns: Seq<CostTreeNode>, c: int, n0: int, j: int) -> Seq<BoolLit> {
    let parent_lit = if j == 0 {
        match max_below(ns, c) {
            None => BoolLit::Const(true),
            Some(p) => BoolLit::Lit(ns[p as int].literal),
        }
    } else {
        BoolLit::Lit((n0 + j) as isize)
    };
    seq![BoolLit::Lit(neg((n0 + j + 1) as isize)), parent_lit]
}

/// The hard clauses after the first `j` new levels.
pub open spec fn clauses_after(
    hard: Seq<Seq<isize>>,
    ns: Seq<CostTreeNode>,
    c: int,
    n0: int,
    j: int,
) -> Seq<Seq<isize>>
    decreases j,
{
    if j <= 0 {
        hard
    } else {
        let prev = clauses_after(hard, ns, c, n0, j - 1);
        match solver_clause(parent_clause(ns, c, n0, j - 1)) {
            Some(x) => prev.push(x),
            None => prev,
        }
    }
}

/// A level is on the frontier of `c`: its cost is at least `c` and its
/// parent's is below.
pub open spec fn in_frontier(ns: Seq<CostTreeNode>, c: int, i: int) -> bool {
    ns[i].cost >= c && match ns[i].parent {
        None => true,
        Some(p) => ns[p as int].cost < c,
    }
}

/// The variables of the frontier levels among the first `k`, in order.
pub open spec fn frontier_upto(ns: Seq<CostTreeNode>, c: int, k: int) -> Seq<isize>
    decreases k,
{
    if k <= 0 {
        seq![]
    } else {
        let f = frontier_upto(ns, c, k - 1);
        if in_frontier(ns, c, k - 1) {
            f.push(ns[k - 1].literal)
        } else {
            f
        }
    }
}

/// The clause that `input` implies a level of cost at least `c`.
pub open spec fn input_clause(ns: Seq<CostTreeNode>, c: int, input: BoolLit) -> Seq<BoolLit> {
    seq![input.negated()] + frontier_upto(ns, c, ns.len() as int).map_values(
        |l: isize| BoolLit::Lit(l),
    )
}

impl CostTree {
    /// An empty tree.
    pub fn new() -> (r: Self)
        ensures
            r.nodes@ == Seq::<CostTreeNode>::empty(),
    {
        CostTree { nodes: Vec::new() }
    }

    /// Adds cost level `cost` for `input`: when there is no level `cost`
    /// yet, it is created, and with it, when the level below is closer than
    /// 10, each level in between; each new level gets a fresh variable that
    /// implies the variable of the level below, and is reported with the
    /// cost it adds to that level. Then `input` is made to imply one of the
    /// levels of cost at least `cost` that lie just above a lower level.
    pub fn add_cost<S: MaxSatSolver + ?Sized>(
        &mut self,
        solver: &mut S,
        input: BoolLit,
        cost: usize,
        notify_vars: &mut Vec<(usize, BoolLit)>,
    )
        requires
            cost > 0,
            0 <= old(solver).num_vars(),
            old(solver).num_vars() + cost < isize::MAX,
            tree_wf(old(self).nodes@, old(solver).num_vars()),
            input.within(old(solver).num_vars()),
            old(self).nodes@.len() + cost < usize::MAX,
        ensures
            ({
                let ns = old(self).nodes@;
                let n0 = old(solver).num_vars();
                let k = n_new(ns, cost as int);
                &&& final(self).nodes@ == grown(ns, cost as int, n0)
                &&& final(solver).num_vars() == n0 + k
                &&& final(notify_vars)@ == old(notify_vars)@ + Seq::new(
                    k as nat,
                    |j: int| new_notice(ns, cost as int, n0, j),
                )
                &&& final(solver).hard_clauses() == match solver_clause(
                    input_clause(grown(ns, cost as int, n0), cost as int, input),
                ) {
                    Some(x) => clauses_after(old(solver).hard_clauses(), ns, cost as int, n0, k).push(
                        x,
                    ),
                    None => clauses_after(old(solver).hard_clauses(), ns, cost as int, n0, k),
                }
                &&& tree_wf(final(self).nodes@, final(solver).num_vars())
            }),
    {
        let ghost ns = self.nodes@;
        let ghost n0 = solver.num_vars();
        let ghost hard0 = solver.hard_clauses();
        let ghost c = cost as int;
        // Is the level there, and which level lies below it?
        let mut present = false;
        let mut pidx: Option<usize> = None;
        let mut i: usize = 0;
        while i < self.nodes.len()
            invariant
                self.nodes@ == ns,
                c == cost as int,
                i <= ns.len(),
                present == exists|q: int| 0 <= q < i && #[trigger] ns[q].cost == c,
                pidx == max_below_upto(ns, c, i as int),
                pidx matches Some(p) ==> p < i,
            decreases ns.len() - i,
        {
            let ghost present0 = present;
            let ghost pidx0 = pidx;
            if self.nodes[i].cost == cost {
                present = true;
            }
            if self.nodes[i].cost < cost && match pidx {
                None => true,
                Some(p) => self.nodes[p].cost <= self.nodes[i].cost,
            } {
                pidx = Some(i);
            }
            proof {
                assert(max_below_upto(ns, c, i + 1) == if ns[i as int].cost < c && (pidx0 is None
                    || ns[pidx0->0 as int].cost <= ns[i as int].cost) {
                    Some(i)
                } else {
                    pidx0
                });
                if present0 {
                    let q = choose|q: int| 0 <= q < i && #[trigger] ns[q].cost == c;
                    assert(0 <= q < i + 1 && ns[q].cost == c);
                }
                if ns[i as int].cost == c {
                    assert(exists|q: int| 0 <= q < i + 1 && #[trigger] ns[q].cost == c);
                } else if exists|q: int| 0 <= q < i + 1 && #[trigger] ns[q].cost == c {
                    let q = choose|q: int| 0 <= q < i + 1 && #[trigger] ns[q].cost == c;
                    assert(q < i);
                }
            }
            i = i + 1;
        }
        proof {
            assert(present == has_cost(ns, c));
            lemma_max_below(ns, c, ns.len() as int);
        }
        let ghost k = n_new(ns, c);
        if !present {
            let pcost = match pidx {
                Some(p) => self.nodes[p].cost,
                None => 0,
            };
            let first = if cost - pcost < 10 {
                pcost + 1
            } else {
                cost
            };
            let mut cur = first;
            let mut parent = pidx;
            let mut parent_cost = pcost;
            let mut parent_lit = match pidx {
                Some(p) => BoolLit::Lit(self.nodes[p].literal),
                None => BoolLit::Const(true),
            };
            while cur <= cost
                invariant
                    first == first_new(ns, c),
                    pcost == cost_of(ns, max_below(ns, c)),
                    k == c - first + 1,
                    first <= cur <= cost + 1,
                    cost <= c,
                    c == cost,
                    0 < first,
                    solver.num_vars() == n0 + (cur - first),
                    n0 + cost < isize::MAX,
                    0 <= n0,
                    self.nodes@ == ns + Seq::new(
                        (cur - first) as nat,
                        |j: int| new_node(ns, c, n0, j),
                    ),
                    notify_vars@ == old(notify_vars)@ + Seq::new(
                        (cur - first) as nat,
                        |j: int| new_notice(ns, c, n0, j),
                    ),
                    solver.hard_clauses() == clauses_after(hard0, ns, c, n0, cur - first),
                    cur == first ==> parent == max_below(ns, c) && parent_cost == pcost,
                    cur > first ==> self.nodes@.len() > 0 && parent == Some((self.nodes@.len() - 1) as usize) && parent_cost
                        == cur - 1,
                    parent_lit == parent_clause(ns, c, n0, cur - first)[1],
                decreases cost + 1 - cur,
            {
                let ghost j = cur - first;
                let v = solver.new_var();
                let not_v = -v;
                let clause = vec![BoolLit::Lit(not_v), parent_lit];
                proof {
                    assert(clause@ == parent_clause(ns, c, n0, j));
                }
                add_bool_clause(solver, clause.as_slice());
                let node = CostTreeNode { cost: cur, parent, literal: v };
                proof {
                    assert(node == new_node(ns, c, n0, j));
                }
                self.nodes.push(node);
                notify_vars.push((cur - parent_cost, BoolLit::Lit(v)));
                proof {
                    assert(self.nodes@ =~= ns + Seq::new(
                        (j + 1) as nat,
                        |q: int| new_node(ns, c, n0, q),
                    ));
                    assert(notify_vars@ =~= old(notify_vars)@ + Seq::new(
                        (j + 1) as nat,
                        |q: int| new_notice(ns, c, n0, q),
                    ));
                }
                parent = Some(self.nodes.len() - 1);
                parent_cost = cur;
                parent_lit = BoolLit::Lit(v);
                cur = cur + 1;
            }
        }
        proof {
            assert(self.nodes@ =~= grown(ns, c, n0));
            lemma_grown_wf(ns, c, n0);
        }
        // The input implies a level of cost at least `cost`.
        let ghost gs = self.nodes@;
        let mut clause: Vec<BoolLit> = vec![input.not()];
        let mut q: usize = 0;
        while q < self.nodes.len()
            invariant
                self.nodes@ == gs,
                c == cost as int,
                tree_wf(gs, solver.num_vars()),
                q <= gs.len(),
                clause@ == seq![input.negated()] + frontier_upto(gs, c, q as int).map_values(
                    |l: isize| BoolLit::Lit(l),
                ),
            decreases gs.len() - q,
        {
            let ghost before = frontier_upto(gs, c, q as int);
            let node = self.nodes[q];
            let on = node.cost >= cost && match node.parent {
                None => true,
                Some(p) => self.nodes[p].cost < cost,
            };
            proof {
                assert(node == gs[q as int]);
                if let Some(p) = node.parent {
                    assert(self.nodes@[p as int] == gs[p as int]);
                }
                assert(on == in_frontier(gs, c, q as int));
            }
            if on {
                clause.push(BoolLit::Lit(node.literal));
            }
            proof {
                assert(frontier_upto(gs, c, q + 1) == if in_frontier(gs, c, q as int) {
                    before.push(gs[q as int].literal)
                } else {
                    before
                });
                assert(clause@ =~= seq![input.negated()] + frontier_upto(gs, c, q + 1).map_values(
                    |l: isize| BoolLit::Lit(l),
                ));
            }
            q = q + 1;
        }
        add_bool_clause(solver, clause.as_slice());
    }
}

/// `max_below_upto` finds the level with the largest cost below `c`.
proof fn lemma_max_below(ns: Seq<CostTreeNode>, c: int, k: int)
    requires
        0 <= k <= ns.len(),
        ns.len() <= usize::MAX,
    ensures
        max_below_upto(ns, c, k) matches Some(p) ==> (p < k && ns[p as int].cost < c && forall|i: int|
            0 <= i < k && #[trigger] ns[i].cost < c ==> ns[i].cost <= ns[p as int].cost),
        max_below_upto(ns, c, k) is None ==> forall|i: int| 0 <= i < k ==> #[trigger] ns[i].cost >= c,
    decreases k,
{
    if k > 0 {
        lemma_max_below(ns, c, k - 1);
        let prev = max_below_upto(ns, c, k - 1);
        let r = max_below_upto(ns, c, k);
        if ns[k - 1].cost < c && (prev is None || ns[prev->0 as int].cost <= ns[k - 1].cost) {
            assert(r == Some((k - 1) as usize));
            assert forall|i: int| 0 <= i < k && #[trigger] ns[i].cost < c implies ns[i].cost <= ns[k - 1].cost by {
                if i < k - 1 {
                    assert(prev is Some);
                }
            }
        } else {
            assert(r == prev);
            if let Some(p) = prev {
                assert forall|i: int| 0 <= i < k && #[trigger] ns[i].cost < c implies ns[i].cost <= ns[p as int].cost by {
                    if i == k - 1 {
                        assert(ns[p as int].cost > ns[k - 1].cost);
                    }
                }
            }
        }
    }
}

/// Adding a cost level keeps the tree well formed.
proof fn lemma_grown_wf(ns: Seq<CostTreeNode>, c: int, n0: int)
    requires
        tree_wf(ns, n0),
        ns.len() + c < usize::MAX,
        c > 0,
        0 <= n0,
        n0 + c < isize::MAX,
    ensures
        tree_wf(grown(ns, c, n0), n0 + n_new(ns, c)),
{
    lemma_max_below(ns, c, ns.len() as int);
    let g = grown(ns, c, n0);
    let k = n_new(ns, c);
    let f = first_new(ns, c);
    let pc = cost_of(ns, max_below(ns, c));
    if !has_cost(ns, c) {
        assert(pc < c);
        assert(0 < f <= c);
        assert forall|i: int| 0 <= i < ns.len() implies !(f <= #[trigger] ns[i].cost <= c) by {
            if f <= ns[i].cost <= c {
                if ns[i].cost == c {
                    assert(has_cost(ns, c));
                } else {
                    assert(ns[i].cost <= pc);
                }
            }
        }
    }
    assert forall|i: int| 0 <= i < g.len() implies 0 < #[trigger] g[i].cost by {
        if i >= ns.len() {
            assert(g[i] == new_node(ns, c, n0, i - ns.len()));
        }
    }
    assert forall|i: int| 0 <= i < g.len() implies 1 <= #[trigger] g[i].literal <= n0 + k by {
        if i >= ns.len() {
            assert(g[i] == new_node(ns, c, n0, i - ns.len()));
        }
    }
    assert forall|i: int, j: int|
        0 <= i < g.len() && 0 <= j < g.len() && i != j implies #[trigger] g[i].cost
        != #[trigger] g[j].cost by {
        if i >= ns.len() {
            assert(g[i] == new_node(ns, c, n0, i - ns.len()));
        }
        if j >= ns.len() {
            assert(g[j] == new_node(ns, c, n0, j - ns.len()));
        }
    }
    assert forall|i: int| 0 <= i < g.len() implies match #[trigger] g[i].parent {
        None => true,
        Some(p) => 0 <= p < i && g[p as int].cost < g[i].cost,
    } by {
        if i >= ns.len() {
            assert(g[i] == new_node(ns, c, n0, i - ns.len()));
            if i > ns.len() {
                assert(g[i - 1] == new_node(ns, c, n0, i - 1 - ns.len()));
            } else if let Some(p) = max_below(ns, c) {
                assert(g[p as int] == ns[p as int]);
            }
        } else {
            assert(g[i] == ns[i]);
            if let Some(p) = ns[i].parent {
                assert(g[p as int] == ns[p as int]);
            }
        }
    }
}

impl Default for CostTree {
    fn default() -> (r: Self)
        ensures
            r.nodes@ == Seq::<CostTreeNode>::empty(),
    {
        Self::new()
    }
}

} // verus!
