//! Counts that describe a problem.
use vstd::prelude::*;
use crate::export_lp::{
    all_visits, all_visits_of, lemma_all_visits_valid, listed_conflict, pairs_t1, pairs_t2,
    pairs_v1, pairs_v2, resource_bound, resources_bounded, resources_in_range, visit_at,
};
use crate::problem::Problem;

verus! {

/// Counts that describe a problem: its trains, its conflicts, the visits to
/// resources that exclude themselves, and the pairs of visits of two
/// different trains whose resources are listed as a conflict in that order.
#[derive(Clone, Copy, Debug, PartialEq, Eq, Structural)]
pub struct ProblemCounts {
    pub trains: usize,
    pub conflicts: usize,
    pub exclusive_visits: usize,
    pub conflicting_visit_pairs: usize,
}

/// How many of the first `k` visits use a resource that excludes itself.
pub open spec fn exclusive_upto(p: Problem, k: int) -> int
    decreases k,
{
    if k <= 0 {
        0
    } else {
        let r = visit_at(p, all_visits(p)[k - 1]).resource_id;
        exclusive_upto(p, k - 1) + if p.conflicts@.contains((r, r)) {
            1int
        } else {
            0
        }
    }
}

/// The pairs of visits of two different trains (the first train first)
/// whose resources are listed as a conflict in that order.
pub open spec fn directed_pairs(p: Problem) -> Seq<((usize, usize), (usize, usize))> {
    pairs_t1(p, false, p.trains@.len() as int)
}

/// Whether `(a, b)` is among the conflicts.
fn listed(p: &Problem, a: usize, b: usize) -> (r: bool)
    ensures
        r == p.conflicts@.contains((a, b)),
{
    let mut k: usize = 0;
    while k < p.conflicts.len()
        invariant
            k <= p.conflicts@.len(),
            forall|j: int| 0 <= j < k ==> p.conflicts@[j] != (a, b),
        decreases p.conflicts@.len() - k,
    {
        let (x, y) = p.conflicts[k];
        if x == a && y == b {
            proof {
                assert(p.conflicts@[k as int] == (a, b));
            }
            return true;
        }
        k = k + 1;
    }
    false
}

/// A table of which ordered pairs of the resources `0..n` are listed.
fn directed_table(p: &Problem, n: usize) -> (m: Vec<Vec<bool>>)
    ensures
        m@.len() == n,
        forall|a: int| 0 <= a < n ==> (#[trigger] m@[a])@.len() == n,
        forall|a: int, b: int|
            0 <= a < n && 0 <= b < n ==> (#[trigger] m@[a]@[b] <==> p.conflicts@.contains(
                (a as usize, b as usize),
            )),
{
    let mut m: Vec<Vec<bool>> = Vec::new();
    let mut a: usize = 0;
    while a < n
        invariant
            a <= n,
            m@.len() == a,
            forall|i: int| 0 <= i < a ==> (#[trigger] m@[i])@.len() == n,
            forall|i: int, j: int|
                0 <= i < a && 0 <= j < n ==> (#[trigger] m@[i]@[j] <==> p.conflicts@.contains(
                    (i as usize, j as usize),
                )),
        decreases n - a,
    {
        let mut row: Vec<bool> = Vec::new();
        let mut b: usize = 0;
        while b < n
            invariant
                a < n,
                b <= n,
                row@.len() == b,
                forall|j: int| 0 <= j < b ==> (row@[j] <==> p.conflicts@.contains((a, j as usize))),
            decreases n - b,
        {
            row.push(listed(p, a, b));
            b = b + 1;
        }
        m.push(row);
        a = a + 1;
    }
    m
}

/// The counts that describe a problem, where they can be made: every
/// resource is below `usize::MAX` and the number of pairs fits in `usize`.
pub fn problem_counts(problem: &Problem) -> (r: Option<ProblemCounts>)
    ensures
        r is Some <==> resources_bounded(*problem) && directed_pairs(*problem).len() <= usize::MAX,
        r matches Some(c) ==> {
            &&& c.trains == problem.trains@.len()
            &&& c.conflicts == problem.conflicts@.len()
            &&& c.exclusive_visits == exclusive_upto(*problem, all_visits(*problem).len() as int)
            &&& c.conflicting_visit_pairs == directed_pairs(*problem).len()
        },
{
    if !resources_in_range(problem) {
        return None;
    }
    let p = problem;
    let vs = all_visits_of(p);
    proof {
        lemma_all_visits_valid(*p);
    }
    let mut exclusive: usize = 0;
    let mut k: usize = 0;
    while k < vs.len()
        invariant
            vs@ == all_visits(*p),
            forall|j: int|
                0 <= j < all_visits(*p).len() ==> (#[trigger] all_visits(*p)[j]).0 < p.trains@.len()
                    && all_visits(*p)[j].1 < p.trains@[all_visits(*p)[j].0 as int].visits@.len(),
            k <= vs@.len(),
            exclusive == exclusive_upto(*p, k as int),
            exclusive <= k,
        decreases vs@.len() - k,
    {
        let x = vs[k];
        let r = p.trains[x.0].visits[x.1].resource_id;
        if listed(p, r, r) {
            exclusive = exclusive + 1;
        }
        k = k + 1;
    }
    let pairs = match count_directed_pairs(p) {
        Some(c) => c,
        None => {
            return None;
        },
    };
    Some(
        ProblemCounts {
            trains: p.trains.len(),
            conflicts: p.conflicts.len(),
            exclusive_visits: exclusive,
            conflicting_visit_pairs: pairs,
        },
    )
}

/// A prefix of the pairs is no longer than all of them.
proof fn lemma_pairs_grow(p: Problem, t1: int)
    requires
        0 <= t1 <= p.trains@.len(),
    ensures
        pairs_t1(p, false, t1).len() <= directed_pairs(p).len(),
    decreases p.trains@.len() - t1,
{
    if t1 < p.trains@.len() {
        lemma_pairs_grow(p, t1 + 1);
    }
}

/// The number of pairs of visits of two different trains whose resources
/// are listed as a conflict in that order.
#[verifier::rlimit(40)]
fn count_directed_pairs(p: &Problem) -> (c: Option<usize>)
    requires
        resources_bounded(*p),
    ensures
        match c {
            Some(x) => x == directed_pairs(*p).len(),
            None => directed_pairs(*p).len() > usize::MAX,
        },
{
    let n = resource_bound(p);
    let table = directed_table(p, n);
    let nt = p.trains.len();
    let ghost total = directed_pairs(*p).len();
    let mut count: usize = 0;
    let mut t1: usize = 0;
    while t1 < nt
        invariant
            nt == p.trains@.len(),
            t1 <= nt,
            total == directed_pairs(*p).len(),
            count == pairs_t1(*p, false, t1 as int).len(),
            count <= total,
            table@.len() == n,
            forall|a: int| 0 <= a < n ==> (#[trigger] table@[a])@.len() == n,
            forall|a: int, b: int|
                0 <= a < n && 0 <= b < n ==> (#[trigger] table@[a]@[b] <==> p.conflicts@.contains(
                    (a as usize, b as usize),
                )),
            forall|t: int, v: int|
                0 <= t < p.trains@.len() && 0 <= v < p.trains@[t].visits@.len() ==> (#[trigger] p.trains@[t].visits@[v]).resource_id < n,
        decreases nt - t1,
    {
        proof {
            lemma_pairs_grow(*p, t1 + 1);
            assert(pairs_t1(*p, false, t1 + 1) == pairs_t1(*p, false, t1 as int) + pairs_t2(
                *p,
                false,
                t1 as int,
                nt as int,
            ));
        }
        let ghost base1 = count as int;
        let ghost cap = pairs_t2(*p, false, t1 as int, nt as int).len();
        let mut t2: usize = t1 + 1;
        while t2 < nt
            invariant
                nt == p.trains@.len(),
                t1 < t2 <= nt,
                total == directed_pairs(*p).len(),
                base1 + cap <= total,
                cap == pairs_t2(*p, false, t1 as int, nt as int).len(),
                count == base1 + pairs_t2(*p, false, t1 as int, t2 as int).len(),
                table@.len() == n,
                forall|a: int| 0 <= a < n ==> (#[trigger] table@[a])@.len() == n,
                forall|a: int, b: int|
                    0 <= a < n && 0 <= b < n ==> (#[trigger] table@[a]@[b]
                        <==> p.conflicts@.contains((a as usize, b as usize))),
                forall|t: int, v: int|
                    0 <= t < p.trains@.len() && 0 <= v < p.trains@[t].visits@.len() ==> (#[trigger] p.trains@[t].visits@[v]).resource_id < n,
            decreases nt - t2,
        {
            proof {
                lemma_pairs_t2_grow(*p, t1 as int, t2 + 1, nt as int);
            }
            let ghost base2 = count as int;
            let n1 = p.trains[t1].visits.len();
            let n2 = p.trains[t2].visits.len();
            let mut v1: usize = 0;
            while v1 < n1
                invariant
                    nt == p.trains@.len(),
                    t1 < t2 < nt,
                    n1 == p.trains@[t1 as int].visits@.len(),
                    n2 == p.trains@[t2 as int].visits@.len(),
                    v1 <= n1,
                    total == directed_pairs(*p).len(),
                    base2 + pairs_v1(*p, false, t1 as int, t2 as int, n1 as int).len() <= total,
                    count == base2 + pairs_v1(*p, false, t1 as int, t2 as int, v1 as int).len(),
                    table@.len() == n,
                    forall|a: int| 0 <= a < n ==> (#[trigger] table@[a])@.len() == n,
                    forall|a: int, b: int|
                        0 <= a < n && 0 <= b < n ==> (#[trigger] table@[a]@[b]
                            <==> p.conflicts@.contains((a as usize, b as usize))),
                    forall|t: int, v: int|
                        0 <= t < p.trains@.len() && 0 <= v < p.trains@[t].visits@.len() ==> (#[trigger] p.trains@[t].visits@[v]).resource_id < n,
                decreases n1 - v1,
            {
                proof {
                    lemma_pairs_v1_grow(*p, t1 as int, t2 as int, v1 + 1, n1 as int);
                }
                let ghost base3 = count as int;
                let r1 = p.trains[t1].visits[v1].resource_id;
                let mut v2: usize = 0;
                while v2 < n2
                    invariant
                        nt == p.trains@.len(),
                        t1 < t2 < nt,
                        v1 < n1,
                        n1 == p.trains@[t1 as int].visits@.len(),
                        n2 == p.trains@[t2 as int].visits@.len(),
                        r1 == p.trains@[t1 as int].visits@[v1 as int].resource_id,
                        r1 < n,
                        v2 <= n2,
                        total == directed_pairs(*p).len(),
                        base3 + pairs_v2(*p, false, t1 as int, t2 as int, v1 as int, n2 as int).len()
                            <= total,
                        count == base3 + pairs_v2(*p, false, t1 as int, t2 as int, v1 as int, v2 as int).len(),
                        table@.len() == n,
                        forall|a: int| 0 <= a < n ==> (#[trigger] table@[a])@.len() == n,
                        forall|a: int, b: int|
                            0 <= a < n && 0 <= b < n ==> (#[trigger] table@[a]@[b]
                                <==> p.conflicts@.contains((a as usize, b as usize))),
                        forall|t: int, v: int|
                            0 <= t < p.trains@.len() && 0 <= v < p.trains@[t].visits@.len() ==> (#[trigger] p.trains@[t].visits@[v]).resource_id < n,
                    decreases n2 - v2,
                {
                    proof {
                        lemma_pairs_v2_grow(*p, t1 as int, t2 as int, v1 as int, v2 + 1, n2 as int);
                    }
                    let r2 = p.trains[t2].visits[v2].resource_id;
                    if table[r1][r2] {
                        if count == usize::MAX {
                            return None;
                        }
                        count = count + 1;
                    }
                    v2 = v2 + 1;
                }
                v1 = v1 + 1;
            }
            t2 = t2 + 1;
        }
        t1 = t1 + 1;
    }
    Some(count)
}

/// Taking more second trains gives no fewer pairs.
proof fn lemma_pairs_t2_grow(p: Problem, t1: int, a: int, b: int)
    requires
        a <= b,
    ensures
        pairs_t2(p, false, t1, a).len() <= pairs_t2(p, false, t1, b).len(),
    decreases b - a,
{
    if a < b {
        lemma_pairs_t2_grow(p, t1, a, b - 1);
    }
}

/// Taking more visits of the first train gives no fewer pairs.
proof fn lemma_pairs_v1_grow(p: Problem, t1: int, t2: int, a: int, b: int)
    requires
        0 <= a <= b,
    ensures
        pairs_v1(p, false, t1, t2, a).len() <= pairs_v1(p, false, t1, t2, b).len(),
    decreases b - a,
{
    if a < b {
        lemma_pairs_v1_grow(p, t1, t2, a, b - 1);
    }
}

/// Taking more visits of the second train gives no fewer pairs.
proof fn lemma_pairs_v2_grow(p: Problem, t1: int, t2: int, v1: int, a: int, b: int)
    requires
        0 <= a <= b,
    ensures
        pairs_v2(p, false, t1, t2, v1, a).len() <= pairs_v2(p, false, t1, t2, v1, b).len(),
    decreases b - a,
{
    if a < b {
        lemma_pairs_v2_grow(p, t1, t2, v1, a, b - 1);
    }
}

} // verus!
