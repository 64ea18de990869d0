pub mod ti;

use vstd::prelude::*;
use vstd::string::*;
use crate::problem::{
    DelayCostThresholds, DelayCostType, Problem, Visit, f123_spec, f12345_spec, f139_spec,
    f1_3min_spec, f1_5min_spec, finite_table, infinite_interval, delay_cost_spec, finite_tables_strict, table_ordered,
    thresholds_eval,
};
use crate::text::{blank, blen, decimal, is_blank, push_decimal_i64, push_decimal_u64};

verus! {

/// The longest line, in bytes, that packing terms aims for.
pub const MAX_LINE_LEN: usize = 400;

/// Packing the terms of a sum into lines: the lines finished so far and the
/// line being filled. A line starts with four spaces; the terms are joined by
/// ` + `; a term that would make the line longer than `MAX_LINE_LEN` bytes
/// starts a new line, which begins with `    + `.
pub open spec fn pack_terms(terms: Seq<Seq<char>>) -> (Seq<Seq<char>>, Seq<char>)
    decreases terms.len(),
{
    if terms.len() == 0 {
        (seq![], seq![' ', ' ', ' ', ' '])
    } else {
        let (out, line) = pack_terms(terms.drop_last());
        let term = terms.last();
        let prefix = if terms.len() == 1 {
            seq![]
        } else {
            seq![' ', '+', ' ']
        };
        if blen(line) + blen(prefix) + blen(term) > MAX_LINE_LEN {
            (out.push(line), seq![' ', ' ', ' ', ' ', '+', ' '] + term)
        } else {
            (out, line + prefix + term)
        }
    }
}

/// The terms joined by ` + `.
pub open spec fn join_terms(terms: Seq<Seq<char>>) -> Seq<char>
    decreases terms.len(),
{
    if terms.len() == 0 {
        seq![]
    } else if terms.len() == 1 {
        terms[0]
    } else {
        join_terms(terms.drop_last()) + seq![' ', '+', ' '] + terms.last()
    }
}

/// The lines put back together: the first without its four leading spaces,
/// every other without its three.
pub open spec fn rejoin_lines(ls: Seq<Seq<char>>) -> Seq<char>
    decreases ls.len(),
{
    if ls.len() == 0 {
        seq![]
    } else if ls.len() == 1 {
        ls[0].skip(4)
    } else {
        rejoin_lines(ls.drop_last()) + ls.last().skip(3)
    }
}

/// Packing keeps the terms and their order: the packed lines, put back
/// together, are the terms joined by ` + `. This holds when the first term
/// fits on the first line.
pub proof fn packing_keeps_terms(terms: Seq<Seq<char>>)
    requires
        terms.len() > 0 ==> blen(seq![' ', ' ', ' ', ' ']) + blen(terms[0]) <= MAX_LINE_LEN,
    ensures
        rejoin_lines(pack_terms(terms).0.push(pack_terms(terms).1)) == join_terms(terms),
        pack_terms(terms).1.len() >= 4,
        terms.len() > 0 ==> pack_terms(terms).0.len() == 0 || pack_terms(terms).0[0].len() >= 4,
    decreases terms.len(),
{
    let sp4 = seq![' ', ' ', ' ', ' '];
    if terms.len() == 0 {
        assert(sp4.skip(4) =~= Seq::<char>::empty());
    } else {
        let rest = terms.drop_last();
        if rest.len() > 0 {
            assert(rest[0] == terms[0]);
        }
        packing_keeps_terms(rest);
        let (out, line) = pack_terms(rest);
        let term = terms.last();
        let prefix = if terms.len() == 1 {
            Seq::<char>::empty()
        } else {
            seq![' ', '+', ' ']
        };
        assert(rejoin_lines(out.push(line)) == join_terms(rest));
        if terms.len() == 1 {
            assert(rest.len() == 0);
            assert(out.len() == 0 && line =~= sp4);
            assert(term == terms[0]);
            assert(prefix =~= Seq::<char>::empty());
            assert(line + prefix =~= sp4);
            assert(!(blen(line) + blen(prefix) + blen(term) > MAX_LINE_LEN));
            assert(pack_terms(terms).0 == out);
            assert(pack_terms(terms).1 == line + prefix + term);
            assert(out.push(line + prefix + term) =~= seq![sp4 + term]);
            assert((sp4 + term).skip(4) =~= term);
        } else if blen(line) + blen(prefix) + blen(term) > MAX_LINE_LEN {
            let nl = seq![' ', ' ', ' ', ' ', '+', ' '] + term;
            let ls = out.push(line).push(nl);
            assert(ls.drop_last() == out.push(line));
            assert(nl.skip(3) =~= seq![' ', '+', ' '] + term);
            assert(join_terms(terms) == join_terms(rest) + seq![' ', '+', ' '] + term);
            assert(rejoin_lines(ls) =~= join_terms(terms));
            if out.len() == 0 {
                assert(out.push(line)[0] == line);
            } else {
                assert(out.push(line)[0] == out[0]);
            }
        } else {
            let nl = line + prefix + term;
            let ls = out.push(nl);
            assert(join_terms(terms) == join_terms(rest) + prefix + term);
            if out.len() == 0 {
                assert(ls.len() == 1);
                assert(nl.skip(4) =~= line.skip(4) + prefix + term);
                assert(out.push(line).len() == 1);
                assert(rejoin_lines(out.push(line)) == line.skip(4));
            } else {
                assert(ls.drop_last() == out);
                assert(out.push(line).drop_last() == out);
                assert(nl.skip(3) =~= line.skip(3) + prefix + term);
                assert(rejoin_lines(out.push(line)) == rejoin_lines(out) + line.skip(3));
            }
            assert(rejoin_lines(ls) =~= join_terms(terms));
        }
    }
}

/// The lines of a sum of terms: the packed lines, the last one only when it
/// holds more than white space.
pub open spec fn packed_lines(terms: Seq<Seq<char>>) -> Seq<Seq<char>> {
    let (out, line) = pack_terms(terms);
    if blank(line) {
        out
    } else {
        out.push(line)
    }
}

/// The text of each string.
pub open spec fn texts(s: Seq<String>) -> Seq<Seq<char>> {
    s.map_values(|x: String| x@)
}

/// Lays out the terms of a sum over lines of an LP file, as `packed_lines`
/// says; the caller writes each line.
pub fn write_terms(terms: &[String]) -> (lines: Vec<String>)
    ensures
        texts(lines@) == packed_lines(texts(terms@)),
{
    proof {
        reveal_strlit("    ");
        reveal_strlit("    + ");
        reveal_strlit(" + ");
        reveal_strlit("");
    }
    let ghost tv = texts(terms@);
    let mut lines: Vec<String> = Vec::new();
    let mut line = String::from_str("    ");
    let mut first = true;
    let mut i: usize = 0;
    proof {
        assert(line@ =~= seq![' ', ' ', ' ', ' ']);
        assert(tv.take(0) =~= Seq::<Seq<char>>::empty());
    }
    while i < terms.len()
        invariant
            i <= terms.len(),
            tv == texts(terms@),
            first == (i == 0),
            (texts(lines@), line@) == pack_terms(tv.take(i as int)),
        decreases terms.len() - i,
    {
        let term = &terms[i];
        let prefix: &str = if first {
            ""
        } else {
            " + "
        };
        let ghost old_line = line@;
        let ghost old_lines = texts(lines@);
        proof {
            reveal_strlit("    + ");
            reveal_strlit(" + ");
            reveal_strlit("");
            assert(""@ =~= Seq::<char>::empty());
            assert(" + "@ =~= seq![' ', '+', ' ']);
            assert("    + "@ =~= seq![' ', ' ', ' ', ' ', '+', ' ']);
            assert(tv.take(i + 1).drop_last() =~= tv.take(i as int));
            assert(tv.take(i + 1).last() == term@);
            assert(prefix@ == (if i + 1 == 1 {
                Seq::<char>::empty()
            } else {
                seq![' ', '+', ' ']
            }));
        }
        let line_len = line.as_str().len();
        let prefix_len = prefix.len();
        let term_len = term.as_str().len();
        proof {
            assert(line_len == blen(old_line));
            assert(prefix_len == blen(prefix@));
            assert(term_len == blen(term@));
        }
        let total = line_len.saturating_add(prefix_len).saturating_add(term_len);
        proof {
            let pre = if i + 1 == 1 {
                Seq::<char>::empty()
            } else {
                seq![' ', '+', ' ']
            };
            assert((total > MAX_LINE_LEN) == (blen(old_line) + blen(pre) + blen(term@) > MAX_LINE_LEN));
            let (o, l) = pack_terms(tv.take(i as int));
            assert(o == old_lines && l == old_line);
        }
        if total > MAX_LINE_LEN {
            lines.push(line);
            line = String::from_str("    + ");
            line.append(term.as_str());
            proof {
                assert(texts(lines@) =~= old_lines.push(old_line));
                assert(line@ =~= seq![' ', ' ', ' ', ' ', '+', ' '] + term@);
            }
        } else {
            line.append(prefix);
            line.append(term.as_str());
            proof {
                assert(texts(lines@) =~= old_lines);
                assert(line@ =~= old_line + prefix@ + term@);
            }
        }
        first = false;
        i += 1;
    }
    proof {
        assert(tv.take(terms.len() as int) =~= tv);
    }
    if !is_blank(line.as_str()) {
        let ghost old_lines = texts(lines@);
        lines.push(line);
        proof {
            assert(texts(lines@) =~= old_lines.push(line@));
        }
    }
    lines
}


// ---------------------------------------------------------------------------
// Visits and conflicting visit pairs
// ---------------------------------------------------------------------------

/// The visits of the first `k` trains, train by train, as `(train, visit)`.
pub open spec fn visits_of_trains(p: Problem, k: int) -> Seq<(usize, usize)>
    decreases k,
{
    if k <= 0 {
        seq![]
    } else {
        visits_of_trains(p, k - 1) + Seq::new(
            p.trains@[k - 1].visits@.len(),
            |v: int| ((k - 1) as usize, v as usize),
        )
    }
}

/// All visits, train by train.
pub open spec fn all_visits(p: Problem) -> Seq<(usize, usize)> {
    visits_of_trains(p, p.trains@.len() as int)
}

/// The visit `x` of problem `p`.
pub open spec fn visit_at(p: Problem, x: (usize, usize)) -> Visit {
    p.trains@[x.0 as int].visits@[x.1 as int]
}

/// The lines that `f` gives for each element of `xs`, one after the other.
pub open spec fn gather<A>(xs: Seq<A>, f: spec_fn(A) -> Seq<Seq<char>>) -> Seq<Seq<char>>
    decreases xs.len(),
{
    if xs.len() == 0 {
        seq![]
    } else {
        gather(xs.drop_last(), f) + f(xs.last())
    }
}

/// Gathering one element more.
pub proof fn lemma_gather_step<A>(xs: Seq<A>, f: spec_fn(A) -> Seq<Seq<char>>, k: int)
    requires
        0 <= k < xs.len(),
    ensures
        gather(xs.take(k + 1), f) == gather(xs.take(k), f) + f(xs[k]),
{
    assert(xs.take(k + 1).drop_last() =~= xs.take(k));
}

/// Gathering lines from elements that give none gives none.
pub proof fn lemma_gather_nil<A>(xs: Seq<A>, f: spec_fn(A) -> Seq<Seq<char>>)
    requires
        forall|i: int| 0 <= i < xs.len() ==> f(#[trigger] xs[i]) == Seq::<Seq<char>>::empty(),
    ensures
        gather(xs, f) == Seq::<Seq<char>>::empty(),
    decreases xs.len(),
{
    if xs.len() > 0 {
        let d = xs.drop_last();
        assert forall|i: int| 0 <= i < d.len() implies f(#[trigger] d[i]) == Seq::<Seq<char>>::empty() by {
            assert(d[i] == xs[i]);
        }
        lemma_gather_nil(d, f);
        assert(f(xs[xs.len() - 1]) == Seq::<Seq<char>>::empty());
        assert(gather(xs, f) =~= Seq::<Seq<char>>::empty());
    }
}

/// Two resources conflict when either order of them is listed.
pub open spec fn resources_conflict(p: Problem, r1: usize, r2: usize) -> bool {
    p.conflicts@.contains((r1, r2)) || p.conflicts@.contains((r2, r1))
}

/// Two resources conflict in this order (`both` false) or in either order.
pub open spec fn listed_conflict(p: Problem, both: bool, r1: usize, r2: usize) -> bool {
    if both {
        resources_conflict(p, r1, r2)
    } else {
        p.conflicts@.contains((r1, r2))
    }
}

/// A pair of visits of two trains.
pub type VisitPair = ((usize, usize), (usize, usize));

/// The conflicting pairs (as `listed_conflict` says) of visit `v1` of train
/// `t1` with the first `k` visits of train `t2`.
pub open spec fn pairs_v2(p: Problem, both: bool, t1: int, t2: int, v1: int, k: int) -> Seq<VisitPair>
    decreases k,
{
    if k <= 0 {
        seq![]
    } else {
        let prev = pairs_v2(p, both, t1, t2, v1, k - 1);
        let r1 = p.trains@[t1].visits@[v1].resource_id;
        let r2 = p.trains@[t2].visits@[k - 1].resource_id;
        if listed_conflict(p, both, r1, r2) {
            prev.push(((t1 as usize, v1 as usize), (t2 as usize, (k - 1) as usize)))
        } else {
            prev
        }
    }
}

/// The conflicting pairs of the first `k` visits of train `t1` with train `t2`.
pub open spec fn pairs_v1(p: Problem, both: bool, t1: int, t2: int, k: int) -> Seq<VisitPair>
    decreases k,
{
    if k <= 0 {
        seq![]
    } else {
        pairs_v1(p, both, t1, t2, k - 1) + pairs_v2(
            p,
            both,
            t1,
            t2,
            k - 1,
            p.trains@[t2].visits@.len() as int,
        )
    }
}

/// The conflicting pairs of train `t1` with the trains after it and before `k`.
pub open spec fn pairs_t2(p: Problem, both: bool, t1: int, k: int) -> Seq<VisitPair>
    decreases k,
{
    if k <= t1 + 1 || k <= 0 {
        seq![]
    } else {
        pairs_t2(p, both, t1, k - 1) + pairs_v1(p, both, t1, k - 1, p.trains@[t1].visits@.len() as int)
    }
}

/// The conflicting pairs of the first `k` trains with the trains after them.
pub open spec fn pairs_t1(p: Problem, both: bool, k: int) -> Seq<VisitPair>
    decreases k,
{
    if k <= 0 {
        seq![]
    } else {
        pairs_t1(p, both, k - 1) + pairs_t2(p, both, k - 1, p.trains@.len() as int)
    }
}

/// The pairs of visits of two different trains (the first train first) on
/// conflicting resources, by first train, second train, first visit and
/// second visit.
pub open spec fn conflict_pairs(p: Problem) -> Seq<VisitPair> {
    pairs_t1(p, true, p.trains@.len() as int)
}

/// All visits, train by train.
pub(crate) fn all_visits_of(p: &Problem) -> (r: Vec<(usize, usize)>)
    ensures
        r@ == all_visits(*p),
{
    let mut out: Vec<(usize, usize)> = Vec::new();
    let mut t: usize = 0;
    while t < p.trains.len()
        invariant
            t <= p.trains@.len(),
            out@ == visits_of_trains(*p, t as int),
        decreases p.trains@.len() - t,
    {
        let n = p.trains[t].visits.len();
        let ghost before = out@;
        let mut v: usize = 0;
        while v < n
            invariant
                t < p.trains@.len(),
                n == p.trains@[t as int].visits@.len(),
                v <= n,
                out@ == before + Seq::new(v as nat, |q: int| (t as usize, q as usize)),
            decreases n - v,
        {
            out.push((t, v));
            proof {
                assert(out@ =~= before + Seq::new((v + 1) as nat, |q: int| (t as usize, q as usize)));
            }
            v = v + 1;
        }
        t = t + 1;
    }
    out
}

/// A table of which resources conflict, for the resources `0..n`.
fn conflict_table(p: &Problem, n: usize) -> (m: Vec<Vec<bool>>)
    ensures
        m@.len() == n,
        forall|a: int| 0 <= a < n ==> (#[trigger] m@[a])@.len() == n,
        forall|a: int, b: int|
            0 <= a < n && 0 <= b < n ==> (#[trigger] m@[a]@[b] <==> resources_conflict(
                *p,
                a as usize,
                b as usize,
            )),
{
    let mut m: Vec<Vec<bool>> = Vec::new();
    let mut a: usize = 0;
    while a < n
        invariant
            a <= n,
            m@.len() == a,
            forall|i: int| 0 <= i < a ==> (#[trigger] m@[i])@.len() == n,
            forall|i: int, j: int|
                0 <= i < a && 0 <= j < n ==> (#[trigger] m@[i]@[j] <==> resources_conflict(
                    *p,
                    i as usize,
                    j as usize,
                )),
        decreases n - a,
    {
        let mut row: Vec<bool> = Vec::new();
        let mut b: usize = 0;
        while b < n
            invariant
                a < n,
                b <= n,
                row@.len() == b,
                forall|j: int| 0 <= j < b ==> (row@[j] <==> resources_conflict(*p, a, j as usize)),
            decreases n - b,
        {
            let mut found = false;
            let mut k: usize = 0;
            while k < p.conflicts.len()
                invariant
                    k <= p.conflicts@.len(),
                    found <==> exists|q: int|
                        0 <= q < k && (p.conflicts@[q] == (a, b) || p.conflicts@[q] == (b, a)),
                decreases p.conflicts@.len() - k,
            {
                let (x, y) = p.conflicts[k];
                if (x == a && y == b) || (x == b && y == a) {
                    found = true;
                }
                k = k + 1;
            }
            proof {
                if found {
                    let q = choose|q: int|
                        0 <= q < k && (p.conflicts@[q] == (a, b) || p.conflicts@[q] == (b, a));
                    if p.conflicts@[q] == (a, b) {
                        assert(p.conflicts@.contains((a, b)));
                    } else {
                        assert(p.conflicts@.contains((b, a)));
                    }
                }
                if resources_conflict(*p, a, b) {
                    if p.conflicts@.contains((a, b)) {
                        let q = choose|q: int| 0 <= q < p.conflicts@.len() && p.conflicts@[q] == (a, b);
                        assert(0 <= q < k);
                    } else {
                        let q = choose|q: int| 0 <= q < p.conflicts@.len() && p.conflicts@[q] == (b, a);
                        assert(0 <= q < k);
                    }
                }
            }
            row.push(found);
            b = b + 1;
        }
        m.push(row);
        a = a + 1;
    }
    m
}

/// Every visit's resource is below `usize::MAX`.
pub open spec fn resources_bounded(p: Problem) -> bool {
    forall|t: int, v: int|
        0 <= t < p.trains@.len() && 0 <= v < p.trains@[t].visits@.len() ==> (#[trigger] p.trains@[t].visits@[v]).resource_id < usize::MAX
}

/// One more than the largest resource that a visit uses.
pub(crate) fn resource_bound(p: &Problem) -> (n: usize)
    requires
        resources_bounded(*p),
    ensures
        forall|t: int, v: int|
            0 <= t < p.trains@.len() && 0 <= v < p.trains@[t].visits@.len() ==> (#[trigger] p.trains@[t].visits@[v]).resource_id < n,
{
    let mut n: usize = 0;
    let mut t: usize = 0;
    while t < p.trains.len()
        invariant
            t <= p.trains@.len(),
            resources_bounded(*p),
            forall|i: int, v: int|
                0 <= i < t && 0 <= v < p.trains@[i].visits@.len() ==> (#[trigger] p.trains@[i].visits@[v]).resource_id < n,
        decreases p.trains@.len() - t,
    {
        let mut v: usize = 0;
        while v < p.trains[t].visits.len()
            invariant
                t < p.trains@.len(),
                v <= p.trains@[t as int].visits@.len(),
                resources_bounded(*p),
                forall|i: int, w: int|
                    0 <= i < t && 0 <= w < p.trains@[i].visits@.len() ==> (#[trigger] p.trains@[i].visits@[w]).resource_id < n,
                forall|w: int| 0 <= w < v ==> (#[trigger] p.trains@[t as int].visits@[w]).resource_id < n,
            decreases p.trains@[t as int].visits@.len() - v,
        {
            let r = p.trains[t].visits[v].resource_id;
            if r >= n {
                n = r + 1;
            }
            v = v + 1;
        }
        t = t + 1;
    }
    n
}

/// The visits of the first `a` trains come first among those of the first
/// `b` trains.
pub proof fn lemma_visits_of_trains_grow(p: Problem, a: int, b: int)
    requires
        0 <= a <= b <= p.trains@.len(),
    ensures
        visits_of_trains(p, a).len() <= visits_of_trains(p, b).len(),
    decreases b,
{
    if a < b {
        lemma_visits_of_trains_grow(p, a, b - 1);
    }
}

/// Entry `k` of the visits of the first `m` trains is visit `v` of train
/// `t`, at position `k` = the number of visits of the trains before `t`,
/// plus `v`.
pub proof fn lemma_visits_of_trains_index(p: Problem, m: int, k: int)
    requires
        0 <= m <= p.trains@.len(),
        0 <= k < visits_of_trains(p, m).len(),
    ensures
        ({
            let x = visits_of_trains(p, m)[k];
            &&& x.0 < m
            &&& k == visits_of_trains(p, x.0 as int).len() + x.1
            &&& visits_of_trains(p, x.0 + 1).len() == visits_of_trains(p, x.0 as int).len()
                + p.trains@[x.0 as int].visits@.len()
            &&& x.1 < p.trains@[x.0 as int].visits@.len()
        }),
    decreases m,
{
    assert(p.trains.len() == p.trains@.len());
    let prev = visits_of_trains(p, m - 1);
    assert(p.trains@[m - 1].visits.len() == p.trains@[m - 1].visits@.len());
    if k < prev.len() {
        lemma_visits_of_trains_index(p, m - 1, k);
        assert(visits_of_trains(p, m)[k] == prev[k]);
    } else {
        let x = visits_of_trains(p, m)[k];
        assert(x == ((m - 1) as usize, (k - prev.len()) as usize));
    }
}

/// Visit `v` of train `t` is among all visits.
pub proof fn lemma_in_all_visits(p: Problem, t: int, v: int)
    requires
        0 <= t < p.trains@.len(),
        0 <= v < p.trains@[t].visits@.len(),
    ensures
        all_visits(p).contains((t as usize, v as usize)),
{
    lemma_in_visits_of_trains(p, p.trains@.len() as int, t, v);
}

proof fn lemma_in_visits_of_trains(p: Problem, k: int, t: int, v: int)
    requires
        0 <= t < k <= p.trains@.len(),
        0 <= v < p.trains@[t].visits@.len(),
    ensures
        visits_of_trains(p, k).contains((t as usize, v as usize)),
    decreases k,
{
    let prev = visits_of_trains(p, k - 1);
    let cur = Seq::new(p.trains@[k - 1].visits@.len(), |q: int| ((k - 1) as usize, q as usize));
    if t < k - 1 {
        lemma_in_visits_of_trains(p, k - 1, t, v);
        let i = choose|i: int| 0 <= i < prev.len() && prev[i] == (t as usize, v as usize);
        assert((prev + cur)[i] == prev[i]);
    } else {
        assert((prev + cur)[prev.len() + v] == cur[v]);
    }
}

/// Both visits of a pair exist.
pub open spec fn valid_pair(p: Problem, pr: VisitPair) -> bool {
    let ((t1, v1), (t2, v2)) = pr;
    &&& t1 < p.trains@.len()
    &&& v1 < p.trains@[t1 as int].visits@.len()
    &&& t2 < p.trains@.len()
    &&& v2 < p.trains@[t2 as int].visits@.len()
}

/// The pairs of visits of two different trains (the first train first) on
/// conflicting resources, by first train, second train, first visit and
/// second visit.
pub fn visit_conflicts(problem: &Problem) -> (r: Vec<VisitPair>)
    requires
        resources_bounded(*problem),
    ensures
        r@ == conflict_pairs(*problem),
        forall|i: int| 0 <= i < r@.len() ==> valid_pair(*problem, #[trigger] r@[i]),
{
    let p = problem;
    let n = resource_bound(p);
    let table = conflict_table(p, n);
    let nt = p.trains.len();
    let mut out: Vec<VisitPair> = Vec::new();
    let mut t1: usize = 0;
    while t1 < nt
        invariant
            nt == p.trains@.len(),
            t1 <= nt,
            out@ == pairs_t1(*p, true, t1 as int),
            forall|i: int| 0 <= i < out@.len() ==> valid_pair(*p, #[trigger] out@[i]),
            table@.len() == n,
            forall|a: int| 0 <= a < n ==> (#[trigger] table@[a])@.len() == n,
            forall|a: int, b: int|
                0 <= a < n && 0 <= b < n ==> (#[trigger] table@[a]@[b] <==> resources_conflict(
                    *p,
                    a as usize,
                    b as usize,
                )),
            forall|t: int, v: int|
                0 <= t < p.trains@.len() && 0 <= v < p.trains@[t].visits@.len() ==> (#[trigger] p.trains@[t].visits@[v]).resource_id < n,
        decreases nt - t1,
    {
        let ghost base1 = out@;
        let mut t2: usize = t1 + 1;
        proof {
            assert(pairs_t2(*p, true, t1 as int, t2 as int) == Seq::<VisitPair>::empty());
            assert(out@ =~= base1 + pairs_t2(*p, true, t1 as int, t2 as int));
        }
        while t2 < nt
            invariant
                nt == p.trains@.len(),
                t1 < t2 <= nt,
                out@ == base1 + pairs_t2(*p, true, t1 as int, t2 as int),
                forall|i: int| 0 <= i < out@.len() ==> valid_pair(*p, #[trigger] out@[i]),
                table@.len() == n,
                forall|a: int| 0 <= a < n ==> (#[trigger] table@[a])@.len() == n,
                forall|a: int, b: int|
                    0 <= a < n && 0 <= b < n ==> (#[trigger] table@[a]@[b] <==> resources_conflict(
                        *p,
                        a as usize,
                        b as usize,
                    )),
                forall|t: int, v: int|
                    0 <= t < p.trains@.len() && 0 <= v < p.trains@[t].visits@.len() ==> (#[trigger] p.trains@[t].visits@[v]).resource_id < n,
            decreases nt - t2,
        {
            let ghost base2 = out@;
            let n1 = p.trains[t1].visits.len();
            let n2 = p.trains[t2].visits.len();
            let mut v1: usize = 0;
            proof {
                assert(out@ =~= base2 + pairs_v1(*p, true, t1 as int, t2 as int, 0));
            }
            while v1 < n1
                invariant
                    nt == p.trains@.len(),
                    t1 < t2 < nt,
                    n1 == p.trains@[t1 as int].visits@.len(),
                    n2 == p.trains@[t2 as int].visits@.len(),
                    v1 <= n1,
                    out@ == base2 + pairs_v1(*p, true, t1 as int, t2 as int, v1 as int),
                    forall|i: int| 0 <= i < out@.len() ==> valid_pair(*p, #[trigger] out@[i]),
                    table@.len() == n,
                    forall|a: int| 0 <= a < n ==> (#[trigger] table@[a])@.len() == n,
                    forall|a: int, b: int|
                        0 <= a < n && 0 <= b < n ==> (#[trigger] table@[a]@[b]
                            <==> resources_conflict(*p, a as usize, b as usize)),
                    forall|t: int, v: int|
                        0 <= t < p.trains@.len() && 0 <= v < p.trains@[t].visits@.len() ==> (#[trigger] p.trains@[t].visits@[v]).resource_id < n,
                decreases n1 - v1,
            {
                let ghost base3 = out@;
                let r1 = p.trains[t1].visits[v1].resource_id;
                let mut v2: usize = 0;
                proof {
                    assert(out@ =~= base3 + pairs_v2(*p, true, t1 as int, t2 as int, v1 as int, 0));
                }
                while v2 < n2
                    invariant
                        nt == p.trains@.len(),
                        t1 < t2 < nt,
                        v1 < n1,
                        n1 == p.trains@[t1 as int].visits@.len(),
                        n2 == p.trains@[t2 as int].visits@.len(),
                        r1 == p.trains@[t1 as int].visits@[v1 as int].resource_id,
                        r1 < n,
                        v2 <= n2,
                        out@ == base3 + pairs_v2(*p, true, t1 as int, t2 as int, v1 as int, v2 as int),
                        forall|i: int| 0 <= i < out@.len() ==> valid_pair(*p, #[trigger] out@[i]),
                        table@.len() == n,
                        forall|a: int| 0 <= a < n ==> (#[trigger] table@[a])@.len() == n,
                        forall|a: int, b: int|
                            0 <= a < n && 0 <= b < n ==> (#[trigger] table@[a]@[b]
                                <==> resources_conflict(*p, a as usize, b as usize)),
                        forall|t: int, v: int|
                            0 <= t < p.trains@.len() && 0 <= v < p.trains@[t].visits@.len() ==> (#[trigger] p.trains@[t].visits@[v]).resource_id < n,
                    decreases n2 - v2,
                {
                    let r2 = p.trains[t2].visits[v2].resource_id;
                    let ghost before = out@;
                    if table[r1][r2] {
                        out.push(((t1, v1), (t2, v2)));
                    }
                    proof {
                        assert forall|i: int| 0 <= i < out@.len() implies valid_pair(*p, #[trigger] out@[i]) by {
                            if i < before.len() {
                                assert(out@[i] == before[i]);
                            }
                        }
                        assert(out@ =~= base3 + pairs_v2(*p, true, t1 as int, t2 as int, v1 as int, v2 + 1));
                    }
                    v2 = v2 + 1;
                }
                proof {
                    assert(out@ =~= base2 + pairs_v1(*p, true, t1 as int, t2 as int, v1 + 1));
                }
                v1 = v1 + 1;
            }
            proof {
                assert(out@ =~= base1 + pairs_t2(*p, true, t1 as int, t2 + 1));
            }
            t2 = t2 + 1;
        }
        proof {
            assert(out@ =~= pairs_t1(*p, true, t1 + 1));
        }
        t1 = t1 + 1;
    }
    out
}

// ---------------------------------------------------------------------------
// The big-M model as LP text
// ---------------------------------------------------------------------------

/// The horizon, which also serves as the big M.
pub const BIG_M: i32 = 43200;

/// Counts reported for an exported model.
#[derive(Debug, Clone, Copy, PartialEq, Eq, Structural)]
pub struct ExportStats {
    pub n_vars: usize,
    pub n_constraints: usize,
    pub n_travel: usize,
    pub n_resource: usize,
    pub n_intervals: usize,
}

/// `a_b`.
pub open spec fn idx2(a: usize, b: usize) -> Seq<char> {
    decimal(a as int) + "_"@ + decimal(b as int)
}

/// The name of the start time of visit `v` of train `t`.
pub open spec fn tvar(t: usize, v: usize) -> Seq<char> {
    "t_"@ + idx2(t, v)
}

/// The suffix naming a pair of visits.
pub open spec fn pair_name(pr: VisitPair) -> Seq<char> {
    let ((t1, v1), (t2, v2)) = pr;
    idx2(t1, v1) + "_"@ + idx2(t2, v2)
}

/// The position in a threshold table read from the back.
pub open spec fn rev_index(n: int, j: int) -> int {
    n - 1 - j
}

/// The cost that threshold `i` adds over the one after it.
pub open spec fn threshold_step(th: Seq<(i32, usize)>, i: int) -> int {
    th[i].1 as int - if i + 1 < th.len() {
        th[i + 1].1 as int
    } else {
        0
    }
}

/// What the objective charges a delay `d` for the thresholds from `i` on:
/// the sum of the coefficients `threshold_step` of those thresholds that `d`
/// exceeds (the threshold indicator of such a threshold is 1).
pub open spec fn charged_from(th: Seq<(i32, usize)>, d: int, i: int) -> int
    decreases th.len() - i,
{
    if i < 0 || i >= th.len() {
        0
    } else {
        (if d > th[i].0 {
            threshold_step(th, i)
        } else {
            0
        }) + charged_from(th, d, i + 1)
    }
}

proof fn lemma_charged_from(th: Seq<(i32, usize)>, d: int, i: int)
    requires
        table_ordered(th),
        0 <= i <= th.len(),
    ensures
        charged_from(th, d, i) == thresholds_eval(th.skip(i), d),
    decreases th.len() - i,
{
    if i < th.len() {
        lemma_charged_from(th, d, i + 1);
        assert(th.skip(i).drop_first() =~= th.skip(i + 1));
        assert(th.skip(i)[0] == th[i]);
        if d > th[i].0 && i + 1 < th.len() {
            assert(th.skip(i + 1)[0] == th[i + 1]);
            assert(th[i].0 > th[i + 1].0);
        }
        if i + 1 == th.len() {
            assert(th.skip(i + 1).len() == 0);
        }
    } else {
        assert(th.skip(i).len() == 0);
    }
}

/// The objective charges each delay exactly its cost: over a table whose
/// thresholds decrease and costs do not increase, the coefficients of the
/// thresholds that a delay exceeds sum to the table's cost of that delay;
/// so under each finite staircase they sum to the cost type's delay cost.
pub proof fn objective_charges_delay_cost(th: Seq<(i32, usize)>, ty: DelayCostType, d: int)
    ensures
        table_ordered(th) ==> charged_from(th, d, 0) == thresholds_eval(th, d),
        finite_table(ty) matches Some(t) ==> charged_from(t, d, 0) == delay_cost_spec(ty, d),
{
    if table_ordered(th) {
        lemma_charged_from(th, d, 0);
        assert(th.skip(0) =~= th);
    }
    if let Some(t) = finite_table(ty) {
        finite_tables_strict(ty);
        assert(table_ordered(t));
        lemma_charged_from(t, d, 0);
        assert(t.skip(0) =~= t);
    }
}

/// The objective terms of visit `x`.
pub open spec fn obj_terms_of(p: Problem, ty: DelayCostType, x: (usize, usize)) -> Seq<Seq<char>> {
    if visit_at(p, x).aimed is None {
        seq![]
    } else {
        match finite_table(ty) {
            Some(th) => Seq::new(
                th.len(),
                |j: int|
                    decimal(threshold_step(th, rev_index(th.len() as int, j))) + " thr_"@ + idx2(
                        x.0,
                        x.1,
                    ) + "_"@ + decimal(th[rev_index(th.len() as int, j)].0 as int),
            ),
            None => match infinite_interval(ty) {
                Some(_) => seq!["1 steps_"@ + idx2(x.0, x.1)],
                None => seq!["1 delay_"@ + idx2(x.0, x.1)],
            },
        }
    }
}

/// The travel constraint from visit `x` to the next one.
pub open spec fn travel_body(p: Problem, x: (usize, usize)) -> Seq<Seq<char>> {
    if x.1 + 1 < p.trains@[x.0 as int].visits@.len() {
        seq![
            " "@ + tvar(x.0, (x.1 + 1) as usize) + " - "@ + tvar(x.0, x.1) + " >= "@ + decimal(
                visit_at(p, x).travel_time as int,
            ),
        ]
    } else {
        seq![]
    }
}

/// Both visits of a pair have a next visit.
pub open spec fn pair_usable(p: Problem, pr: VisitPair) -> bool {
    let ((t1, v1), (t2, v2)) = pr;
    &&& v1 + 1 < p.trains@[t1 as int].visits@.len()
    &&& v2 + 1 < p.trains@[t2 as int].visits@.len()
}

/// The two big-M constraints of a pair: one order or the other.
pub open spec fn conflict_bodies(p: Problem, pr: VisitPair) -> Seq<Seq<char>> {
    let ((t1, v1), (t2, v2)) = pr;
    if pair_usable(p, pr) {
        seq![
            " "@ + tvar(t1, (v1 + 1) as usize) + " - "@ + tvar(t2, v2) + " + "@ + decimal(
                BIG_M as int,
            ) + " y_"@ + pair_name(pr) + " <= "@ + decimal(BIG_M as int),
            " "@ + tvar(t2, (v2 + 1) as usize) + " - "@ + tvar(t1, v1) + " - "@ + decimal(
                BIG_M as int,
            ) + " y_"@ + pair_name(pr) + " <= 0"@,
        ]
    } else {
        seq![]
    }
}

/// The constraints that tie visit `x`'s delay to its cost variables.
pub open spec fn cost_bodies(p: Problem, ty: DelayCostType, x: (usize, usize)) -> Seq<Seq<char>> {
    match visit_at(p, x).aimed {
        None => seq![],
        Some(a) => match finite_table(ty) {
            Some(th) => Seq::new(
                th.len(),
                |j: int|
                    " "@ + tvar(x.0, x.1) + " - "@ + decimal(BIG_M as int) + " thr_"@ + idx2(x.0, x.1)
                        + "_"@ + decimal(th[rev_index(th.len() as int, j)].0 as int) + " <= "@
                        + decimal(th[rev_index(th.len() as int, j)].0 + a),
            ),
            None => match infinite_interval(ty) {
                Some(iv) => seq![
                    " "@ + tvar(x.0, x.1) + " - "@ + decimal(iv as int) + " steps_"@ + idx2(x.0, x.1)
                        + " <= "@ + decimal(a as int),
                ],
                None => seq![
                    " "@ + tvar(x.0, x.1) + " - delay_"@ + idx2(x.0, x.1) + " <= "@ + decimal(
                        a as int,
                    ),
                ],
            },
        },
    }
}

/// The bounds of visit `x`'s start time.
pub open spec fn bound_line(p: Problem, x: (usize, usize)) -> Seq<Seq<char>> {
    seq![
        " "@ + decimal(visit_at(p, x).earliest as int) + " <= "@ + tvar(x.0, x.1) + " <= "@ + decimal(
            BIG_M as int,
        ),
    ]
}

/// The bounds of visit `x`'s delay, for continuous costs.
pub open spec fn delay_bound_line(p: Problem, ty: DelayCostType, x: (usize, usize)) -> Seq<
    Seq<char>,
> {
    if ty == DelayCostType::Continuous && visit_at(p, x).aimed is Some {
        seq![" 0 <= delay_"@ + idx2(x.0, x.1) + " <= "@ + decimal(BIG_M as int)]
    } else {
        seq![]
    }
}

/// The order variable of a pair.
pub open spec fn y_line(p: Problem, pr: VisitPair) -> Seq<Seq<char>> {
    if pair_usable(p, pr) {
        seq![" y_"@ + pair_name(pr)]
    } else {
        seq![]
    }
}

/// The threshold variables of visit `x`, for finite-step costs.
pub open spec fn thr_lines(p: Problem, ty: DelayCostType, x: (usize, usize)) -> Seq<Seq<char>> {
    match finite_table(ty) {
        Some(th) => if visit_at(p, x).aimed is Some {
            Seq::new(th.len(), |i: int| " thr_"@ + idx2(x.0, x.1) + "_"@ + decimal(th[i].0 as int))
        } else {
            seq![]
        },
        None => seq![],
    }
}

/// The step-count variable of visit `x`, for infinite-step costs.
pub open spec fn steps_line(p: Problem, ty: DelayCostType, x: (usize, usize)) -> Seq<Seq<char>> {
    if infinite_interval(ty) is Some && visit_at(p, x).aimed is Some {
        seq![" steps_"@ + idx2(x.0, x.1)]
    } else {
        seq![]
    }
}

/// Constraint lines, numbered from 0.
pub open spec fn numbered(bodies: Seq<Seq<char>>) -> Seq<Seq<char>> {
    Seq::new(bodies.len(), |k: int| " c"@ + decimal(k) + ":"@ + bodies[k])
}

/// The lines that each visit gives for a part of the model.
pub open spec fn visit_lines(p: Problem, ty: DelayCostType, part: VisitPart) -> Seq<Seq<char>> {
    gather(all_visits(p), |x: (usize, usize)| visit_part(p, ty, part, x))
}

/// The lines that each conflicting pair of visits gives for a part of the
/// model.
pub open spec fn pair_lines(p: Problem, part: PairPart) -> Seq<Seq<char>> {
    gather(conflict_pairs(p), |pr: VisitPair| pair_part(p, part, pr))
}

/// All constraint bodies of the big-M model: travel, then conflicts, then costs.
pub open spec fn bigm_bodies(p: Problem, ty: DelayCostType) -> Seq<Seq<char>> {
    visit_lines(p, ty, VisitPart::Travel) + pair_lines(p, PairPart::Conflict) + visit_lines(
        p,
        ty,
        VisitPart::Cost,
    )
}

/// The variable declarations of the big-M model after its bounds.
pub open spec fn bigm_tail(p: Problem, ty: DelayCostType) -> Seq<Seq<char>> {
    seq!["Binary"@] + pair_lines(p, PairPart::Order) + visit_lines(p, ty, VisitPart::Threshold) + (
    if infinite_interval(ty) is Some {
        seq!["General"@] + visit_lines(p, ty, VisitPart::Steps)
    } else {
        seq![]
    }) + seq!["End"@]
}

/// The big-M model of a problem as the lines of an LP file: the objective
/// sums the cost variables of the visits with an aimed time; each travel
/// time and each pair of conflicting visits (one order or the other, chosen
/// by a binary variable) is a constraint, and so is each link between a
/// visit's start and its cost variables; then come the bounds and the
/// binary and integer variables.
pub open spec fn bigm_lines(p: Problem, ty: DelayCostType) -> Seq<Seq<char>> {
    seq!["\\ TRP BigM MILP, exported by export_lp.rs"@, "Minimize"@, " obj:"@] + packed_lines(
        visit_lines(p, ty, VisitPart::Objective),
    ) + seq!["Subject To"@] + numbered(bigm_bodies(p, ty)) + seq!["Bounds"@] + visit_lines(
        p,
        ty,
        VisitPart::Bound,
    ) + visit_lines(p, ty, VisitPart::DelayBound) + bigm_tail(p, ty)
}

/// The counts of the big-M model: the variables declared, the constraints,
/// among them the travel and the conflict constraints.
pub open spec fn bigm_stats(p: Problem, ty: DelayCostType) -> ExportStats {
    ExportStats {
        n_vars: (visit_lines(p, ty, VisitPart::Bound).len() + visit_lines(
            p,
            ty,
            VisitPart::DelayBound,
        ).len() + pair_lines(p, PairPart::Order).len() + visit_lines(
            p,
            ty,
            VisitPart::Threshold,
        ).len() + visit_lines(p, ty, VisitPart::Steps).len()) as usize,
        n_constraints: bigm_bodies(p, ty).len() as usize,
        n_travel: visit_lines(p, ty, VisitPart::Travel).len() as usize,
        n_resource: pair_lines(p, PairPart::Conflict).len() as usize,
        n_intervals: 0,
    }
}

/// Every threshold of `th` added to `a` fits in `i32`.
pub open spec fn aim_fits(a: i32, th: Seq<(i32, usize)>) -> bool {
    forall|i: int| 0 <= i < th.len() ==> i32::MIN <= (#[trigger] th[i]).0 + a <= i32::MAX
}

/// The cost constraints of every visit with an aimed time fit in `i32`.
pub open spec fn bigm_fits(p: Problem, ty: DelayCostType) -> bool {
    forall|t: int, v: int|
        0 <= t < p.trains@.len() && 0 <= v < p.trains@[t].visits@.len() ==> match (#[trigger] p.trains@[t].visits@[v]).aimed {
            None => true,
            Some(a) => match finite_table(ty) {
                None => true,
                Some(th) => aim_fits(a, th),
            },
        }
}

/// The parts of the model that each visit contributes lines to.
#[derive(Clone, Copy, Debug, PartialEq, Eq, Structural)]
pub enum VisitPart {
    Objective,
    Travel,
    Cost,
    Bound,
    DelayBound,
    Threshold,
    Steps,
}

/// The lines that visit `x` contributes to a part of the model.
pub open spec fn visit_part(p: Problem, ty: DelayCostType, part: VisitPart, x: (usize, usize)) -> Seq<
    Seq<char>,
> {
    match part {
        VisitPart::Objective => obj_terms_of(p, ty, x),
        VisitPart::Travel => travel_body(p, x),
        VisitPart::Cost => cost_bodies(p, ty, x),
        VisitPart::Bound => bound_line(p, x),
        VisitPart::DelayBound => delay_bound_line(p, ty, x),
        VisitPart::Threshold => thr_lines(p, ty, x),
        VisitPart::Steps => steps_line(p, ty, x),
    }
}

/// The parts of the model that each conflicting pair contributes lines to.
#[derive(Clone, Copy, Debug, PartialEq, Eq, Structural)]
pub enum PairPart {
    Conflict,
    Order,
}

/// The lines that a pair contributes to a part of the model.
pub open spec fn pair_part(p: Problem, part: PairPart, pr: VisitPair) -> Seq<Seq<char>> {
    match part {
        PairPart::Conflict => conflict_bodies(p, pr),
        PairPart::Order => y_line(p, pr),
    }
}

/// Every visit of the list of all visits names a train and one of its visits.
pub proof fn lemma_all_visits_valid(p: Problem)
    ensures
        forall|i: int|
            0 <= i < all_visits(p).len() ==> (#[trigger] all_visits(p)[i]).0 < p.trains@.len()
                && all_visits(p)[i].1 < p.trains@[all_visits(p)[i].0 as int].visits@.len(),
{
    lemma_visits_of_trains_valid(p, p.trains@.len() as int);
}

proof fn lemma_visits_of_trains_valid(p: Problem, k: int)
    requires
        0 <= k <= p.trains@.len(),
    ensures
        forall|i: int|
            0 <= i < visits_of_trains(p, k).len() ==> (#[trigger] visits_of_trains(p, k)[i]).0 < k
                && visits_of_trains(p, k)[i].1 < p.trains@[visits_of_trains(p, k)[i].0 as int].visits@.len(),
    decreases k,
{
    if k > 0 {
        lemma_visits_of_trains_valid(p, k - 1);
        assert(p.trains.len() == p.trains@.len());
        assert(p.trains@[k - 1].visits.len() == p.trains@[k - 1].visits@.len());
        let prev = visits_of_trains(p, k - 1);
        let cur = Seq::new(p.trains@[k - 1].visits@.len(), |q: int| ((k - 1) as usize, q as usize));
        assert forall|i: int| 0 <= i < visits_of_trains(p, k).len() implies (#[trigger] visits_of_trains(
            p,
            k,
        )[i]).0 < k && visits_of_trains(p, k)[i].1 < p.trains@[visits_of_trains(
            p,
            k,
        )[i].0 as int].visits@.len() by {
            if i < prev.len() {
                assert(visits_of_trains(p, k)[i] == prev[i]);
            } else {
                assert(visits_of_trains(p, k)[i] == cur[i - prev.len()]);
            }
        }
    }
}

/// Appends `t_<t>_<v>`.
pub(crate) fn push_tvar(s: &mut String, t: usize, v: usize)
    ensures
        final(s)@ == old(s)@ + tvar(t, v),
{
    let ghost s0 = s@;
    s.append("t_");
    push_idx2(s, t, v);
    proof {
        assert(s@ =~= s0 + tvar(t, v));
    }
}

/// Appends `<a>_<b>`.
pub(crate) fn push_idx2(s: &mut String, a: usize, b: usize)
    ensures
        final(s)@ == old(s)@ + idx2(a, b),
{
    let ghost s0 = s@;
    push_decimal_u64(s, a as u64);
    s.append("_");
    push_decimal_u64(s, b as u64);
    proof {
        assert(decimal(a as int) == crate::text::decimal_nat(a as nat));
        assert(decimal(b as int) == crate::text::decimal_nat(b as nat));
        assert(s@ =~= s0 + idx2(a, b));
    }
}

/// Appends the decimal form of an `i32`.
pub(crate) fn push_i32(s: &mut String, n: i32)
    ensures
        final(s)@ == old(s)@ + decimal(n as int),
{
    push_decimal_i64(s, n as i64);
}

/// The threshold table of a finite-step cost type.
pub(crate) fn thresholds_of(ty: DelayCostType) -> (r: Option<DelayCostThresholds>)
    ensures
        match r {
            Some(t) => finite_table(ty) == Some(t.thresholds@),
            None => finite_table(ty) is None,
        },
{
    match ty {
        DelayCostType::FiniteSteps1_3Min => Some(DelayCostThresholds::f1_3min()),
        DelayCostType::FiniteSteps1_5Min => Some(DelayCostThresholds::f1_5min()),
        DelayCostType::FiniteSteps123 => Some(DelayCostThresholds::f123()),
        DelayCostType::FiniteSteps12345 => Some(DelayCostThresholds::f12345()),
        DelayCostType::FiniteSteps139 => Some(DelayCostThresholds::f139()),
        _ => None,
    }
}

/// The step length of an infinite-step cost type.
pub(crate) fn interval_of(ty: DelayCostType) -> (r: Option<i32>)
    ensures
        match r {
            Some(iv) => iv > 0 && infinite_interval(ty) == Some(iv as nat),
            None => infinite_interval(ty) is None,
        },
{
    match ty {
        DelayCostType::InfiniteSteps60 => Some(60),
        DelayCostType::InfiniteSteps180 => Some(180),
        DelayCostType::InfiniteSteps360 => Some(360),
        _ => None,
    }
}

/// The table's entries are small: thresholds of at most 1080 and costs of
/// at most 9.
pub open spec fn small_table(th: Seq<(i32, usize)>) -> bool {
    forall|i: int| 0 <= i < th.len() ==> 0 <= (#[trigger] th[i]).0 <= 1080 && th[i].1 <= 9
}

proof fn lemma_tables_small(ty: DelayCostType)
    ensures
        finite_table(ty) matches Some(th) ==> small_table(th),
{
}

/// The lines that visit `x` contributes to a part of the model.
#[verifier::rlimit(60)]
fn visit_part_of(
    p: &Problem,
    ty: DelayCostType,
    th: &Option<DelayCostThresholds>,
    part: VisitPart,
    x: (usize, usize),
) -> (r: Vec<String>)
    requires
        x.0 < p.trains@.len(),
        x.1 < p.trains@[x.0 as int].visits@.len(),
        match th {
            Some(t) => finite_table(ty) == Some(t.thresholds@),
            None => finite_table(ty) is None,
        },
        part == VisitPart::Cost ==> bigm_fits(*p, ty),
    ensures
        texts(r@) == visit_part(*p, ty, part, x),
{
    let (t, v) = x;
    let visit = p.trains[t].visits[v];
    let mut out: Vec<String> = Vec::new();
    proof {
        lemma_tables_small(ty);
    }
    match part {
        VisitPart::Objective => {
            if visit.aimed.is_some() {
                match th {
                    Some(tab) => {
                        let n = tab.thresholds.len();
                        let mut j: usize = 0;
                        while j < n
                            invariant
                                n == tab.thresholds@.len(),
                                finite_table(ty) == Some(tab.thresholds@),
                                small_table(tab.thresholds@),
                                j <= n,
                                texts(out@) == Seq::new(
                                    j as nat,
                                    |q: int|
                                        decimal(
                                            threshold_step(
                                                tab.thresholds@,
                                                rev_index(n as int, q),
                                            ),
                                        ) + " thr_"@ + idx2(t, v) + "_"@ + decimal(
                                            tab.thresholds@[rev_index(n as int, q)].0 as int,
                                        ),
                                ),
                            decreases n - j,
                        {
                            let i = n - 1 - j;
                            let (threshold, cost) = tab.thresholds[i];
                            let prev: usize = if i + 1 < n {
                                tab.thresholds[i + 1].1
                            } else {
                                0
                            };
                            let diff: i32 = cost as i32 - prev as i32;
                            let mut line = String::new();
                            push_i32(&mut line, diff);
                            line.append(" thr_");
                            push_idx2(&mut line, t, v);
                            line.append("_");
                            push_i32(&mut line, threshold);
                            let ghost before = texts(out@);
                            proof {
                                assert(diff as int == threshold_step(tab.thresholds@, i as int));
                                assert(i as int == rev_index(n as int, j as int));
                                assert(line@ =~= decimal(
                                    threshold_step(tab.thresholds@, rev_index(n as int, j as int)),
                                ) + " thr_"@ + idx2(t, v) + "_"@ + decimal(
                                    tab.thresholds@[rev_index(n as int, j as int)].0 as int,
                                ));
                            }
                            out.push(line);
                            proof {
                                assert(texts(out@) =~= before.push(line@));
                                assert(texts(out@) =~= Seq::new(
                                    (j + 1) as nat,
                                    |q: int|
                                        decimal(
                                            threshold_step(
                                                tab.thresholds@,
                                                rev_index(n as int, q),
                                            ),
                                        ) + " thr_"@ + idx2(t, v) + "_"@ + decimal(
                                            tab.thresholds@[rev_index(n as int, q)].0 as int,
                                        ),
                                ));
                            }
                            j = j + 1;
                        }
                    },
                    None => {
                        let mut line = String::new();
                        match interval_of(ty) {
                            Some(_) => {
                                line.append("1 steps_");
                            },
                            None => {
                                line.append("1 delay_");
                            },
                        }
                        push_idx2(&mut line, t, v);
                        out.push(line);
                        proof {
                            assert(texts(out@) =~= visit_part(*p, ty, part, x));
                        }
                    },
                }
            }
            proof {
                assert(texts(out@) =~= visit_part(*p, ty, part, x));
            }
        },
        VisitPart::Travel => {
            let nv = p.trains[t].visits.len();
            if v + 1 < nv {
                let mut line = String::from_str(" ");
                push_tvar(&mut line, t, v + 1);
                line.append(" - ");
                push_tvar(&mut line, t, v);
                line.append(" >= ");
                push_i32(&mut line, visit.travel_time);
                out.push(line);
            }
            proof {
                assert(texts(out@) =~= visit_part(*p, ty, part, x));
            }
        },
        VisitPart::Cost => {
            match visit.aimed {
                None => {},
                Some(a) => {
                    match th {
                        Some(tab) => {
                            let n = tab.thresholds.len();
                            let mut j: usize = 0;
                            proof {
                                assert(p.trains@[t as int].visits@[v as int].aimed == Some(a));
                            }
                            while j < n
                                invariant
                                    n == tab.thresholds@.len(),
                                    finite_table(ty) == Some(tab.thresholds@),
                                    forall|i: int|
                                        0 <= i < n ==> i32::MIN <= #[trigger] tab.thresholds@[i].0 + a
                                            <= i32::MAX,
                                    j <= n,
                                    texts(out@) == Seq::new(
                                        j as nat,
                                        |q: int|
                                            " "@ + tvar(t, v) + " - "@ + decimal(BIG_M as int) + " thr_"@
                                                + idx2(t, v) + "_"@ + decimal(
                                                tab.thresholds@[rev_index(n as int, q)].0 as int,
                                            ) + " <= "@ + decimal(
                                                tab.thresholds@[rev_index(n as int, q)].0 + a,
                                            ),
                                    ),
                                decreases n - j,
                            {
                                let i = n - 1 - j;
                                let (threshold, _) = tab.thresholds[i];
                                let bound = threshold + a;
                                let mut line = String::from_str(" ");
                                push_tvar(&mut line, t, v);
                                line.append(" - ");
                                push_i32(&mut line, BIG_M);
                                line.append(" thr_");
                                push_idx2(&mut line, t, v);
                                line.append("_");
                                push_i32(&mut line, threshold);
                                line.append(" <= ");
                                push_i32(&mut line, bound);
                                let ghost before = texts(out@);
                                proof {
                                    assert(i as int == rev_index(n as int, j as int));
                                    assert(line@ =~= " "@ + tvar(t, v) + " - "@ + decimal(BIG_M as int)
                                        + " thr_"@ + idx2(t, v) + "_"@ + decimal(
                                        tab.thresholds@[rev_index(n as int, j as int)].0 as int,
                                    ) + " <= "@ + decimal(
                                        tab.thresholds@[rev_index(n as int, j as int)].0 + a,
                                    ));
                                }
                                out.push(line);
                                proof {
                                    assert(texts(out@) =~= before.push(line@));
                                    assert(texts(out@) =~= Seq::new(
                                        (j + 1) as nat,
                                        |q: int|
                                            " "@ + tvar(t, v) + " - "@ + decimal(BIG_M as int) + " thr_"@
                                                + idx2(t, v) + "_"@ + decimal(
                                                tab.thresholds@[rev_index(n as int, q)].0 as int,
                                            ) + " <= "@ + decimal(
                                                tab.thresholds@[rev_index(n as int, q)].0 + a,
                                            ),
                                    ));
                                }
                                j = j + 1;
                            }
                        },
                        None => {
                            let mut line = String::from_str(" ");
                            push_tvar(&mut line, t, v);
                            let ivo = interval_of(ty);
                            match ivo {
                                Some(iv) => {
                                    line.append(" - ");
                                    push_i32(&mut line, iv);
                                    line.append(" steps_");
                                    push_idx2(&mut line, t, v);
                                    line.append(" <= ");
                                    push_i32(&mut line, a);
                                },
                                None => {
                                    line.append(" - delay_");
                                    push_idx2(&mut line, t, v);
                                    line.append(" <= ");
                                    push_i32(&mut line, a);
                                },
                            }
                            proof {
                                assert(visit_at(*p, x).aimed == Some(a));
                                match ivo {
                                    Some(iv) => {
                                        assert(line@ =~= " "@ + tvar(t, v) + " - "@ + decimal(
                                            iv as int,
                                        ) + " steps_"@ + idx2(t, v) + " <= "@ + decimal(a as int));
                                        assert(infinite_interval(ty) == Some(iv as nat));
                                    },
                                    None => {
                                        assert(line@ =~= " "@ + tvar(t, v) + " - delay_"@ + idx2(t, v)
                                            + " <= "@ + decimal(a as int));
                                    },
                                }
                            }
                            let ghost lv = line@;
                            out.push(line);
                            proof {
                                assert(texts(out@) =~= seq![lv]);
                                assert(finite_table(ty) is None);
                                if let Some(iv) = ivo {
                                    assert(infinite_interval(ty) == Some(iv as nat));
                                    assert(cost_bodies(*p, ty, x) == seq![
                                        " "@ + tvar(t, v) + " - "@ + decimal(iv as int) + " steps_"@
                                            + idx2(t, v) + " <= "@ + decimal(a as int),
                                    ]);
                                } else {
                                    assert(infinite_interval(ty) is None);
                                }
                                assert(texts(out@) =~= cost_bodies(*p, ty, x));
                            }
                        },
                    }
                    proof {
                        assert(texts(out@) =~= cost_bodies(*p, ty, x));
                    }
                },
            }
            proof {
                assert(texts(out@) =~= visit_part(*p, ty, part, x));
            }
        },
        VisitPart::Bound => {
            let mut line = String::from_str(" ");
            push_i32(&mut line, visit.earliest);
            line.append(" <= ");
            push_tvar(&mut line, t, v);
            line.append(" <= ");
            push_i32(&mut line, BIG_M);
            out.push(line);
            proof {
                assert(texts(out@) =~= visit_part(*p, ty, part, x));
            }
        },
        VisitPart::DelayBound => {
            let cont = match ty {
                DelayCostType::Continuous => true,
                _ => false,
            };
            if cont && visit.aimed.is_some() {
                let mut line = String::from_str(" 0 <= delay_");
                push_idx2(&mut line, t, v);
                line.append(" <= ");
                push_i32(&mut line, BIG_M);
                out.push(line);
            }
            proof {
                assert(texts(out@) =~= visit_part(*p, ty, part, x));
            }
        },
        VisitPart::Threshold => {
            match th {
                Some(tab) => {
                    if visit.aimed.is_some() {
                        let n = tab.thresholds.len();
                        let mut i: usize = 0;
                        while i < n
                            invariant
                                n == tab.thresholds@.len(),
                                i <= n,
                                texts(out@) == Seq::new(
                                    i as nat,
                                    |q: int|
                                        " thr_"@ + idx2(t, v) + "_"@ + decimal(
                                            tab.thresholds@[q].0 as int,
                                        ),
                                ),
                            decreases n - i,
                        {
                            let mut line = String::from_str(" thr_");
                            push_idx2(&mut line, t, v);
                            line.append("_");
                            push_i32(&mut line, tab.thresholds[i].0);
                            let ghost before = texts(out@);
                            proof {
                                assert(line@ =~= " thr_"@ + idx2(t, v) + "_"@ + decimal(
                                    tab.thresholds@[i as int].0 as int,
                                ));
                            }
                            out.push(line);
                            proof {
                                assert(texts(out@) =~= before.push(line@));
                                assert(texts(out@) =~= Seq::new(
                                    (i + 1) as nat,
                                    |q: int|
                                        " thr_"@ + idx2(t, v) + "_"@ + decimal(
                                            tab.thresholds@[q].0 as int,
                                        ),
                                ));
                            }
                            i = i + 1;
                        }
                    }
                },
                None => {},
            }
            proof {
                assert(texts(out@) =~= visit_part(*p, ty, part, x));
            }
        },
        VisitPart::Steps => {
            if interval_of(ty).is_some() && visit.aimed.is_some() {
                let mut line = String::from_str(" steps_");
                push_idx2(&mut line, t, v);
                out.push(line);
            }
            proof {
                assert(texts(out@) =~= visit_part(*p, ty, part, x));
            }
        },
    }
    out
}

/// The lines that a pair contributes to a part of the model.
fn pair_part_of(p: &Problem, part: PairPart, pr: VisitPair) -> (r: Vec<String>)
    requires
        valid_pair(*p, pr),
    ensures
        texts(r@) == pair_part(*p, part, pr),
{
    let ((t1, v1), (t2, v2)) = pr;
    let n1 = p.trains[t1].visits.len();
    let n2 = p.trains[t2].visits.len();
    let mut out: Vec<String> = Vec::new();
    if v1 + 1 < n1 && v2 + 1 < n2 {
        let mut name = String::new();
        push_idx2(&mut name, t1, v1);
        name.append("_");
        push_idx2(&mut name, t2, v2);
        proof {
            assert(name@ =~= pair_name(pr));
        }
        match part {
            PairPart::Conflict => {
                let mut a = String::from_str(" ");
                push_tvar(&mut a, t1, v1 + 1);
                a.append(" - ");
                push_tvar(&mut a, t2, v2);
                a.append(" + ");
                push_i32(&mut a, BIG_M);
                a.append(" y_");
                a.append(name.as_str());
                a.append(" <= ");
                push_i32(&mut a, BIG_M);
                let mut b = String::from_str(" ");
                push_tvar(&mut b, t2, v2 + 1);
                b.append(" - ");
                push_tvar(&mut b, t1, v1);
                b.append(" - ");
                push_i32(&mut b, BIG_M);
                b.append(" y_");
                b.append(name.as_str());
                b.append(" <= 0");
                out.push(a);
                out.push(b);
            },
            PairPart::Order => {
                let mut a = String::from_str(" y_");
                a.append(name.as_str());
                out.push(a);
            },
        }
    }
    proof {
        assert(texts(out@) =~= pair_part(*p, part, pr));
    }
    out
}

/// Appends lines to lines.
pub(crate) fn append_lines(out: &mut Vec<String>, more: Vec<String>)
    ensures
        texts(final(out)@) == texts(old(out)@) + texts(more@),
{
    let mut more = more;
    let ghost m = texts(more@);
    out.append(&mut more);
    proof {
        assert(texts(out@) =~= texts(old(out)@) + m);
    }
}

/// The lines that each of the visits `vs` gives for a part of the model.
fn visit_section(
    p: &Problem,
    ty: DelayCostType,
    th: &Option<DelayCostThresholds>,
    part: VisitPart,
    vs: &Vec<(usize, usize)>,
) -> (r: Vec<String>)
    requires
        vs@ == all_visits(*p),
        match th {
            Some(t) => finite_table(ty) == Some(t.thresholds@),
            None => finite_table(ty) is None,
        },
        part == VisitPart::Cost ==> bigm_fits(*p, ty),
    ensures
        texts(r@) == visit_lines(*p, ty, part),
{
    proof {
        lemma_all_visits_valid(*p);
    }
    let mut out: Vec<String> = Vec::new();
    let mut k: usize = 0;
    while k < vs.len()
        invariant
            vs@ == all_visits(*p),
            forall|i: int|
                0 <= i < all_visits(*p).len() ==> (#[trigger] all_visits(*p)[i]).0 < p.trains@.len()
                    && all_visits(*p)[i].1 < p.trains@[all_visits(*p)[i].0 as int].visits@.len(),
            match th {
                Some(t) => finite_table(ty) == Some(t.thresholds@),
                None => finite_table(ty) is None,
            },
            part == VisitPart::Cost ==> bigm_fits(*p, ty),
            k <= vs@.len(),
            texts(out@) == gather(vs@.take(k as int), |x: (usize, usize)| visit_part(*p, ty, part, x)),
        decreases vs@.len() - k,
    {
        let x = vs[k];
        proof {
            assert(all_visits(*p)[k as int] == x);
        }
        let more = visit_part_of(p, ty, th, part, x);
        proof {
            lemma_gather_step(vs@, |x: (usize, usize)| visit_part(*p, ty, part, x), k as int);
        }
        append_lines(&mut out, more);
        k = k + 1;
    }
    proof {
        assert(vs@.take(vs@.len() as int) =~= vs@);
    }
    out
}

/// The lines that each of the pairs `prs` gives for a part of the model.
fn pair_section(p: &Problem, part: PairPart, prs: &Vec<VisitPair>) -> (r: Vec<String>)
    requires
        prs@ == conflict_pairs(*p),
        forall|i: int| 0 <= i < prs@.len() ==> valid_pair(*p, #[trigger] prs@[i]),
    ensures
        texts(r@) == pair_lines(*p, part),
{
    let mut out: Vec<String> = Vec::new();
    let mut k: usize = 0;
    while k < prs.len()
        invariant
            prs@ == conflict_pairs(*p),
            forall|i: int| 0 <= i < prs@.len() ==> valid_pair(*p, #[trigger] prs@[i]),
            k <= prs@.len(),
            texts(out@) == gather(prs@.take(k as int), |pr: VisitPair| pair_part(*p, part, pr)),
        decreases prs@.len() - k,
    {
        let pr = prs[k];
        let more = pair_part_of(p, part, pr);
        proof {
            lemma_gather_step(prs@, |pr: VisitPair| pair_part(*p, part, pr), k as int);
        }
        append_lines(&mut out, more);
        k = k + 1;
    }
    proof {
        assert(prs@.take(prs@.len() as int) =~= prs@);
    }
    out
}

/// Constraint lines numbered from 0.
pub(crate) fn numbered_lines(bodies: &Vec<String>) -> (r: Vec<String>)
    ensures
        texts(r@) == numbered(texts(bodies@)),
{
    let mut out: Vec<String> = Vec::new();
    let mut k: usize = 0;
    while k < bodies.len()
        invariant
            k <= bodies@.len(),
            texts(out@) == numbered(texts(bodies@)).take(k as int),
        decreases bodies@.len() - k,
    {
        let mut line = String::from_str(" c");
        push_decimal_u64(&mut line, k as u64);
        line.append(":");
        line.append(bodies[k].as_str());
        let ghost before = texts(out@);
        out.push(line);
        proof {
            assert(decimal(k as int) == crate::text::decimal_nat(k as nat));
            assert(texts(out@) =~= before.push(line@));
            assert(numbered(texts(bodies@)).take(k + 1) =~= numbered(texts(bodies@)).take(
                k as int,
            ).push(line@));
        }
        k = k + 1;
    }
    proof {
        assert(numbered(texts(bodies@)).take(k as int) =~= numbered(texts(bodies@)));
    }
    out
}

/// Appends one line.
pub(crate) fn push_line(out: &mut Vec<String>, line: &str)
    ensures
        texts(final(out)@) == texts(old(out)@).push(line@),
{
    out.push(String::from_str(line));
    proof {
        assert(texts(out@) =~= texts(old(out)@).push(line@));
    }
}

/// The big-M model of `problem` as the lines of an LP file, as `bigm_lines`
/// says, with its counts; the caller writes the lines.
#[verifier::rlimit(60)]
pub fn write_bigm_lp(problem: &Problem, cost_type: DelayCostType) -> (r: (Vec<String>, ExportStats))
    requires
        resources_bounded(*problem),
        bigm_fits(*problem, cost_type),
    ensures
        texts(r.0@) == bigm_lines(*problem, cost_type),
        r.1 == bigm_stats(*problem, cost_type),
{
    let p = problem;
    let ty = cost_type;
    let th = thresholds_of(ty);
    let vs = all_visits_of(p);
    let pairs = visit_conflicts(p);
    let obj = visit_section(p, ty, &th, VisitPart::Objective, &vs);
    let travel = visit_section(p, ty, &th, VisitPart::Travel, &vs);
    let conflicts = pair_section(p, PairPart::Conflict, &pairs);
    let costs = visit_section(p, ty, &th, VisitPart::Cost, &vs);
    let bounds = visit_section(p, ty, &th, VisitPart::Bound, &vs);
    let delay_bounds = visit_section(p, ty, &th, VisitPart::DelayBound, &vs);
    let orders = pair_section(p, PairPart::Order, &pairs);
    let thrs = visit_section(p, ty, &th, VisitPart::Threshold, &vs);
    let steps = visit_section(p, ty, &th, VisitPart::Steps, &vs);
    let n_travel = travel.len();
    let n_resource = conflicts.len();
    let mut bodies: Vec<String> = Vec::new();
    append_lines(&mut bodies, travel);
    append_lines(&mut bodies, conflicts);
    append_lines(&mut bodies, costs);
    let n_constraints = bodies.len();
    let ghost bv = texts(bounds@);
    let ghost dv = texts(delay_bounds@);
    let ghost ov = texts(orders@);
    let ghost tv = texts(thrs@);
    let ghost sv = texts(steps@);
    let n_bounds = bounds.len();
    let n_delay_bounds = delay_bounds.len();
    let n_orders = orders.len();
    let n_thrs = thrs.len();
    let n_steps = steps.len();
    let mut out: Vec<String> = Vec::new();
    push_line(&mut out, "\\ TRP BigM MILP, exported by export_lp.rs");
    push_line(&mut out, "Minimize");
    push_line(&mut out, " obj:");
    append_lines(&mut out, write_terms(obj.as_slice()));
    push_line(&mut out, "Subject To");
    append_lines(&mut out, numbered_lines(&bodies));
    push_line(&mut out, "Bounds");
    append_lines(&mut out, bounds);
    append_lines(&mut out, delay_bounds);
    push_line(&mut out, "Binary");
    append_lines(&mut out, orders);
    append_lines(&mut out, thrs);
    let has_steps = interval_of(ty).is_some();
    if has_steps {
        push_line(&mut out, "General");
        append_lines(&mut out, steps);
    }
    push_line(&mut out, "End");
    proof {
        assert(texts(obj@) == visit_lines(*p, ty, VisitPart::Objective));
        assert(texts(out@) =~= bigm_lines(*p, ty));
        if !has_steps {
            lemma_gather_nil(all_visits(*p), |x: (usize, usize)| visit_part(*p, ty, VisitPart::Steps, x));
            assert(n_steps == 0);
        }
        assert(texts(out@).len() == out@.len());
        assert(out@.len() >= n_bounds + n_delay_bounds + n_orders + n_thrs + n_steps);
    }
    let _total = out.len();
    let n_vars = n_bounds + n_delay_bounds + n_orders + n_thrs + n_steps;
    (
        out,
        ExportStats { n_vars, n_constraints, n_travel, n_resource, n_intervals: 0 },
    )
}


/// Whether every visit's resource is below `usize::MAX`, which the exports
/// and counts need.
pub fn resources_in_range(p: &Problem) -> (b: bool)
    ensures
        b == resources_bounded(*p),
{
    let mut t: usize = 0;
    while t < p.trains.len()
        invariant
            t <= p.trains@.len(),
            forall|i: int, v: int|
                0 <= i < t && 0 <= v < p.trains@[i].visits@.len() ==> (#[trigger] p.trains@[i].visits@[v]).resource_id
                    < usize::MAX,
        decreases p.trains@.len() - t,
    {
        let mut v: usize = 0;
        while v < p.trains[t].visits.len()
            invariant
                t < p.trains@.len(),
                v <= p.trains@[t as int].visits@.len(),
                forall|i: int, w: int|
                    0 <= i < t && 0 <= w < p.trains@[i].visits@.len() ==> (#[trigger] p.trains@[i].visits@[w]).resource_id
                        < usize::MAX,
                forall|w: int| 0 <= w < v ==> (#[trigger] p.trains@[t as int].visits@[w]).resource_id < usize::MAX,
            decreases p.trains@[t as int].visits@.len() - v,
        {
            if p.trains[t].visits[v].resource_id == usize::MAX {
                return false;
            }
            v = v + 1;
        }
        t = t + 1;
    }
    true
}

/// Whether the cost constraints of the big-M model fit in `i32` (see
/// `bigm_fits`).
pub fn bigm_in_range(p: &Problem, ty: DelayCostType) -> (b: bool)
    ensures
        b == bigm_fits(*p, ty),
{
    let th = match thresholds_of(ty) {
        Some(th) => th,
        None => {
            return true;
        },
    };
    let ghost tv = th.thresholds@;
    let mut t: usize = 0;
    while t < p.trains.len()
        invariant
            t <= p.trains@.len(),
            finite_table(ty) == Some(tv),
            tv == th.thresholds@,
            forall|i: int, v: int|
                0 <= i < t && 0 <= v < p.trains@[i].visits@.len() ==> match (#[trigger] p.trains@[i].visits@[v]).aimed {
                    None => true,
                    Some(a) => aim_fits(a, tv),
                },
        decreases p.trains@.len() - t,
    {
        let mut v: usize = 0;
        while v < p.trains[t].visits.len()
            invariant
                t < p.trains@.len(),
                finite_table(ty) == Some(tv),
                tv == th.thresholds@,
                v <= p.trains@[t as int].visits@.len(),
                forall|i: int, w: int|
                    0 <= i < t && 0 <= w < p.trains@[i].visits@.len() ==> match (#[trigger] p.trains@[i].visits@[w]).aimed {
                        None => true,
                        Some(a) => aim_fits(a, tv),
                    },
                forall|w: int|
                    0 <= w < v ==> match (#[trigger] p.trains@[t as int].visits@[w]).aimed {
                        None => true,
                        Some(a) => aim_fits(a, tv),
                    },
            decreases p.trains@[t as int].visits@.len() - v,
        {
            if let Some(a) = p.trains[t].visits[v].aimed {
                let mut k: usize = 0;
                while k < th.thresholds.len()
                    invariant
                        k <= tv.len(),
                        tv == th.thresholds@,
                        t < p.trains@.len(),
                        v < p.trains@[t as int].visits@.len(),
                        p.trains@[t as int].visits@[v as int].aimed == Some(a),
                        finite_table(ty) == Some(tv),
                        forall|j: int| 0 <= j < k ==> i32::MIN <= (#[trigger] tv[j]).0 + a <= i32::MAX,
                    decreases tv.len() - k,
                {
                    let x = th.thresholds[k].0 as i64 + a as i64;
                    if x < i32::MIN as i64 || x > i32::MAX as i64 {
                        proof {
                            assert(!aim_fits(a, tv));
                            if bigm_fits(*p, ty) {
                                assert(p.trains@[t as int].visits@[v as int].aimed == Some(a));
                            }
                        }
                        return false;
                    }
                    k = k + 1;
                }
                proof {
                    assert(aim_fits(a, tv));
                }
            }
            v = v + 1;
        }
        t = t + 1;
    }
    true
}

} // verus!
