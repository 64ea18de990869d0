//! Unary counters of literals: the totalizer, which merges two counters
//! into one up to a limit, and the balanced tree of merges over a list of
//! literals.
use vstd::prelude::*;
use crate::ddd::amo::{
    add_bool_clauses, bool_clause_holds, bool_clauses_hold, bool_clauses_within, count_holding,
    counter_lits, lemma_hold_concat, lemma_holds_agree, lemma_negated_holds, lemma_negated_within,
    lemma_small_clauses, lit_clauses, push_clause,
};
use crate::ddd::lits::BoolLit;
use crate::maxsatsolver::{
    MaxSatSolver, agree_upto, clause_holds, clauses_hold, clauses_within, lemma_clauses_agree, lits_within,
};

verus! {

/// The literals `c` count `v`: `c[i]` holds exactly when `v > i`.
pub open spec fn counts(a: spec_fn(int) -> bool, c: Seq<BoolLit>, v: int) -> bool {
    forall|i: int| 0 <= i < c.len() ==> (#[trigger] c[i]).holds(a) == (v > i)
}

/// Literal "at least `k`" of a unary counter: true for `k = 0`, false past
/// its end.
pub open spec fn counter_at(c: Seq<BoolLit>, k: int) -> BoolLit {
    if k <= 0 {
        BoolLit::Const(true)
    } else if k - 1 < c.len() {
        c[k - 1]
    } else {
        BoolLit::Const(false)
    }
}

/// Literal "at least `threshold`" of a unary counter.
pub fn unary_counter_at(counter: &[BoolLit], threshold: usize) -> (r: BoolLit)
    ensures
        r == counter_at(counter@, threshold as int),
{
    if threshold == 0 {
        BoolLit::Const(true)
    } else if threshold - 1 < counter.len() {
        counter[threshold - 1]
    } else {
        BoolLit::Const(false)
    }
}

/// Clause "`c[i]` sets `o[i]`".
pub open spec fn up_clause_ok(a: spec_fn(int) -> bool, c: Seq<BoolLit>, o: Seq<BoolLit>, i: int) -> bool {
    c[i].holds(a) ==> o[i].holds(a)
}

/// Clause "`l[i]` and `r[j]` set `o[i + j + 1]`".
pub open spec fn sum_clause_ok(
    a: spec_fn(int) -> bool,
    l: Seq<BoolLit>,
    r: Seq<BoolLit>,
    o: Seq<BoolLit>,
    i: int,
    j: int,
) -> bool {
    l[i].holds(a) && r[j].holds(a) ==> o[i + j + 1].holds(a)
}

/// Clause "`o[i + j]` needs at least `i + 1` on the left or `j + 1` on the
/// right".
pub open spec fn split_clause_ok(
    a: spec_fn(int) -> bool,
    l: Seq<BoolLit>,
    r: Seq<BoolLit>,
    o: Seq<BoolLit>,
    i: int,
    j: int,
) -> bool {
    o[i + j].holds(a) ==> counter_at(l, i + 1).holds(a) || counter_at(r, j + 1).holds(a)
}

/// Clause "`o[t]` needs `o[t - 1]`".
pub open spec fn chain_clause_ok(a: spec_fn(int) -> bool, o: Seq<BoolLit>, t: int) -> bool {
    o[t].holds(a) ==> o[t - 1].holds(a)
}

/// The clauses "`c[i]` sets `o[i]`" for `i < u`.
pub open spec fn up_ok(a: spec_fn(int) -> bool, c: Seq<BoolLit>, o: Seq<BoolLit>, u: int) -> bool {
    forall|i: int| 0 <= i < u ==> #[trigger] up_clause_ok(a, c, o, i)
}

/// The sum clauses for the pairs `(i, j)` before `(iu, ju)`.
pub open spec fn sum_ok(
    a: spec_fn(int) -> bool,
    l: Seq<BoolLit>,
    r: Seq<BoolLit>,
    o: Seq<BoolLit>,
    iu: int,
    ju: int,
) -> bool {
    forall|i: int, j: int|
        0 <= i < l.len() && 0 <= j < r.len() && i + j + 2 <= o.len() && (i < iu || (i == iu && j < ju))
            ==> #[trigger] sum_clause_ok(a, l, r, o, i, j)
}

/// The split clauses for the pairs `(i, j)` with `i + j < o.len()` before
/// threshold `tu` (`= i + j + 1`) and left count `iu`.
pub open spec fn split_ok(
    a: spec_fn(int) -> bool,
    l: Seq<BoolLit>,
    r: Seq<BoolLit>,
    o: Seq<BoolLit>,
    tu: int,
    iu: int,
) -> bool {
    forall|i: int, j: int|
        0 <= i && 0 <= j && i + j < o.len() && (i + j + 1 < tu || (i + j + 1 == tu && i < iu))
            ==> #[trigger] split_clause_ok(a, l, r, o, i, j)
}

/// The chain clauses for `1 <= t < u`.
pub open spec fn chain_ok(a: spec_fn(int) -> bool, o: Seq<BoolLit>, u: int) -> bool {
    forall|t: int| 1 <= t < u ==> #[trigger] chain_clause_ok(a, o, t)
}

/// The smaller of two integers.
pub open spec fn min_int(x: int, y: int) -> int {
    if x <= y {
        x
    } else {
        y
    }
}

/// All clauses of the totalizer that merges counters `l` and `r` into `o`.
pub open spec fn merge_ok(a: spec_fn(int) -> bool, l: Seq<BoolLit>, r: Seq<BoolLit>, o: Seq<BoolLit>) -> bool {
    &&& up_ok(a, l, o, min_int(l.len() as int, o.len() as int))
    &&& up_ok(a, r, o, min_int(r.len() as int, o.len() as int))
    &&& sum_ok(a, l, r, o, l.len() as int, 0)
    &&& split_ok(a, l, r, o, o.len() + 1int, 0)
    &&& chain_ok(a, o, o.len() as int)
}

/// Adding one clause: the clauses hold together when the old ones and the
/// new one do.
proof fn lemma_push_holds(a: spec_fn(int) -> bool, cs: Seq<Seq<BoolLit>>, c: Seq<BoolLit>)
    ensures
        bool_clauses_hold(a, cs.push(c)) == (bool_clauses_hold(a, cs) && bool_clause_holds(a, c)),
{
    lemma_hold_concat(a, cs, seq![c]);
    assert(cs.push(c) =~= cs + seq![c]);
    if bool_clause_holds(a, c) {
        assert forall|k: int| 0 <= k < 1 implies #[trigger] bool_clause_holds(a, seq![c][k]) by {
            assert(seq![c][k] == c);
        }
    }
    if bool_clauses_hold(a, seq![c]) {
        assert(bool_clause_holds(a, seq![c][0]));
        assert(seq![c][0] == c);
    }
}

/// All literals of the sequences name no variable beyond `n`.
pub open spec fn all_within(c: Seq<BoolLit>, n: int) -> bool {
    forall|i: int| 0 <= i < c.len() ==> (#[trigger] c[i]).within(n)
}


/// The totalizer's clauses make the merged counter count the sum: where
/// `l` counts `cl` and `r` counts `cr` (each at most its length), `o` counts
/// `cl + cr`.
pub proof fn lemma_merge_sound(
    a: spec_fn(int) -> bool,
    l: Seq<BoolLit>,
    r: Seq<BoolLit>,
    o: Seq<BoolLit>,
    cl: int,
    cr: int,
)
    requires
        merge_ok(a, l, r, o),
        0 <= cl <= l.len(),
        0 <= cr <= r.len(),
        counts(a, l, cl),
        counts(a, r, cr),
    ensures
        counts(a, o, cl + cr),
{
    assert forall|t: int| 0 <= t < o.len() implies (#[trigger] o[t]).holds(a) == (cl + cr > t) by {
        if cl + cr > t {
            if cl > t {
                assert(l[t].holds(a));
                assert(up_clause_ok(a, l, o, t));
            } else if cr > t {
                assert(r[t].holds(a));
                assert(up_clause_ok(a, r, o, t));
            } else {
                let i = cl - 1;
                let j = t - cl;
                assert(l[i].holds(a));
                assert(r[j].holds(a));
                assert(sum_clause_ok(a, l, r, o, i, j));
            }
        } else {
            let i = cl;
            let j = t - cl;
            assert(split_clause_ok(a, l, r, o, i, j));
            if cl < l.len() {
                assert(!l[cl].holds(a));
            }
            if j < r.len() {
                assert(!r[j].holds(a));
            }
        }
    }
}

/// The assignment that gives the merged counter's variables (after `n0`)
/// the counter of `v`, and is `a` elsewhere.
pub open spec fn merge_witness(a: spec_fn(int) -> bool, n0: int, m: int, v: int) -> spec_fn(int) -> bool {
    |x: int|
        if n0 < x <= n0 + m {
            v > x - n0 - 1
        } else {
            a(x)
        }
}

/// Where `l` counts `cl` and `r` counts `cr`, giving the merged counter's
/// fresh variables the counter of `cl + cr` satisfies the totalizer's
/// clauses.
pub proof fn lemma_merge_complete(
    a: spec_fn(int) -> bool,
    l: Seq<BoolLit>,
    r: Seq<BoolLit>,
    o: Seq<BoolLit>,
    n0: int,
    cl: int,
    cr: int,
)
    requires
        0 <= n0,
        n0 + o.len() <= isize::MAX,
        counter_lits(o, n0),
        all_within(l, n0),
        all_within(r, n0),
        0 <= cl <= l.len(),
        0 <= cr <= r.len(),
        counts(a, l, cl),
        counts(a, r, cr),
    ensures
        agree_upto(a, merge_witness(a, n0, o.len() as int, cl + cr), n0),
        merge_ok(merge_witness(a, n0, o.len() as int, cl + cr), l, r, o),
        counts(merge_witness(a, n0, o.len() as int, cl + cr), l, cl),
        counts(merge_witness(a, n0, o.len() as int, cl + cr), r, cr),
        counts(merge_witness(a, n0, o.len() as int, cl + cr), o, cl + cr),
{
    let b = merge_witness(a, n0, o.len() as int, cl + cr);
    assert(agree_upto(a, b, n0));
    assert forall|i: int| 0 <= i < l.len() implies (#[trigger] l[i]).holds(b) == l[i].holds(a) by {
        lemma_holds_agree(l[i], a, b, n0);
    }
    assert forall|i: int| 0 <= i < r.len() implies (#[trigger] r[i]).holds(b) == r[i].holds(a) by {
        lemma_holds_agree(r[i], a, b, n0);
    }
    assert forall|t: int| 0 <= t < o.len() implies (#[trigger] o[t]).holds(b) == (cl + cr > t) by {
        assert(o[t] == BoolLit::Lit((n0 + 1 + t) as isize));
        assert(b(n0 + 1 + t) == (cl + cr > t));
    }
    assert forall|i: int| 0 <= i < min_int(l.len() as int, o.len() as int) implies #[trigger] up_clause_ok(b, l, o, i) by {
        assert(l[i].holds(b) == (cl > i));
        assert(o[i].holds(b) == (cl + cr > i));
    }
    assert forall|i: int| 0 <= i < min_int(r.len() as int, o.len() as int) implies #[trigger] up_clause_ok(b, r, o, i) by {
        assert(r[i].holds(b) == (cr > i));
        assert(o[i].holds(b) == (cl + cr > i));
    }
    assert forall|i: int, j: int|
        0 <= i < l.len() && 0 <= j < r.len() && i + j + 2 <= o.len() && (i < l.len() || (i == l.len() && j < 0))
            implies #[trigger] sum_clause_ok(b, l, r, o, i, j) by {
        assert(l[i].holds(b) == (cl > i));
        assert(r[j].holds(b) == (cr > j));
        assert(o[i + j + 1].holds(b) == (cl + cr > i + j + 1));
    }
    assert forall|i: int, j: int|
        0 <= i && 0 <= j && i + j < o.len() && (i + j + 1 < o.len() + 1 || (i + j + 1 == o.len() + 1 && i < 0))
            implies #[trigger] split_clause_ok(b, l, r, o, i, j) by {
        assert(o[i + j].holds(b) == (cl + cr > i + j));
        if cl > i {
            assert(l[i].holds(b));
            assert(counter_at(l, i + 1) == l[i]);
        }
        if cr > j {
            assert(r[j].holds(b));
            assert(counter_at(r, j + 1) == r[j]);
        }
    }
    assert forall|t: int| 1 <= t < o.len() implies #[trigger] chain_clause_ok(b, o, t) by {
        assert(o[t].holds(b) == (cl + cr > t));
        assert(o[t - 1].holds(b) == (cl + cr > t - 1));
    }
}


/// The up clauses of the left counter and of the first `j` of the right.
pub open spec fn stage_b(a: spec_fn(int) -> bool, l: Seq<BoolLit>, r: Seq<BoolLit>, o: Seq<BoolLit>, j: int) -> bool {
    up_ok(a, l, o, min_int(l.len() as int, o.len() as int)) && up_ok(a, r, o, j)
}

/// All up clauses and the sum clauses before `(i, j)`.
pub open spec fn stage_c(a: spec_fn(int) -> bool, l: Seq<BoolLit>, r: Seq<BoolLit>, o: Seq<BoolLit>, i: int, j: int) -> bool {
    stage_b(a, l, r, o, min_int(r.len() as int, o.len() as int)) && sum_ok(a, l, r, o, i, j)
}

/// The up and sum clauses and the split clauses before `(t, i)`.
pub open spec fn stage_d(a: spec_fn(int) -> bool, l: Seq<BoolLit>, r: Seq<BoolLit>, o: Seq<BoolLit>, t: int, i: int) -> bool {
    stage_c(a, l, r, o, l.len() as int, 0) && split_ok(a, l, r, o, t, i)
}

/// The up, sum and split clauses and the chain clauses below `t`.
pub open spec fn stage_e(a: spec_fn(int) -> bool, l: Seq<BoolLit>, r: Seq<BoolLit>, o: Seq<BoolLit>, t: int) -> bool {
    stage_d(a, l, r, o, o.len() + 1int, 0) && chain_ok(a, o, t)
}

proof fn lemma_up_step(a: spec_fn(int) -> bool, c: Seq<BoolLit>, o: Seq<BoolLit>, u: int)
    requires
        0 <= u,
    ensures
        up_ok(a, c, o, u + 1) == (up_ok(a, c, o, u) && up_clause_ok(a, c, o, u)),
{
    if up_ok(a, c, o, u) && up_clause_ok(a, c, o, u) {
        assert forall|i: int| 0 <= i < u + 1 implies #[trigger] up_clause_ok(a, c, o, i) by {}
    }
}

proof fn lemma_sum_step(a: spec_fn(int) -> bool, l: Seq<BoolLit>, r: Seq<BoolLit>, o: Seq<BoolLit>, i: int, j: int)
    requires
        0 <= i < l.len(),
        0 <= j < r.len(),
    ensures
        sum_ok(a, l, r, o, i, j + 1) == (sum_ok(a, l, r, o, i, j) && (i + j + 2 <= o.len() ==> sum_clause_ok(
            a,
            l,
            r,
            o,
            i,
            j,
        ))),
{
    if sum_ok(a, l, r, o, i, j) && (i + j + 2 <= o.len() ==> sum_clause_ok(a, l, r, o, i, j)) {
        assert forall|x: int, y: int|
            0 <= x < l.len() && 0 <= y < r.len() && x + y + 2 <= o.len() && (x < i || (x == i && y < j + 1))
                implies #[trigger] sum_clause_ok(a, l, r, o, x, y) by {
            if !(x == i && y == j) {
                assert(x < i || (x == i && y < j));
            }
        }
    }
}

proof fn lemma_sum_row(a: spec_fn(int) -> bool, l: Seq<BoolLit>, r: Seq<BoolLit>, o: Seq<BoolLit>, i: int)
    ensures
        sum_ok(a, l, r, o, i, r.len() as int) == sum_ok(a, l, r, o, i + 1, 0),
{
}

proof fn lemma_split_step(a: spec_fn(int) -> bool, l: Seq<BoolLit>, r: Seq<BoolLit>, o: Seq<BoolLit>, t: int, i: int)
    requires
        0 <= i < t <= o.len(),
    ensures
        split_ok(a, l, r, o, t, i + 1) == (split_ok(a, l, r, o, t, i) && split_clause_ok(a, l, r, o, i, t - 1 - i)),
{
    if split_ok(a, l, r, o, t, i) && split_clause_ok(a, l, r, o, i, t - 1 - i) {
        assert forall|x: int, y: int|
            0 <= x && 0 <= y && x + y < o.len() && (x + y + 1 < t || (x + y + 1 == t && x < i + 1))
                implies #[trigger] split_clause_ok(a, l, r, o, x, y) by {
            if !(x == i && y == t - 1 - i) {
                assert(x + y + 1 < t || (x + y + 1 == t && x < i));
            }
        }
    }
}

proof fn lemma_split_row(a: spec_fn(int) -> bool, l: Seq<BoolLit>, r: Seq<BoolLit>, o: Seq<BoolLit>, t: int)
    requires
        1 <= t,
    ensures
        split_ok(a, l, r, o, t, t) == split_ok(a, l, r, o, t + 1, 0),
{
}

proof fn lemma_chain_step(a: spec_fn(int) -> bool, o: Seq<BoolLit>, t: int)
    requires
        1 <= t,
    ensures
        chain_ok(a, o, t + 1) == (chain_ok(a, o, t) && chain_clause_ok(a, o, t)),
{
    if chain_ok(a, o, t) && chain_clause_ok(a, o, t) {
        assert forall|x: int| 1 <= x < t + 1 implies #[trigger] chain_clause_ok(a, o, x) by {}
    }
}


/// The clauses of the merge so far hold together with the next one.
proof fn lemma_next_clause(
    a: spec_fn(int) -> bool,
    cs: Seq<Seq<BoolLit>>,
    c: Seq<BoolLit>,
    before: bool,
    clause: bool,
)
    requires
        bool_clauses_hold(a, cs) == before,
        bool_clause_holds(a, c) == clause,
    ensures
        bool_clauses_hold(a, cs.push(c)) == (before && clause),
{
    lemma_push_holds(a, cs, c);
}

/// Merges the unary counters `left` and `right` into a counter of at most
/// `limit` fresh variables: each left or right literal sets the output of
/// its rank, each pair sets the output of the sum of their ranks, each
/// output needs a split of its rank between the two inputs, and each output
/// needs the one below it.
pub fn encode_totalizer_merge_limited<S: MaxSatSolver + ?Sized>(
    solver: &mut S,
    left: &[BoolLit],
    right: &[BoolLit],
    limit: usize,
) -> (out: Vec<BoolLit>)
    requires
        0 <= old(solver).num_vars(),
        all_within(left@, old(solver).num_vars()),
        all_within(right@, old(solver).num_vars()),
        left@.len() + right@.len() <= isize::MAX,
        old(solver).num_vars() + min_int(limit as int, (left@.len() + right@.len()) as int) <= isize::MAX,
    ensures
        out@.len() == min_int(limit as int, (left@.len() + right@.len()) as int),
        counter_lits(out@, old(solver).num_vars()),
        final(solver).num_vars() == old(solver).num_vars() + out@.len(),
        final(solver).hard_clauses().len() >= old(solver).hard_clauses().len(),
        final(solver).hard_clauses().take(old(solver).hard_clauses().len() as int) == old(solver).hard_clauses(),
        clauses_within(final(solver).hard_clauses().skip(old(solver).hard_clauses().len() as int), final(solver).num_vars()),
        forall|a: spec_fn(int) -> bool|
            #[trigger] clauses_hold(a, final(solver).hard_clauses().skip(old(solver).hard_clauses().len() as int))
                == merge_ok(a, left@, right@, out@),
{
    let ghost h0 = solver.hard_clauses();
    let ghost n0 = solver.num_vars();
    let ghost l = left@;
    let ghost r = right@;
    let total = left.len() + right.len();
    let m = if limit < total {
        limit
    } else {
        total
    };
    let mut out: Vec<BoolLit> = Vec::new();
    let mut k: usize = 0;
    while k < m
        invariant
            k <= m,
            m == min_int(limit as int, (l.len() + r.len()) as int),
            0 <= n0,
            n0 + m <= isize::MAX,
            solver.num_vars() == n0 + k,
            solver.hard_clauses() == h0,
            out@.len() == k,
            counter_lits(out@, n0),
        decreases m - k,
    {
        let v = solver.new_var();
        let ghost before = out@;
        out.push(BoolLit::Lit(v));
        proof {
            assert forall|i: int| 0 <= i < out@.len() implies #[trigger] out@[i] == BoolLit::Lit((n0 + 1 + i) as isize) by {
                if i < k {
                    assert(out@[i] == before[i]);
                }
            }
        }
        k = k + 1;
    }
    let ghost o = out@;
    let ghost n1 = n0 + m;
    proof {
        assert forall|i: int| 0 <= i < l.len() implies (#[trigger] l[i]).within(n1) && l[i].within(isize::MAX as int) by {}
        assert forall|i: int| 0 <= i < r.len() implies (#[trigger] r[i]).within(n1) && r[i].within(isize::MAX as int) by {}
        assert forall|i: int| 0 <= i < o.len() implies (#[trigger] o[i]).within(n1) && o[i].within(isize::MAX as int) by {
            assert(o[i] == BoolLit::Lit((n0 + 1 + i) as isize));
        }
    }
    let mut cs: Vec<Vec<BoolLit>> = Vec::new();
    // Each left literal sets the output of its rank.
    let ua = if left.len() < m {
        left.len()
    } else {
        m
    };
    let mut i: usize = 0;
    while i < ua
        invariant
            ua == min_int(l.len() as int, o.len() as int),
            i <= ua,
            l == left@,
            o == out@,
            o.len() == m,
            n1 <= isize::MAX,
            forall|x: int| 0 <= x < l.len() ==> (#[trigger] l[x]).within(n1),
            forall|x: int| 0 <= x < o.len() ==> (#[trigger] o[x]).within(n1),
            bool_clauses_within(lit_clauses(cs@), n1),
            forall|a: spec_fn(int) -> bool| #[trigger] bool_clauses_hold(a, lit_clauses(cs@)) == up_ok(a, l, o, i as int),
        decreases ua - i,
    {
        let c = vec![left[i].not(), out[i]];
        let ghost cv = lit_clauses(cs@);
        let ghost cl = c@;
        proof {
            lemma_negated_within(l[i as int], n1);
            assert(cl == seq![l[i as int].negated(), o[i as int]]);
        }
        push_clause(&mut cs, c);
        proof {
            assert forall|a: spec_fn(int) -> bool| #[trigger] bool_clauses_hold(a, lit_clauses(cs@)) == up_ok(a, l, o, i + 1) by {
                lemma_negated_holds(l[i as int], a);
                lemma_small_clauses(a, l[i as int].negated(), o[i as int], o[i as int]);
                lemma_next_clause(a, cv, cl, up_ok(a, l, o, i as int), up_clause_ok(a, l, o, i as int));
                lemma_up_step(a, l, o, i as int);
            }
            assert forall|x: int, y: int| 0 <= x < lit_clauses(cs@).len() && 0 <= y < lit_clauses(cs@)[x].len() implies (#[trigger] lit_clauses(cs@)[x][y]).within(n1) by {
                if x < cv.len() {
                    assert(lit_clauses(cs@)[x] == cv[x]);
                } else {
                    assert(lit_clauses(cs@)[x] == cl);
                }
            }
        }
        i = i + 1;
    }
    // Each right literal sets the output of its rank.
    let ub = if right.len() < m {
        right.len()
    } else {
        m
    };
    let mut j: usize = 0;
    while j < ub
        invariant
            ua == min_int(l.len() as int, o.len() as int),
            ub == min_int(r.len() as int, o.len() as int),
            j <= ub,
            r == right@,
            o == out@,
            o.len() == m,
            n1 <= isize::MAX,
            forall|x: int| 0 <= x < r.len() ==> (#[trigger] r[x]).within(n1),
            forall|x: int| 0 <= x < o.len() ==> (#[trigger] o[x]).within(n1),
            bool_clauses_within(lit_clauses(cs@), n1),
            forall|a: spec_fn(int) -> bool| #[trigger] bool_clauses_hold(a, lit_clauses(cs@)) == stage_b(a, l, r, o, j as int),
        decreases ub - j,
    {
        let c = vec![right[j].not(), out[j]];
        let ghost cv = lit_clauses(cs@);
        let ghost cl = c@;
        proof {
            lemma_negated_within(r[j as int], n1);
            assert(cl == seq![r[j as int].negated(), o[j as int]]);
        }
        push_clause(&mut cs, c);
        proof {
            assert forall|a: spec_fn(int) -> bool| #[trigger] bool_clauses_hold(a, lit_clauses(cs@)) == stage_b(a, l, r, o, j + 1) by {
                lemma_negated_holds(r[j as int], a);
                lemma_small_clauses(a, r[j as int].negated(), o[j as int], o[j as int]);
                lemma_next_clause(a, cv, cl, stage_b(a, l, r, o, j as int), up_clause_ok(a, r, o, j as int));
                lemma_up_step(a, r, o, j as int);
            }
            assert forall|x: int, y: int| 0 <= x < lit_clauses(cs@).len() && 0 <= y < lit_clauses(cs@)[x].len() implies (#[trigger] lit_clauses(cs@)[x][y]).within(n1) by {
                if x < cv.len() {
                    assert(lit_clauses(cs@)[x] == cv[x]);
                } else {
                    assert(lit_clauses(cs@)[x] == cl);
                }
            }
        }
        j = j + 1;
    }
    // Each pair of a left and a right literal sets the output of the sum of
    // their ranks.
    let mut i: usize = 0;
    while i < left.len()
        invariant
            ub == min_int(r.len() as int, o.len() as int),
            i <= l.len(),
            l.len() + r.len() <= isize::MAX,
            l == left@,
            r == right@,
            o == out@,
            o.len() == m,
            n1 <= isize::MAX,
            forall|x: int| 0 <= x < l.len() ==> (#[trigger] l[x]).within(n1),
            forall|x: int| 0 <= x < r.len() ==> (#[trigger] r[x]).within(n1),
            forall|x: int| 0 <= x < o.len() ==> (#[trigger] o[x]).within(n1),
            bool_clauses_within(lit_clauses(cs@), n1),
            forall|a: spec_fn(int) -> bool| #[trigger] bool_clauses_hold(a, lit_clauses(cs@)) == stage_c(a, l, r, o, i as int, 0),
        decreases l.len() - i,
    {
        let mut j: usize = 0;
        while j < right.len()
            invariant
                i < l.len(),
                j <= r.len(),
                l.len() + r.len() <= isize::MAX,
                l == left@,
                r == right@,
                o == out@,
                o.len() == m,
                n1 <= isize::MAX,
                forall|x: int| 0 <= x < l.len() ==> (#[trigger] l[x]).within(n1),
                forall|x: int| 0 <= x < r.len() ==> (#[trigger] r[x]).within(n1),
                forall|x: int| 0 <= x < o.len() ==> (#[trigger] o[x]).within(n1),
                bool_clauses_within(lit_clauses(cs@), n1),
                forall|a: spec_fn(int) -> bool| #[trigger] bool_clauses_hold(a, lit_clauses(cs@)) == stage_c(a, l, r, o, i as int, j as int),
            decreases r.len() - j,
        {
            if i + j + 2 <= m {
                let c = vec![left[i].not(), right[j].not(), out[i + j + 1]];
                let ghost cv = lit_clauses(cs@);
                let ghost cl = c@;
                proof {
                    lemma_negated_within(l[i as int], n1);
                    lemma_negated_within(r[j as int], n1);
                    assert(cl == seq![l[i as int].negated(), r[j as int].negated(), o[i + j + 1]]);
                }
                push_clause(&mut cs, c);
                proof {
                    assert forall|a: spec_fn(int) -> bool| #[trigger] bool_clauses_hold(a, lit_clauses(cs@)) == stage_c(a, l, r, o, i as int, j + 1) by {
                        lemma_negated_holds(l[i as int], a);
                        lemma_negated_holds(r[j as int], a);
                        lemma_small_clauses(a, l[i as int].negated(), r[j as int].negated(), o[i + j + 1]);
                        lemma_next_clause(a, cv, cl, stage_c(a, l, r, o, i as int, j as int), sum_clause_ok(a, l, r, o, i as int, j as int));
                        lemma_sum_step(a, l, r, o, i as int, j as int);
                    }
                    assert forall|x: int, y: int| 0 <= x < lit_clauses(cs@).len() && 0 <= y < lit_clauses(cs@)[x].len() implies (#[trigger] lit_clauses(cs@)[x][y]).within(n1) by {
                        if x < cv.len() {
                            assert(lit_clauses(cs@)[x] == cv[x]);
                        } else {
                            assert(lit_clauses(cs@)[x] == cl);
                        }
                    }
                }
            } else {
                proof {
                    assert forall|a: spec_fn(int) -> bool| #[trigger] bool_clauses_hold(a, lit_clauses(cs@)) == stage_c(a, l, r, o, i as int, j + 1) by {
                        lemma_sum_step(a, l, r, o, i as int, j as int);
                    }
                }
            }
            j = j + 1;
        }
        proof {
            assert forall|a: spec_fn(int) -> bool| #[trigger] bool_clauses_hold(a, lit_clauses(cs@)) == stage_c(a, l, r, o, i + 1, 0) by {
                lemma_sum_row(a, l, r, o, i as int);
            }
        }
        i = i + 1;
    }
    proof {
        assert forall|a: spec_fn(int) -> bool| #[trigger] bool_clauses_hold(a, lit_clauses(cs@)) == stage_d(a, l, r, o, 1, 0) by {
            assert(split_ok(a, l, r, o, 1, 0));
        }
    }
    // Each output needs a split of its rank between the two inputs.
    let mut t: usize = 1;
    while t <= m
        invariant
            1 <= t <= m + 1,
            l == left@,
            r == right@,
            o == out@,
            o.len() == m,
            m <= isize::MAX,
            n1 <= isize::MAX,
            forall|x: int| 0 <= x < l.len() ==> (#[trigger] l[x]).within(n1),
            forall|x: int| 0 <= x < r.len() ==> (#[trigger] r[x]).within(n1),
            forall|x: int| 0 <= x < o.len() ==> (#[trigger] o[x]).within(n1),
            bool_clauses_within(lit_clauses(cs@), n1),
            forall|a: spec_fn(int) -> bool| #[trigger] bool_clauses_hold(a, lit_clauses(cs@)) == stage_d(a, l, r, o, t as int, 0),
        decreases m + 1 - t,
    {
        let mut lm: usize = 0;
        while lm < t
            invariant
                1 <= t <= m,
                lm <= t,
                l == left@,
                r == right@,
                o == out@,
                o.len() == m,
                n1 <= isize::MAX,
                forall|x: int| 0 <= x < l.len() ==> (#[trigger] l[x]).within(n1),
                forall|x: int| 0 <= x < r.len() ==> (#[trigger] r[x]).within(n1),
                forall|x: int| 0 <= x < o.len() ==> (#[trigger] o[x]).within(n1),
                bool_clauses_within(lit_clauses(cs@), n1),
                forall|a: spec_fn(int) -> bool| #[trigger] bool_clauses_hold(a, lit_clauses(cs@)) == stage_d(a, l, r, o, t as int, lm as int),
            decreases t - lm,
        {
            let top = t - 1;
            let rest = t - lm;
            let c0 = out[top].not();
            let c1 = unary_counter_at(left, lm + 1);
            let c2 = unary_counter_at(right, rest);
            let c = vec![c0, c1, c2];
            let ghost cv = lit_clauses(cs@);
            let ghost cl = c@;
            let ghost rm = t - 1 - lm;
            proof {
                lemma_negated_within(o[t - 1], n1);
                assert(cl == seq![o[t - 1].negated(), counter_at(l, lm + 1), counter_at(r, rm + 1)]);
                assert(o[lm + rm] == o[t - 1]);
            }
            push_clause(&mut cs, c);
            proof {
                assert forall|a: spec_fn(int) -> bool| #[trigger] bool_clauses_hold(a, lit_clauses(cs@)) == stage_d(a, l, r, o, t as int, lm + 1) by {
                    lemma_negated_holds(o[t - 1], a);
                    lemma_small_clauses(a, o[t - 1].negated(), counter_at(l, lm + 1), counter_at(r, rm + 1));
                    lemma_next_clause(a, cv, cl, stage_d(a, l, r, o, t as int, lm as int), split_clause_ok(a, l, r, o, lm as int, rm));
                    lemma_split_step(a, l, r, o, t as int, lm as int);
                }
                assert forall|x: int, y: int| 0 <= x < lit_clauses(cs@).len() && 0 <= y < lit_clauses(cs@)[x].len() implies (#[trigger] lit_clauses(cs@)[x][y]).within(n1) by {
                    if x < cv.len() {
                        assert(lit_clauses(cs@)[x] == cv[x]);
                    } else {
                        assert(lit_clauses(cs@)[x] == cl);
                    }
                }
            }
            lm = lm + 1;
        }
        proof {
            assert forall|a: spec_fn(int) -> bool| #[trigger] bool_clauses_hold(a, lit_clauses(cs@)) == stage_d(a, l, r, o, t + 1, 0) by {
                lemma_split_row(a, l, r, o, t as int);
            }
        }
        t = t + 1;
    }
    proof {
        assert forall|a: spec_fn(int) -> bool| #[trigger] bool_clauses_hold(a, lit_clauses(cs@)) == stage_e(a, l, r, o, 1) by {
            assert(chain_ok(a, o, 1));
        }
    }
    // Each output needs the one below it.
    let mut t: usize = 1;
    while t < m
        invariant
            1 <= t,
            t <= m || (m == 0 && t == 1),
            o == out@,
            o.len() == m,
            n1 <= isize::MAX,
            forall|x: int| 0 <= x < o.len() ==> (#[trigger] o[x]).within(n1),
            bool_clauses_within(lit_clauses(cs@), n1),
            forall|a: spec_fn(int) -> bool| #[trigger] bool_clauses_hold(a, lit_clauses(cs@)) == stage_e(a, l, r, o, t as int),
        decreases m - t,
    {
        let below = t - 1;
        let c0 = out[t].not();
        let c = vec![c0, out[below]];
        let ghost cv = lit_clauses(cs@);
        let ghost cl = c@;
        proof {
            lemma_negated_within(o[t as int], n1);
            assert(cl == seq![o[t as int].negated(), o[t - 1]]);
        }
        push_clause(&mut cs, c);
        proof {
            assert forall|a: spec_fn(int) -> bool| #[trigger] bool_clauses_hold(a, lit_clauses(cs@)) == stage_e(a, l, r, o, t + 1) by {
                lemma_negated_holds(o[t as int], a);
                lemma_small_clauses(a, o[t as int].negated(), o[t - 1], o[t - 1]);
                lemma_next_clause(a, cv, cl, stage_e(a, l, r, o, t as int), chain_clause_ok(a, o, t as int));
                lemma_chain_step(a, o, t as int);
            }
            assert forall|x: int, y: int| 0 <= x < lit_clauses(cs@).len() && 0 <= y < lit_clauses(cs@)[x].len() implies (#[trigger] lit_clauses(cs@)[x][y]).within(n1) by {
                if x < cv.len() {
                    assert(lit_clauses(cs@)[x] == cv[x]);
                } else {
                    assert(lit_clauses(cs@)[x] == cl);
                }
            }
        }
        t = t + 1;
    }
    proof {
        assert forall|a: spec_fn(int) -> bool| #[trigger] bool_clauses_hold(a, lit_clauses(cs@)) == merge_ok(a, l, r, o) by {
            assert(bool_clauses_hold(a, lit_clauses(cs@)) == stage_e(a, l, r, o, t as int));
            if m == 0 {
                assert(t == 1);
                assert(chain_ok(a, o, 1) == chain_ok(a, o, 0));
                assert(stage_e(a, l, r, o, 1) == merge_ok(a, l, r, o));
            } else {
                assert(t == m);
                assert(stage_e(a, l, r, o, m as int) == merge_ok(a, l, r, o));
            }
        }
    }
    add_bool_clauses(solver, &cs);
    out
}

/// How many fresh variables the balanced tree of merges over `n` literals
/// takes, every merge limited to `limit` outputs.
pub open spec fn totalizer_vars(n: nat, limit: nat) -> nat
    decreases n,
{
    let lim = if limit <= n {
        limit
    } else {
        n
    };
    if lim == 0 || n <= 1 {
        0
    } else {
        totalizer_vars(n / 2, lim) + totalizer_vars((n - n / 2) as nat, lim) + lim
    }
}

/// What building the unary counter `out` of `inputs` does to a solver whose
/// hard clauses go from `h0` to `h1` and whose variables go from `n0` to
/// `n1`: clauses are only added, over the variables there are; every
/// assignment that satisfies the added clauses makes `out` count the
/// literals of `inputs` that hold; and every assignment can be changed on
/// the new variables into one that satisfies the added clauses.
pub open spec fn counter_post(
    h0: Seq<Seq<isize>>,
    n0: int,
    h1: Seq<Seq<isize>>,
    n1: int,
    inputs: Seq<BoolLit>,
    out: Seq<BoolLit>,
) -> bool {
    let added = h1.skip(h0.len() as int);
    &&& h1.len() >= h0.len()
    &&& h1.take(h0.len() as int) == h0
    &&& n0 <= n1
    &&& all_within(out, n1)
    &&& clauses_within(added, n1)
    &&& forall|a: spec_fn(int) -> bool|
        #[trigger] clauses_hold(a, added) ==> counts(a, out, count_holding(a, inputs) as int)
    &&& forall|a: spec_fn(int) -> bool| #[trigger] extends_to_model(a, n0, added)
}

/// The assignment can be changed on the variables after `n0` into one that
/// satisfies the clauses.
pub open spec fn extends_to_model(a: spec_fn(int) -> bool, n0: int, cs: Seq<Seq<isize>>) -> bool {
    exists|b: spec_fn(int) -> bool| agree_upto(a, b, n0) && #[trigger] clauses_hold(b, cs)
}

/// The literals of two sequences that hold, counted together.
pub proof fn lemma_count_concat(a: spec_fn(int) -> bool, x: Seq<BoolLit>, y: Seq<BoolLit>)
    ensures
        count_holding(a, x + y) == count_holding(a, x) + count_holding(a, y),
    decreases y.len(),
{
    if y.len() > 0 {
        lemma_count_concat(a, x, y.drop_last());
        assert((x + y).drop_last() =~= x + y.drop_last());
        assert((x + y).last() == y.last());
    } else {
        assert(x + y =~= x);
    }
}

/// No more literals hold than there are.
pub proof fn lemma_count_bound(a: spec_fn(int) -> bool, x: Seq<BoolLit>)
    ensures
        count_holding(a, x) <= x.len(),
    decreases x.len(),
{
    if x.len() > 0 {
        lemma_count_bound(a, x.drop_last());
    }
}

/// A counter of `v` counts `v` up to its length.
proof fn lemma_counts_clip(a: spec_fn(int) -> bool, c: Seq<BoolLit>, v: int)
    requires
        counts(a, c, v),
    ensures
        counts(a, c, min_int(v, c.len() as int)),
{
}

/// Two counters built one after the other, merged by the totalizer, make a
/// counter of the literals of both.
proof fn lemma_merge_counters(
    h0: Seq<Seq<isize>>,
    n0: int,
    h1: Seq<Seq<isize>>,
    n1: int,
    h2: Seq<Seq<isize>>,
    n2: int,
    h3: Seq<Seq<isize>>,
    n3: int,
    x: Seq<BoolLit>,
    y: Seq<BoolLit>,
    l: Seq<BoolLit>,
    r: Seq<BoolLit>,
    o: Seq<BoolLit>,
    lim: int,
)
    requires
        0 <= n0,
        counter_post(h0, n0, h1, n1, x, l),
        counter_post(h1, n1, h2, n2, y, r),
        l.len() == min_int(lim, x.len() as int),
        r.len() == min_int(lim, y.len() as int),
        o.len() == min_int(lim, (l.len() + r.len()) as int),
        n2 + o.len() <= isize::MAX,
        counter_lits(o, n2),
        n3 == n2 + o.len(),
        h3.len() >= h2.len(),
        h3.take(h2.len() as int) == h2,
        clauses_within(h3.skip(h2.len() as int), n3),
        forall|a: spec_fn(int) -> bool| #[trigger] clauses_hold(a, h3.skip(h2.len() as int)) == merge_ok(a, l, r, o),
    ensures
        counter_post(h0, n0, h3, n3, x + y, o),
{
    let added1 = h1.skip(h0.len() as int);
    let added2 = h2.skip(h1.len() as int);
    let added3 = h3.skip(h2.len() as int);
    let added = h3.skip(h0.len() as int);
    assert(h3.take(h0.len() as int) =~= h0) by {
        assert(h3.take(h2.len() as int).take(h1.len() as int) =~= h3.take(h1.len() as int));
        assert(h3.take(h1.len() as int).take(h0.len() as int) =~= h3.take(h0.len() as int));
    }
    assert(added =~= added1 + added2 + added3) by {
        assert(h1 =~= h1.take(h0.len() as int) + added1);
        assert(h2 =~= h2.take(h1.len() as int) + added2);
        assert(h3 =~= h3.take(h2.len() as int) + added3);
    }
    assert forall|i: int| 0 <= i < o.len() implies (#[trigger] o[i]).within(n3) by {
        assert(o[i] == BoolLit::Lit((n2 + 1 + i) as isize));
    }
    assert forall|j: int| 0 <= j < added.len() implies #[trigger] lits_within(added[j], n3) by {
        if j < added1.len() {
            assert(added[j] == added1[j]);
            assert(lits_within(added1[j], n1));
        } else if j < added1.len() + added2.len() {
            assert(added[j] == added2[j - added1.len()]);
            assert(lits_within(added2[j - added1.len()], n2));
        } else {
            assert(added[j] == added3[j - added1.len() - added2.len()]);
        }
    }
    assert forall|a: spec_fn(int) -> bool| #[trigger] clauses_hold(a, added) implies counts(
        a,
        o,
        count_holding(a, x + y) as int,
    ) by {
        assert(clauses_hold(a, added1)) by {
            assert forall|j: int| 0 <= j < added1.len() implies #[trigger] clause_holds(a, added1[j]) by {
                assert(added[j] == added1[j]);
            }
        }
        assert(clauses_hold(a, added2)) by {
            assert forall|j: int| 0 <= j < added2.len() implies #[trigger] clause_holds(a, added2[j]) by {
                assert(added[added1.len() + j] == added2[j]);
            }
        }
        assert(clauses_hold(a, added3)) by {
            assert forall|j: int| 0 <= j < added3.len() implies #[trigger] clause_holds(a, added3[j]) by {
                assert(added[added1.len() + added2.len() + j] == added3[j]);
            }
        }
        let cx = count_holding(a, x) as int;
        let cy = count_holding(a, y) as int;
        lemma_count_concat(a, x, y);
        lemma_count_bound(a, x);
        lemma_count_bound(a, y);
        lemma_counts_clip(a, l, cx);
        lemma_counts_clip(a, r, cy);
        let cl = min_int(cx, l.len() as int);
        let cr = min_int(cy, r.len() as int);
        lemma_merge_sound(a, l, r, o, cl, cr);
        assert forall|t: int| 0 <= t < o.len() implies (#[trigger] o[t]).holds(a) == (cx + cy > t) by {
            assert(o[t].holds(a) == (cl + cr > t));
        }
    }
    assert forall|a: spec_fn(int) -> bool| #[trigger] extends_to_model(a, n0, added) by {
        assert(extends_to_model(a, n0, added1));
        let b1 = choose|b: spec_fn(int) -> bool| agree_upto(a, b, n0) && #[trigger] clauses_hold(b, added1);
        assert(extends_to_model(b1, n1, added2));
        let b2 = choose|b: spec_fn(int) -> bool| agree_upto(b1, b, n1) && #[trigger] clauses_hold(b, added2);
        lemma_clauses_agree(b1, b2, added1, n1);
        let cx = count_holding(b2, x) as int;
        let cy = count_holding(b2, y) as int;
        lemma_count_bound(b2, x);
        lemma_count_bound(b2, y);
        assert(counts(b2, l, cx));
        assert(counts(b2, r, cy));
        lemma_counts_clip(b2, l, cx);
        lemma_counts_clip(b2, r, cy);
        let cl = min_int(cx, l.len() as int);
        let cr = min_int(cy, r.len() as int);
        assert forall|i: int| 0 <= i < l.len() implies (#[trigger] l[i]).within(n2) by {
            assert(l[i].within(n1));
        }
        lemma_merge_complete(b2, l, r, o, n2, cl, cr);
        let b3 = merge_witness(b2, n2, o.len() as int, cl + cr);
        assert(clauses_hold(b3, added3));
        assert(agree_upto(b2, b3, n1)) by {
            assert forall|v: int| 1 <= v <= n1 implies #[trigger] b2(v) == b3(v) by {
                assert(b2(v) == b3(v));
            }
        }
        lemma_clauses_agree(b2, b3, added1, n1);
        lemma_clauses_agree(b2, b3, added2, n2);
        assert forall|v: int| 1 <= v <= n0 implies #[trigger] a(v) == b3(v) by {
            assert(a(v) == b1(v));
            assert(b1(v) == b2(v));
            assert(b2(v) == b3(v));
        }
        assert forall|j: int| 0 <= j < added.len() implies #[trigger] clause_holds(b3, added[j]) by {
            if j < added1.len() {
                assert(added[j] == added1[j]);
            } else if j < added1.len() + added2.len() {
                assert(added[j] == added2[j - added1.len()]);
            } else {
                assert(added[j] == added3[j - added1.len() - added2.len()]);
            }
        }
        assert(agree_upto(a, b3, n0) && clauses_hold(b3, added));
    }
}

/// The balanced tree of merges over `inputs[lo..hi]`.
fn balanced_range<S: MaxSatSolver + ?Sized>(
    solver: &mut S,
    inputs: &[BoolLit],
    lo: usize,
    hi: usize,
    limit: usize,
) -> (out: Vec<BoolLit>)
    requires
        lo <= hi <= inputs@.len() <= isize::MAX,
        0 <= old(solver).num_vars(),
        all_within(inputs@.subrange(lo as int, hi as int), old(solver).num_vars()),
        old(solver).num_vars() + totalizer_vars((hi - lo) as nat, limit as nat) <= isize::MAX,
    ensures
        out@.len() == min_int(limit as int, hi - lo),
        final(solver).num_vars() == old(solver).num_vars() + totalizer_vars((hi - lo) as nat, limit as nat),
        counter_post(
            old(solver).hard_clauses(),
            old(solver).num_vars(),
            final(solver).hard_clauses(),
            final(solver).num_vars(),
            inputs@.subrange(lo as int, hi as int),
            out@,
        ),
    decreases hi - lo,
{
    let ghost h0 = solver.hard_clauses();
    let ghost n0 = solver.num_vars();
    let ghost x = inputs@.subrange(lo as int, hi as int);
    let n = hi - lo;
    let lim = if limit < n {
        limit
    } else {
        n
    };
    if lim == 0 || n == 1 {
        let out = if lim == 0 {
            Vec::new()
        } else {
            vec![inputs[lo]]
        };
        proof {
            let added = h0.skip(h0.len() as int);
            assert(added.len() == 0);
            assert(h0.take(h0.len() as int) =~= h0);
            if lim != 0 {
                assert forall|a: spec_fn(int) -> bool|
                    #[trigger] count_holding(a, x) == if x[0].holds(a) { 1nat } else { 0nat } by {
                    assert(count_holding(a, x.drop_last()) == 0);
                    assert(x.last() == x[0]);
                }
                assert(out@[0] == x[0]);
            }
            assert forall|a: spec_fn(int) -> bool| #[trigger] extends_to_model(a, n0, added) by {
                assert(agree_upto(a, a, n0));
                assert(clauses_hold(a, added));
            }
        }
        return out;
    }
    let mid = lo + n / 2;
    proof {
        assert forall|i: int| 0 <= i < mid - lo implies (#[trigger] inputs@.subrange(lo as int, mid as int)[i]).within(n0) by {
            assert(inputs@.subrange(lo as int, mid as int)[i] == x[i]);
        }
    }
    let left = balanced_range(solver, inputs, lo, mid, lim);
    let ghost h1 = solver.hard_clauses();
    let ghost n1 = solver.num_vars();
    proof {
        assert forall|i: int| 0 <= i < hi - mid implies (#[trigger] inputs@.subrange(mid as int, hi as int)[i]).within(n1) by {
            assert(inputs@.subrange(mid as int, hi as int)[i] == x[mid - lo + i]);
        }
    }
    let right = balanced_range(solver, inputs, mid, hi, lim);
    let ghost h2 = solver.hard_clauses();
    let ghost n2 = solver.num_vars();
    proof {
        assert forall|i: int| 0 <= i < left@.len() implies (#[trigger] left@[i]).within(n2) by {
            assert(left@[i].within(n1));
        }
    }
    let out = encode_totalizer_merge_limited(solver, &left, &right, lim);
    proof {
        assert(inputs@.subrange(lo as int, mid as int) + inputs@.subrange(mid as int, hi as int) =~= x);
        lemma_merge_counters(
            h0,
            n0,
            h1,
            n1,
            h2,
            n2,
            solver.hard_clauses(),
            solver.num_vars(),
            inputs@.subrange(lo as int, mid as int),
            inputs@.subrange(mid as int, hi as int),
            left@,
            right@,
            out@,
            lim as int,
        );
    }
    out
}

/// A unary counter of `inputs` up to `limit`: halves are counted apart and
/// merged by the totalizer, a single literal is its own counter.
pub fn encode_balanced_totalizer_limited<S: MaxSatSolver + ?Sized>(
    solver: &mut S,
    inputs: &[BoolLit],
    limit: usize,
) -> (out: Vec<BoolLit>)
    requires
        inputs@.len() <= isize::MAX,
        0 <= old(solver).num_vars(),
        all_within(inputs@, old(solver).num_vars()),
        old(solver).num_vars() + totalizer_vars(inputs@.len(), limit as nat) <= isize::MAX,
    ensures
        out@.len() == min_int(limit as int, inputs@.len() as int),
        final(solver).num_vars() == old(solver).num_vars() + totalizer_vars(inputs@.len(), limit as nat),
        counter_post(
            old(solver).hard_clauses(),
            old(solver).num_vars(),
            final(solver).hard_clauses(),
            final(solver).num_vars(),
            inputs@,
            out@,
        ),
{
    proof {
        assert(inputs@.subrange(0, inputs@.len() as int) =~= inputs@);
    }
    balanced_range(solver, inputs, 0, inputs.len(), limit)
}

} // verus!
