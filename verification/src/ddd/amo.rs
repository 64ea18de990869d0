//! "At most one of these literals": the pairwise encoding, the sequential
//! counter encoding with its downward clauses, and the choice between them.
use vstd::prelude::*;
use crate::ddd::lits::{BoolLit, add_bool_clause, lemma_solver_clause_holds, solver_clause};
use crate::ddd::settings::PAIRWISE_AMO_MAX_SIZE;
use crate::maxsatsolver::{
    MaxSatSolver, agree_upto, clause_holds, clauses_hold, clauses_within, lit_true, lit_var, lits_within,
};

verus! {

/// A clause of literals holds: one of its literals holds.
pub open spec fn bool_clause_holds(a: spec_fn(int) -> bool, c: Seq<BoolLit>) -> bool {
    exists|i: int| 0 <= i < c.len() && #[trigger] c[i].holds(a)
}

/// All clauses of literals hold.
pub open spec fn bool_clauses_hold(a: spec_fn(int) -> bool, cs: Seq<Seq<BoolLit>>) -> bool {
    forall|k: int| 0 <= k < cs.len() ==> #[trigger] bool_clause_holds(a, cs[k])
}

/// Every literal of every clause names no variable beyond `n`.
pub open spec fn bool_clauses_within(cs: Seq<Seq<BoolLit>>, n: int) -> bool {
    forall|k: int, i: int| 0 <= k < cs.len() && 0 <= i < cs[k].len() ==> (#[trigger] cs[k][i]).within(n)
}

/// Clauses of literals, as sequences.
pub open spec fn lit_clauses(cs: Seq<Vec<BoolLit>>) -> Seq<Seq<BoolLit>> {
    cs.map_values(|c: Vec<BoolLit>| c@)
}

/// How many of the literals hold.
pub open spec fn count_holding(a: spec_fn(int) -> bool, s: Seq<BoolLit>) -> nat
    decreases s.len(),
{
    if s.len() == 0 {
        0
    } else {
        count_holding(a, s.drop_last()) + if s.last().holds(a) {
            1nat
        } else {
            0nat
        }
    }
}

/// What encoding "at most one of `set`" does to a solver whose hard clauses
/// go from `h0` to `h1` and whose variables go from `n0` to `n1`: clauses are
/// only added, over the variables there are, with at most `fresh` new
/// variables; every assignment that satisfies the added clauses makes at
/// most one literal of `set` hold; and every assignment that makes at most
/// one hold can be changed on the new variables into one that satisfies the
/// added clauses.
pub open spec fn lits_amo_post(
    h0: Seq<Seq<isize>>,
    n0: int,
    h1: Seq<Seq<isize>>,
    n1: int,
    set: Seq<BoolLit>,
    fresh: int,
) -> bool {
    let added = h1.skip(h0.len() as int);
    &&& h1.len() >= h0.len()
    &&& h1.take(h0.len() as int) == h0
    &&& n0 <= n1 <= n0 + fresh
    &&& clauses_within(added, n1)
    &&& forall|a: spec_fn(int) -> bool| #[trigger] clauses_hold(a, added) ==> count_holding(a, set) <= 1
    &&& forall|a: spec_fn(int) -> bool|
        #[trigger] count_holding(a, set) <= 1 ==> exists|b: spec_fn(int) -> bool|
            agree_upto(a, b, n0) && #[trigger] clauses_hold(b, added)
}

/// The clause a solver gets for a clause of literals names only the
/// variables the literals name.
proof fn lemma_solver_clause_within(c: Seq<BoolLit>, n: int)
    requires
        forall|i: int| 0 <= i < c.len() ==> (#[trigger] c[i]).within(n),
    ensures
        solver_clause(c) matches Some(x) ==> lits_within(x, n),
    decreases c.len(),
{
    if c.len() > 0 {
        let d = c.drop_last();
        assert forall|i: int| 0 <= i < d.len() implies (#[trigger] d[i]).within(n) by {
            assert(d[i] == c[i]);
        }
        lemma_solver_clause_within(d, n);
        assert(c.last() == c[c.len() - 1]);
    }
}

/// Adds clauses of literals as hard clauses: afterwards the added clauses
/// hold under an assignment exactly when the clauses of literals do.
pub(crate) fn add_bool_clauses<S: MaxSatSolver + ?Sized>(solver: &mut S, cs: &Vec<Vec<BoolLit>>)
    requires
        bool_clauses_within(lit_clauses(cs@), old(solver).num_vars()),
    ensures
        final(solver).num_vars() == old(solver).num_vars(),
        final(solver).hard_clauses().len() >= old(solver).hard_clauses().len(),
        final(solver).hard_clauses().take(old(solver).hard_clauses().len() as int) == old(solver).hard_clauses(),
        clauses_within(final(solver).hard_clauses().skip(old(solver).hard_clauses().len() as int), old(solver).num_vars()),
        forall|a: spec_fn(int) -> bool|
            #[trigger] clauses_hold(a, final(solver).hard_clauses().skip(old(solver).hard_clauses().len() as int))
                <==> bool_clauses_hold(a, lit_clauses(cs@)),
{
    let ghost h0 = solver.hard_clauses();
    let ghost n0 = solver.num_vars();
    let ghost cv = lit_clauses(cs@);
    let mut k: usize = 0;
    while k < cs.len()
        invariant
            k <= cs@.len(),
            cv == lit_clauses(cs@),
            bool_clauses_within(cv, n0),
            solver.num_vars() == n0,
            solver.hard_clauses().len() >= h0.len(),
            solver.hard_clauses().take(h0.len() as int) == h0,
            clauses_within(solver.hard_clauses().skip(h0.len() as int), n0),
            forall|a: spec_fn(int) -> bool|
                #[trigger] clauses_hold(a, solver.hard_clauses().skip(h0.len() as int))
                    <==> bool_clauses_hold(a, cv.take(k as int)),
        decreases cs@.len() - k,
    {
        let ghost hb = solver.hard_clauses();
        let ghost c = cv[k as int];
        proof {
            assert(cs@[k as int]@ == c);
            assert forall|i: int| 0 <= i < c.len() implies (#[trigger] c[i]).within(n0) by {
                assert(cv[k as int][i] == c[i]);
            }
            lemma_solver_clause_within(c, n0);
        }
        add_bool_clause(solver, cs[k].as_slice());
        proof {
            let ha = solver.hard_clauses();
            let before = hb.skip(h0.len() as int);
            let after = ha.skip(h0.len() as int);
            match solver_clause(c) {
                Some(x) => {
                    assert(after =~= before.push(x));
                    assert(ha.take(h0.len() as int) =~= hb.take(h0.len() as int));
                },
                None => {
                    assert(after =~= before);
                },
            }
            assert forall|j: int| 0 <= j < after.len() implies #[trigger] lits_within(after[j], n0) by {
                if j < before.len() {
                    assert(after[j] == before[j]);
                }
            }
            assert forall|a: spec_fn(int) -> bool|
                #[trigger] clauses_hold(a, after) <==> bool_clauses_hold(a, cv.take(k + 1)) by {
                lemma_solver_clause_holds(c, a);
                let t0 = cv.take(k as int);
                let t1 = cv.take(k + 1);
                assert(t1 =~= t0.push(c));
                if clauses_hold(a, after) {
                    assert(clauses_hold(a, before)) by {
                        assert forall|j: int| 0 <= j < before.len() implies #[trigger] clause_holds(a, before[j]) by {
                            assert(after[j] == before[j]);
                        }
                    }
                    assert(bool_clause_holds(a, c)) by {
                        if let Some(x) = solver_clause(c) {
                            assert(after[before.len() as int] == x);
                        }
                    }
                    assert forall|m: int| 0 <= m < t1.len() implies #[trigger] bool_clause_holds(a, t1[m]) by {
                        if m < t0.len() {
                            assert(t1[m] == t0[m]);
                        }
                    }
                }
                if bool_clauses_hold(a, t1) {
                    assert(bool_clause_holds(a, t1[k as int]));
                    assert(bool_clauses_hold(a, t0)) by {
                        assert forall|m: int| 0 <= m < t0.len() implies #[trigger] bool_clause_holds(a, t0[m]) by {
                            assert(t1[m] == t0[m]);
                        }
                    }
                    assert(clauses_hold(a, before));
                    assert forall|j: int| 0 <= j < after.len() implies #[trigger] clause_holds(a, after[j]) by {
                        if j < before.len() {
                            assert(after[j] == before[j]);
                            assert(clause_holds(a, before[j]));
                        } else if let Some(x) = solver_clause(c) {
                            assert(after[j] == x);
                        }
                    }
                }
            }
        }
        k = k + 1;
    }
    proof {
        assert(cv.take(k as int) =~= cv);
    }
}


/// A literal's negation holds exactly when the literal does not.
pub(crate) proof fn lemma_negated_holds(l: BoolLit, a: spec_fn(int) -> bool)
    requires
        l.within(isize::MAX as int),
    ensures
        l.negated().holds(a) == !l.holds(a),
{
}

/// A literal's negation names the variable the literal names.
pub(crate) proof fn lemma_negated_within(l: BoolLit, n: int)
    requires
        l.within(n),
        n <= isize::MAX,
    ensures
        l.negated().within(n),
{
}

/// No two of the literals hold.
pub open spec fn no_two_hold(a: spec_fn(int) -> bool, x: Seq<BoolLit>) -> bool {
    forall|p: int, q: int| 0 <= p < q < x.len() ==> !(#[trigger] x[p].holds(a) && #[trigger] x[q].holds(a))
}

/// None of the literals holds exactly when none is counted.
proof fn lemma_count_zero(a: spec_fn(int) -> bool, x: Seq<BoolLit>)
    ensures
        (count_holding(a, x) == 0) <==> forall|p: int| 0 <= p < x.len() ==> !(#[trigger] x[p].holds(a)),
    decreases x.len(),
{
    if x.len() > 0 {
        let d = x.drop_last();
        lemma_count_zero(a, d);
        assert forall|p: int| 0 <= p < d.len() implies #[trigger] d[p] == x[p] by {}
        if count_holding(a, x) == 0 {
            assert forall|p: int| 0 <= p < x.len() implies !(#[trigger] x[p].holds(a)) by {
                if p < d.len() {
                    assert(d[p] == x[p]);
                }
            }
        }
        if forall|p: int| 0 <= p < x.len() ==> !(#[trigger] x[p].holds(a)) {
            assert(!x[x.len() - 1].holds(a));
            assert forall|p: int| 0 <= p < d.len() implies !(#[trigger] d[p].holds(a)) by {
                assert(d[p] == x[p]);
                assert(!x[p].holds(a));
            }
        }
    }
}

/// At most one literal holds exactly when no two hold.
pub proof fn lemma_count_pairs(a: spec_fn(int) -> bool, x: Seq<BoolLit>)
    ensures
        (count_holding(a, x) <= 1) <==> no_two_hold(a, x),
    decreases x.len(),
{
    if x.len() > 0 {
        let d = x.drop_last();
        lemma_count_pairs(a, d);
        lemma_count_zero(a, d);
        let last = x[x.len() - 1];
        if count_holding(a, x) <= 1 {
            assert forall|p: int, q: int| 0 <= p < q < x.len() implies !(#[trigger] x[p].holds(a) && #[trigger] x[q].holds(a)) by {
                assert(x[p] == d[p]) by {
                    if p < d.len() {
                    }
                }
                if q < d.len() {
                    assert(x[q] == d[q]);
                    assert(no_two_hold(a, d));
                } else {
                    if last.holds(a) {
                        assert(count_holding(a, d) == 0);
                        assert(!d[p].holds(a));
                    }
                }
            }
        }
        if no_two_hold(a, x) {
            assert(no_two_hold(a, d)) by {
                assert forall|p: int, q: int| 0 <= p < q < d.len() implies !(#[trigger] d[p].holds(a) && #[trigger] d[q].holds(a)) by {
                    assert(d[p] == x[p] && d[q] == x[q]);
                }
            }
            if last.holds(a) {
                assert forall|p: int| 0 <= p < d.len() implies !(#[trigger] d[p].holds(a)) by {
                    assert(d[p] == x[p]);
                    assert(!(x[p].holds(a) && x[x.len() - 1].holds(a)));
                }
            }
        }
    }
}

/// The pairwise clauses `!x[p] | !x[q]` for `p < q`, in order.
fn pairwise_clauses(lits: &[BoolLit], Ghost(n): Ghost<int>) -> (cs: Vec<Vec<BoolLit>>)
    requires
        0 <= n <= isize::MAX,
        forall|i: int| 0 <= i < lits@.len() ==> (#[trigger] lits@[i]).within(n),
    ensures
        bool_clauses_within(lit_clauses(cs@), n),
        forall|a: spec_fn(int) -> bool|
            #[trigger] bool_clauses_hold(a, lit_clauses(cs@)) <==> no_two_hold(a, lits@),
{
    let x = lits;
    let mut cs: Vec<Vec<BoolLit>> = Vec::new();
    let mut i: usize = 0;
    while i < x.len()
        invariant
            0 <= n <= isize::MAX,
            forall|k: int| 0 <= k < x@.len() ==> (#[trigger] x@[k]).within(n),
            i <= x@.len(),
            bool_clauses_within(lit_clauses(cs@), n),
            forall|a: spec_fn(int) -> bool|
                #[trigger] bool_clauses_hold(a, lit_clauses(cs@)) <==> forall|p: int, q: int|
                    0 <= p < q < x@.len() && p < i ==> !(#[trigger] x@[p].holds(a) && #[trigger] x@[q].holds(a)),
        decreases x@.len() - i,
    {
        let mut j: usize = i + 1;
        while j < x.len()
            invariant
                0 <= n <= isize::MAX,
                forall|k: int| 0 <= k < x@.len() ==> (#[trigger] x@[k]).within(n),
                i < j <= x@.len(),
                bool_clauses_within(lit_clauses(cs@), n),
                forall|a: spec_fn(int) -> bool|
                    #[trigger] bool_clauses_hold(a, lit_clauses(cs@)) <==> forall|p: int, q: int|
                        0 <= p < q < x@.len() && (p < i || (p == i && q < j)) ==> !(#[trigger] x@[p].holds(a)
                            && #[trigger] x@[q].holds(a)),
            decreases x@.len() - j,
        {
            let mut c: Vec<BoolLit> = Vec::new();
            c.push(x[i].not());
            c.push(x[j].not());
            let ghost before = lit_clauses(cs@);
            let ghost cl = c@;
            cs.push(c);
            proof {
                let after = lit_clauses(cs@);
                assert(after =~= before.push(cl));
                assert(cl =~= seq![x@[i as int].negated(), x@[j as int].negated()]);
                assert forall|k: int, m: int| 0 <= k < after.len() && 0 <= m < after[k].len() implies (#[trigger] after[k][m]).within(n) by {
                    if k < before.len() {
                        assert(after[k] == before[k]);
                    }
                }
                assert forall|a: spec_fn(int) -> bool|
                    #[trigger] bool_clauses_hold(a, after) <==> forall|p: int, q: int|
                        0 <= p < q < x@.len() && (p < i || (p == i && q < j + 1)) ==> !(#[trigger] x@[p].holds(a)
                            && #[trigger] x@[q].holds(a)) by {
                    lemma_negated_holds(x@[i as int], a);
                    lemma_negated_holds(x@[j as int], a);
                    assert(bool_clause_holds(a, cl) == !(x@[i as int].holds(a) && x@[j as int].holds(a))) by {
                        if !(x@[i as int].holds(a) && x@[j as int].holds(a)) {
                            if !x@[i as int].holds(a) {
                                assert(cl[0].holds(a));
                            } else {
                                assert(cl[1].holds(a));
                            }
                        }
                    }
                    if bool_clauses_hold(a, after) {
                        assert(bool_clause_holds(a, after[before.len() as int]));
                        assert(bool_clauses_hold(a, before)) by {
                            assert forall|k: int| 0 <= k < before.len() implies #[trigger] bool_clause_holds(a, before[k]) by {
                                assert(after[k] == before[k]);
                            }
                        }
                    }
                    if forall|p: int, q: int|
                        0 <= p < q < x@.len() && (p < i || (p == i && q < j + 1)) ==> !(#[trigger] x@[p].holds(a)
                            && #[trigger] x@[q].holds(a)) {
                        assert(!(x@[i as int].holds(a) && x@[j as int].holds(a)));
                        assert(bool_clauses_hold(a, before));
                        assert forall|k: int| 0 <= k < after.len() implies #[trigger] bool_clause_holds(a, after[k]) by {
                            if k < before.len() {
                                assert(after[k] == before[k]);
                            }
                        }
                    }
                }
            }
            j = j + 1;
        }
        i = i + 1;
    }
    cs
}

/// Adds hard clauses that let at most one of the literals hold: one clause
/// for each pair.
pub fn add_pairwise_amo<S: MaxSatSolver + ?Sized>(solver: &mut S, lits: &[BoolLit])
    requires
        0 <= old(solver).num_vars() <= isize::MAX,
        forall|i: int| 0 <= i < lits@.len() ==> (#[trigger] lits@[i]).within(old(solver).num_vars()),
    ensures
        lits_amo_post(
            old(solver).hard_clauses(),
            old(solver).num_vars(),
            final(solver).hard_clauses(),
            final(solver).num_vars(),
            lits@,
            0,
        ),
{
    let ghost h0 = solver.hard_clauses();
    let ghost n0 = solver.num_vars();
    let cs = pairwise_clauses(lits, Ghost(n0));
    add_bool_clauses(solver, &cs);
    proof {
        let added = solver.hard_clauses().skip(h0.len() as int);
        assert forall|a: spec_fn(int) -> bool| #[trigger] clauses_hold(a, added) implies count_holding(a, lits@) <= 1 by {
            lemma_count_pairs(a, lits@);
            assert(bool_clauses_hold(a, lit_clauses(cs@)));
        }
        assert forall|a: spec_fn(int) -> bool| #[trigger] count_holding(a, lits@) <= 1 implies exists|b: spec_fn(int) -> bool|
            agree_upto(a, b, n0) && #[trigger] clauses_hold(b, added) by {
            lemma_count_pairs(a, lits@);
            assert(bool_clauses_hold(a, lit_clauses(cs@)));
            assert(clauses_hold(a, added));
            assert(agree_upto(a, a, n0));
        }
    }
}


/// The first clauses of the sequential counter: `p[0]` holds exactly when
/// `x[0]` does.
pub open spec fn sc_first(x: Seq<BoolLit>, p: Seq<BoolLit>) -> Seq<Seq<BoolLit>> {
    seq![seq![x[0].negated(), p[0]], seq![x[0], p[0].negated()]]
}

/// The clauses of the sequential counter for literal `i`: `x[i]` sets
/// `p[i]`, `p[i - 1]` carries over to `p[i]`, `p[i]` needs one of them, and
/// `x[i]` may not hold when `p[i - 1]` does.
pub open spec fn sc_step(x: Seq<BoolLit>, p: Seq<BoolLit>, i: int) -> Seq<Seq<BoolLit>> {
    seq![
        seq![x[i].negated(), p[i]],
        seq![p[i - 1].negated(), p[i]],
        seq![x[i], p[i - 1], p[i].negated()],
        seq![x[i].negated(), p[i - 1].negated()],
    ]
}

/// The clauses of the sequential counter for the first `i` literals.
pub open spec fn sc_upto(x: Seq<BoolLit>, p: Seq<BoolLit>, i: int) -> Seq<Seq<BoolLit>>
    decreases i,
{
    if i <= 1 {
        sc_first(x, p)
    } else {
        sc_upto(x, p, i - 1) + sc_step(x, p, i - 1)
    }
}

/// The clauses of the sequential counter over literals `x` (at least three)
/// with counter literals `p` (one fewer): those of all but the last literal,
/// then the last literal may not hold when `p` of the one before does.
pub open spec fn sc_clauses(x: Seq<BoolLit>, p: Seq<BoolLit>) -> Seq<Seq<BoolLit>> {
    sc_upto(x, p, x.len() - 1) + seq![seq![x[x.len() - 1].negated(), p[p.len() - 1].negated()]]
}

/// Clauses that hold together hold one by one.
pub(crate) proof fn lemma_hold_concat(a: spec_fn(int) -> bool, s: Seq<Seq<BoolLit>>, t: Seq<Seq<BoolLit>>)
    ensures
        bool_clauses_hold(a, s + t) == (bool_clauses_hold(a, s) && bool_clauses_hold(a, t)),
{
    let u = s + t;
    if bool_clauses_hold(a, u) {
        assert forall|k: int| 0 <= k < s.len() implies #[trigger] bool_clause_holds(a, s[k]) by {
            assert(u[k] == s[k]);
        }
        assert forall|k: int| 0 <= k < t.len() implies #[trigger] bool_clause_holds(a, t[k]) by {
            assert(u[s.len() + k] == t[k]);
        }
    }
    if bool_clauses_hold(a, s) && bool_clauses_hold(a, t) {
        assert forall|k: int| 0 <= k < u.len() implies #[trigger] bool_clause_holds(a, u[k]) by {
            if k < s.len() {
                assert(u[k] == s[k]);
            } else {
                assert(u[k] == t[k - s.len()]);
            }
        }
    }
}

/// How many of the first `i + 1` literals hold, from how many of the first
/// `i` do.
pub(crate) proof fn lemma_count_step(a: spec_fn(int) -> bool, x: Seq<BoolLit>, i: int)
    requires
        0 <= i < x.len(),
    ensures
        count_holding(a, x.take(i + 1)) == count_holding(a, x.take(i)) + if x[i].holds(a) {
            1nat
        } else {
            0nat
        },
{
    assert(x.take(i + 1).drop_last() =~= x.take(i));
}

/// The literals whose clause holds: a two- or three-literal clause holds
/// when one of its literals does.
pub(crate) proof fn lemma_small_clauses(a: spec_fn(int) -> bool, u: BoolLit, v: BoolLit, w: BoolLit)
    ensures
        bool_clause_holds(a, seq![u, v]) == (u.holds(a) || v.holds(a)),
        bool_clause_holds(a, seq![u, v, w]) == (u.holds(a) || v.holds(a) || w.holds(a)),
{
    let c2 = seq![u, v];
    let c3 = seq![u, v, w];
    if u.holds(a) {
        assert(c2[0].holds(a));
        assert(c3[0].holds(a));
    }
    if v.holds(a) {
        assert(c2[1].holds(a));
        assert(c3[1].holds(a));
    }
    if w.holds(a) {
        assert(c3[2].holds(a));
    }
}

/// Under the clauses of the first `i` literals, at most one of them holds,
/// and when one does, `p[i - 1]` holds.
proof fn lemma_sc_sound_upto(a: spec_fn(int) -> bool, x: Seq<BoolLit>, p: Seq<BoolLit>, i: int)
    requires
        1 <= i < x.len(),
        p.len() == x.len() - 1,
        forall|k: int| 0 <= k < x.len() ==> (#[trigger] x[k]).within(isize::MAX as int),
        forall|k: int| 0 <= k < p.len() ==> (#[trigger] p[k]).within(isize::MAX as int),
        bool_clauses_hold(a, sc_upto(x, p, i)),
    ensures
        count_holding(a, x.take(i)) <= 1,
        count_holding(a, x.take(i)) >= 1 ==> p[i - 1].holds(a),
    decreases i,
{
    lemma_count_step(a, x, i - 1);
    assert(x.take(0) =~= Seq::<BoolLit>::empty());
    if i == 1 {
        let c = sc_first(x, p);
        assert(bool_clause_holds(a, c[0]));
        lemma_small_clauses(a, x[0].negated(), p[0], p[0]);
        lemma_negated_holds(x[0], a);
    } else {
        lemma_hold_concat(a, sc_upto(x, p, i - 1), sc_step(x, p, i - 1));
        lemma_sc_sound_upto(a, x, p, i - 1);
        let st = sc_step(x, p, i - 1);
        assert(bool_clause_holds(a, st[0]));
        assert(bool_clause_holds(a, st[1]));
        assert(bool_clause_holds(a, st[3]));
        lemma_small_clauses(a, x[i - 1].negated(), p[i - 1], p[i - 1]);
        lemma_small_clauses(a, p[i - 2].negated(), p[i - 1], p[i - 1]);
        lemma_small_clauses(a, x[i - 1].negated(), p[i - 2].negated(), p[i - 2]);
        lemma_negated_holds(x[i - 1], a);
        lemma_negated_holds(p[i - 2], a);
    }
}

/// Under the clauses of the sequential counter, at most one literal holds.
proof fn lemma_sc_sound(a: spec_fn(int) -> bool, x: Seq<BoolLit>, p: Seq<BoolLit>)
    requires
        x.len() >= 3,
        p.len() == x.len() - 1,
        forall|k: int| 0 <= k < x.len() ==> (#[trigger] x[k]).within(isize::MAX as int),
        forall|k: int| 0 <= k < p.len() ==> (#[trigger] p[k]).within(isize::MAX as int),
        bool_clauses_hold(a, sc_clauses(x, p)),
    ensures
        count_holding(a, x) <= 1,
{
    let n = x.len() as int;
    let last = seq![x[n - 1].negated(), p[n - 2].negated()];
    lemma_hold_concat(a, sc_upto(x, p, n - 1), seq![last]);
    lemma_sc_sound_upto(a, x, p, n - 1);
    assert(seq![last][0] == last);
    assert(bool_clause_holds(a, last));
    lemma_small_clauses(a, x[n - 1].negated(), p[n - 2].negated(), p[n - 2]);
    lemma_negated_holds(x[n - 1], a);
    lemma_negated_holds(p[n - 2], a);
    lemma_count_step(a, x, n - 1);
    assert(x.take(n) =~= x);
}


/// A literal over the variables `1..=n` holds alike under assignments that
/// agree there.
pub(crate) proof fn lemma_holds_agree(l: BoolLit, a: spec_fn(int) -> bool, b: spec_fn(int) -> bool, n: int)
    requires
        l.within(n),
        agree_upto(a, b, n),
    ensures
        l.holds(a) == l.holds(b),
{
    if let BoolLit::Lit(v) = l {
        assert(a(lit_var(v)) == b(lit_var(v)));
    }
}

/// Literals over the variables `1..=n` are counted alike under assignments
/// that agree there.
proof fn lemma_count_agree(x: Seq<BoolLit>, a: spec_fn(int) -> bool, b: spec_fn(int) -> bool, n: int)
    requires
        forall|k: int| 0 <= k < x.len() ==> (#[trigger] x[k]).within(n),
        agree_upto(a, b, n),
    ensures
        count_holding(a, x) == count_holding(b, x),
    decreases x.len(),
{
    if x.len() > 0 {
        let d = x.drop_last();
        assert forall|k: int| 0 <= k < d.len() implies (#[trigger] d[k]).within(n) by {
            assert(d[k] == x[k]);
        }
        lemma_count_agree(d, a, b, n);
        lemma_holds_agree(x[x.len() - 1], a, b, n);
    }
}

/// Fewer literals count no more.
pub(crate) proof fn lemma_count_prefix(a: spec_fn(int) -> bool, x: Seq<BoolLit>, j: int, k: int)
    requires
        0 <= j <= k <= x.len(),
    ensures
        count_holding(a, x.take(j)) <= count_holding(a, x.take(k)),
    decreases k - j,
{
    if j < k {
        lemma_count_prefix(a, x, j, k - 1);
        lemma_count_step(a, x, k - 1);
    }
}

/// The assignment that gives counter variable `n0 + 1 + i` (for `i < m`)
/// whether one of the first `i + 1` literals holds under `a`, and is `a`
/// elsewhere.
pub open spec fn sc_witness(a: spec_fn(int) -> bool, x: Seq<BoolLit>, n0: int, m: int) -> spec_fn(int) -> bool {
    |v: int|
        if n0 < v <= n0 + m {
            count_holding(a, x.take(v - n0)) >= 1
        } else {
            a(v)
        }
}

/// The counter literals are the variables after `n0`, in order.
pub open spec fn counter_lits(p: Seq<BoolLit>, n0: int) -> bool {
    forall|i: int| 0 <= i < p.len() ==> #[trigger] p[i] == BoolLit::Lit((n0 + 1 + i) as isize)
}

/// Under the witness, counter literal `p[k]` holds when one of the first
/// `k + 1` literals holds under `a`.
proof fn lemma_witness_counter(a: spec_fn(int) -> bool, x: Seq<BoolLit>, p: Seq<BoolLit>, n0: int, k: int)
    requires
        0 <= k < p.len(),
        0 <= n0,
        n0 + p.len() <= isize::MAX,
        counter_lits(p, n0),
    ensures
        p[k].holds(sc_witness(a, x, n0, p.len() as int)) == (count_holding(a, x.take(k + 1)) >= 1),
        p[k].within(isize::MAX as int),
{
    let b = sc_witness(a, x, n0, p.len() as int);
    assert(p[k] == BoolLit::Lit((n0 + 1 + k) as isize));
    assert(b(n0 + 1 + k) == (count_holding(a, x.take(k + 1)) >= 1));
}

/// Under the witness, a literal over the variables `1..=n0` holds as under
/// `a`.
proof fn lemma_witness_lit(a: spec_fn(int) -> bool, x: Seq<BoolLit>, m: int, n0: int, l: BoolLit)
    requires
        0 <= n0 <= isize::MAX,
        l.within(n0),
    ensures
        l.holds(sc_witness(a, x, n0, m)) == l.holds(a),
        l.within(isize::MAX as int),
{
    let b = sc_witness(a, x, n0, m);
    assert(agree_upto(a, b, n0));
    lemma_holds_agree(l, a, b, n0);
}

/// Under the witness, the clauses for literal `i` hold when at most one
/// literal holds.
proof fn lemma_sc_complete_step(a: spec_fn(int) -> bool, x: Seq<BoolLit>, p: Seq<BoolLit>, n0: int, i: int)
    requires
        1 <= i < x.len() - 1,
        p.len() == x.len() - 1,
        0 <= n0,
        n0 + p.len() <= isize::MAX,
        forall|k: int| 0 <= k < x.len() ==> (#[trigger] x[k]).within(n0),
        counter_lits(p, n0),
        count_holding(a, x) <= 1,
    ensures
        bool_clauses_hold(sc_witness(a, x, n0, p.len() as int), sc_step(x, p, i)),
{
    let b = sc_witness(a, x, n0, p.len() as int);
    lemma_witness_lit(a, x, p.len() as int, n0, x[i]);
    lemma_witness_counter(a, x, p, n0, i);
    lemma_witness_counter(a, x, p, n0, i - 1);
    lemma_count_step(a, x, i);
    lemma_count_prefix(a, x, i + 1, x.len() as int);
    assert(x.take(x.len() as int) =~= x);
    lemma_negated_holds(x[i], b);
    lemma_negated_holds(p[i], b);
    lemma_negated_holds(p[i - 1], b);
    let st = sc_step(x, p, i);
    lemma_small_clauses(b, x[i].negated(), p[i], p[i]);
    lemma_small_clauses(b, p[i - 1].negated(), p[i], p[i]);
    lemma_small_clauses(b, x[i], p[i - 1], p[i].negated());
    lemma_small_clauses(b, x[i].negated(), p[i - 1].negated(), p[i - 1]);
    assert forall|k: int| 0 <= k < st.len() implies #[trigger] bool_clause_holds(b, st[k]) by {
        assert(st[0] == seq![x[i].negated(), p[i]]);
        assert(st[1] == seq![p[i - 1].negated(), p[i]]);
        assert(st[2] == seq![x[i], p[i - 1], p[i].negated()]);
        assert(st[3] == seq![x[i].negated(), p[i - 1].negated()]);
    }
}

/// Under the witness, the clauses of the first `i` literals hold when at
/// most one literal holds.
proof fn lemma_sc_complete_upto(a: spec_fn(int) -> bool, x: Seq<BoolLit>, p: Seq<BoolLit>, n0: int, i: int)
    requires
        1 <= i < x.len(),
        p.len() == x.len() - 1,
        0 <= n0,
        n0 + p.len() <= isize::MAX,
        forall|k: int| 0 <= k < x.len() ==> (#[trigger] x[k]).within(n0),
        counter_lits(p, n0),
        count_holding(a, x) <= 1,
    ensures
        bool_clauses_hold(sc_witness(a, x, n0, p.len() as int), sc_upto(x, p, i)),
    decreases i,
{
    let b = sc_witness(a, x, n0, p.len() as int);
    if i == 1 {
        lemma_witness_lit(a, x, p.len() as int, n0, x[0]);
        lemma_witness_counter(a, x, p, n0, 0);
        lemma_count_step(a, x, 0);
        assert(x.take(0) =~= Seq::<BoolLit>::empty());
        lemma_negated_holds(x[0], b);
        lemma_negated_holds(p[0], b);
        let c = sc_first(x, p);
        lemma_small_clauses(b, x[0].negated(), p[0], p[0]);
        lemma_small_clauses(b, x[0], p[0].negated(), p[0]);
        assert forall|k: int| 0 <= k < c.len() implies #[trigger] bool_clause_holds(b, c[k]) by {
            assert(c[0] == seq![x[0].negated(), p[0]]);
            assert(c[1] == seq![x[0], p[0].negated()]);
        }
    } else {
        lemma_sc_complete_upto(a, x, p, n0, i - 1);
        lemma_sc_complete_step(a, x, p, n0, i - 1);
        lemma_hold_concat(b, sc_upto(x, p, i - 1), sc_step(x, p, i - 1));
    }
}

/// When at most one literal holds, the witness satisfies the clauses of the
/// sequential counter.
proof fn lemma_sc_complete(a: spec_fn(int) -> bool, x: Seq<BoolLit>, p: Seq<BoolLit>, n0: int)
    requires
        x.len() >= 3,
        p.len() == x.len() - 1,
        0 <= n0,
        n0 + p.len() <= isize::MAX,
        forall|k: int| 0 <= k < x.len() ==> (#[trigger] x[k]).within(n0),
        counter_lits(p, n0),
        count_holding(a, x) <= 1,
    ensures
        bool_clauses_hold(sc_witness(a, x, n0, p.len() as int), sc_clauses(x, p)),
{
    let n = x.len() as int;
    let b = sc_witness(a, x, n0, p.len() as int);
    lemma_sc_complete_upto(a, x, p, n0, n - 1);
    lemma_witness_lit(a, x, p.len() as int, n0, x[n - 1]);
    lemma_witness_counter(a, x, p, n0, n - 2);
    lemma_count_step(a, x, n - 1);
    assert(x.take(n) =~= x);
    let last = seq![x[n - 1].negated(), p[n - 2].negated()];
    lemma_small_clauses(b, x[n - 1].negated(), p[n - 2].negated(), p[n - 2]);
    lemma_negated_holds(x[n - 1], b);
    lemma_negated_holds(p[n - 2], b);
    assert(bool_clause_holds(b, last));
    assert(bool_clauses_hold(b, seq![last])) by {
        assert forall|k: int| 0 <= k < 1 implies #[trigger] bool_clause_holds(b, seq![last][k]) by {
            assert(seq![last][k] == last);
        }
    }
    lemma_hold_concat(b, sc_upto(x, p, n - 1), seq![last]);
}


/// Pushes a clause of literals.
pub(crate) fn push_clause(cs: &mut Vec<Vec<BoolLit>>, c: Vec<BoolLit>)
    ensures
        lit_clauses(final(cs)@) == lit_clauses(old(cs)@).push(c@),
{
    let ghost cl = c@;
    cs.push(c);
    proof {
        assert(lit_clauses(cs@) =~= lit_clauses(old(cs)@).push(cl));
    }
}

/// The clauses of the sequential counter over `x` with counter literals `p`.
fn sc_clause_list(x: &[BoolLit], p: &Vec<BoolLit>) -> (cs: Vec<Vec<BoolLit>>)
    requires
        x@.len() >= 3,
        p@.len() == x@.len() - 1,
        forall|k: int| 0 <= k < x@.len() ==> (#[trigger] x@[k]).within(isize::MAX as int),
        forall|k: int| 0 <= k < p@.len() ==> (#[trigger] p@[k]).within(isize::MAX as int),
    ensures
        lit_clauses(cs@) == sc_clauses(x@, p@),
{
    let n = x.len();
    let mut cs: Vec<Vec<BoolLit>> = Vec::new();
    push_clause(&mut cs, vec![x[0].not(), p[0]]);
    push_clause(&mut cs, vec![x[0], p[0].not()]);
    proof {
        assert(lit_clauses(cs@) =~= sc_first(x@, p@));
    }
    let mut i: usize = 1;
    while i < n - 1
        invariant
            n == x@.len(),
            n >= 3,
            p@.len() == n - 1,
            forall|k: int| 0 <= k < x@.len() ==> (#[trigger] x@[k]).within(isize::MAX as int),
            forall|k: int| 0 <= k < p@.len() ==> (#[trigger] p@[k]).within(isize::MAX as int),
            1 <= i <= n - 1,
            lit_clauses(cs@) == sc_upto(x@, p@, i as int),
        decreases n - i,
    {
        let ghost before = lit_clauses(cs@);
        let c1 = vec![x[i].not(), p[i]];
        let c2 = vec![p[i - 1].not(), p[i]];
        let c3 = vec![x[i], p[i - 1], p[i].not()];
        let c4 = vec![x[i].not(), p[i - 1].not()];
        let ghost cl = seq![c1@, c2@, c3@, c4@];
        push_clause(&mut cs, c1);
        push_clause(&mut cs, c2);
        push_clause(&mut cs, c3);
        push_clause(&mut cs, c4);
        proof {
            assert(cl =~= sc_step(x@, p@, i as int));
            assert(lit_clauses(cs@) =~= before + cl);
            assert(sc_upto(x@, p@, i + 1) == sc_upto(x@, p@, i as int) + sc_step(x@, p@, i as int));
        }
        i = i + 1;
    }
    let ghost before = lit_clauses(cs@);
    let last = vec![x[n - 1].not(), p[n - 2].not()];
    let ghost ll = last@;
    push_clause(&mut cs, last);
    proof {
        assert(ll =~= seq![x@[n - 1].negated(), p@[p@.len() - 1].negated()]);
        assert(lit_clauses(cs@) =~= before + seq![ll]);
    }
    cs
}

/// Adds hard clauses that let at most one of the literals hold: none for
/// fewer than two literals, one clause for two, and otherwise the
/// sequential counter over fresh counter variables (one fewer than the
/// literals), with the clauses that keep a counter false until a literal
/// before it holds.
pub fn add_sc_amo<S: MaxSatSolver + ?Sized>(solver: &mut S, lits: &[BoolLit])
    requires
        0 <= old(solver).num_vars(),
        forall|i: int| 0 <= i < lits@.len() ==> (#[trigger] lits@[i]).within(old(solver).num_vars()),
        old(solver).num_vars() + lits@.len() <= isize::MAX,
    ensures
        lits_amo_post(
            old(solver).hard_clauses(),
            old(solver).num_vars(),
            final(solver).hard_clauses(),
            final(solver).num_vars(),
            lits@,
            lits@.len() as int,
        ),
{
    let ghost h0 = solver.hard_clauses();
    let ghost n0 = solver.num_vars();
    let n = lits.len();
    if n <= 1 {
        proof {
            let added = solver.hard_clauses().skip(h0.len() as int);
            assert(added =~= Seq::<Seq<isize>>::empty());
            assert(solver.hard_clauses().take(h0.len() as int) =~= h0);
            reveal_with_fuel(count_holding, 2);
            assert forall|a: spec_fn(int) -> bool| #[trigger] count_holding(a, lits@) <= 1 implies exists|b: spec_fn(int) -> bool|
                agree_upto(a, b, n0) && #[trigger] clauses_hold(b, added) by {
                assert(agree_upto(a, a, n0));
                assert(clauses_hold(a, added));
            }
            assert forall|a: spec_fn(int) -> bool| #[trigger] clauses_hold(a, added) implies count_holding(a, lits@) <= 1 by {
                if n == 1 {
                    assert(lits@.drop_last() =~= Seq::<BoolLit>::empty());
                }
            }
        }
        return;
    }
    if n == 2 {
        add_pairwise_amo(solver, lits);
        return;
    }
    let mut p: Vec<BoolLit> = Vec::new();
    let mut k: usize = 0;
    while k < n - 1
        invariant
            n == lits@.len(),
            n >= 3,
            k <= n - 1,
            0 <= n0,
            n0 + n <= isize::MAX,
            solver.num_vars() == n0 + k,
            solver.hard_clauses() == h0,
            p@.len() == k,
            counter_lits(p@, n0),
        decreases n - 1 - k,
    {
        let v = solver.new_var();
        let ghost before = p@;
        p.push(BoolLit::Lit(v));
        proof {
            assert forall|i: int| 0 <= i < p@.len() implies #[trigger] p@[i] == BoolLit::Lit((n0 + 1 + i) as isize) by {
                if i < k {
                    assert(p@[i] == before[i]);
                }
            }
        }
        k = k + 1;
    }
    let ghost n1 = solver.num_vars();
    proof {
        assert forall|i: int| 0 <= i < lits@.len() implies (#[trigger] lits@[i]).within(isize::MAX as int) by {}
        assert forall|i: int| 0 <= i < p@.len() implies (#[trigger] p@[i]).within(isize::MAX as int) by {
            assert(p@[i] == BoolLit::Lit((n0 + 1 + i) as isize));
        }
    }
    let cs = sc_clause_list(lits, &p);
    proof {
        let cv = lit_clauses(cs@);
        let sc = sc_clauses(lits@, p@);
        assert forall|m: int, i: int| 0 <= m < cv.len() && 0 <= i < cv[m].len() implies (#[trigger] cv[m][i]).within(n1) by {
            assert forall|j: int| 0 <= j < lits@.len() implies (#[trigger] lits@[j]).within(n1) by {
                assert(lits@[j].within(n0));
            }
            assert forall|j: int| 0 <= j < p@.len() implies (#[trigger] p@[j]).within(n1) by {
                assert(p@[j] == BoolLit::Lit((n0 + 1 + j) as isize));
            }
            lemma_sc_within(lits@, p@, n1);
        }
    }
    add_bool_clauses(solver, &cs);
    proof {
        let added = solver.hard_clauses().skip(h0.len() as int);
        let sc = sc_clauses(lits@, p@);
        assert forall|a: spec_fn(int) -> bool| #[trigger] clauses_hold(a, added) implies count_holding(a, lits@) <= 1 by {
            assert(bool_clauses_hold(a, sc));
            lemma_sc_sound(a, lits@, p@);
        }
        assert forall|a: spec_fn(int) -> bool| #[trigger] count_holding(a, lits@) <= 1 implies exists|b: spec_fn(int) -> bool|
            agree_upto(a, b, n0) && #[trigger] clauses_hold(b, added) by {
            let b = sc_witness(a, lits@, n0, p@.len() as int);
            lemma_sc_complete(a, lits@, p@, n0);
            assert(agree_upto(a, b, n0));
            assert(clauses_hold(b, added));
        }
    }
}

/// The clauses of the sequential counter name only the variables that its
/// literals and counters name.
proof fn lemma_sc_within(x: Seq<BoolLit>, p: Seq<BoolLit>, n: int)
    requires
        n <= isize::MAX,
        x.len() >= 3,
        p.len() == x.len() - 1,
        forall|k: int| 0 <= k < x.len() ==> (#[trigger] x[k]).within(n),
        forall|k: int| 0 <= k < p.len() ==> (#[trigger] p[k]).within(n),
    ensures
        bool_clauses_within(sc_clauses(x, p), n),
{
    lemma_sc_upto_within(x, p, n, x.len() - 1);
    let u = sc_upto(x, p, x.len() - 1);
    let last = seq![x[x.len() - 1].negated(), p[p.len() - 1].negated()];
    let all = u + seq![last];
    lemma_negated_within(x[x.len() - 1], n);
    lemma_negated_within(p[p.len() - 1], n);
    assert forall|k: int, i: int| 0 <= k < all.len() && 0 <= i < all[k].len() implies (#[trigger] all[k][i]).within(n) by {
        if k < u.len() {
            assert(all[k] == u[k]);
        } else {
            assert(all[k] == last);
        }
    }
}

/// The clauses for the first `i` literals name only the variables that the
/// literals and counters name.
proof fn lemma_sc_upto_within(x: Seq<BoolLit>, p: Seq<BoolLit>, n: int, i: int)
    requires
        n <= isize::MAX,
        1 <= i < x.len(),
        p.len() == x.len() - 1,
        forall|k: int| 0 <= k < x.len() ==> (#[trigger] x[k]).within(n),
        forall|k: int| 0 <= k < p.len() ==> (#[trigger] p[k]).within(n),
    ensures
        bool_clauses_within(sc_upto(x, p, i), n),
    decreases i,
{
    if i == 1 {
        let c = sc_first(x, p);
        lemma_negated_within(x[0], n);
        lemma_negated_within(p[0], n);
        assert forall|k: int, j: int| 0 <= k < c.len() && 0 <= j < c[k].len() implies (#[trigger] c[k][j]).within(n) by {
            assert(c[0] == seq![x[0].negated(), p[0]]);
            assert(c[1] == seq![x[0], p[0].negated()]);
        }
    } else {
        lemma_sc_upto_within(x, p, n, i - 1);
        let u = sc_upto(x, p, i - 1);
        let st = sc_step(x, p, i - 1);
        let all = u + st;
        lemma_negated_within(x[i - 1], n);
        lemma_negated_within(p[i - 1], n);
        lemma_negated_within(p[i - 2], n);
        assert forall|k: int, j: int| 0 <= k < all.len() && 0 <= j < all[k].len() implies (#[trigger] all[k][j]).within(n) by {
            if k < u.len() {
                assert(all[k] == u[k]);
            } else {
                assert(all[k] == st[k - u.len()]);
                assert(st[0] == seq![x[i - 1].negated(), p[i - 1]]);
                assert(st[1] == seq![p[i - 2].negated(), p[i - 1]]);
                assert(st[2] == seq![x[i - 1], p[i - 2], p[i - 1].negated()]);
                assert(st[3] == seq![x[i - 1].negated(), p[i - 2].negated()]);
            }
        }
    }
}

/// Adds hard clauses that let at most one of the literals hold: pairwise
/// for up to `PAIRWISE_AMO_MAX_SIZE` literals or when the sequential counter
/// is not wanted, else the sequential counter.
pub fn add_hybrid_amo<S: MaxSatSolver + ?Sized>(solver: &mut S, lits: &[BoolLit], use_sc_amo: bool)
    requires
        0 <= old(solver).num_vars(),
        forall|i: int| 0 <= i < lits@.len() ==> (#[trigger] lits@[i]).within(old(solver).num_vars()),
        old(solver).num_vars() + lits@.len() <= isize::MAX,
    ensures
        lits_amo_post(
            old(solver).hard_clauses(),
            old(solver).num_vars(),
            final(solver).hard_clauses(),
            final(solver).num_vars(),
            lits@,
            lits@.len() as int,
        ),
        !use_sc_amo || lits@.len() <= PAIRWISE_AMO_MAX_SIZE ==> final(solver).num_vars() == old(solver).num_vars(),
{
    if !use_sc_amo || lits.len() <= PAIRWISE_AMO_MAX_SIZE {
        add_pairwise_amo(solver, lits);
    } else {
        add_sc_amo(solver, lits);
    }
}

} // verus!
