use vstd::prelude::*;
use vstd::string::*;
use crate::text::{decimal, push_decimal_i64, push_decimal_u64};

verus! {

/// Why the MaxSAT solver gave no solution.
#[derive(Clone, Copy, Debug, PartialEq, Eq, Structural)]
pub enum MaxSatError {
    NoSolution,
    Timeout,
}

/// A clause with its weight; a clause without weight is hard.
pub struct Clause {
    pub weight: Option<u32>,
    pub lits: Vec<isize>,
}

/// A weighted CNF formula for partial weighted MaxSAT.
pub struct WCNF {
    pub n_vars: usize,
    pub clauses: Vec<Clause>,
}

/// A clause as a weight and a sequence of literals.
pub open spec fn clause_view(c: Clause) -> (Option<u32>, Seq<isize>) {
    (c.weight, c.lits@)
}

/// The sum of the weights of the soft clauses.
pub open spec fn weight_sum(cs: Seq<(Option<u32>, Seq<isize>)>) -> int
    decreases cs.len(),
{
    if cs.len() == 0 {
        0
    } else {
        weight_sum(cs.drop_last()) + match cs.last().0 {
            Some(w) => w as int,
            None => 0,
        }
    }
}

/// The literals of a clause, each after a space.
pub open spec fn lits_text(lits: Seq<isize>) -> Seq<char>
    decreases lits.len(),
{
    if lits.len() == 0 {
        seq![]
    } else {
        lits_text(lits.drop_last()) + seq![' '] + decimal(lits.last() as int)
    }
}

/// The lines of the clauses: weight (the hard weight for hard clauses), the
/// literals, and a closing ` 0`.
pub open spec fn clauses_text(cs: Seq<(Option<u32>, Seq<isize>)>, hard: int) -> Seq<char>
    decreases cs.len(),
{
    if cs.len() == 0 {
        seq![]
    } else {
        let c = cs.last();
        let w = match c.0 {
            Some(w) => w as int,
            None => hard,
        };
        clauses_text(cs.drop_last(), hard) + decimal(w) + lits_text(c.1) + seq![' ', '0', '\n']
    }
}

impl WCNF {
    /// The clauses, in the order they were added.
    pub open spec fn clauses_view(&self) -> Seq<(Option<u32>, Seq<isize>)> {
        self.clauses@.map_values(|c: Clause| clause_view(c))
    }

    /// The weight that marks the hard clauses: one more than all soft
    /// weights together.
    pub open spec fn hard_weight(&self) -> int {
        weight_sum(self.clauses_view()) + 1
    }

    /// The formula in the WCNF text format.
    pub open spec fn text(&self) -> Seq<char> {
        "c cnf file for partial weighted maxsat\n"@ + "p wcnf "@ + decimal(self.n_vars as int) + seq![' ']
            + decimal(self.clauses@.len() as int) + seq![' '] + decimal(self.hard_weight()) + seq!['\n']
            + clauses_text(self.clauses_view(), self.hard_weight())
    }

    /// An empty formula.
    pub fn new() -> (w: Self)
        ensures
            w.n_vars == 0,
            w.clauses@.len() == 0,
    {
        WCNF { n_vars: 0, clauses: Vec::new() }
    }

    /// A fresh variable, numbered from 1.
    pub fn new_var(&mut self) -> (v: isize)
        requires
            old(self).n_vars < isize::MAX,
        ensures
            final(self).n_vars == old(self).n_vars + 1,
            v == final(self).n_vars,
            final(self).clauses@ == old(self).clauses@,
    {
        self.n_vars = self.n_vars + 1;
        self.n_vars as isize
    }

    /// Adds a clause, hard without weight; a clause of weight zero is left out.
    pub fn add_clause(&mut self, weight: Option<u32>, lits: Vec<isize>)
        ensures
            final(self).n_vars == old(self).n_vars,
            final(self).clauses_view() == (if weight == Some(0u32) {
                old(self).clauses_view()
            } else {
                old(self).clauses_view().push((weight, lits@))
            }),
    {
        let skip = match weight {
            Some(w) => w == 0,
            None => false,
        };
        if !skip {
            let ghost before = self.clauses@;
            self.clauses.push(Clause { weight, lits });
            proof {
                assert(self.clauses_view() =~= before.map_values(|c: Clause| clause_view(c)).push((weight, lits@)));
            }
        }
    }

    /// Whether the hard weight, one more than all soft weights together,
    /// fits in `u32`, as writing the formula needs.
    pub fn text_fits(&self) -> (b: bool)
        ensures
            b == (weight_sum(self.clauses_view()) + 1 <= u32::MAX),
    {
        let ghost cv = self.clauses_view();
        let mut sum: u64 = 0;
        let mut k: usize = 0;
        while k < self.clauses.len()
            invariant
                cv == self.clauses_view(),
                k <= cv.len(),
                sum == weight_sum(cv.take(k as int)),
                sum + 1 <= u32::MAX,
            decreases cv.len() - k,
        {
            proof {
                assert(cv.take(k + 1).drop_last() =~= cv.take(k as int));
                assert(cv[k as int] == clause_view(self.clauses@[k as int]));
            }
            if let Some(w) = self.clauses[k].weight {
                sum = sum + w as u64;
            }
            if sum + 1 > 0xffff_ffff {
                proof {
                    lemma_weight_sum_prefix(cv, k + 1);
                }
                return false;
            }
            k = k + 1;
        }
        proof {
            assert(cv.take(k as int) =~= cv);
        }
        true
    }

    /// The formula in the WCNF text format.
    pub fn to_string(&self) -> (s: String)
        requires
            weight_sum(self.clauses_view()) + 1 <= u32::MAX,
        ensures
            s@ == self.text(),
    {
        let ghost cv = self.clauses_view();
        let mut hard_weight: u32 = 1;
        let mut i: usize = 0;
        while i < self.clauses.len()
            invariant
                i <= self.clauses.len(),
                cv == self.clauses_view(),
                weight_sum(cv) + 1 <= u32::MAX,
                hard_weight == weight_sum(cv.take(i as int)) + 1,
            decreases self.clauses.len() - i,
        {
            proof {
                assert(cv.take(i + 1).drop_last() =~= cv.take(i as int));
                lemma_weight_sum_prefix(cv, i + 1);
            }
            match self.clauses[i].weight {
                Some(w) => {
                    hard_weight = hard_weight + w;
                },
                None => {},
            }
            i += 1;
        }
        proof {
            assert(cv.take(self.clauses.len() as int) =~= cv);
        }
        let mut out = String::from_str("c cnf file for partial weighted maxsat\n");
        out.append("p wcnf ");
        push_decimal_u64(&mut out, self.n_vars as u64);
        out.append(" ");
        push_decimal_u64(&mut out, self.clauses.len() as u64);
        out.append(" ");
        push_decimal_u64(&mut out, hard_weight as u64);
        out.append("\n");
        proof {
            assert(out@ =~= "c cnf file for partial weighted maxsat\n"@ + "p wcnf "@ + decimal(self.n_vars as int)
                + " "@ + decimal(self.clauses@.len() as int) + " "@ + decimal(self.hard_weight()) + "\n"@);
            reveal_strlit(" ");
            reveal_strlit("\n");
            assert(" "@ =~= seq![' ']);
            assert("\n"@ =~= seq!['\n']);
        }
        let ghost head = out@;
        let mut k: usize = 0;
        while k < self.clauses.len()
            invariant
                k <= self.clauses.len(),
                cv == self.clauses_view(),
                hard_weight == self.hard_weight(),
                out@ == head + clauses_text(cv.take(k as int), hard_weight as int),
            decreases self.clauses.len() - k,
        {
            let c = &self.clauses[k];
            let w: u32 = match c.weight {
                Some(w) => w,
                None => hard_weight,
            };
            let ghost before = out@;
            push_decimal_i64(&mut out, w as i64);
            let mut j: usize = 0;
            let ghost mid = out@;
            while j < c.lits.len()
                invariant
                    j <= c.lits.len(),
                    out@ == mid + lits_text(c.lits@.take(j as int)),
                decreases c.lits.len() - j,
            {
                proof {
                    reveal_strlit(" ");
                    assert(" "@ =~= seq![' ']);
                    assert(c.lits@.take(j + 1).drop_last() =~= c.lits@.take(j as int));
                }
                out.append(" ");
                push_decimal_i64(&mut out, c.lits[j] as i64);
                proof {
                    assert(out@ =~= mid + lits_text(c.lits@.take(j + 1)));
                }
                j += 1;
            }
            out.append(" 0\n");
            proof {
                reveal_strlit(" 0\n");
                assert(" 0\n"@ =~= seq![' ', '0', '\n']);
                assert(c.lits@.take(c.lits.len() as int) =~= c.lits@);
                assert(cv.take(k + 1).drop_last() =~= cv.take(k as int));
                assert(cv.take(k + 1).last() == clause_view(*c));
                assert(out@ =~= head + clauses_text(cv.take(k + 1), hard_weight as int));
            }
            k += 1;
        }
        proof {
            assert(cv.take(self.clauses.len() as int) =~= cv);
            assert(out@ =~= self.text());
        }
        out
    }
}

/// The weights of a prefix of the clauses add up to at most all of them.
proof fn lemma_weight_sum_prefix(cs: Seq<(Option<u32>, Seq<isize>)>, i: int)
    requires
        0 <= i <= cs.len(),
    ensures
        weight_sum(cs.take(i)) <= weight_sum(cs),
    decreases cs.len() - i,
{
    if i < cs.len() {
        lemma_weight_sum_prefix(cs, i + 1);
        assert(cs.take(i + 1).drop_last() =~= cs.take(i));
    } else {
        assert(cs.take(i) =~= cs);
    }
}

impl Default for WCNF {
    fn default() -> (w: Self)
        ensures
            w.n_vars == 0,
            w.clauses@.len() == 0,
    {
        WCNF::new()
    }
}

/// A MaxSAT solver run as an outside program on a WCNF file.
pub struct External {
    pub wcnf: WCNF,
}

impl External {
    /// A solver with an empty formula.
    pub fn new() -> (e: Self)
        ensures
            e.wcnf.n_vars == 0,
            e.wcnf.clauses@.len() == 0,
    {
        External { wcnf: WCNF::new() }
    }

    /// Adds a clause to the formula (a clause of weight zero is left out).
    pub fn add_clause(&mut self, weight: Option<u32>, clause: Vec<isize>)
        ensures
            final(self).wcnf.n_vars == old(self).wcnf.n_vars,
            final(self).wcnf.clauses_view() == (if weight == Some(0u32) {
                old(self).wcnf.clauses_view()
            } else {
                old(self).wcnf.clauses_view().push((weight, clause@))
            }),
    {
        self.wcnf.add_clause(weight, clause)
    }

    /// A fresh variable, numbered from 1.
    pub fn new_var(&mut self) -> (v: isize)
        requires
            old(self).wcnf.n_vars < isize::MAX,
        ensures
            final(self).wcnf.n_vars == old(self).wcnf.n_vars + 1,
            v == final(self).wcnf.n_vars,
            final(self).wcnf.clauses@ == old(self).wcnf.clauses@,
    {
        self.wcnf.new_var()
    }

    /// A line that tells the size of the formula.
    pub fn status(&self) -> (s: String)
        ensures
            s@ == "External solver vars="@ + decimal(self.wcnf.n_vars as int) + " clauses="@ + decimal(
                self.wcnf.clauses@.len() as int,
            ),
    {
        let mut out = String::from_str("External solver vars=");
        push_decimal_u64(&mut out, self.wcnf.n_vars as u64);
        out.append(" clauses=");
        push_decimal_u64(&mut out, self.wcnf.clauses.len() as u64);
        proof {
            assert(out@ =~= "External solver vars="@ + decimal(self.wcnf.n_vars as int) + " clauses="@
                + decimal(self.wcnf.clauses@.len() as int));
        }
        out
    }
}

/// The variable of a literal.
pub open spec fn lit_var(l: isize) -> int {
    if l < 0 {
        -(l as int)
    } else {
        l as int
    }
}

/// The negation of a literal.
pub open spec fn neg(l: isize) -> isize {
    (-l) as isize
}

/// Whether a literal is true when each variable `v` has the value `a(v)`.
pub open spec fn lit_true(a: spec_fn(int) -> bool, l: isize) -> bool {
    if l > 0 {
        a(l as int)
    } else {
        !a(-(l as int))
    }
}

/// A clause holds when one of its literals is true.
pub open spec fn clause_holds(a: spec_fn(int) -> bool, c: Seq<isize>) -> bool {
    exists|i: int| 0 <= i < c.len() && #[trigger] lit_true(a, c[i])
}

/// All clauses hold.
pub open spec fn clauses_hold(a: spec_fn(int) -> bool, cs: Seq<Seq<isize>>) -> bool {
    forall|j: int| 0 <= j < cs.len() ==> #[trigger] clause_holds(a, cs[j])
}

/// How many of the literals are true.
pub open spec fn count_true(a: spec_fn(int) -> bool, s: Seq<isize>) -> nat
    decreases s.len(),
{
    if s.len() == 0 {
        0
    } else {
        count_true(a, s.drop_last()) + if lit_true(a, s.last()) {
            1nat
        } else {
            0nat
        }
    }
}

/// Every literal names one of the variables `1..=n`.
pub open spec fn lits_within(s: Seq<isize>, n: int) -> bool {
    forall|i: int| 0 <= i < s.len() ==> 1 <= #[trigger] lit_var(s[i]) <= n
}

/// Every clause names only variables among `1..=n`.
pub open spec fn clauses_within(cs: Seq<Seq<isize>>, n: int) -> bool {
    forall|j: int| 0 <= j < cs.len() ==> #[trigger] lits_within(cs[j], n)
}

/// Two assignments agree on the variables `1..=n`.
pub open spec fn agree_upto(a: spec_fn(int) -> bool, b: spec_fn(int) -> bool, n: int) -> bool {
    forall|v: int| 1 <= v <= n ==> #[trigger] a(v) == b(v)
}

/// The number of fresh variables the at-most-one encoding of `k` literals
/// takes at most.
pub open spec fn amo_vars(k: int) -> int {
    if k >= 4 {
        k - 4
    } else {
        0
    }
}

/// What encoding "at most one of `set`" does to a solver whose hard
/// clauses go from `h0` to `h1` and whose variables go from `n0` to `n1`:
/// clauses are only added, over the variables there are; every assignment
/// that satisfies the added clauses makes at most one literal of `set` true;
/// and every assignment that makes at most one true can be extended, on the
/// fresh variables, to one that satisfies the added clauses.
pub open spec fn amo_post(
    h0: Seq<Seq<isize>>,
    n0: int,
    h1: Seq<Seq<isize>>,
    n1: int,
    set: Seq<isize>,
) -> bool {
    let added = h1.skip(h0.len() as int);
    &&& h1.len() >= h0.len()
    &&& h1.take(h0.len() as int) == h0
    &&& n0 <= n1 <= n0 + amo_vars(set.len() as int)
    &&& clauses_within(added, n1)
    &&& forall|a: spec_fn(int) -> bool| #[trigger] clauses_hold(a, added) ==> count_true(a, set) <= 1
    &&& forall|a: spec_fn(int) -> bool|
        #[trigger] count_true(a, set) <= 1 ==> exists|b: spec_fn(int) -> bool|
            agree_upto(a, b, n0) && #[trigger] clauses_hold(b, added)
}

/// What encoding "exactly one of `set`" does: as `amo_post`, with exactly one
/// literal of `set` true.
pub open spec fn exactly_one_post(
    h0: Seq<Seq<isize>>,
    n0: int,
    h1: Seq<Seq<isize>>,
    n1: int,
    set: Seq<isize>,
) -> bool {
    let added = h1.skip(h0.len() as int);
    &&& h1.len() >= h0.len()
    &&& h1.take(h0.len() as int) == h0
    &&& n0 <= n1 <= n0 + amo_vars(set.len() as int)
    &&& clauses_within(added, n1)
    &&& forall|a: spec_fn(int) -> bool| #[trigger] clauses_hold(a, added) ==> count_true(a, set) == 1
    &&& forall|a: spec_fn(int) -> bool|
        #[trigger] count_true(a, set) == 1 ==> exists|b: spec_fn(int) -> bool|
            agree_upto(a, b, n0) && #[trigger] clauses_hold(b, added)
}

/// A literal that is true counts.
proof fn lemma_count_one(a: spec_fn(int) -> bool, s: Seq<isize>, i: int)
    requires
        0 <= i < s.len(),
        lit_true(a, s[i]),
    ensures
        count_true(a, s) >= 1,
    decreases s.len(),
{
    if i < s.len() - 1 {
        assert(s.drop_last()[i] == s[i]);
        lemma_count_one(a, s.drop_last(), i);
    }
}

/// Some literal is true when the count is not zero.
proof fn lemma_count_some(a: spec_fn(int) -> bool, s: Seq<isize>)
    requires
        count_true(a, s) >= 1,
    ensures
        exists|i: int| 0 <= i < s.len() && #[trigger] lit_true(a, s[i]),
    decreases s.len(),
{
    if !lit_true(a, s.last()) {
        lemma_count_some(a, s.drop_last());
        let i = choose|i: int| 0 <= i < s.drop_last().len() && #[trigger] lit_true(a, s.drop_last()[i]);
        assert(s[i] == s.drop_last()[i]);
    } else {
        assert(lit_true(a, s[s.len() - 1]));
    }
}

/// Two true literals make the count at least two.
proof fn lemma_count_two(a: spec_fn(int) -> bool, s: Seq<isize>, i: int, j: int)
    requires
        0 <= i < j < s.len(),
        lit_true(a, s[i]),
        lit_true(a, s[j]),
    ensures
        count_true(a, s) >= 2,
    decreases s.len(),
{
    let d = s.drop_last();
    if j == s.len() - 1 {
        assert(d[i] == s[i]);
        lemma_count_one(a, d, i);
    } else {
        assert(d[i] == s[i] && d[j] == s[j]);
        lemma_count_two(a, d, i, j);
    }
}

/// A count of two or more has two true literals.
proof fn lemma_count_pair(a: spec_fn(int) -> bool, s: Seq<isize>)
    requires
        count_true(a, s) >= 2,
    ensures
        exists|i: int, j: int| 0 <= i < j < s.len() && #[trigger] lit_true(a, s[i]) && #[trigger] lit_true(a, s[j]),
    decreases s.len(),
{
    let d = s.drop_last();
    if lit_true(a, s.last()) {
        lemma_count_some(a, d);
        let i = choose|i: int| 0 <= i < d.len() && #[trigger] lit_true(a, d[i]);
        assert(s[i] == d[i]);
        assert(lit_true(a, s[s.len() - 1]));
    } else {
        lemma_count_pair(a, d);
        let (i, j) = choose|i: int, j: int| 0 <= i < j < d.len() && #[trigger] lit_true(a, d[i]) && #[trigger] lit_true(a, d[j]);
        assert(s[i] == d[i] && s[j] == d[j]);
    }
}

/// The count of a concatenation is the sum of the counts.
proof fn lemma_count_concat(a: spec_fn(int) -> bool, x: Seq<isize>, y: Seq<isize>)
    ensures
        count_true(a, x + y) == count_true(a, x) + count_true(a, y),
    decreases y.len(),
{
    if y.len() == 0 {
        assert(x + y =~= x);
    } else {
        assert((x + y).drop_last() =~= x + y.drop_last());
        assert((x + y).last() == y.last());
        lemma_count_concat(a, x, y.drop_last());
    }
}

/// Assignments that agree on the variables of the literals count alike.
proof fn lemma_count_agree(a: spec_fn(int) -> bool, b: spec_fn(int) -> bool, s: Seq<isize>, n: int)
    requires
        lits_within(s, n),
        agree_upto(a, b, n),
    ensures
        count_true(a, s) == count_true(b, s),
    decreases s.len(),
{
    if s.len() > 0 {
        let d = s.drop_last();
        assert forall|i: int| 0 <= i < d.len() implies 1 <= #[trigger] lit_var(d[i]) <= n by {
            assert(d[i] == s[i]);
        }
        lemma_count_agree(a, b, d, n);
        let l = s.last();
        assert(1 <= lit_var(s[s.len() - 1]) <= n);
        assert(a(lit_var(l)) == b(lit_var(l)));
    }
}

/// Assignments that agree on the variables of the clauses satisfy them alike.
pub proof fn lemma_clauses_agree(a: spec_fn(int) -> bool, b: spec_fn(int) -> bool, cs: Seq<Seq<isize>>, n: int)
    requires
        clauses_within(cs, n),
        agree_upto(a, b, n),
        clauses_hold(a, cs),
    ensures
        clauses_hold(b, cs),
{
    assert forall|j: int| 0 <= j < cs.len() implies #[trigger] clause_holds(b, cs[j]) by {
        assert(clause_holds(a, cs[j]));
        assert(lits_within(cs[j], n));
        let i = choose|i: int| 0 <= i < cs[j].len() && #[trigger] lit_true(a, cs[j][i]);
        assert(1 <= lit_var(cs[j][i]) <= n);
        assert(a(lit_var(cs[j][i])) == b(lit_var(cs[j][i])));
        assert(lit_true(b, cs[j][i]));
    }
}

/// A solver of partial weighted MaxSAT problems, to which clauses and
/// variables are added. Its hard clauses and its number of variables are
/// what the encodings below rest on.
pub trait MaxSatSolver {
    /// The hard clauses added so far, in order.
    spec fn hard_clauses(&self) -> Seq<Seq<isize>>;

    /// How many variables there are (numbered from 1).
    spec fn num_vars(&self) -> int;

    /// The soft clauses added so far with their weights, in order.
    spec fn soft_clauses(&self) -> Seq<(u32, Seq<isize>)>;

    /// Adds a clause; without weight it is hard; a clause of weight zero is
    /// left out.
    fn add_clause(&mut self, weight: Option<u32>, clause: Vec<isize>)
        ensures
            weight is None ==> final(self).hard_clauses() == old(self).hard_clauses().push(clause@),
            weight is Some ==> final(self).hard_clauses() == old(self).hard_clauses(),
            weight is None ==> final(self).soft_clauses() == old(self).soft_clauses(),
            weight matches Some(w) ==> final(self).soft_clauses() == if w == 0 {
                old(self).soft_clauses()
            } else {
                old(self).soft_clauses().push((w, clause@))
            },
            final(self).num_vars() == old(self).num_vars(),
    ;

    /// A fresh variable.
    fn new_var(&mut self) -> (v: isize)
        requires
            0 <= old(self).num_vars() < isize::MAX,
        ensures
            v == old(self).num_vars() + 1,
            final(self).num_vars() == v,
            final(self).hard_clauses() == old(self).hard_clauses(),
            final(self).soft_clauses() == old(self).soft_clauses(),
    ;

    /// A line that tells the state of the solver.
    fn status(&self) -> String;

}

/// The clause that excludes the literals at positions `p` and `q` of `set`.
pub open spec fn pair_clause(set: Seq<isize>, p: int, q: int) -> Seq<isize> {
    seq![neg(set[p]), neg(set[q])]
}

/// The clauses excluding position `i` with each of the positions from
/// `i + 1` up to `j`, in order.
pub open spec fn pair_row(set: Seq<isize>, i: int, j: int) -> Seq<Seq<isize>> {
    Seq::new((j - i - 1) as nat, |k: int| pair_clause(set, i, i + 1 + k))
}

/// The clauses excluding every pair whose first position is before `i`, by
/// first and then second position.
pub open spec fn pair_rows(set: Seq<isize>, i: int) -> Seq<Seq<isize>>
    decreases i,
{
    if i <= 0 {
        seq![]
    } else {
        pair_rows(set, i - 1) + pair_row(set, i - 1, set.len() as int)
    }
}

/// The pairwise encoding of "at most one of `set`": the clause excluding
/// each pair of positions, by first and then second position.
pub open spec fn pairwise_clauses(set: Seq<isize>) -> Seq<Seq<isize>> {
    pair_rows(set, set.len() as int)
}

/// The clause excluding positions `p` and `q` names their variables, and it
/// holds exactly when not both literals are true.
proof fn lemma_pair_clause(set: Seq<isize>, p: int, q: int, n0: int)
    requires
        lits_within(set, n0),
        n0 <= isize::MAX,
        0 <= p < q < set.len(),
    ensures
        lits_within(pair_clause(set, p, q), n0),
        forall|a: spec_fn(int) -> bool|
            #[trigger] clause_holds(a, pair_clause(set, p, q)) <==> !(lit_true(a, set[p]) && lit_true(
                a,
                set[q],
            )),
{
    let c = pair_clause(set, p, q);
    assert(1 <= lit_var(set[p]) <= n0);
    assert(1 <= lit_var(set[q]) <= n0);
    assert(c[0] == neg(set[p]) && c[1] == neg(set[q]));
    assert forall|i: int| 0 <= i < c.len() implies 1 <= #[trigger] lit_var(c[i]) <= n0 by {}
    assert forall|a: spec_fn(int) -> bool|
        #[trigger] clause_holds(a, pair_clause(set, p, q)) <==> !(lit_true(a, set[p]) && lit_true(
            a,
            set[q],
        )) by {
        assert(lit_true(a, c[0]) == !lit_true(a, set[p]));
        assert(lit_true(a, c[1]) == !lit_true(a, set[q]));
        if !(lit_true(a, set[p]) && lit_true(a, set[q])) {
            if !lit_true(a, set[p]) {
                assert(lit_true(a, c[0]));
            } else {
                assert(lit_true(a, c[1]));
            }
        }
    }
}

/// `c` excludes the literals at two positions of `set`.
pub open spec fn is_pair_clause(c: Seq<isize>, set: Seq<isize>) -> bool {
    exists|p: int, q: int| 0 <= p < q < set.len() && c == pair_clause(set, p, q)
}

/// The clauses excluding every pair among the first `i` positions and, for
/// position `i`, the positions before `j`, are among `added`.
pub open spec fn pairs_present(added: Seq<Seq<isize>>, set: Seq<isize>, i: int, j: int) -> bool {
    forall|p: int, q: int|
        ((0 <= p < i && p < q < set.len()) || (p == i && i < q < j)) ==> #[trigger] added.contains(
            pair_clause(set, p, q),
        )
}

/// The clauses added to `h0` to get `h` all exclude pairs of `set`.
pub open spec fn only_pairs(h0: Seq<Seq<isize>>, h: Seq<Seq<isize>>, set: Seq<isize>) -> bool {
    &&& h.len() >= h0.len()
    &&& h.take(h0.len() as int) == h0
    &&& forall|k: int| 0 <= k < h.skip(h0.len() as int).len() ==> #[trigger] is_pair_clause(h.skip(h0.len() as int)[k], set)
}

/// Pairwise exclusions encode "at most one".
proof fn lemma_pairwise_amo(h0: Seq<Seq<isize>>, n0: int, h1: Seq<Seq<isize>>, set: Seq<isize>)
    requires
        lits_within(set, n0),
        0 <= n0 <= isize::MAX,
        only_pairs(h0, h1, set),
        pairs_present(h1.skip(h0.len() as int), set, set.len() as int, set.len() as int),
    ensures
        amo_post(h0, n0, h1, n0, set),
{
    let added = h1.skip(h0.len() as int);
    assert forall|k: int| 0 <= k < added.len() implies #[trigger] lits_within(added[k], n0) by {
        assert(is_pair_clause(added[k], set));
        let (p, q) = choose|p: int, q: int| 0 <= p < q < set.len() && added[k] == pair_clause(set, p, q);
        lemma_pair_clause(set, p, q, n0);
    }
    assert forall|a: spec_fn(int) -> bool| #[trigger] clauses_hold(a, added) implies count_true(a, set) <= 1 by {
        if count_true(a, set) >= 2 {
            lemma_count_pair(a, set);
            let (p, q) = choose|p: int, q: int|
                0 <= p < q < set.len() && #[trigger] lit_true(a, set[p]) && #[trigger] lit_true(a, set[q]);
            assert(added.contains(pair_clause(set, p, q)));
            let k = choose|k: int| 0 <= k < added.len() && added[k] == pair_clause(set, p, q);
            assert(clause_holds(a, added[k]));
            lemma_pair_clause(set, p, q, n0);
        }
    }
    assert forall|a: spec_fn(int) -> bool| #[trigger] count_true(a, set) <= 1 implies exists|
        b: spec_fn(int) -> bool,
    | agree_upto(a, b, n0) && #[trigger] clauses_hold(b, added) by {
        assert forall|k: int| 0 <= k < added.len() implies #[trigger] clause_holds(a, added[k]) by {
            assert(is_pair_clause(added[k], set));
            let (p, q) = choose|p: int, q: int| 0 <= p < q < set.len() && added[k] == pair_clause(set, p, q);
            lemma_pair_clause(set, p, q, n0);
            if lit_true(a, set[p]) && lit_true(a, set[q]) {
                lemma_count_two(a, set, p, q);
            }
        }
        assert(agree_upto(a, a, n0));
        assert(clauses_hold(a, added));
    }
}

/// Splitting `set` into two halves joined by a fresh variable `y`, at most
/// one of each half with `y` (and with its negation) encodes at most one of
/// `set`.
proof fn lemma_amo_split(
    h0: Seq<Seq<isize>>,
    n0: int,
    h1: Seq<Seq<isize>>,
    n1: int,
    h2: Seq<Seq<isize>>,
    n2: int,
    set: Seq<isize>,
    first: Seq<isize>,
    second: Seq<isize>,
    y: isize,
)
    requires
        0 <= n0,
        set == first + second,
        first.len() >= 3,
        second.len() >= 3,
        y == n0 + 1,
        lits_within(set, n0),
        amo_post(h0, n0 + 1, h1, n1, first.push(y)),
        amo_post(h1, n1, h2, n2, second.push(neg(y))),
    ensures
        amo_post(h0, n0, h2, n2, set),
{
    let s1 = first.push(y);
    let s2 = second.push(neg(y));
    let added1 = h1.skip(h0.len() as int);
    let added2 = h2.skip(h1.len() as int);
    let added = h2.skip(h0.len() as int);
    assert(h2.take(h0.len() as int) =~= h0) by {
        assert(h2.take(h1.len() as int).take(h0.len() as int) =~= h2.take(h0.len() as int));
    }
    assert(added =~= added1 + added2) by {
        assert(h1 =~= h1.take(h0.len() as int) + added1);
        assert(h2 =~= h2.take(h1.len() as int) + added2);
    }
    assert forall|j: int| 0 <= j < added.len() implies #[trigger] lits_within(added[j], n2) by {
        if j < added1.len() {
            assert(added[j] == added1[j]);
            assert(lits_within(added1[j], n1));
        } else {
            assert(added[j] == added2[j - added1.len()]);
        }
    }
    assert(lits_within(first, n0)) by {
        assert forall|i: int| 0 <= i < first.len() implies 1 <= #[trigger] lit_var(first[i]) <= n0 by {
            assert(first[i] == set[i]);
        }
    }
    assert(lits_within(second, n0)) by {
        assert forall|i: int| 0 <= i < second.len() implies 1 <= #[trigger] lit_var(second[i]) <= n0 by {
            assert(second[i] == set[first.len() + i]);
        }
    }
    assert(s1.drop_last() =~= first);
    assert(s2.drop_last() =~= second);
    assert(neg(y) as int == -(y as int));
    assert(s1.last() == y);
    assert(s2.last() == neg(y));
    assert forall|a: spec_fn(int) -> bool| #[trigger] clauses_hold(a, added) implies count_true(a, set) <= 1 by {
        assert(lit_true(a, s1.last()) == a(y as int));
        assert(lit_true(a, s2.last()) == !a(y as int));
        assert(clauses_hold(a, added1)) by {
            assert forall|j: int| 0 <= j < added1.len() implies #[trigger] clause_holds(a, added1[j]) by {
                assert(added[j] == added1[j]);
            }
        }
        assert(clauses_hold(a, added2)) by {
            assert forall|j: int| 0 <= j < added2.len() implies #[trigger] clause_holds(a, added2[j]) by {
                assert(added[added1.len() + j] == added2[j]);
            }
        }
        assert(count_true(a, s1) <= 1);
        assert(count_true(a, s2) <= 1);
        lemma_count_concat(a, first, second);
    }
    assert forall|a: spec_fn(int) -> bool| #[trigger] count_true(a, set) <= 1 implies exists|
        b: spec_fn(int) -> bool,
    | agree_upto(a, b, n0) && #[trigger] clauses_hold(b, added) by {
        lemma_count_concat(a, first, second);
        let c1 = count_true(a, first);
        let val = c1 == 0;
        let a1 = |v: int| if v == y as int { val } else { a(v) };
        assert(agree_upto(a, a1, n0));
        lemma_count_agree(a, a1, first, n0);
        assert(lit_true(a1, s1.last()) == val);
        assert(count_true(a1, s1) <= 1);
        let b1 = choose|b: spec_fn(int) -> bool| agree_upto(a1, b, n0 + 1) && #[trigger] clauses_hold(b, added1);
        assert(agree_upto(a1, b1, n0 + 1) && clauses_hold(b1, added1));
        assert forall|v: int| 1 <= v <= n0 implies #[trigger] a(v) == b1(v) by {
            assert(a1(v) == a(v));
            assert(a1(v) == b1(v));
        }
        lemma_count_agree(a, b1, second, n0);
        assert(b1(y as int) == a1(y as int));
        assert(lit_true(b1, s2.last()) == !val);
        assert(count_true(b1, s2) <= 1);
        let b2 = choose|b: spec_fn(int) -> bool| agree_upto(b1, b, n1) && #[trigger] clauses_hold(b, added2);
        assert(agree_upto(b1, b2, n1) && clauses_hold(b2, added2));
        lemma_clauses_agree(b1, b2, added1, n1);
        assert forall|v: int| 1 <= v <= n0 implies #[trigger] a(v) == b2(v) by {
            assert(a(v) == b1(v));
            assert(b1(v) == b2(v));
        }
        assert forall|j: int| 0 <= j < added.len() implies #[trigger] clause_holds(b2, added[j]) by {
            if j < added1.len() {
                assert(added[j] == added1[j]);
            } else {
                assert(added[j] == added2[j - added1.len()]);
            }
        }
        assert(agree_upto(a, b2, n0) && clauses_hold(b2, added));
    }
}

/// Adds the clauses that exclude every pair of literals of `set`.
fn amo_pairwise<S: MaxSatSolver + ?Sized>(solver: &mut S, set: &[isize])
    requires
        0 <= old(solver).num_vars() <= isize::MAX,
        lits_within(set@, old(solver).num_vars()),
    ensures
        final(solver).hard_clauses() == old(solver).hard_clauses() + pairwise_clauses(set@),
        final(solver).num_vars() == old(solver).num_vars(),
        final(solver).soft_clauses() == old(solver).soft_clauses(),
        amo_post(
            old(solver).hard_clauses(),
            old(solver).num_vars(),
            final(solver).hard_clauses(),
            final(solver).num_vars(),
            set@,
        ),
{
    let ghost h0 = solver.hard_clauses();
    let ghost n0 = solver.num_vars();
    let mut i: usize = 0;
    proof {
        assert(solver.hard_clauses().take(h0.len() as int) =~= h0);
        assert(solver.hard_clauses() =~= h0 + pair_rows(set@, 0));
    }
    while i < set.len()
        invariant
            i <= set.len(),
            0 <= n0 <= isize::MAX,
            lits_within(set@, n0),
            solver.num_vars() == n0,
            only_pairs(h0, solver.hard_clauses(), set@),
            pairs_present(solver.hard_clauses().skip(h0.len() as int), set@, i as int, i + 1),
            solver.hard_clauses() == h0 + pair_rows(set@, i as int),
            solver.soft_clauses() == old(solver).soft_clauses(),
        decreases set.len() - i,
    {
        let mut j: usize = i + 1;
        proof {
            assert(pair_row(set@, i as int, i + 1) =~= Seq::<Seq<isize>>::empty());
            assert(solver.hard_clauses() =~= h0 + pair_rows(set@, i as int) + pair_row(set@, i as int, j as int));
        }
        while j < set.len()
            invariant
                i < set.len(),
                i + 1 <= j <= set.len(),
                0 <= n0 <= isize::MAX,
                lits_within(set@, n0),
                solver.num_vars() == n0,
                only_pairs(h0, solver.hard_clauses(), set@),
                pairs_present(solver.hard_clauses().skip(h0.len() as int), set@, i as int, j as int),
                solver.hard_clauses() == h0 + pair_rows(set@, i as int) + pair_row(set@, i as int, j as int),
                solver.soft_clauses() == old(solver).soft_clauses(),
            decreases set.len() - j,
        {
            proof {
                assert(1 <= lit_var(set@[i as int]) <= n0);
                assert(1 <= lit_var(set@[j as int]) <= n0);
            }
            let mut clause: Vec<isize> = Vec::new();
            clause.push(-set[i]);
            clause.push(-set[j]);
            let ghost hb = solver.hard_clauses();
            solver.add_clause(None, clause);
            proof {
                let hc = solver.hard_clauses();
                let c = pair_clause(set@, i as int, j as int);
                assert(clause@ =~= c);
                assert(hc == hb.push(c));
                assert(pair_row(set@, i as int, j + 1) =~= pair_row(set@, i as int, j as int).push(c));
                assert(hc =~= h0 + pair_rows(set@, i as int) + pair_row(set@, i as int, j + 1));
                assert(hc.take(h0.len() as int) =~= hb.take(h0.len() as int));
                assert(hc.skip(h0.len() as int) =~= hb.skip(h0.len() as int).push(c));
                assert(is_pair_clause(c, set@));
                assert forall|k: int| 0 <= k < hc.skip(h0.len() as int).len() implies #[trigger] is_pair_clause(
                    hc.skip(h0.len() as int)[k],
                    set@,
                ) by {
                    if k < hb.skip(h0.len() as int).len() {
                        assert(hc.skip(h0.len() as int)[k] == hb.skip(h0.len() as int)[k]);
                    }
                }
                assert forall|p: int, q: int|
                    ((0 <= p < i && p < q < set@.len()) || (p == i && i < q < j + 1)) implies #[trigger] hc.skip(
                        h0.len() as int,
                    ).contains(pair_clause(set@, p, q)) by {
                    let hs = hb.skip(h0.len() as int);
                    if p == i && q == j {
                        assert(hc.skip(h0.len() as int)[hs.len() as int] == c);
                    } else {
                        assert(hs.contains(pair_clause(set@, p, q)));
                        let k = choose|k: int| 0 <= k < hs.len() && hs[k] == pair_clause(set@, p, q);
                        assert(hc.skip(h0.len() as int)[k] == hs[k]);
                    }
                }
            }
            j += 1;
        }
        proof {
            assert(pair_rows(set@, i + 1) =~= pair_rows(set@, i as int) + pair_row(set@, i as int, set@.len() as int));
            assert(pair_row(set@, i + 1, i + 2) =~= Seq::<Seq<isize>>::empty());
            assert(solver.hard_clauses() =~= h0 + pair_rows(set@, i + 1));
            let hs = solver.hard_clauses().skip(h0.len() as int);
            assert forall|p: int, q: int|
                ((0 <= p < i + 1 && p < q < set@.len()) || (p == i + 1 && i + 1 < q < i + 2)) implies #[trigger] hs.contains(
                pair_clause(set@, p, q),
            ) by {
                if p < i {
                    assert(pairs_present(hs, set@, i as int, j as int));
                }
            }
        }
        i += 1;
    }
    proof {
        let hs = solver.hard_clauses().skip(h0.len() as int);
        assert forall|p: int, q: int|
            ((0 <= p < set@.len() && p < q < set@.len()) || (p == set@.len() && set@.len() < q < set@.len())) implies #[trigger] hs.contains(
            pair_clause(set@, p, q),
        ) by {
            assert(pairs_present(hs, set@, i as int, i + 1));
        }
        lemma_pairwise_amo(h0, n0, solver.hard_clauses(), set@);
    }
}

/// Adds hard clauses to `solver` that allow at most one literal of `set` to
/// be true: pairwise exclusions for up to five literals, and otherwise a
/// fresh variable that splits the set into two halves encoded in turn.
pub fn at_most_one<S: MaxSatSolver + ?Sized>(solver: &mut S, set: &[isize])
    requires
        0 <= old(solver).num_vars(),
        lits_within(set@, old(solver).num_vars()),
        old(solver).num_vars() + set@.len() <= isize::MAX,
    ensures
        set@.len() <= 5 ==> final(solver).hard_clauses() == old(solver).hard_clauses() + pairwise_clauses(set@)
            && final(solver).num_vars() == old(solver).num_vars(),
        final(solver).soft_clauses() == old(solver).soft_clauses(),
        amo_post(
            old(solver).hard_clauses(),
            old(solver).num_vars(),
            final(solver).hard_clauses(),
            final(solver).num_vars(),
            set@,
        ),
    decreases set@.len(),
{
    if set.len() <= 5 {
        amo_pairwise(solver, set);
    } else {
        let ghost h0 = solver.hard_clauses();
        let ghost n0 = solver.num_vars();
        let new_var = solver.new_var();
        let h = set.len() / 2;
        let mut s1: Vec<isize> = Vec::new();
        let mut s2: Vec<isize> = Vec::new();
        let mut k: usize = 0;
        while k < set.len()
            invariant
                k <= set.len(),
                h == set.len() / 2,
                s1@ == set@.take(if k < h { k as int } else { h as int }),
                s2@ == (if k <= h { Seq::<isize>::empty() } else { set@.subrange(h as int, k as int) }),
            decreases set.len() - k,
        {
            if k < h {
                s1.push(set[k]);
                proof {
                    assert(s1@ =~= set@.take(k + 1));
                }
            } else {
                s2.push(set[k]);
                proof {
                    assert(s2@ =~= set@.subrange(h as int, k + 1));
                }
            }
            k += 1;
        }
        let ghost first = s1@;
        let ghost second = s2@;
        proof {
            assert(set@ =~= first + second);
        }
        s1.push(new_var);
        s2.push(-new_var);
        proof {
            assert(s2@ == second.push(neg(new_var)));
            assert forall|i: int| 0 <= i < s1@.len() implies 1 <= #[trigger] lit_var(s1@[i]) <= n0 + 1 by {
                if i < first.len() {
                    assert(s1@[i] == set@[i]);
                }
            }
        }
        at_most_one(solver, s1.as_slice());
        let ghost h1 = solver.hard_clauses();
        let ghost n1 = solver.num_vars();
        proof {
            assert forall|i: int| 0 <= i < s2@.len() implies 1 <= #[trigger] lit_var(s2@[i]) <= n1 by {
                if i < second.len() {
                    assert(s2@[i] == set@[first.len() + i]);
                }
            }
        }
        at_most_one(solver, s2.as_slice());
        proof {
            lemma_amo_split(
                h0,
                n0,
                h1,
                n1,
                solver.hard_clauses(),
                solver.num_vars(),
                set@,
                first,
                second,
                new_var,
            );
        }
    }
}

/// Adds hard clauses to `solver` that make exactly one literal of `set`
/// true: the
/// clause of all of them, and at most one of them.
pub fn exactly_one<S: MaxSatSolver + ?Sized>(solver: &mut S, set: &[isize])
    requires
        0 <= old(solver).num_vars(),
        lits_within(set@, old(solver).num_vars()),
        old(solver).num_vars() + set@.len() <= isize::MAX,
    ensures
        exactly_one_post(
            old(solver).hard_clauses(),
            old(solver).num_vars(),
            final(solver).hard_clauses(),
            final(solver).num_vars(),
            set@,
        ),
        final(solver).soft_clauses() == old(solver).soft_clauses(),
{
    let ghost h0 = solver.hard_clauses();
    let ghost n0 = solver.num_vars();
    let mut all: Vec<isize> = Vec::new();
    let mut i: usize = 0;
    while i < set.len()
        invariant
            i <= set.len(),
            all@ == set@.take(i as int),
        decreases set.len() - i,
    {
        all.push(set[i]);
        proof {
            assert(all@ =~= set@.take(i + 1));
        }
        i += 1;
    }
    proof {
        assert(all@ =~= set@);
    }
    solver.add_clause(None, all);
    let ghost h1 = solver.hard_clauses();
    at_most_one(solver, set);
    proof {
        let h2 = solver.hard_clauses();
        let added2 = h2.skip(h1.len() as int);
        let added = h2.skip(h0.len() as int);
        assert(h1 == h0.push(set@));
        assert(h2.take(h0.len() as int) =~= h0) by {
            assert(h2.take(h1.len() as int).take(h0.len() as int) =~= h2.take(h0.len() as int));
        }
        assert(added =~= seq![set@] + added2) by {
            assert(h2 =~= h2.take(h1.len() as int) + added2);
        }
        assert forall|j: int| 0 <= j < added.len() implies #[trigger] lits_within(added[j], solver.num_vars()) by {
            if j > 0 {
                assert(added[j] == added2[j - 1]);
            }
        }
        assert forall|a: spec_fn(int) -> bool| #[trigger] clauses_hold(a, added) implies count_true(a, set@) == 1 by {
            assert(clause_holds(a, added[0]));
            let m = choose|m: int| 0 <= m < set@.len() && #[trigger] lit_true(a, set@[m]);
            lemma_count_one(a, set@, m);
            assert(clauses_hold(a, added2)) by {
                assert forall|j: int| 0 <= j < added2.len() implies #[trigger] clause_holds(a, added2[j]) by {
                    assert(added[j + 1] == added2[j]);
                }
            }
        }
        assert forall|a: spec_fn(int) -> bool| #[trigger] count_true(a, set@) == 1 implies exists|
            b: spec_fn(int) -> bool,
        | agree_upto(a, b, n0) && #[trigger] clauses_hold(b, added) by {
            assert(count_true(a, set@) <= 1);
            let b = choose|b: spec_fn(int) -> bool| agree_upto(a, b, n0) && #[trigger] clauses_hold(b, added2);
            assert(agree_upto(a, b, n0) && clauses_hold(b, added2));
            lemma_count_some(a, set@);
            let m = choose|m: int| 0 <= m < set@.len() && #[trigger] lit_true(a, set@[m]);
            assert(1 <= lit_var(set@[m]) <= n0);
            assert(a(lit_var(set@[m])) == b(lit_var(set@[m])));
            assert(lit_true(b, set@[m]));
            assert(clause_holds(b, added[0]));
            assert forall|j: int| 0 <= j < added.len() implies #[trigger] clause_holds(b, added[j]) by {
                if j > 0 {
                    assert(added[j] == added2[j - 1]);
                }
            }
            assert(clauses_hold(b, added));
            assert(agree_upto(a, b, n0));
        }
    }
}

/// The hard clauses among weighted clauses, in order.
pub open spec fn hard_of(cs: Seq<(Option<u32>, Seq<isize>)>) -> Seq<Seq<isize>>
    decreases cs.len(),
{
    if cs.len() == 0 {
        seq![]
    } else if cs.last().0 is None {
        hard_of(cs.drop_last()).push(cs.last().1)
    } else {
        hard_of(cs.drop_last())
    }
}

/// The soft clauses among weighted clauses, with their weights, in order.
pub open spec fn soft_of(cs: Seq<(Option<u32>, Seq<isize>)>) -> Seq<(u32, Seq<isize>)>
    decreases cs.len(),
{
    if cs.len() == 0 {
        seq![]
    } else {
        match cs.last().0 {
            Some(w) => soft_of(cs.drop_last()).push((w, cs.last().1)),
            None => soft_of(cs.drop_last()),
        }
    }
}

impl MaxSatSolver for External {
    open spec fn hard_clauses(&self) -> Seq<Seq<isize>> {
        hard_of(self.wcnf.clauses_view())
    }

    open spec fn soft_clauses(&self) -> Seq<(u32, Seq<isize>)> {
        soft_of(self.wcnf.clauses_view())
    }

    open spec fn num_vars(&self) -> int {
        self.wcnf.n_vars as int
    }

    fn add_clause(&mut self, weight: Option<u32>, clause: Vec<isize>) {
        let ghost before = self.wcnf.clauses_view();
        self.wcnf.add_clause(weight, clause);
        proof {
            if weight != Some(0u32) {
                assert(self.wcnf.clauses_view().drop_last() =~= before);
            }
        }
    }

    fn new_var(&mut self) -> (v: isize) {
        self.wcnf.new_var()
    }

    fn status(&self) -> (s: String)
        ensures
            s@ == "External solver vars="@ + decimal(self.wcnf.n_vars as int) + " clauses="@ + decimal(
                self.wcnf.clauses@.len() as int,
            ),
    {
        External::status(self)
    }
}

impl External {
    /// Adds hard clauses that allow at most one literal of `set` to be true.
    pub fn at_most_one(&mut self, set: &[isize])
        requires
            lits_within(set@, old(self).wcnf.n_vars as int),
            old(self).wcnf.n_vars + set@.len() <= isize::MAX,
        ensures
            set@.len() <= 5 ==> final(self).hard_clauses() == old(self).hard_clauses() + pairwise_clauses(set@)
                && final(self).wcnf.n_vars == old(self).wcnf.n_vars,
            final(self).soft_clauses() == old(self).soft_clauses(),
            amo_post(
                old(self).hard_clauses(),
                old(self).num_vars(),
                final(self).hard_clauses(),
                final(self).num_vars(),
                set@,
            ),
    {
        at_most_one(self, set)
    }

    /// Adds hard clauses that make exactly one literal of `set` true.
    pub fn exactly_one(&mut self, set: &[isize])
        requires
            lits_within(set@, old(self).wcnf.n_vars as int),
            old(self).wcnf.n_vars + set@.len() <= isize::MAX,
        ensures
            exactly_one_post(
                old(self).hard_clauses(),
                old(self).num_vars(),
                final(self).hard_clauses(),
                final(self).num_vars(),
                set@,
            ),
            final(self).soft_clauses() == old(self).soft_clauses(),
    {
        exactly_one(self, set)
    }
}

/// Position `i` of the output starts a line.
pub open spec fn is_line_start(b: Seq<u8>, i: int) -> bool {
    i == 0 || b[i - 1] == 10u8
}

/// A line that starts at `i` with `v ` carries a model.
pub open spec fn is_model_line(b: Seq<u8>, i: int) -> bool {
    &&& 0 <= i
    &&& i + 1 < b.len()
    &&& is_line_start(b, i)
    &&& b[i] == 118u8
    &&& b[i + 1] == 32u8
}

/// The values that the digits `0` and `1` give, from position `i` to the
/// end of its line.
pub open spec fn bits_from(b: Seq<u8>, i: int) -> Seq<bool>
    decreases b.len() - i,
{
    if i < 0 || i >= b.len() || b[i] == 10u8 {
        seq![]
    } else if b[i] == 48u8 {
        seq![false] + bits_from(b, i + 1)
    } else if b[i] == 49u8 {
        seq![true] + bits_from(b, i + 1)
    } else {
        bits_from(b, i + 1)
    }
}

/// The model the solver printed: the values of the last line that starts
/// with `v `, or none.
pub open spec fn model_bits(b: Seq<u8>) -> Seq<bool> {
    if exists|i: int| #[trigger] is_model_line(b, i) {
        bits_from(
            b,
            choose|i: int|
                #[trigger] is_model_line(b, i) && forall|j: int| #[trigger] is_model_line(b, j) ==> j <= i,
        )
    } else {
        seq![]
    }
}

/// Reads the model from what the solver printed.
pub fn read_model(output: &str) -> (bits: Vec<bool>)
    ensures
        bits@ == model_bits(output.spec_bytes()),
{
    let b = output.as_bytes();
    let ghost bs = b@;
    let mut last: Option<usize> = None;
    let mut i: usize = 0;
    while i < b.len()
        invariant
            i <= b.len(),
            bs == b@,
            last matches Some(s) ==> is_model_line(bs, s as int) && s < i,
            forall|j: int| 0 <= j < i && #[trigger] is_model_line(bs, j) ==> (last matches Some(s) && j <= s),
        decreases b.len() - i,
    {
        if (i == 0 || b[i - 1] == 10u8) && i + 1 < b.len() && b[i] == 118u8 && b[i + 1] == 32u8 {
            last = Some(i);
        }
        i += 1;
    }
    match last {
        None => {
            proof {
                assert(!exists|j: int| #[trigger] is_model_line(bs, j));
            }
            Vec::new()
        },
        Some(start) => {
            proof {
                assert(forall|j: int| #[trigger] is_model_line(bs, j) ==> j <= start);
                let c = choose|k: int|
                    #[trigger] is_model_line(bs, k) && forall|j: int| #[trigger] is_model_line(bs, j) ==> j <= k;
                assert(c <= start && start <= c);
            }
            let mut bits: Vec<bool> = Vec::new();
            let mut k: usize = start;
            while k < b.len() && b[k] != 10u8
                invariant
                    start <= k <= b.len(),
                    bs == b@,
                    bits@ + bits_from(bs, k as int) == bits_from(bs, start as int),
                decreases b.len() - k,
            {
                let ghost before = bits@;
                if b[k] == 48u8 {
                    bits.push(false);
                    proof {
                        assert(bits@ + bits_from(bs, k + 1) =~= before + bits_from(bs, k as int));
                    }
                } else if b[k] == 49u8 {
                    bits.push(true);
                    proof {
                        assert(bits@ + bits_from(bs, k + 1) =~= before + bits_from(bs, k as int));
                    }
                }
                k += 1;
            }
            proof {
                assert(bits_from(bs, k as int) =~= Seq::<bool>::empty());
                assert(bits@ =~= bits@ + bits_from(bs, k as int));
            }
            bits
        },
    }
}

} // verus!
