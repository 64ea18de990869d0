//! Literals that may be constants, and how clauses of them reach a solver.
use vstd::prelude::*;
use crate::maxsatsolver::{MaxSatSolver, clause_holds, lit_true, lit_var, neg};

verus! {

/// A literal: a constant, or a solver variable taken positively (`> 0`) or
/// negated (`< 0`).
#[derive(Clone, Copy, Debug, PartialEq, Eq, Structural)]
pub enum BoolLit {
    Const(bool),
    Lit(isize),
}

impl BoolLit {
    /// The negation of a literal.
    pub open spec fn negated(self) -> BoolLit {
        match self {
            BoolLit::Const(b) => BoolLit::Const(!b),
            BoolLit::Lit(l) => BoolLit::Lit(neg(l)),
        }
    }

    /// The literal names no variable beyond `n`.
    pub open spec fn within(self, n: int) -> bool {
        match self {
            BoolLit::Const(_) => true,
            BoolLit::Lit(l) => 1 <= lit_var(l) <= n,
        }
    }

    /// Whether the literal is true when each variable `v` has the value `a(v)`.
    pub open spec fn holds(self, a: spec_fn(int) -> bool) -> bool {
        match self {
            BoolLit::Const(b) => b,
            BoolLit::Lit(l) => lit_true(a, l),
        }
    }

    /// The negation of a literal.
    pub fn not(self) -> (r: BoolLit)
        requires
            self.within(isize::MAX as int),
        ensures
            r == self.negated(),
    {
        match self {
            BoolLit::Const(b) => BoolLit::Const(!b),
            BoolLit::Lit(l) => BoolLit::Lit(-l),
        }
    }
}

/// The clause a solver gets for a clause of literals: none where a constant
/// true literal satisfies it already, else its variable literals in order.
pub open spec fn solver_clause(c: Seq<BoolLit>) -> Option<Seq<isize>>
    decreases c.len(),
{
    if c.len() == 0 {
        Some(seq![])
    } else {
        match solver_clause(c.drop_last()) {
            None => None,
            Some(x) => match c.last() {
                BoolLit::Const(true) => None,
                BoolLit::Const(false) => Some(x),
                BoolLit::Lit(l) => Some(x.push(l)),
            },
        }
    }
}

/// A clause of literals holds under an assignment exactly when the clause
/// the solver gets for it holds there, or the solver gets none.
pub proof fn lemma_solver_clause_holds(c: Seq<BoolLit>, a: spec_fn(int) -> bool)
    ensures
        (exists|i: int| 0 <= i < c.len() && #[trigger] c[i].holds(a)) <==> match solver_clause(c) {
            None => true,
            Some(x) => clause_holds(a, x),
        },
    decreases c.len(),
{
    if c.len() > 0 {
        let d = c.drop_last();
        lemma_solver_clause_holds(d, a);
        assert forall|i: int| 0 <= i < d.len() implies #[trigger] d[i] == c[i] by {}
        match solver_clause(d) {
            None => {
                let i = choose|i: int| 0 <= i < d.len() && #[trigger] d[i].holds(a);
                assert(c[i].holds(a));
            },
            Some(x) => {
                match c.last() {
                    BoolLit::Const(true) => {
                        assert(c[c.len() - 1].holds(a));
                    },
                    BoolLit::Const(false) => {
                        if exists|i: int| 0 <= i < c.len() && #[trigger] c[i].holds(a) {
                            let i = choose|i: int| 0 <= i < c.len() && #[trigger] c[i].holds(a);
                            assert(i < d.len());
                            assert(d[i].holds(a));
                        }
                        if clause_holds(a, x) {
                            let i = choose|i: int| 0 <= i < x.len() && #[trigger] lit_true(a, x[i]);
                            assert(exists|j: int| 0 <= j < d.len() && #[trigger] d[j].holds(a));
                        }
                    },
                    BoolLit::Lit(l) => {
                        let y = x.push(l);
                        if exists|i: int| 0 <= i < c.len() && #[trigger] c[i].holds(a) {
                            let i = choose|i: int| 0 <= i < c.len() && #[trigger] c[i].holds(a);
                            if i < d.len() {
                                assert(d[i].holds(a));
                                let k = choose|k: int| 0 <= k < x.len() && #[trigger] lit_true(a, x[k]);
                                assert(y[k] == x[k]);
                                assert(lit_true(a, y[k]));
                            } else {
                                assert(lit_true(a, y[y.len() - 1]));
                            }
                        }
                        if clause_holds(a, y) {
                            let k = choose|k: int| 0 <= k < y.len() && #[trigger] lit_true(a, y[k]);
                            if k < x.len() {
                                assert(x[k] == y[k]);
                                assert(clause_holds(a, x));
                                assert(exists|j: int| 0 <= j < d.len() && #[trigger] d[j].holds(a));
                                let j = choose|j: int| 0 <= j < d.len() && #[trigger] d[j].holds(a);
                                assert(c[j].holds(a));
                            } else {
                                assert(c[c.len() - 1].holds(a));
                            }
                        }
                    },
                }
            },
        }
    }
}

/// Adds a clause of literals as a hard clause of the solver, unless a
/// constant true literal satisfies it already; constant false literals are
/// left out.
pub fn add_bool_clause<S: MaxSatSolver + ?Sized>(solver: &mut S, clause: &[BoolLit])
    ensures
        final(solver).num_vars() == old(solver).num_vars(),
        final(solver).hard_clauses() == match solver_clause(clause@) {
            Some(x) => old(solver).hard_clauses().push(x),
            None => old(solver).hard_clauses(),
        },
{
    let mut lits: Vec<isize> = Vec::new();
    let mut i: usize = 0;
    while i < clause.len()
        invariant
            i <= clause@.len(),
            solver_clause(clause@.take(i as int)) == Some(lits@),
        decreases clause@.len() - i,
    {
        proof {
            assert(clause@.take(i + 1).drop_last() =~= clause@.take(i as int));
        }
        match clause[i] {
            BoolLit::Const(true) => {
                proof {
                    assert(solver_clause(clause@.take(i + 1)) is None);
                    lemma_solver_clause_none(clause@, i + 1);
                }
                return ;
            },
            BoolLit::Const(false) => {},
            BoolLit::Lit(l) => {
                lits.push(l);
            },
        }
        i = i + 1;
    }
    proof {
        assert(clause@.take(i as int) =~= clause@);
    }
    solver.add_clause(None, lits);
}

/// A clause that a constant true literal satisfies stays satisfied when it
/// grows.
proof fn lemma_solver_clause_none(c: Seq<BoolLit>, k: int)
    requires
        0 <= k <= c.len(),
        solver_clause(c.take(k)) is None,
    ensures
        solver_clause(c) is None,
    decreases c.len() - k,
{
    if k < c.len() {
        assert(c.take(k + 1).drop_last() =~= c.take(k));
        lemma_solver_clause_none(c, k + 1);
    } else {
        assert(c.take(k) =~= c);
    }
}

} // verus!
