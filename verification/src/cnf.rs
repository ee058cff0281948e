use vstd::prelude::*;
use crate::derivation::Derivation;
use crate::heuristic::{first_used_var, no_used_var, DerivationHeuristic, SimplestHeuristic};
use crate::term::DerivationTerm;

verus! {

/// A literal: a propositional variable, identified by its index, either
/// plain or negated.
#[derive(Clone, Copy, Debug, PartialEq, Eq, Structural)]
pub struct Term {
    var: usize,
    neg: bool,
}

impl Term {
    /// The variable this literal speaks of.
    pub closed spec fn var_spec(&self) -> int {
        self.var as int
    }

    /// Whether the literal is negated.
    pub closed spec fn neg_spec(&self) -> bool {
        self.neg
    }

    /// The same literal with the opposite polarity.
    pub closed spec fn flip(self) -> Term {
        Term { var: self.var, neg: !self.neg }
    }

    /// The literal of variable `var` with the given polarity.
    pub closed spec fn lit_of(var: int, neg: bool) -> Term {
        Term { var: var as usize, neg }
    }

    /// The positive literal of variable `var`.  The greatest representable
    /// index is excluded so that a domain (a greatest variable plus one)
    /// always fits in a machine word.
    pub fn new(var: usize) -> (r: Term)
        requires
            var < usize::MAX,
        ensures
            r == Term::lit_of(var as int, false),
            r.var_spec() == var,
            !r.neg_spec(),
    {
        Term { var, neg: false }
    }

    /// The variable this literal speaks of.
    pub fn var(self) -> (r: usize)
        ensures
            r == self.var_spec(),
    {
        self.var
    }

    /// Negate this literal.
    pub fn negate(self) -> (r: Term)
        ensures
            r == self.flip(),
            r.var_spec() == self.var_spec(),
            r.neg_spec() == !self.neg_spec(),
    {
        Term { var: self.var, neg: !self.neg }
    }
}

/// One more than `v`, saturating at the greatest machine word, so that a
/// domain computed from literal indices always fits.
pub open spec fn sat_inc(v: int) -> int {
    if v >= usize::MAX {
        usize::MAX as int
    } else {
        v + 1
    }
}

/// Sum saturating at the greatest machine word: usage counts beyond it are
/// all reported as that bound (zero is always exact).
pub open spec fn sat_add(a: nat, b: nat) -> nat {
    if a + b > usize::MAX {
        usize::MAX as nat
    } else {
        a + b
    }
}

/// Domain of a clause: one past the greatest variable occurring in it.
pub open spec fn clause_dom(c: Seq<Term>) -> int
    decreases c.len(),
{
    if c.len() == 0 {
        0
    } else {
        let rest = clause_dom(c.drop_last());
        let d = sat_inc(c.last().var_spec());
        if d >= rest {
            d
        } else {
            rest
        }
    }
}

/// Number of literals of variable `v` in a clause.
pub open spec fn clause_uses(c: Seq<Term>, v: int) -> nat
    decreases c.len(),
{
    if c.len() == 0 {
        0
    } else {
        clause_uses(c.drop_last(), v) + (if c.last().var_spec() == v {
            1nat
        } else {
            0nat
        })
    }
}

/// Domain of a formula: the greatest domain of any of its clauses.
pub open spec fn formula_dom(f: Seq<Seq<Term>>) -> int
    decreases f.len(),
{
    if f.len() == 0 {
        0
    } else {
        let rest = formula_dom(f.drop_last());
        let d = clause_dom(f.last());
        if d >= rest {
            d
        } else {
            rest
        }
    }
}

/// Number of literals of variable `v` in a formula, saturating at the
/// greatest machine word.
pub open spec fn formula_uses(f: Seq<Seq<Term>>, v: int) -> nat
    decreases f.len(),
{
    if f.len() == 0 {
        0
    } else {
        sat_add(formula_uses(f.drop_last(), v), clause_uses(f.last(), v))
    }
}

/// Truth value of a formula, where one is known already: an empty
/// conjunction is true, a single empty clause is false, and anything else
/// is not yet determined.
pub open spec fn spec_eval(f: Seq<Seq<Term>>) -> Option<bool> {
    if f.len() == 0 {
        Some(true)
    } else if f.len() == 1 && f[0].len() == 0 {
        Some(false)
    } else {
        None
    }
}

/// The clause with every occurrence of literal `t` removed, order kept.
pub open spec fn remove_lit(c: Seq<Term>, t: Term) -> Seq<Term>
    decreases c.len(),
{
    if c.len() == 0 {
        Seq::empty()
    } else {
        remove_lit(c.drop_last(), t) + (if c.last() == t {
            Seq::<Term>::empty()
        } else {
            seq![c.last()]
        })
    }
}

/// Resolving `t` true falsifies the clause outright: the clause does not
/// hold `t`, and removing the opposite literal leaves it empty.
pub open spec fn clause_falsified(c: Seq<Term>, t: Term) -> bool {
    !c.contains(t) && remove_lit(c, t.flip()).len() == 0
}

/// Some clause of the formula is falsified by resolving `t` true.
pub open spec fn formula_falsified(f: Seq<Seq<Term>>, t: Term) -> bool {
    exists|k: int| 0 <= k < f.len() && clause_falsified(#[trigger] f[k], t)
}

/// The clauses that survive resolving `t` true, in order: clauses holding
/// `t` are dropped as satisfied, and the opposite literal is removed from
/// the rest.
pub open spec fn subst_keep(f: Seq<Seq<Term>>, t: Term) -> Seq<Seq<Term>>
    decreases f.len(),
{
    if f.len() == 0 {
        Seq::empty()
    } else {
        let rest = subst_keep(f.drop_last(), t);
        if f.last().contains(t) {
            rest
        } else {
            rest + seq![remove_lit(f.last(), t.flip())]
        }
    }
}

/// The formula after resolving literal `t` true: the single empty clause
/// if some clause is thereby falsified, else the surviving clauses.
pub open spec fn resolved(f: Seq<Seq<Term>>, t: Term) -> Seq<Seq<Term>> {
    if formula_falsified(f, t) {
        seq![Seq::<Term>::empty()]
    } else {
        subst_keep(f, t)
    }
}

/// No literal of variable `v` occurs in the clause.
pub open spec fn clause_clean(c: Seq<Term>, v: int) -> bool {
    forall|j: int| 0 <= j < c.len() ==> (#[trigger] c[j].var_spec()) != v
}

/// A clause domain never exceeds the greatest machine word.
proof fn lemma_clause_dom_le_max(c: Seq<Term>)
    ensures
        0 <= clause_dom(c) <= usize::MAX,
    decreases c.len(),
{
    if c.len() != 0 {
        lemma_clause_dom_le_max(c.drop_last());
    }
}

/// A formula domain never exceeds the greatest machine word.
proof fn lemma_formula_dom_le_max(f: Seq<Seq<Term>>)
    ensures
        0 <= formula_dom(f) <= usize::MAX,
    decreases f.len(),
{
    if f.len() != 0 {
        lemma_formula_dom_le_max(f.drop_last());
        lemma_clause_dom_le_max(f.last());
    }
}

/// Removing the opposite literal from a clause that does not hold the
/// literal itself leaves no literal of that variable at all.
proof fn lemma_substituted_clause_clean(c: Seq<Term>, lit: Term)
    requires
        !c.contains(lit),
    ensures
        clause_clean(remove_lit(c, lit.flip()), lit.var_spec()),
    decreases c.len(),
{
    if c.len() != 0 {
        assert(!c.drop_last().contains(lit)) by {
            if c.drop_last().contains(lit) {
                let j = choose|j: int| 0 <= j < c.drop_last().len() && c.drop_last()[j] == lit;
                assert(c[j] == lit);
            }
        }
        lemma_substituted_clause_clean(c.drop_last(), lit);
        let t = c.last();
        if t != lit.flip() && t.var_spec() == lit.var_spec() {
            assert(t.neg_spec() == lit.neg_spec());
            assert(t == lit);
            assert(c.contains(lit)) by {
                assert(c[c.len() - 1] == lit);
            }
        }
    }
}

/// A clause with no literal of `v` uses `v` zero times.
proof fn lemma_clean_clause_uses_zero(c: Seq<Term>, v: int)
    requires
        clause_clean(c, v),
    ensures
        clause_uses(c, v) == 0,
    decreases c.len(),
{
    if c.len() != 0 {
        assert(clause_clean(c.drop_last(), v)) by {
            assert(forall|j: int|
                0 <= j < c.drop_last().len() ==> c.drop_last()[j] == c[j]);
        }
        lemma_clean_clause_uses_zero(c.drop_last(), v);
        assert(c.last() == c[c.len() - 1]);
    }
}

/// A formula all of whose clauses are clean of `v` uses `v` zero times.
proof fn lemma_clean_formula_uses_zero(f: Seq<Seq<Term>>, v: int)
    requires
        forall|k: int| 0 <= k < f.len() ==> clause_clean(#[trigger] f[k], v),
    ensures
        formula_uses(f, v) == 0,
    decreases f.len(),
{
    if f.len() != 0 {
        assert(forall|k: int|
            0 <= k < f.drop_last().len() ==> clause_clean(#[trigger] f.drop_last()[k], v));
        lemma_clean_formula_uses_zero(f.drop_last(), v);
        assert(f.last() == f[f.len() - 1]);
        lemma_clean_clause_uses_zero(f.last(), v);
    }
}

/// Total number of literals held by a formula's clauses together: a well
/// founded measure of its remaining complexity.
pub open spec fn total_lits(f: Seq<Seq<Term>>) -> nat
    decreases f.len(),
{
    if f.len() == 0 {
        0
    } else {
        total_lits(f.drop_last()) + f.last().len()
    }
}

/// Removing a literal never lengthens a clause, and strictly shortens one
/// that holds the literal.
proof fn lemma_remove_lit_len(c: Seq<Term>, t: Term)
    ensures
        remove_lit(c, t).len() <= c.len(),
        c.contains(t) ==> remove_lit(c, t).len() < c.len(),
    decreases c.len(),
{
    if c.len() != 0 {
        lemma_remove_lit_len(c.drop_last(), t);
        if c.contains(t) && c.last() != t {
            let j = choose|j: int| 0 <= j < c.len() && c[j] == t;
            assert(c.drop_last()[j] == t);
            assert(c.drop_last().contains(t));
        }
    }
}

/// Every clause of a formula counts towards its total.
proof fn lemma_clause_le_total(f: Seq<Seq<Term>>, k: int)
    requires
        0 <= k < f.len(),
    ensures
        f[k].len() <= total_lits(f),
    decreases f.len(),
{
    if k < f.len() - 1 {
        assert(f.drop_last()[k] == f[k]);
        lemma_clause_le_total(f.drop_last(), k);
    } else {
        assert(f.last() == f[k]);
    }
}

/// Substitution never grows the total literal count, and strictly shrinks
/// it when some clause speaks of the resolved literal in either polarity.
proof fn lemma_subst_keep_total(f: Seq<Seq<Term>>, t: Term)
    ensures
        total_lits(subst_keep(f, t)) <= total_lits(f),
        (exists|k: int|
            0 <= k < f.len() && ((#[trigger] f[k]).contains(t) || f[k].contains(t.flip())))
            ==> total_lits(subst_keep(f, t)) < total_lits(f),
    decreases f.len(),
{
    if f.len() != 0 {
        lemma_subst_keep_total(f.drop_last(), t);
        lemma_remove_lit_len(f.last(), t.flip());
        let rest = subst_keep(f.drop_last(), t);
        if !f.last().contains(t) {
            assert((rest + seq![remove_lit(f.last(), t.flip())]).drop_last() =~= rest);
            assert((rest + seq![remove_lit(f.last(), t.flip())]).last() == remove_lit(
                f.last(),
                t.flip(),
            ));
        }
        if exists|k: int|
            0 <= k < f.len() && ((#[trigger] f[k]).contains(t) || f[k].contains(t.flip())) {
            let k = choose|k: int|
                0 <= k < f.len() && ((#[trigger] f[k]).contains(t) || f[k].contains(t.flip()));
            if k < f.len() - 1 {
                assert(f.drop_last()[k] == f[k]);
                assert(f.drop_last()[k].contains(t) || f.drop_last()[k].contains(t.flip()));
            } else {
                assert(f.last() == f[k]);
                if f.last().contains(t) {
                    let j = choose|j: int| 0 <= j < f.last().len() && f.last()[j] == t;
                    assert(f.last().len() >= 1);
                }
            }
        }
    }
}

/// A nonzero usage count names a clause that holds a literal of the
/// variable, in one polarity or the other.
proof fn lemma_uses_gives_literal(f: Seq<Seq<Term>>, v: int)
    requires
        formula_uses(f, v) > 0,
    ensures
        exists|k: int|
            0 <= k < f.len() && ((#[trigger] f[k]).contains(Term::lit_of(v, false))
                || f[k].contains(Term::lit_of(v, true))),
    decreases f.len(),
{
    if f.len() != 0 {
        if clause_uses(f.last(), v) > 0 {
            lemma_clause_uses_gives_literal(f.last(), v);
            let idx = f.len() - 1;
            assert(f[idx] == f.last());
        } else {
            lemma_uses_gives_literal(f.drop_last(), v);
            let k = choose|k: int|
                0 <= k < f.drop_last().len() && ((#[trigger] f.drop_last()[k]).contains(
                    Term::lit_of(v, false),
                ) || f.drop_last()[k].contains(Term::lit_of(v, true)));
            assert(f.drop_last()[k] == f[k]);
        }
    }
}

/// A clause that uses a variable holds one of its two literals.
proof fn lemma_clause_uses_gives_literal(c: Seq<Term>, v: int)
    requires
        clause_uses(c, v) > 0,
    ensures
        c.contains(Term::lit_of(v, false)) || c.contains(Term::lit_of(v, true)),
    decreases c.len(),
{
    if c.len() != 0 {
        if c.last().var_spec() == v {
            let t = c.last();
            assert(t == Term::lit_of(v, t.neg_spec()));
            assert(c[c.len() - 1] == t);
        } else {
            lemma_clause_uses_gives_literal(c.drop_last(), v);
            if c.drop_last().contains(Term::lit_of(v, false)) {
                let j = choose|j: int|
                    0 <= j < c.drop_last().len() && c.drop_last()[j] == Term::lit_of(v, false);
                assert(c[j] == Term::lit_of(v, false));
            } else {
                let j = choose|j: int|
                    0 <= j < c.drop_last().len() && c.drop_last()[j] == Term::lit_of(v, true);
                assert(c[j] == Term::lit_of(v, true));
            }
        }
    }
}

/// Splitting a formula on a variable it actually uses strictly reduces
/// the total literal count in both children: for formulas, the split
/// relation is well founded, so the engine's bounded-exploration law
/// applies and enumeration terminates.
pub proof fn lemma_split_reduces_total_lits(f: Seq<Seq<Term>>, v: int)
    requires
        formula_uses(f, v) > 0,
    ensures
        total_lits(resolved(f, Term::lit_of(v, false))) < total_lits(f),
        total_lits(resolved(f, Term::lit_of(v, true))) < total_lits(f),
{
    lemma_uses_gives_literal(f, v);
    let k = choose|k: int|
        0 <= k < f.len() && ((#[trigger] f[k]).contains(Term::lit_of(v, false)) || f[k].contains(
            Term::lit_of(v, true),
        ));
    lemma_clause_le_total(f, k);
    assert(f[k].len() >= 1) by {
        if f[k].contains(Term::lit_of(v, false)) {
            let j = choose|j: int| 0 <= j < f[k].len() && f[k][j] == Term::lit_of(v, false);
        } else {
            let j = choose|j: int| 0 <= j < f[k].len() && f[k][j] == Term::lit_of(v, true);
        }
    }
    assert(total_lits(seq![Seq::<Term>::empty()]) == 0) by {
        assert(total_lits(Seq::<Seq<Term>>::empty()) == 0);
        assert(seq![Seq::<Term>::empty()].drop_last() =~= Seq::<Seq<Term>>::empty());
        assert(seq![Seq::<Term>::empty()].last() =~= Seq::<Term>::empty());
    }
    assert(Term::lit_of(v, false).flip() == Term::lit_of(v, true));
    assert(Term::lit_of(v, true).flip() == Term::lit_of(v, false));
    lemma_subst_keep_total(f, Term::lit_of(v, false));
    lemma_subst_keep_total(f, Term::lit_of(v, true));
}

/// The literal holds under the assignment: the variable's value agrees
/// with the literal's polarity.
pub open spec fn lit_holds(t: Term, asn: spec_fn(int) -> bool) -> bool {
    asn(t.var_spec()) == !t.neg_spec()
}

/// Some literal of the clause holds under the assignment.
pub open spec fn clause_holds(c: Seq<Term>, asn: spec_fn(int) -> bool) -> bool {
    exists|j: int| 0 <= j < c.len() && lit_holds(#[trigger] c[j], asn)
}

/// Every clause of the formula holds under the assignment.
pub open spec fn formula_holds(f: Seq<Seq<Term>>, asn: spec_fn(int) -> bool) -> bool {
    forall|k: int| 0 <= k < f.len() ==> clause_holds(#[trigger] f[k], asn)
}

/// The formula is satisfiable: some assignment of truth values to the
/// variables makes every clause hold.
pub open spec fn sat_of(f: Seq<Seq<Term>>) -> bool {
    exists|asn: spec_fn(int) -> bool| #[trigger] formula_holds(f, asn)
}

/// Every variable of the clause is a representable index, as every
/// literal built by the public constructor is.
pub open spec fn clause_bounded(c: Seq<Term>) -> bool {
    forall|j: int| 0 <= j < c.len() ==> (#[trigger] c[j].var_spec()) < usize::MAX
}

/// Every variable of the formula is a representable index.
pub open spec fn formula_bounded(f: Seq<Seq<Term>>) -> bool {
    forall|k: int| 0 <= k < f.len() ==> clause_bounded(#[trigger] f[k])
}

/// A formula holding an empty clause is unsatisfiable.
proof fn lemma_empty_clause_unsat(f: Seq<Seq<Term>>, k: int)
    requires
        0 <= k < f.len(),
        f[k].len() == 0,
    ensures
        !sat_of(f),
{
    assert forall|asn: spec_fn(int) -> bool| !(#[trigger] formula_holds(f, asn)) by {
        if formula_holds(f, asn) {
            assert(clause_holds(f[k], asn));
            let j = choose|j: int| 0 <= j < f[k].len() && lit_holds(f[k][j], asn);
        }
    }
}

/// A formula known true is satisfiable, a formula known false is not.
proof fn lemma_eval_decides_sat(f: Seq<Seq<Term>>)
    ensures
        spec_eval(f) == Some(true) ==> sat_of(f),
        spec_eval(f) == Some(false) ==> !sat_of(f),
{
    if spec_eval(f) == Some(true) {
        let asn = |v: int| true;
        assert(formula_holds(f, asn));
    }
    if spec_eval(f) == Some(false) {
        lemma_empty_clause_unsat(f, 0);
    }
}

/// What survives removal: every element differs from the removed literal
/// and came from the clause; and every other element of the clause stays.
proof fn lemma_remove_lit_membership(c: Seq<Term>, t: Term)
    ensures
        forall|j: int|
            0 <= j < remove_lit(c, t).len() ==> (#[trigger] remove_lit(c, t)[j]) != t
                && c.contains(remove_lit(c, t)[j]),
        forall|j: int| 0 <= j < c.len() && (#[trigger] c[j]) != t ==> remove_lit(c, t).contains(
            c[j],
        ),
    decreases c.len(),
{
    if c.len() != 0 {
        lemma_remove_lit_membership(c.drop_last(), t);
        let rest = remove_lit(c.drop_last(), t);
        let whole = remove_lit(c, t);
        assert forall|j: int|
            0 <= j < whole.len() implies (#[trigger] whole[j]) != t && c.contains(whole[j]) by {
            if j < rest.len() {
                assert(whole[j] == rest[j]);
                let j2 = choose|j2: int|
                    0 <= j2 < c.drop_last().len() && c.drop_last()[j2] == rest[j];
                assert(c[j2] == whole[j]);
            } else {
                assert(c.last() != t);
                assert(whole[j] == c.last());
                assert(c[c.len() - 1] == c.last());
            }
        }
        assert forall|j: int|
            0 <= j < c.len() && (#[trigger] c[j]) != t implies whole.contains(c[j]) by {
            if j < c.len() - 1 {
                assert(c.drop_last()[j] == c[j]);
                assert(rest.contains(c[j]));
                let j2 = choose|j2: int| 0 <= j2 < rest.len() && rest[j2] == c[j];
                assert(whole[j2] == rest[j2]);
            } else {
                assert(c.last() == c[j]);
                assert(whole[whole.len() - 1] == c.last());
            }
        }
    }
}

/// Where the surviving clauses come from: each is the image of a clause
/// of the formula that did not hold the resolved literal; and each such
/// clause of the formula has its image among the survivors.
proof fn lemma_subst_keep_membership(f: Seq<Seq<Term>>, t: Term)
    ensures
        forall|i: int| #![trigger subst_keep(f, t)[i]]
            0 <= i < subst_keep(f, t).len() ==> exists|src: int|
                {
                    &&& 0 <= src < f.len()
                    &&& !(#[trigger] f[src]).contains(t)
                    &&& subst_keep(f, t)[i] == remove_lit(f[src], t.flip())
                },
        forall|k: int|
            0 <= k < f.len() && !(#[trigger] f[k]).contains(t) ==> subst_keep(f, t).contains(
                remove_lit(f[k], t.flip()),
            ),
    decreases f.len(),
{
    if f.len() != 0 {
        lemma_subst_keep_membership(f.drop_last(), t);
        let rest = subst_keep(f.drop_last(), t);
        let whole = subst_keep(f, t);
        assert forall|i: int| #![trigger whole[i]]
            0 <= i < whole.len() implies exists|src: int|
            {
                &&& 0 <= src < f.len()
                &&& !(#[trigger] f[src]).contains(t)
                &&& whole[i] == remove_lit(f[src], t.flip())
            } by {
            if i < rest.len() {
                assert(whole[i] == rest[i]);
                let src = choose|src: int|
                    {
                        &&& 0 <= src < f.drop_last().len()
                        &&& !(#[trigger] f.drop_last()[src]).contains(t)
                        &&& rest[i] == remove_lit(f.drop_last()[src], t.flip())
                    };
                assert(f[src] == f.drop_last()[src]);
            } else {
                assert(!f.last().contains(t));
                assert(whole[i] == remove_lit(f.last(), t.flip()));
                let src = f.len() - 1;
                assert(f[src] == f.last());
                assert(!f[src].contains(t) && whole[i] == remove_lit(f[src], t.flip()));
            }
        }
        assert forall|k: int|
            0 <= k < f.len() && !(#[trigger] f[k]).contains(t) implies whole.contains(
            remove_lit(f[k], t.flip()),
        ) by {
            if k < f.len() - 1 {
                assert(f.drop_last()[k] == f[k]);
                assert(rest.contains(remove_lit(f[k], t.flip())));
                let i = choose|i: int|
                    0 <= i < rest.len() && rest[i] == remove_lit(f[k], t.flip());
                assert(whole[i] == rest[i]);
            } else {
                assert(f.last() == f[k]);
                assert(whole[whole.len() - 1] == remove_lit(f[k], t.flip()));
            }
        }
    }
}

/// Two literals of the same variable are the literal and its opposite.
proof fn lemma_same_var_same_or_flip(t: Term, u: Term)
    requires
        u.var_spec() == t.var_spec(),
    ensures
        u == t || u == t.flip(),
{
}

/// A satisfiable resolution witnesses the satisfiability of the formula
/// it came from: extend the assignment by making the resolved literal
/// true.
proof fn lemma_child_sat_parent(f: Seq<Seq<Term>>, t: Term)
    requires
        sat_of(resolved(f, t)),
    ensures
        sat_of(f),
{
    if formula_falsified(f, t) {
        lemma_empty_clause_unsat(resolved(f, t), 0);
    } else {
        let child = subst_keep(f, t);
        let asn = choose|asn: spec_fn(int) -> bool| #[trigger] formula_holds(child, asn);
        let asn2 = |v: int|
            if v == t.var_spec() {
                !t.neg_spec()
            } else {
                asn(v)
            };
        lemma_subst_keep_membership(f, t);
        assert forall|k: int| 0 <= k < f.len() implies clause_holds(#[trigger] f[k], asn2) by {
            if f[k].contains(t) {
                let j = choose|j: int| 0 <= j < f[k].len() && f[k][j] == t;
                assert(lit_holds(f[k][j], asn2));
            } else {
                let image = remove_lit(f[k], t.flip());
                assert(child.contains(image));
                let i = choose|i: int| 0 <= i < child.len() && child[i] == image;
                assert(clause_holds(child[i], asn));
                let j = choose|j: int| 0 <= j < image.len() && lit_holds(image[j], asn);
                lemma_remove_lit_membership(f[k], t.flip());
                let w = image[j];
                assert(w != t.flip() && f[k].contains(w));
                assert(w != t);
                assert(w.var_spec() != t.var_spec()) by {
                    if w.var_spec() == t.var_spec() {
                        lemma_same_var_same_or_flip(t, w);
                    }
                }
                assert(lit_holds(w, asn2));
                let j2 = choose|j2: int| 0 <= j2 < f[k].len() && f[k][j2] == w;
                assert(lit_holds(f[k][j2], asn2));
            }
        }
        assert(formula_holds(f, asn2));
    }
}

/// A satisfiable formula stays satisfiable on at least one side of any
/// split: resolve the variable the way the witnessing assignment does.
proof fn lemma_parent_sat_child(f: Seq<Seq<Term>>, v: int)
    requires
        sat_of(f),
        0 <= v < usize::MAX,
    ensures
        sat_of(resolved(f, Term::lit_of(v, false))) || sat_of(resolved(f, Term::lit_of(v, true))),
{
    let asn = choose|asn: spec_fn(int) -> bool| #[trigger] formula_holds(f, asn);
    let t = if asn(v) {
        Term::lit_of(v, false)
    } else {
        Term::lit_of(v, true)
    };
    assert(t.var_spec() == v);
    assert(lit_holds(t, asn));
    assert(!lit_holds(t.flip(), asn));
    lemma_subst_keep_membership(f, t);
    assert(!formula_falsified(f, t)) by {
        if formula_falsified(f, t) {
            let k = choose|k: int| 0 <= k < f.len() && clause_falsified(#[trigger] f[k], t);
            assert(clause_holds(f[k], asn));
            let j = choose|j: int| 0 <= j < f[k].len() && lit_holds(f[k][j], asn);
            let w = f[k][j];
            assert(w != t && w != t.flip());
            lemma_remove_lit_membership(f[k], t.flip());
            assert(remove_lit(f[k], t.flip()).contains(w));
        }
    }
    let child = subst_keep(f, t);
    assert forall|i: int| 0 <= i < child.len() implies clause_holds(#[trigger] child[i], asn) by {
        let src = choose|src: int|
            {
                &&& 0 <= src < f.len()
                &&& !(#[trigger] f[src]).contains(t)
                &&& child[i] == remove_lit(f[src], t.flip())
            };
        assert(clause_holds(f[src], asn));
        let j = choose|j: int| 0 <= j < f[src].len() && lit_holds(f[src][j], asn);
        let w = f[src][j];
        assert(w != t && w != t.flip());
        lemma_remove_lit_membership(f[src], t.flip());
        assert(child[i].contains(w));
        let j2 = choose|j2: int| 0 <= j2 < child[i].len() && child[i][j2] == w;
        assert(lit_holds(child[i][j2], asn));
    }
    assert(formula_holds(child, asn));
    assert(resolved(f, t) == child);
}

/// A literal of the clause gives the variable a positive usage count.
proof fn lemma_lit_clause_uses(c: Seq<Term>, j: int)
    requires
        0 <= j < c.len(),
    ensures
        clause_uses(c, c[j].var_spec()) >= 1,
    decreases c.len(),
{
    if j < c.len() - 1 {
        assert(c.drop_last()[j] == c[j]);
        lemma_lit_clause_uses(c.drop_last(), j);
    } else {
        assert(c.last() == c[j]);
    }
}

/// A literal of the formula gives its variable a positive usage count.
proof fn lemma_lit_formula_uses(f: Seq<Seq<Term>>, k: int, j: int)
    requires
        0 <= k < f.len(),
        0 <= j < f[k].len(),
    ensures
        formula_uses(f, f[k][j].var_spec()) >= 1,
    decreases f.len(),
{
    if k < f.len() - 1 {
        assert(f.drop_last()[k] == f[k]);
        lemma_lit_formula_uses(f.drop_last(), k, j);
    } else {
        assert(f.last() == f[k]);
        lemma_lit_clause_uses(f[k], j);
    }
}

/// A literal's variable lies below the clause's domain.
proof fn lemma_lit_below_clause_dom(c: Seq<Term>, j: int)
    requires
        0 <= j < c.len(),
    ensures
        sat_inc(c[j].var_spec()) <= clause_dom(c),
    decreases c.len(),
{
    if j < c.len() - 1 {
        assert(c.drop_last()[j] == c[j]);
        lemma_lit_below_clause_dom(c.drop_last(), j);
    } else {
        assert(c.last() == c[j]);
    }
}

/// A clause's domain lies below the formula's.
proof fn lemma_clause_below_formula_dom(f: Seq<Seq<Term>>, k: int)
    requires
        0 <= k < f.len(),
    ensures
        clause_dom(f[k]) <= formula_dom(f),
    decreases f.len(),
{
    if k < f.len() - 1 {
        assert(f.drop_last()[k] == f[k]);
        lemma_clause_below_formula_dom(f.drop_last(), k);
    } else {
        assert(f.last() == f[k]);
    }
}

/// A bounded formula that no variable of its domain occurs in, yet whose
/// value is undetermined, is a conjunction of two or more empty clauses:
/// unsatisfiable.
proof fn lemma_ground_undetermined_unsat(f: Seq<Seq<Term>>)
    requires
        formula_bounded(f),
        forall|v: int| 0 <= v < formula_dom(f) ==> formula_uses(f, v) == 0,
        spec_eval(f) == Option::<bool>::None,
    ensures
        !sat_of(f),
{
    assert forall|k: int| 0 <= k < f.len() implies (#[trigger] f[k]).len() == 0 by {
        if f[k].len() > 0 {
            let v = f[k][0].var_spec();
            assert(v < usize::MAX);
            lemma_lit_formula_uses(f, k, 0);
            lemma_lit_below_clause_dom(f[k], 0);
            lemma_clause_below_formula_dom(f, k);
            assert(sat_inc(v) == v + 1);
            assert(0 <= v < formula_dom(f));
        }
    }
    lemma_empty_clause_unsat(f, 0);
}

/// Resolution keeps every variable representable.
proof fn lemma_resolved_bounded(f: Seq<Seq<Term>>, t: Term)
    requires
        formula_bounded(f),
    ensures
        formula_bounded(resolved(f, t)),
{
    if !formula_falsified(f, t) {
        lemma_subst_keep_membership(f, t);
        let child = subst_keep(f, t);
        assert forall|i: int| 0 <= i < child.len() implies clause_bounded(#[trigger] child[i]) by {
            let src = choose|src: int|
                {
                    &&& 0 <= src < f.len()
                    &&& !(#[trigger] f[src]).contains(t)
                    &&& child[i] == remove_lit(f[src], t.flip())
                };
            lemma_remove_lit_membership(f[src], t.flip());
            assert forall|j: int|
                0 <= j < child[i].len() implies (#[trigger] child[i][j].var_spec())
                < usize::MAX by {
                assert(f[src].contains(child[i][j]));
                let j2 = choose|j2: int| 0 <= j2 < f[src].len() && f[src][j2] == child[i][j];
            }
        }
    }
}

/// A satisfiability search over formulas with the default heuristic.
type Search<F> = Derivation<F, Formula, SimplestHeuristic<Formula>>;

/// The classifier relationally computes the formula's known truth value.
pub open spec fn eval_classifier<F: Fn(&Formula) -> Option<bool>>(q: F) -> bool {
    forall|t: &Formula, v: Option<bool>|
        #[trigger] call_ensures(q, (t,), v) ==> v == spec_eval(t@)
}

/// The measure every split strictly reduces: the total literal count.
pub open spec fn lits_measure() -> spec_fn(Formula) -> nat {
    |g: Formula| total_lits(g@)
}

/// Invariant of a satisfiability search rooted in `root`: the root sits at
/// index zero, every recorded formula has representable variables, a
/// satisfiable recorded formula witnesses a satisfiable root, and while
/// the root is satisfiable some pending formula still is.
pub open spec fn searching_inv<F: Fn(&Formula) -> Option<bool>>(
    d: Search<F>,
    root: Seq<Seq<Term>>,
) -> bool {
    &&& d.tree().terms().len() >= 1
    &&& d.tree().terms()[0]@ == root
    &&& forall|k: int|
        0 <= k < d.tree().terms().len() ==> formula_bounded(#[trigger] d.tree().terms()[k]@)
    &&& forall|k: int|
        0 <= k < d.tree().terms().len() ==> (sat_of(#[trigger] d.tree().terms()[k]@)
            ==> sat_of(root))
    &&& (sat_of(root) ==> exists|k: int|
        0 <= k < d.wl().len() && sat_of(#[trigger] d.tree().terms()[d.wl()[k] as int]@))
}

/// One matchless step of a satisfiability search keeps the invariant and
/// strictly reduces the total weight: rejected nodes are unsatisfiable,
/// silently dropped ground nodes are unsatisfiable too, and an expanded
/// node passes its satisfiability to one of the two halves of its split.
proof fn lemma_search_step<F: Fn(&Formula) -> Option<bool>>(
    pre: Search<F>,
    mid: Search<F>,
    root: Seq<Seq<Term>>,
)
    requires
        pre.wf(),
        eval_classifier(pre.qf()),
        Derivation::step_rel(pre, mid, Option::<usize>::None),
        searching_inv(pre, root),
        pre.tree().terms().len() + 2 <= usize::MAX,
    ensures
        mid.wf(),
        mid.qf() == pre.qf(),
        searching_inv(mid, root),
        Derivation::reducing_step(pre, mid, lits_measure()),
{
    Derivation::lemma_step_preserves_wf(pre, mid, Option::<usize>::None);
    pre.tree().lemma_len_bound();
    mid.tree().lemma_len_bound();
    let mu = lits_measure();
    let i0 = pre.wl()[0];
    let p = pre.tree().terms()[i0 as int];
    let n0 = pre.tree().terms().len() as int;
    let n1 = mid.tree().terms().len() as int;
    let df = pre.wl().drop_first();
    assert(df.len() == pre.wl().len() - 1);
    assert(forall|k: int| 0 <= k < df.len() ==> #[trigger] df[k] == pre.wl()[k + 1]);
    let v = Derivation::lemma_step_verdict(pre, mid, Option::<usize>::None);
    assert(v == spec_eval(p@));
    assert((mid.tree() == pre.tree() && mid.wl() == df) || Derivation::expansion_of(
        pre,
        mid,
        i0,
    ));
    assert forall|k: int|
        0 <= k < n0 implies #[trigger] mid.tree().terms()[k] == pre.tree().terms()[k] by {
        if mid.tree() != pre.tree() {
            assert(mid.tree().terms().subrange(0, n0)[k] == mid.tree().terms()[k]);
        }
    }
    if v == Some(false) {
        assert(mid.tree() == pre.tree() && mid.wl() == df);
        lemma_eval_decides_sat(p@);
        assert(!sat_of(p@));
        assert(Derivation::reducing_step(pre, mid, mu));
        if sat_of(root) {
            let k = choose|k: int|
                0 <= k < pre.wl().len() && sat_of(
                    #[trigger] pre.tree().terms()[pre.wl()[k] as int]@,
                );
            assert(k != 0);
            assert(mid.wl()[k - 1] == pre.wl()[k]);
            assert(sat_of(mid.tree().terms()[mid.wl()[k - 1] as int]@));
        }
    } else {
        assert(v == Option::<bool>::None);
        assert(Derivation::expansion_of(pre, mid, i0));
        let cs = mid.tree().terms().subrange(n0, n1);
        assert(cs.len() == n1 - n0);
        assert(pre.heur().expands(p, cs));
        let run = Derivation::<F, Formula, SimplestHeuristic<Formula>>::index_run(n0, n1);
        assert(mid.wl() == df + run);
        assert(forall|k: int| 0 <= k < df.len() ==> #[trigger] (df + run)[k] == df[k]);
        assert(forall|j: int|
            0 <= j < run.len() ==> #[trigger] (df + run)[df.len() + j] == run[j]);
        assert(forall|j: int| 0 <= j < run.len() ==> #[trigger] run[j] == (n0 + j) as usize);
        if cs.len() == 0 {
            assert(no_used_var(p));
            assert(n1 == n0);
            lemma_formula_dom_le_max(p@);
            assert(!sat_of(p@)) by {
                assert forall|w: int| 0 <= w < formula_dom(p@) implies formula_uses(p@, w)
                    == 0 by {
                    assert(p.uses(w) == 0);
                }
                lemma_ground_undetermined_unsat(p@);
            }
            assert(Derivation::reducing_step(pre, mid, mu));
            if sat_of(root) {
                let k = choose|k: int|
                    0 <= k < pre.wl().len() && sat_of(
                        #[trigger] pre.tree().terms()[pre.wl()[k] as int]@,
                    );
                assert(k != 0);
                assert(mid.wl()[k - 1] == df[k - 1]);
                assert(sat_of(mid.tree().terms()[mid.wl()[k - 1] as int]@));
            }
        } else {
            assert(cs.len() == 2);
            let sv = choose|sv: int|
                #[trigger] first_used_var(p, sv) && p.is_split_of(sv, cs[0], cs[1]);
            assert(n1 == n0 + 2);
            lemma_formula_dom_le_max(p@);
            assert(0 <= sv < usize::MAX);
            assert(cs[0]@ == resolved(p@, Term::lit_of(sv, false)));
            assert(cs[1]@ == resolved(p@, Term::lit_of(sv, true)));
            assert(formula_uses(p@, sv) > 0);
            lemma_split_reduces_total_lits(p@, sv);
            assert(mid.tree().terms()[n0] == cs[0] && mid.tree().terms()[n0 + 1] == cs[1]);
            assert forall|j: int|
                n0 <= j < n1 implies mu(#[trigger] mid.tree().terms()[j]) < mu(p) by {
                assert(mid.tree().terms()[j] == cs[j - n0]);
            }
            assert(Derivation::reducing_step(pre, mid, mu));
            lemma_resolved_bounded(p@, Term::lit_of(sv, false));
            lemma_resolved_bounded(p@, Term::lit_of(sv, true));
            assert forall|k: int|
                0 <= k < n1 implies formula_bounded(#[trigger] mid.tree().terms()[k]@) by {
                if k >= n0 {
                    assert(mid.tree().terms()[k] == cs[k - n0]);
                }
            }
            assert forall|k: int|
                0 <= k < n1 && sat_of(#[trigger] mid.tree().terms()[k]@) implies sat_of(
                root,
            ) by {
                if k >= n0 {
                    assert(mid.tree().terms()[k] == cs[k - n0]);
                    if k == n0 {
                        lemma_child_sat_parent(p@, Term::lit_of(sv, false));
                    } else {
                        lemma_child_sat_parent(p@, Term::lit_of(sv, true));
                    }
                }
            }
            if sat_of(root) {
                let k = choose|k: int|
                    0 <= k < pre.wl().len() && sat_of(
                        #[trigger] pre.tree().terms()[pre.wl()[k] as int]@,
                    );
                if k == 0 {
                    lemma_parent_sat_child(p@, sv);
                    if sat_of(cs[0]@) {
                        assert(mid.wl()[df.len() as int] == (n0 as usize));
                        assert(sat_of(
                            mid.tree().terms()[mid.wl()[df.len() as int] as int]@,
                        ));
                    } else {
                        assert(mid.wl()[df.len() as int + 1] == ((n0 + 1) as usize));
                        assert(sat_of(
                            mid.tree().terms()[mid.wl()[df.len() as int + 1] as int]@,
                        ));
                    }
                } else {
                    assert(mid.wl()[k - 1] == df[k - 1]);
                    assert(sat_of(mid.tree().terms()[mid.wl()[k - 1] as int]@));
                }
            }
        }
    }
}

/// A matchless run of a satisfiability search keeps the invariant, and its
/// length is bounded by the starting state's total weight: the search
/// always resolves within that many steps.
proof fn lemma_search_run<F: Fn(&Formula) -> Option<bool>>(
    pre: Search<F>,
    post: Search<F>,
    m: nat,
    root: Seq<Seq<Term>>,
)
    requires
        pre.wf(),
        eval_classifier(pre.qf()),
        Derivation::runs(pre, post, m),
        searching_inv(pre, root),
        pre.tree().terms().len() + 2 * Derivation::potential(pre, lits_measure()) + 2
            <= usize::MAX,
    ensures
        post.wf(),
        post.qf() == pre.qf(),
        searching_inv(post, root),
        m <= Derivation::potential(pre, lits_measure()),
    decreases m,
{
    if m != 0 {
        let mid = choose|mid: Search<F>|
            #[trigger] Derivation::step_rel(pre, mid, Option::<usize>::None)
                && Derivation::runs(mid, post, (m - 1) as nat);
        lemma_search_step(pre, mid, root);
        Derivation::lemma_reducing_step_decreases(pre, mid, lits_measure());
        assert(mid.tree().terms().len() <= pre.tree().terms().len() + 2);
        lemma_search_run(mid, post, (m - 1) as nat, root);
    }
}

/// The formula's variables are representable indices and its full split
/// tree is machine-bounded: true of every formula whose literal count is
/// below the machine word's width, hence of every formula a real machine
/// can hold.
pub open spec fn tractable(f: Seq<Seq<Term>>) -> bool {
    &&& formula_bounded(f)
    &&& 2 * vstd::arithmetic::power2::pow2(total_lits(f) + 1) + 1 <= usize::MAX
}

/// A match reported by a search that started from a state within the
/// machine bound witnesses a satisfiable root.
proof fn lemma_search_match_sound<F: Fn(&Formula) -> Option<bool>>(
    pre: Search<F>,
    post: Search<F>,
    root: Seq<Seq<Term>>,
)
    requires
        pre.wf(),
        eval_classifier(pre.qf()),
        searching_inv(pre, root),
        pre.tree().terms().len() + 2 * Derivation::potential(pre, lits_measure()) + 2
            <= usize::MAX,
        exists|m: nat, mid: Search<F>, i: usize|
            #[trigger] Derivation::runs(pre, mid, m) && #[trigger] Derivation::step_rel(
                mid,
                post,
                Some(i),
            ),
    ensures
        sat_of(root),
{
    let (m, mid, i) = choose|m: nat, mid: Search<F>, i: usize|
        #[trigger] Derivation::runs(pre, mid, m) && #[trigger] Derivation::step_rel(
            mid,
            post,
            Some(i),
        );
    lemma_search_run(pre, mid, m, root);
    let v = Derivation::lemma_step_verdict(mid, post, Some(i));
    assert(v == Some(true));
    let front = mid.tree().terms()[mid.wl()[0] as int];
    assert(call_ensures(pre.qf(), (&front,), Some(true)));
    assert(Some(true) == spec_eval(front@));
    lemma_eval_decides_sat(front@);
    assert((mid.wl()[0] as int) < mid.tree().terms().len());
    assert(sat_of(root));
}

/// A disjunction of zero or more literals.  An empty clause is false.
#[derive(Debug)]
pub struct Clause {
    /// The literals disjuncted together.
    terms: Vec<Term>,
}

impl View for Clause {
    type V = Seq<Term>;

    closed spec fn view(&self) -> Seq<Term> {
        self.terms@
    }
}

impl Clause {
    /// Build a clause from its literals.
    pub fn new(terms: Vec<Term>) -> (r: Clause)
        ensures
            r@ == terms@,
    {
        Clause { terms }
    }

    /// Number of literals in this clause.
    pub fn len(&self) -> (n: usize)
        ensures
            n == self@.len(),
    {
        self.terms.len()
    }

    /// One past the greatest variable occurring in this clause.
    pub fn domain(&self) -> (d: usize)
        ensures
            d == clause_dom(self@),
    {
        let mut d: usize = 0;
        let mut i: usize = 0;
        while i < self.terms.len()
            invariant
                i <= self@.len(),
                self@.len() == self.terms@.len(),
                d == clause_dom(self@.take(i as int)),
            decreases self@.len() - i,
        {
            let t = self.terms[i];
            let s = if t.var() == usize::MAX {
                usize::MAX
            } else {
                t.var() + 1
            };
            if s > d {
                d = s;
            }
            proof {
                assert(self@.take(i as int + 1).drop_last() =~= self@.take(i as int));
                assert(self@.take(i as int + 1).last() == self@[i as int]);
            }
            i += 1;
        }
        proof {
            assert(self@.take(self@.len() as int) =~= self@);
        }
        d
    }

    /// Number of uses of variable `var` within this clause.
    pub fn num_uses(&self, var: usize) -> (r: usize)
        ensures
            r == clause_uses(self@, var as int),
    {
        let mut r: usize = 0;
        let mut i: usize = 0;
        while i < self.terms.len()
            invariant
                i <= self@.len(),
                self@.len() == self.terms@.len(),
                r <= i,
                r == clause_uses(self@.take(i as int), var as int),
            decreases self@.len() - i,
        {
            let t = self.terms[i];
            if t.var() == var {
                r += 1;
            }
            proof {
                assert(self@.take(i as int + 1).drop_last() =~= self@.take(i as int));
                assert(self@.take(i as int + 1).last() == self@[i as int]);
            }
            i += 1;
        }
        proof {
            assert(self@.take(self@.len() as int) =~= self@);
        }
        r
    }

    /// Resolve literal `lit` to true within this clause.  If the clause
    /// holds `lit` it is satisfied outright and `None` is returned;
    /// otherwise every occurrence of the opposite literal, now false, is
    /// removed and the remaining clause is returned.
    pub fn substitute(&self, lit: Term) -> (r: Option<Clause>)
        ensures
            match r {
                Some(c) => !self@.contains(lit) && c@ == remove_lit(self@, lit.flip()),
                None => self@.contains(lit),
            },
    {
        let mut i: usize = 0;
        while i < self.terms.len()
            invariant
                i <= self@.len(),
                self@.len() == self.terms@.len(),
                forall|j: int| 0 <= j < i ==> #[trigger] self@[j] != lit,
            decreases self@.len() - i,
        {
            if self.terms[i] == lit {
                proof {
                    assert(self@[i as int] == lit);
                }
                return None;
            }
            i += 1;
        }
        let nlit = lit.negate();
        let mut out: Vec<Term> = Vec::new();
        let mut j: usize = 0;
        while j < self.terms.len()
            invariant
                j <= self@.len(),
                self@.len() == self.terms@.len(),
                nlit == lit.flip(),
                out@ == remove_lit(self@.take(j as int), lit.flip()),
            decreases self@.len() - j,
        {
            let t = self.terms[j];
            if t != nlit {
                out.push(t);
            }
            proof {
                assert(self@.take(j as int + 1).drop_last() =~= self@.take(j as int));
                assert(self@.take(j as int + 1).last() == self@[j as int]);
                if self@[j as int] == lit.flip() {
                    assert(out@ =~= remove_lit(self@.take(j as int + 1), lit.flip()));
                } else {
                    assert(out@ =~= remove_lit(self@.take(j as int + 1), lit.flip()));
                }
            }
            j += 1;
        }
        proof {
            assert(self@.take(self@.len() as int) =~= self@);
            assert(!self@.contains(lit)) by {
                if self@.contains(lit) {
                    let k = choose|k: int| 0 <= k < self@.len() && self@[k] == lit;
                }
            }
        }
        Some(Clause { terms: out })
    }

    /// Decide whether this clause holds exactly the same literals, in the
    /// same order, as `other`.
    pub fn eq_clause(&self, other: &Clause) -> (r: bool)
        ensures
            r == (self@ == other@),
    {
        if self.terms.len() != other.terms.len() {
            return false;
        }
        let mut i: usize = 0;
        while i < self.terms.len()
            invariant
                i <= self@.len(),
                self@.len() == self.terms@.len(),
                other@.len() == other.terms@.len(),
                self@.len() == other@.len(),
                forall|j: int| 0 <= j < i ==> #[trigger] self@[j] == other@[j],
            decreases self@.len() - i,
        {
            if self.terms[i] != other.terms[i] {
                proof {
                    assert(self@[i as int] != other@[i as int]);
                }
                return false;
            }
            i += 1;
        }
        proof {
            assert(self@ =~= other@);
        }
        true
    }

    /// Produce a clause equal by value to this one.
    pub fn duplicate(&self) -> (r: Clause)
        ensures
            r@ == self@,
    {
        let mut ts: Vec<Term> = Vec::new();
        let mut i: usize = 0;
        while i < self.terms.len()
            invariant
                i <= self@.len(),
                self@.len() == self.terms@.len(),
                ts@ == self@.take(i as int),
            decreases self@.len() - i,
        {
            ts.push(self.terms[i]);
            proof {
                assert(ts@ =~= self@.take(i as int + 1));
            }
            i += 1;
        }
        proof {
            assert(self@.take(self@.len() as int) =~= self@);
        }
        Clause { terms: ts }
    }
}

/// A formula in conjunctive normal form: zero or more clauses conjuncted
/// together.  An empty formula is true.
#[derive(Debug)]
pub struct Formula {
    /// The clauses conjuncted together.
    clauses: Vec<Clause>,
}

impl View for Formula {
    type V = Seq<Seq<Term>>;

    closed spec fn view(&self) -> Seq<Seq<Term>> {
        self.clauses@.map_values(|c: Clause| c@)
    }
}

impl Formula {
    /// Check whether the formula is already known true or false; `None`
    /// means it is neither at this stage.
    pub fn eval(&self) -> (r: Option<bool>)
        ensures
            r == spec_eval(self@),
    {
        if self.clauses.len() == 0 {
            Some(true)
        } else if self.clauses.len() == 1 && self.clauses[0].len() == 0 {
            proof {
                assert(self@[0] == self.clauses@[0]@);
            }
            Some(false)
        } else {
            proof {
                if self@.len() == 1 {
                    assert(self@[0] == self.clauses@[0]@);
                }
            }
            None
        }
    }

    /// Resolve literal `lit` to true within every clause: clauses the
    /// literal satisfies are dropped, and the opposite literal is removed
    /// from the rest.  If some clause thereby becomes empty the whole
    /// formula is false and collapses to that single empty clause.  Either
    /// way no clause of the result speaks of the literal's variable.
    pub fn substitute(&self, lit: Term) -> (r: Formula)
        ensures
            forall|k: int| 0 <= k < r@.len() ==> clause_clean(#[trigger] r@[k], lit.var_spec()),
            r@ == resolved(self@, lit),
    {
        let mut clauses: Vec<Clause> = Vec::new();
        let mut i: usize = 0;
        while i < self.clauses.len()
            invariant
                i <= self.clauses@.len(),
                self@.len() == self.clauses@.len(),
                forall|k: int|
                    0 <= k < clauses@.len() ==> clause_clean(
                        #[trigger] clauses@[k]@,
                        lit.var_spec(),
                    ),
                forall|k: int| 0 <= k < i ==> !clause_falsified(#[trigger] self@[k], lit),
                clauses@.map_values(|c: Clause| c@) == subst_keep(self@.take(i as int), lit),
            decreases self.clauses@.len() - i,
        {
            proof {
                assert(self@[i as int] == self.clauses@[i as int]@);
                assert(self@.take(i as int + 1).drop_last() =~= self@.take(i as int));
                assert(self@.take(i as int + 1).last() == self@[i as int]);
            }
            match self.clauses[i].substitute(lit) {
                Some(n) => {
                    proof {
                        lemma_substituted_clause_clean(self.clauses@[i as int]@, lit);
                    }
                    if n.len() == 0 {
                        let ghost nv = n@;
                        let mut only: Vec<Clause> = Vec::new();
                        only.push(n);
                        let out = Formula { clauses: only };
                        proof {
                            assert(clause_falsified(self@[i as int], lit));
                            assert(formula_falsified(self@, lit));
                            assert(out@.len() == 1 && out@[0] == nv);
                            assert(nv =~= Seq::<Term>::empty());
                            assert(out@ =~= seq![Seq::<Term>::empty()]);
                        }
                        return out;
                    }
                    let ghost nv = n@;
                    clauses.push(n);
                    proof {
                        assert(clauses@.map_values(|c: Clause| c@) =~= subst_keep(
                            self@.take(i as int),
                            lit,
                        ) + seq![nv]);
                    }
                },
                None => {},
            }
            i += 1;
        }
        let out = Formula { clauses };
        proof {
            assert(self@.take(self@.len() as int) =~= self@);
            assert(!formula_falsified(self@, lit)) by {
                if formula_falsified(self@, lit) {
                    let k = choose|k: int|
                        0 <= k < self@.len() && clause_falsified(#[trigger] self@[k], lit);
                }
            }
            assert(forall|k: int|
                0 <= k < out@.len() ==> out@[k] == #[trigger] out.clauses@[k]@);
            assert(out@ =~= out.clauses@.map_values(|c: Clause| c@));
        }
        out
    }

    /// Use the derivation engine to decide whether this formula is
    /// satisfiable, by exhaustive case-splitting on its variables.  For
    /// every tractable formula — one whose literal count is below the
    /// machine word's width, so its search provably resolves within the
    /// enumerator's step bound — the verdict is exactly satisfiability:
    /// true iff some assignment of the variables makes every clause hold.
    /// A formula already known true cannot miss even beyond that bound.
    pub fn sat(self) -> (r: bool)
        ensures
            spec_eval(self@) == Some(true) ==> r,
            tractable(self@) ==> (r <==> sat_of(self@)),
    {
        let ghost f0 = self;
        let query = |f: &Formula| -> (res: Option<bool>)
            ensures
                res == spec_eval(f@),
            { f.eval() };
        proof {
            assert(forall|t: &Formula| call_requires(query, (t,)));
        }
        let mut d = Derivation::new(self, query);
        let ghost before = d;
        proof {
            assert(eval_classifier(before.qf())) by {
                assert forall|t: &Formula, vv: Option<bool>| #[trigger] call_ensures(
                    before.qf(),
                    (t,),
                    vv,
                ) implies vv == spec_eval(t@) by {
                    assert(call_ensures(query, (t,), vv));
                }
            }
            if tractable(f0@) {
                assert(before.tree().terms()[0] == f0);
                assert(before.wl()[0] == 0usize && before.wl().len() == 1);
                assert(searching_inv(before, f0@)) by {
                    if sat_of(f0@) {
                        assert(sat_of(before.tree().terms()[before.wl()[0] as int]@));
                    }
                }
                let mu = lits_measure();
                let w = Derivation::weights(before, mu);
                assert(w.len() == 1);
                assert(mu(f0) == total_lits(f0@));
                assert(w[0] == (vstd::arithmetic::power2::pow2(total_lits(f0@) + 1) - 1) as nat);
                assert(w.drop_first().len() == 0);
                assert(crate::derivation::sum_weights(w.drop_first()) == 0);
                assert(crate::derivation::sum_weights(w) == w[0]
                    + crate::derivation::sum_weights(w.drop_first()));
                vstd::arithmetic::power2::lemma_pow2_pos(total_lits(f0@) + 1);
                assert(Derivation::potential(before, mu)
                    == vstd::arithmetic::power2::pow2(total_lits(f0@) + 1) - 1);
                assert(before.tree().terms().len() + 2 * Derivation::potential(before, mu) + 2
                    <= usize::MAX);
            }
        }
        match d.next() {
            Some(_) => {
                proof {
                    if tractable(f0@) {
                        lemma_search_match_sound(before, d, f0@);
                    }
                }
                true
            },
            None => {
                proof {
                    if spec_eval(f0@) == Some(true) {
                        assert(exists|m: nat|
                            #[trigger] Derivation::runs(before, d, m) && (d.wl().len() == 0 || m
                                >= usize::MAX));
                        let m = choose|m: nat|
                            #[trigger] Derivation::runs(before, d, m) && (d.wl().len() == 0 || m
                                >= usize::MAX);
                        if m == 0 {
                            Derivation::lemma_runs_zero(before, d);
                            assert(d == before);
                            assert(before.wl() == seq![0usize]);
                            assert(d.wl().len() == 1);
                        } else {
                            let v = Derivation::lemma_run_first_verdict(before, d, m);
                            assert(before.wl()[0] == 0);
                            assert(before.tree().terms()[0] == f0);
                            assert(v == spec_eval(f0@));
                        }
                        assert(false);
                    }
                    if tractable(f0@) {
                        let mrun = choose|mrun: nat|
                            #[trigger] Derivation::runs(before, d, mrun) && (d.wl().len() == 0
                                || mrun >= usize::MAX);
                        lemma_search_run(before, d, mrun, f0@);
                        assert(mrun < usize::MAX);
                        assert(d.wl().len() == 0);
                        if sat_of(f0@) {
                            let k = choose|k: int|
                                0 <= k < d.wl().len() && sat_of(
                                    #[trigger] d.tree().terms()[d.wl()[k] as int]@,
                                );
                            assert(false);
                        }
                    }
                }
                false
            },
        }
    }
}

impl From<Vec<Vec<Term>>> for Formula {
    /// Build a formula from its clauses, each given as the literals it
    /// disjunct.
    fn from(clauses: Vec<Vec<Term>>) -> (r: Formula)
        ensures
            r@.len() == clauses@.len(),
            forall|k: int| 0 <= k < clauses@.len() ==> r@[k] == #[trigger] clauses@[k]@,
    {
        let mut out: Vec<Clause> = Vec::new();
        let mut i: usize = 0;
        while i < clauses.len()
            invariant
                i <= clauses@.len(),
                out@.len() == i,
                forall|k: int| 0 <= k < i ==> out@[k]@ == #[trigger] clauses@[k]@,
            decreases clauses@.len() - i,
        {
            let c = &clauses[i];
            let mut ts: Vec<Term> = Vec::new();
            let mut j: usize = 0;
            while j < c.len()
                invariant
                    j <= c@.len(),
                    ts@ == c@.take(j as int),
                decreases c@.len() - j,
            {
                ts.push(c[j]);
                proof {
                    assert(ts@ =~= c@.take(j as int + 1));
                }
                j += 1;
            }
            proof {
                assert(c@.take(c@.len() as int) =~= c@);
            }
            out.push(Clause { terms: ts });
            i += 1;
        }
        let r = Formula { clauses: out };
        proof {
            assert(forall|k: int|
                0 <= k < r@.len() ==> r@[k] == #[trigger] r.clauses@[k]@);
        }
        r
    }
}

impl vstd::std_specs::convert::FromSpecImpl<Vec<Vec<Term>>> for Formula {
    open spec fn obeys_from_spec() -> bool {
        false
    }

    open spec fn from_spec(v: Vec<Vec<Term>>) -> Formula {
        vstd::pervasive::arbitrary()
    }
}

impl DerivationTerm for Formula {
    /// Two formulas are equal when they hold the same clauses, in order.
    open spec fn equiv(&self, other: &Self) -> bool {
        self@ == other@
    }

    /// One past the greatest variable occurring in the formula.
    open spec fn dom(&self) -> nat {
        formula_dom(self@) as nat
    }

    /// How often variable `var` occurs, saturating at the greatest machine
    /// word.
    open spec fn uses(&self, var: int) -> nat {
        formula_uses(self@, var)
    }

    /// `l` holds the clauses surviving the positive resolution of `var`,
    /// `r` those surviving the negative one (a falsified side collapsing
    /// to the single empty clause).
    open spec fn is_split_of(&self, var: int, l: Self, r: Self) -> bool {
        &&& l@ == resolved(self@, Term::lit_of(var, false))
        &&& r@ == resolved(self@, Term::lit_of(var, true))
    }

    fn eq_term(&self, other: &Self) -> (r: bool) {
        if self.clauses.len() != other.clauses.len() {
            proof {
                assert(self@.len() != other@.len());
            }
            return false;
        }
        let mut i: usize = 0;
        while i < self.clauses.len()
            invariant
                i <= self.clauses@.len(),
                self@.len() == self.clauses@.len(),
                other@.len() == other.clauses@.len(),
                self.clauses@.len() == other.clauses@.len(),
                forall|k: int| 0 <= k < i ==> #[trigger] self@[k] == other@[k],
            decreases self.clauses@.len() - i,
        {
            if !self.clauses[i].eq_clause(&other.clauses[i]) {
                proof {
                    assert(self@[i as int] == self.clauses@[i as int]@);
                    assert(other@[i as int] == other.clauses@[i as int]@);
                }
                return false;
            }
            proof {
                assert(self@[i as int] == self.clauses@[i as int]@);
                assert(other@[i as int] == other.clauses@[i as int]@);
            }
            i += 1;
        }
        proof {
            assert(self@ =~= other@);
        }
        true
    }

    fn domain(&self) -> (n: usize) {
        let mut d: usize = 0;
        let mut i: usize = 0;
        while i < self.clauses.len()
            invariant
                i <= self.clauses@.len(),
                self@.len() == self.clauses@.len(),
                d == formula_dom(self@.take(i as int)),
            decreases self.clauses@.len() - i,
        {
            let cd = self.clauses[i].domain();
            if cd > d {
                d = cd;
            }
            proof {
                assert(self@.take(i as int + 1).drop_last() =~= self@.take(i as int));
                assert(self@.take(i as int + 1).last() == self@[i as int]);
                assert(self@[i as int] == self.clauses@[i as int]@);
            }
            i += 1;
        }
        proof {
            assert(self@.take(self@.len() as int) =~= self@);
            lemma_formula_dom_le_max(self@);
        }
        d
    }

    fn num_uses(&self, var: usize) -> (r: usize) {
        let mut r: usize = 0;
        let mut i: usize = 0;
        while i < self.clauses.len()
            invariant
                i <= self.clauses@.len(),
                self@.len() == self.clauses@.len(),
                r == formula_uses(self@.take(i as int), var as int),
            decreases self.clauses@.len() - i,
        {
            let cu = self.clauses[i].num_uses(var);
            if cu > usize::MAX - r {
                r = usize::MAX;
            } else {
                r = r + cu;
            }
            proof {
                assert(self@.take(i as int + 1).drop_last() =~= self@.take(i as int));
                assert(self@.take(i as int + 1).last() == self@[i as int]);
                assert(self@[i as int] == self.clauses@[i as int]@);
            }
            i += 1;
        }
        proof {
            assert(self@.take(self@.len() as int) =~= self@);
        }
        r
    }

    /// The positive child resolves `var` true, the negative child resolves
    /// it false.
    fn split(&self, var: usize) -> (r: (Self, Self))
        ensures
            r.0@ == resolved(self@, Term::lit_of(var as int, false)),
            r.1@ == resolved(self@, Term::lit_of(var as int, true)),
    {
        proof {
            lemma_formula_dom_le_max(self@);
        }
        let lit = Term::new(var);
        let nlit = lit.negate();
        proof {
            assert(lit == Term::lit_of(var as int, false));
            assert(nlit == Term::lit_of(var as int, true));
        }
        let pos = self.substitute(lit);
        let neg = self.substitute(nlit);
        proof {
            lemma_clean_formula_uses_zero(pos@, var as int);
            lemma_clean_formula_uses_zero(neg@, var as int);
        }
        (pos, neg)
    }

    fn duplicate(&self) -> (r: Self) {
        let mut out: Vec<Clause> = Vec::new();
        let mut i: usize = 0;
        while i < self.clauses.len()
            invariant
                i <= self.clauses@.len(),
                self@.len() == self.clauses@.len(),
                out@.len() == i,
                forall|k: int| 0 <= k < i ==> out@[k]@ == #[trigger] self@[k],
            decreases self.clauses@.len() - i,
        {
            let c = self.clauses[i].duplicate();
            proof {
                assert(self@[i as int] == self.clauses@[i as int]@);
            }
            out.push(c);
            i += 1;
        }
        let r = Formula { clauses: out };
        proof {
            assert(r@ =~= self@);
        }
        r
    }
}

} // verus!
