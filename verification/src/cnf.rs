//! Semantics of formulas in conjunctive normal form.
//!
//! A formula is a sequence of clauses, a clause a sequence of literals, and
//! an assignment a sequence of truth values indexed by variable. A literal
//! whose variable lies beyond the end of an assignment does not hold in it.

use crate::lit::Lit;
use vstd::prelude::*;

verus! {

/// The literal `l` is true under `m`.
pub open spec fn lit_holds(l: Lit, m: Seq<bool>) -> bool {
    l.var < m.len() && m[l.var as int] == l.val
}

/// Some literal of `c` is true under `m`.
pub open spec fn clause_holds(c: Seq<Lit>, m: Seq<bool>) -> bool {
    exists|i: int| 0 <= i < c.len() && lit_holds(#[trigger] c[i], m)
}

/// Every clause of `f` holds under `m`.
pub open spec fn formula_holds(f: Seq<Seq<Lit>>, m: Seq<bool>) -> bool {
    forall|k: int| 0 <= k < f.len() ==> clause_holds(#[trigger] f[k], m)
}

/// Some assignment satisfies `f`.
pub open spec fn satisfiable(f: Seq<Seq<Lit>>) -> bool {
    exists|m: Seq<bool>| formula_holds(f, m)
}

/// Every assignment that satisfies `f` satisfies the clause `c`.
pub open spec fn entails_clause(f: Seq<Seq<Lit>>, c: Seq<Lit>) -> bool {
    forall|m: Seq<bool>| #[trigger] formula_holds(f, m) ==> clause_holds(c, m)
}

/// Every assignment that satisfies `f` makes the literal `l` true.
pub open spec fn entails_lit(f: Seq<Seq<Lit>>, l: Lit) -> bool {
    forall|m: Seq<bool>| #[trigger] formula_holds(f, m) ==> lit_holds(l, m)
}

/// The clause is not empty and all its literals are `l`.
pub open spec fn is_unit(c: Seq<Lit>, l: Lit) -> bool {
    c.len() > 0 && forall|i: int| 0 <= i < c.len() ==> c[i] == l
}

/// The clause holds a variable in both polarities.
pub open spec fn is_tautology(c: Seq<Lit>) -> bool {
    exists|i: int, j: int|
        0 <= i < c.len() && 0 <= j < c.len() && #[trigger] c[i] == (#[trigger] c[j]).neg()
}

/// Some clause of `f` is a unit clause on `l`.
pub open spec fn has_unit(f: Seq<Seq<Lit>>, l: Lit) -> bool {
    exists|k: int| 0 <= k < f.len() && is_unit(#[trigger] f[k], l)
}

/// Some clause of `f` is empty.
pub open spec fn has_empty(f: Seq<Seq<Lit>>) -> bool {
    exists|k: int| 0 <= k < f.len() && (#[trigger] f[k]).len() == 0
}

/// The formula holds an empty clause or two unit clauses on complementary
/// literals: what clause insertion alone detects.
pub open spec fn trivially_unsat(f: Seq<Seq<Lit>>) -> bool {
    has_empty(f) || exists|l: Lit| #[trigger] has_unit(f, l) && has_unit(f, l.neg())
}

/// The least number of variables that covers every literal of `c`.
pub open spec fn vars_needed(c: Seq<Lit>) -> nat
    decreases c.len(),
{
    if c.len() == 0 {
        0
    } else {
        let rest = vars_needed(c.drop_last());
        if c.last().var < rest { rest } else { (c.last().var + 1) as nat }
    }
}

/// The literals of `c`, each once, in the order of their first occurrence.
pub open spec fn distinct(c: Seq<Lit>) -> Seq<Lit>
    decreases c.len(),
{
    if c.len() == 0 {
        Seq::empty()
    } else {
        let d = distinct(c.drop_last());
        if d.contains(c.last()) { d } else { d.push(c.last()) }
    }
}

/// Every literal of `a` occurs in `b`.
pub open spec fn lits_within(a: Seq<Lit>, b: Seq<Lit>) -> bool {
    forall|i: int| 0 <= i < a.len() ==> b.contains(#[trigger] a[i])
}

/// `c` with the literals at `i` and `j` exchanged.
pub open spec fn swapped(c: Seq<Lit>, i: int, j: int) -> Seq<Lit> {
    c.update(i, c[j]).update(j, c[i])
}

/// `vars_needed(c)` covers every literal of `c`, and some literal of a
/// clause that is not empty needs that many.
pub proof fn lemma_vars_needed(c: Seq<Lit>)
    ensures
        forall|i: int| 0 <= i < c.len() ==> (#[trigger] c[i]).var < vars_needed(c),
        c.len() > 0 ==> exists|i: int| 0 <= i < c.len() && (#[trigger] c[i]).var + 1 == vars_needed(c),
        c.len() == 0 ==> vars_needed(c) == 0,
    decreases c.len(),
{
    if c.len() > 0 {
        let d = c.drop_last();
        lemma_vars_needed(d);
        assert forall|i: int| 0 <= i < c.len() implies (#[trigger] c[i]).var < vars_needed(c) by {
            if i < d.len() {
                assert(d[i] == c[i]);
            }
        }
        if c.last().var < vars_needed(d) {
            let i = choose|i: int| 0 <= i < d.len() && (#[trigger] d[i]).var + 1 == vars_needed(d);
            assert(c[i] == d[i]);
        } else {
            assert(c[c.len() - 1] == c.last());
        }
    }
}

/// A clause that holds keeps holding when literals are added, reordered or
/// repeated.
pub proof fn lemma_within_holds(a: Seq<Lit>, b: Seq<Lit>, m: Seq<bool>)
    requires
        lits_within(a, b),
        clause_holds(a, m),
    ensures
        clause_holds(b, m),
{
    let i = choose|i: int| 0 <= i < a.len() && lit_holds(#[trigger] a[i], m);
    assert(b.contains(a[i]));
    let j = choose|j: int| 0 <= j < b.len() && b[j] == a[i];
    assert(lit_holds(b[j], m));
}

/// What follows from a formula still does when literals are added,
/// reordered or repeated.
pub proof fn lemma_within_entails(f: Seq<Seq<Lit>>, a: Seq<Lit>, b: Seq<Lit>)
    requires
        lits_within(a, b),
        entails_clause(f, a),
    ensures
        entails_clause(f, b),
{
    assert forall|m: Seq<bool>| #[trigger] formula_holds(f, m) implies clause_holds(b, m) by {
        lemma_within_holds(a, b, m);
    }
}

/// Exchanging two literals changes neither the length of a clause nor the
/// literals that occur in it.
pub proof fn lemma_swapped_within(c: Seq<Lit>, i: int, j: int)
    requires
        0 <= i < c.len(),
        0 <= j < c.len(),
    ensures
        lits_within(c, swapped(c, i, j)),
        lits_within(swapped(c, i, j), c),
        swapped(c, i, j).len() == c.len(),
{
    let d = swapped(c, i, j);
    assert forall|k: int| 0 <= k < c.len() implies d.contains(#[trigger] c[k]) by {
        if k == i {
            assert(d[j] == c[k]);
        } else if k == j {
            assert(d[i] == c[k]);
        } else {
            assert(d[k] == c[k]);
        }
    }
    assert forall|k: int| 0 <= k < d.len() implies c.contains(#[trigger] d[k]) by {
        if k == i {
            assert(c[j] == d[k]);
        } else if k == j {
            assert(c[i] == d[k]);
        } else {
            assert(c[k] == d[k]);
        }
    }
}

/// An assignment that satisfies a clause still does after it is made longer.
pub proof fn lemma_extend_holds(c: Seq<Lit>, m: Seq<bool>, m2: Seq<bool>)
    requires
        m.len() <= m2.len(),
        forall|v: int| 0 <= v < m.len() ==> m[v] == m2[v],
        clause_holds(c, m),
    ensures
        clause_holds(c, m2),
{
    let i = choose|i: int| 0 <= i < c.len() && lit_holds(#[trigger] c[i], m);
    assert(lit_holds(c[i], m2));
}

/// An assignment that satisfies a formula still does after it is made
/// longer.
pub proof fn lemma_extend_formula(f: Seq<Seq<Lit>>, m: Seq<bool>, m2: Seq<bool>)
    requires
        m.len() <= m2.len(),
        forall|v: int| 0 <= v < m.len() ==> m[v] == m2[v],
        formula_holds(f, m),
    ensures
        formula_holds(f, m2),
{
    assert forall|k: int| 0 <= k < f.len() implies clause_holds(#[trigger] f[k], m2) by {
        lemma_extend_holds(f[k], m, m2);
    }
}

/// A tautology holds under every assignment that covers its variables.
pub proof fn lemma_tautology_holds(c: Seq<Lit>, m: Seq<bool>)
    requires
        is_tautology(c),
        forall|i: int| 0 <= i < c.len() ==> (#[trigger] c[i]).var < m.len(),
    ensures
        clause_holds(c, m),
{
    let (i, j) = choose|i: int, j: int|
        0 <= i < c.len() && 0 <= j < c.len() && #[trigger] c[i] == (#[trigger] c[j]).neg();
    if lit_holds(c[i], m) {
    } else {
        assert(lit_holds(c[j], m));
    }
}

/// Inserting a clause a second time changes neither the assignments that
/// satisfy the formula nor whether one exists.
pub proof fn lemma_insert_twice(f: Seq<Seq<Lit>>, c: Seq<Lit>)
    ensures
        forall|m: Seq<bool>| formula_holds(f.push(c).push(c), m) <==> formula_holds(f.push(c), m),
        satisfiable(f.push(c).push(c)) <==> satisfiable(f.push(c)),
{
    let f1 = f.push(c);
    let f2 = f1.push(c);
    assert forall|m: Seq<bool>| formula_holds(f2, m) <==> formula_holds(f1, m) by {
        if formula_holds(f2, m) {
            assert forall|k: int| 0 <= k < f1.len() implies clause_holds(#[trigger] f1[k], m) by {
                assert(f2[k] == f1[k]);
            }
        }
        if formula_holds(f1, m) {
            assert forall|k: int| 0 <= k < f2.len() implies clause_holds(#[trigger] f2[k], m) by {
                if k < f1.len() {
                    assert(f2[k] == f1[k]);
                } else {
                    assert(f2[k] == f1[f.len() as int]);
                }
            }
        }
    }
    if satisfiable(f2) {
        let m = choose|m: Seq<bool>| formula_holds(f2, m);
        assert(formula_holds(f1, m));
    }
    if satisfiable(f1) {
        let m = choose|m: Seq<bool>| formula_holds(f1, m);
        assert(formula_holds(f2, m));
    }
}

/// Inserting a clause that holds a variable in both polarities does not
/// change whether the formula can be satisfied.
pub proof fn lemma_insert_tautology(f: Seq<Seq<Lit>>, c: Seq<Lit>)
    requires
        is_tautology(c),
    ensures
        satisfiable(f.push(c)) <==> satisfiable(f),
{
    let f1 = f.push(c);
    if satisfiable(f1) {
        let m = choose|m: Seq<bool>| formula_holds(f1, m);
        assert forall|k: int| 0 <= k < f.len() implies clause_holds(#[trigger] f[k], m) by {
            assert(f1[k] == f[k]);
        }
        assert(formula_holds(f, m));
    }
    if satisfiable(f) {
        let m = choose|m: Seq<bool>| formula_holds(f, m);
        let need = vars_needed(c);
        let m2 = Seq::new(m.len() + need, |v: int| if v < m.len() { m[v] } else { false });
        lemma_vars_needed(c);
        lemma_extend_formula(f, m, m2);
        lemma_tautology_holds(c, m2);
        assert forall|k: int| 0 <= k < f1.len() implies clause_holds(#[trigger] f1[k], m2) by {
            if k < f.len() {
                assert(f1[k] == f[k]);
            } else {
                assert(f1[k] == c);
            }
        }
        assert(formula_holds(f1, m2));
    }
}

/// What follows from a formula still follows after a clause is inserted,
/// and the longer formula is no easier to satisfy.
pub proof fn lemma_push_entails(f: Seq<Seq<Lit>>, x: Seq<Lit>)
    ensures
        forall|m: Seq<bool>| formula_holds(f.push(x), m) <==> formula_holds(f, m) && clause_holds(x, m),
        forall|c: Seq<Lit>| entails_clause(f, c) ==> #[trigger] entails_clause(f.push(x), c),
        forall|l: Lit| entails_lit(f, l) ==> #[trigger] entails_lit(f.push(x), l),
        satisfiable(f.push(x)) ==> satisfiable(f),
        entails_clause(f.push(x), x),
{
    let g = f.push(x);
    assert forall|m: Seq<bool>| formula_holds(g, m) <==> formula_holds(f, m) && clause_holds(x, m) by {
        if formula_holds(g, m) {
            assert forall|k: int| 0 <= k < f.len() implies clause_holds(#[trigger] f[k], m) by {
                assert(g[k] == f[k]);
            }
            assert(g[f.len() as int] == x);
        }
        if formula_holds(f, m) && clause_holds(x, m) {
            assert forall|k: int| 0 <= k < g.len() implies clause_holds(#[trigger] g[k], m) by {
                if k < f.len() {
                    assert(g[k] == f[k]);
                }
            }
        }
    }
    assert forall|c: Seq<Lit>| entails_clause(f, c) implies #[trigger] entails_clause(g, c) by {
        assert forall|m: Seq<bool>| #[trigger] formula_holds(g, m) implies clause_holds(c, m) by {
            assert(formula_holds(f, m));
        }
    }
    assert forall|l: Lit| entails_lit(f, l) implies #[trigger] entails_lit(g, l) by {
        assert forall|m: Seq<bool>| #[trigger] formula_holds(g, m) implies lit_holds(l, m) by {
            assert(formula_holds(f, m));
        }
    }
    if satisfiable(g) {
        let m = choose|m: Seq<bool>| formula_holds(g, m);
        assert(formula_holds(f, m));
    }
    assert forall|m: Seq<bool>| #[trigger] formula_holds(g, m) implies clause_holds(x, m) by {}
}

/// The unit and empty clauses of a formula after a clause is inserted.
pub proof fn lemma_push_units(f: Seq<Seq<Lit>>, x: Seq<Lit>)
    ensures
        forall|l: Lit| #[trigger] has_unit(f.push(x), l) <==> has_unit(f, l) || is_unit(x, l),
        has_empty(f.push(x)) <==> has_empty(f) || x.len() == 0,
{
    let g = f.push(x);
    assert forall|l: Lit| #[trigger] has_unit(g, l) <==> has_unit(f, l) || is_unit(x, l) by {
        if has_unit(g, l) {
            let k = choose|k: int| 0 <= k < g.len() && is_unit(#[trigger] g[k], l);
            if k < f.len() {
                assert(g[k] == f[k]);
            }
        }
        if has_unit(f, l) {
            let k = choose|k: int| 0 <= k < f.len() && is_unit(#[trigger] f[k], l);
            assert(g[k] == f[k]);
        }
        if is_unit(x, l) {
            assert(g[f.len() as int] == x);
        }
    }
    if has_empty(g) {
        let k = choose|k: int| 0 <= k < g.len() && (#[trigger] g[k]).len() == 0;
        if k < f.len() {
            assert(g[k] == f[k]);
        }
    }
    if has_empty(f) {
        let k = choose|k: int| 0 <= k < f.len() && (#[trigger] f[k]).len() == 0;
        assert(g[k] == f[k]);
    }
    if x.len() == 0 {
        assert(g[f.len() as int] == x);
    }
}

/// A formula with an empty clause, or with unit clauses on two
/// complementary literals, has no model.
pub proof fn lemma_trivially_unsat(f: Seq<Seq<Lit>>)
    requires
        trivially_unsat(f),
    ensures
        !satisfiable(f),
{
    if satisfiable(f) {
        let m = choose|m: Seq<bool>| formula_holds(f, m);
        if has_empty(f) {
            let k = choose|k: int| 0 <= k < f.len() && (#[trigger] f[k]).len() == 0;
            assert(clause_holds(f[k], m));
        } else {
            let l = choose|l: Lit| #[trigger] has_unit(f, l) && has_unit(f, l.neg());
            let k1 = choose|k: int| 0 <= k < f.len() && is_unit(#[trigger] f[k], l);
            let k2 = choose|k: int| 0 <= k < f.len() && is_unit(#[trigger] f[k], l.neg());
            assert(clause_holds(f[k1], m));
            assert(clause_holds(f[k2], m));
            let i1 = choose|i: int| 0 <= i < f[k1].len() && lit_holds(#[trigger] f[k1][i], m);
            let i2 = choose|i: int| 0 <= i < f[k2].len() && lit_holds(#[trigger] f[k2][i], m);
            assert(f[k1][i1] == l);
            assert(f[k2][i2] == l.neg());
        }
    }
}

/// `a` is `b`, or comes before it in the lexicographic order of
/// assignments of one length: at the first variable on which they differ,
/// `a` has `false`.
pub open spec fn lex_le(a: Seq<bool>, b: Seq<bool>) -> bool {
    a == b || exists|v: int|
        0 <= v < a.len() && !(#[trigger] a[v]) && b[v] && forall|u: int| 0 <= u < v ==> a[u] == b[u]
}

/// `m` satisfies `f` and comes first, in the lexicographic order, among the
/// assignments of its length that do.
pub open spec fn least_model(f: Seq<Seq<Lit>>, m: Seq<bool>) -> bool {
    formula_holds(f, m) && forall|m2: Seq<bool>|
        m2.len() == m.len() && #[trigger] formula_holds(f, m2) ==> lex_le(m, m2)
}

/// Two assignments of one length that differ do so at a first variable.
pub proof fn lemma_first_difference(a: Seq<bool>, b: Seq<bool>, k: int)
    requires
        a.len() == b.len(),
        0 <= k < a.len(),
        a[k] != b[k],
    ensures
        exists|v: int| 0 <= v <= k && #[trigger] a[v] != b[v] && forall|u: int| 0 <= u < v ==> a[u] == b[u],
    decreases k,
{
    if exists|j: int| 0 <= j < k && #[trigger] a[j] != b[j] {
        let j = choose|j: int| 0 <= j < k && #[trigger] a[j] != b[j];
        lemma_first_difference(a, b, j);
        let v = choose|v: int| 0 <= v <= j && #[trigger] a[v] != b[v] && forall|u: int| 0 <= u < v ==> a[u] == b[u];
        assert(0 <= v <= k && a[v] != b[v]);
    } else {
        assert(a[k] != b[k]);
    }
}

} // verus!
