//! Clause insertion: duplicates removed, tautologies dropped, units put on
//! the trail, everything else stored and watched.

use crate::cnf::{
    distinct, clause_holds, entails_clause, entails_lit, formula_holds, has_empty, has_unit, is_tautology,
    is_unit, lemma_push_entails, lemma_push_units, lemma_tautology_holds, lemma_trivially_unsat,
    lemma_vars_needed, lemma_within_entails, lemma_within_holds, lit_holds, lits_within,
    trivially_unsat, vars_needed,
};
use crate::lit::{slot_of, Lit};
use crate::solver::{clause_ok, Assigned, Solver, Unsat};
use vstd::prelude::*;

verus! {

/// Whether `x` occurs in `v`.
pub(crate) fn holds_lit(v: &Vec<Lit>, x: Lit) -> (r: bool)
    ensures
        r == v@.contains(x),
{
    let mut i: usize = 0;
    while i < v.len()
        invariant
            i <= v@.len(),
            forall|k: int| 0 <= k < i ==> v@[k] != x,
        decreases v@.len() - i,
    {
        if v[i] == x {
            return true;
        }
        i = i + 1;
    }
    false
}

/// Every literal of `got` stands at one of the first `i` positions of `c`.
pub(crate) open spec fn from_prefix(c: Seq<Lit>, got: Seq<Lit>, i: int) -> bool {
    forall|k: int| 0 <= k < got.len() ==> exists|j: int| 0 <= j < i && c[j] == #[trigger] got[k]
}

/// Two of the first `i` positions of `c` hold complementary literals.
pub(crate) open spec fn clash_before(c: Seq<Lit>, i: int) -> bool {
    exists|a: int, b: int| 0 <= a < i && 0 <= b < i && #[trigger] c[a] == (#[trigger] c[b]).neg()
}

/// The literals of `clause`, each once, in the order of their first
/// occurrence, and whether the clause holds a variable in both polarities.
pub(crate) fn distinct_lits(clause: &[Lit]) -> (r: (Vec<Lit>, bool))
    ensures
        lits_within(clause@, r.0@),
        lits_within(r.0@, clause@),
        r.0@.no_duplicates(),
        r.0@.len() <= clause@.len(),
        r.0@ == distinct(clause@),
        r.1 == is_tautology(clause@),
{
    let mut lits: Vec<Lit> = Vec::new();
    let mut taut = false;
    let mut i: usize = 0;
    while i < clause.len()
        invariant
            i <= clause@.len(),
            lits@.len() <= i,
            forall|k: int| 0 <= k < i ==> lits@.contains(#[trigger] clause@[k]),
            from_prefix(clause@, lits@, i as int),
            lits@.no_duplicates(),
            lits@ == distinct(clause@.take(i as int)),
            taut == clash_before(clause@, i as int),
        decreases clause@.len() - i,
    {
        let x = clause[i];
        proof {
            let t = clause@.take(i + 1);
            assert(t.drop_last() == clause@.take(i as int));
            assert(t.last() == x);
        }
        let ghost before = lits@;
        let ghost taut0 = taut;
        if !holds_lit(&lits, x) {
            if holds_lit(&lits, x.not()) {
                taut = true;
            }
            lits.push(x);
        }
        proof {
            let c = clause@;
            assert forall|k: int| 0 <= k < i + 1 implies lits@.contains(#[trigger] c[k]) by {
                if k < i {
                    let j = choose|j: int| 0 <= j < before.len() && before[j] == c[k];
                    assert(lits@[j] == c[k]);
                } else if before.contains(x) {
                    let j = choose|j: int| 0 <= j < before.len() && before[j] == x;
                    assert(lits@[j] == x);
                } else {
                    assert(lits@[lits@.len() - 1] == x);
                }
            }
            assert forall|k: int| 0 <= k < lits@.len() implies exists|j: int|
                0 <= j < i + 1 && c[j] == #[trigger] lits@[k] by {
                if k < before.len() {
                    assert(lits@[k] == before[k]);
                    let j = choose|j: int| 0 <= j < i && c[j] == before[k];
                    assert(0 <= j < i + 1 && c[j] == lits@[k]);
                } else {
                    assert(c[i as int] == lits@[k]);
                }
            }
            if taut {
                if taut0 {
                    let (a, b) = choose|a: int, b: int|
                        0 <= a < i && 0 <= b < i && #[trigger] c[a] == (#[trigger] c[b]).neg();
                    assert(0 <= a < i + 1 && 0 <= b < i + 1 && c[a] == c[b].neg());
                } else {
                    let k = choose|k: int| 0 <= k < before.len() && before[k] == x.neg();
                    let j = choose|j: int| 0 <= j < i && c[j] == before[k];
                    assert(c[i as int] == c[j].neg());
                }
                assert(clash_before(c, i + 1));
            } else if clash_before(c, i + 1) {
                let (a, b) = choose|a: int, b: int|
                    0 <= a < i + 1 && 0 <= b < i + 1 && #[trigger] c[a] == (#[trigger] c[b]).neg();
                if a < i && b < i {
                    assert(clash_before(c, i as int));
                } else {
                    let o = if a == i { b } else { a };
                    assert(c[o] == x.neg());
                    assert(o < i);
                    assert(before.contains(c[o]));
                    if before.contains(x) {
                        let k = choose|k: int| 0 <= k < before.len() && before[k] == x;
                        let j = choose|j: int| 0 <= j < i && c[j] == before[k];
                        assert(c[j] == c[o].neg());
                        assert(clash_before(c, i as int));
                    }
                }
                assert(false);
            }
        }
        i = i + 1;
    }
    proof {
        let c = clause@;
        assert(c.take(c.len() as int) == c);
        assert forall|k: int| 0 <= k < lits@.len() implies c.contains(#[trigger] lits@[k]) by {
            let j = choose|j: int| 0 <= j < i && c[j] == lits@[k];
            assert(c[j] == lits@[k]);
        }
        if taut {
            let (a, b) = choose|a: int, b: int|
                0 <= a < i && 0 <= b < i && #[trigger] c[a] == (#[trigger] c[b]).neg();
            assert(0 <= a < c.len() && 0 <= b < c.len() && c[a] == c[b].neg());
        }
        if is_tautology(c) {
            let (a, b) = choose|a: int, b: int|
                0 <= a < c.len() && 0 <= b < c.len() && #[trigger] c[a] == (#[trigger] c[b]).neg();
            assert(0 <= a < i && 0 <= b < i && c[a] == c[b].neg());
        }
    }
    (lits, taut)
}

impl Solver {
    /// `s1` is `self` with the clause `c` appended to the table and its
    /// handle appended to the watch lists of the clause's first two literals.
    pub(crate) open spec fn attach_step(&self, s1: Solver, c: Seq<Lit>) -> bool {
        let h = self.clauses@.len() as usize;
        &&& s1.vars@.len() == self.vars@.len()
        &&& forall|u: int| 0 <= u < self.n() ==> (#[trigger] s1.vars@[u]).value == self.vars@[u].value
        &&& forall|u: int, t: int|
            0 <= u < self.n() && 0 <= t < 2 ==> #[trigger] s1.wl(u, t) == if (u == c[0].var && t
                == c[0].slot()) || (u == c[1].var && t == c[1].slot()) {
                self.wl(u, t).push(h)
            } else {
                self.wl(u, t)
            }
        &&& s1.clauses@.len() == self.clauses@.len() + 1
        &&& forall|k: int| 0 <= k < self.nc() ==> #[trigger] s1.clauses@[k] == self.clauses@[k]
        &&& s1.clauses@[self.nc()]@ == c
        &&& s1.history == self.history
        &&& s1.assumption_history == self.assumption_history
        &&& s1.prop_q == self.prop_q
        &&& s1.unsat == self.unsat
        &&& s1.formula == self.formula
    }

    /// A clause that follows from the formula can be appended to the table:
    /// the structure and the watch lists stay right, and the watched
    /// literals stay settled if those of the new clause are.
    pub(crate) proof fn lemma_attach(&self, s1: Solver, c: Seq<Lit>)
        requires
            self.grounded(),
            self.attach_step(s1, c),
            clause_ok(c, self.n()),
            entails_clause(self.formula@, c),
            s1.base_clauses == self.base_clauses || s1.base_clauses == s1.nc(),
        ensures
            s1.grounded(),
            s1.base_clauses == self.base_clauses && self.complete() ==> s1.complete(),
            self.queue_ok() ==> s1.queue_ok(),
            forall|p: int|
                self.watched_upto(p) && s1.watch_sem(self.nc(), 0, p) && s1.watch_sem(self.nc(), 1, p)
                    ==> s1.watched_upto(p),
            forall|x: Lit| x.var < self.n() ==> s1.is_true(x) == self.is_true(x) && s1.is_false(x) == self.is_false(x),
            forall|u: int| 0 <= u < self.n() ==> s1.assigned(u) == self.assigned(u),
    {
        let h = self.nc();
        self.lemma_sizes();
        s1.lemma_sizes();
        self.lemma_same_assignment(s1);
        assert forall|u: int| 0 <= u < self.n() implies s1.assigned(u) == self.assigned(u) by {
            assert(s1.vars@[u].value == self.vars@[u].value);
        }
        assert forall|x: Lit| x.var < self.n() implies s1.is_true(x) == self.is_true(x) && s1.is_false(x)
            == self.is_false(x) by {
            assert(s1.vars@[x.var as int].value == self.vars@[x.var as int].value);
        }
        assert forall|k: int| 0 <= k < self.nc() implies s1.cl(k) == self.cl(k) by {
            assert(s1.clauses@[k] == self.clauses@[k]);
        }
        assert(s1.cl(h) == c);
        assert(s1.clauses_ok()) by {
            assert forall|k: int| 0 <= k < s1.nc() implies clause_ok(#[trigger] s1.cl(k), s1.n()) by {
                if k < h {
                    assert(clause_ok(self.cl(k), self.n()));
                }
            }
        }
        assert(s1.reasons_ok()) by {
            assert forall|u: int|
                0 <= u < s1.n() && #[trigger] s1.assigned(u) && s1.cause(u) is Some implies s1.reason_ok(
                u,
            ) by {
                let k = s1.cause(u)->0 as int;
                assert(self.assigned(u));
                assert(self.reason_ok(u));
                assert(clause_ok(self.cl(k), self.n()));
                assert forall|j: int| 1 <= j < s1.cl(k).len() implies s1.is_false(
                    #[trigger] s1.cl(k)[j],
                ) && s1.pos(s1.cl(k)[j].var as int) < s1.pos(u) by {
                    assert(self.is_false(self.cl(k)[j]));
                    assert(s1.vars@[self.cl(k)[j].var as int].value == self.vars@[self.cl(k)[j].var as int].value);
                }
            }
        }
        assert(s1.sound()) by {
            assert forall|k: int| 0 <= k < s1.nc() implies entails_clause(
                s1.formula@,
                #[trigger] s1.cl(k),
            ) by {
                if k < h {
                    assert(entails_clause(self.formula@, self.cl(k)));
                }
            }
            assert forall|u: int|
                0 <= u < s1.n() && #[trigger] s1.assigned(u) && s1.level(u) == 0 implies entails_lit(
                s1.formula@,
                s1.lit_of(u),
            ) by {
                assert(self.assigned(u));
            }
        }
        assert(s1.watch_ok()) by {
            assert forall|u: int, t: int, k: int|
                0 <= u < s1.n() && 0 <= t < 2 && 0 <= k < s1.wl(u, t).len() implies {
                &&& (#[trigger] s1.wl(u, t)[k]) < s1.nc()
                &&& s1.watches(s1.wl(u, t)[k] as int, Lit { var: u as usize, val: t == 0 })
            } by {
                if k < self.wl(u, t).len() {
                    let e = self.wl(u, t)[k] as int;
                    assert(s1.wl(u, t)[k] == e);
                    assert(e < self.nc());
                    assert(self.watches(e, Lit { var: u as usize, val: t == 0 }));
                } else {
                    assert(s1.wl(u, t)[k] == h);
                }
            }
            assert forall|u: int, t: int| 0 <= u < s1.n() && 0 <= t < 2 implies (#[trigger] s1.wl(
                u,
                t,
            )).no_duplicates() by {
                let z = s1.wl(u, t);
                let y = self.wl(u, t);
                assert(y.no_duplicates());
                assert forall|a: int, b: int| 0 <= a < z.len() && 0 <= b < z.len() && a != b implies z[a]
                    != z[b] by {
                    if a < y.len() {
                        assert(y[a] < self.nc());
                        assert(z[a] == y[a]);
                    }
                    if b < y.len() {
                        assert(y[b] < self.nc());
                        assert(z[b] == y[b]);
                    }
                }
            }
            assert forall|k: int, w: int| 0 <= k < s1.nc() && 0 <= w < 2 implies #[trigger] s1.listed(
                k,
                w,
            ) by {
                if k < h {
                    assert(clause_ok(self.cl(k), self.n()));
                    assert(self.listed(k, w));
                    let y = self.cl(k)[w];
                    let yl = self.wl(y.var as int, y.slot());
                    let j = choose|j: int| 0 <= j < yl.len() && yl[j] == k as usize;
                    assert(s1.wl(y.var as int, y.slot())[j] == k as usize);
                } else {
                    let y = c[w];
                    let z = s1.wl(y.var as int, y.slot());
                    assert(z == self.wl(y.var as int, y.slot()).push(h as usize));
                    assert(z[z.len() - 1] == h as usize);
                }
            }
        }
        if s1.base_clauses == self.base_clauses && self.complete() && !self.unsat {
            assert forall|m: Seq<bool>| #[trigger] s1.models_base(m) implies formula_holds(
                s1.formula@,
                m,
            ) by {
                assert(self.models_base(m)) by {
                    assert forall|k: int| 0 <= k < self.base_clauses implies clause_holds(
                        #[trigger] self.cl(k),
                        m,
                    ) by {
                        assert(clause_holds(s1.cl(k), m));
                    }
                    assert forall|u: int|
                        0 <= u < self.n() && #[trigger] self.assigned(u) && self.level(u)
                            == 0 implies m[u] == self.val_of(u) by {
                        assert(s1.assigned(u));
                    }
                }
            }
        }
        assert forall|p: int|
            self.watched_upto(p) && s1.watch_sem(self.nc(), 0, p) && s1.watch_sem(
                self.nc(),
                1,
                p,
            ) implies s1.watched_upto(p) by {
            assert forall|k: int, w: int| 0 <= k < s1.nc() && 0 <= w < 2 implies #[trigger] s1.watch_sem(
                k,
                w,
                p,
            ) by {
                if k < h {
                    assert(self.watch_sem(k, w, p));
                    assert(clause_ok(self.cl(k), self.n()));
                    assert(s1.vars@[self.cl(k)[w].var as int].value == self.vars@[self.cl(k)[w].var as int].value);
                    assert(s1.vars@[self.cl(k)[1 - w].var as int].value == self.vars@[self.cl(k)[1
                        - w].var as int].value);
                }
            }
        }
    }

    /// Appends a clause to the table and registers its first two literals
    /// as watched. Returns the clause's handle.
    pub(crate) fn attach(&mut self, clause: Vec<Lit>) -> (h: usize)
        requires
            old(self).grounded(),
            clause_ok(clause@, old(self).n()),
            entails_clause(old(self).formula@, clause@),
        ensures
            h == old(self).nc(),
            old(self).attach_step(*final(self), clause@),
            final(self).base_clauses == old(self).base_clauses,
            final(self).grounded(),
    {
        let h = self.clauses.len();
        let a = clause[0];
        let b = clause[1];
        let sa = slot_of(!a.val);
        let sb = slot_of(!b.val);
        self.vars[a.var].watchers[sa].push(h);
        self.vars[b.var].watchers[sb].push(h);
        self.clauses.push(clause);
        proof {
            assert(sa == a.slot() && sb == b.slot());
            assert(a.var != b.var);
            old(self).lemma_attach(*self, clause@);
        }
        h
    }

    /// `s1` differs from `self` in the formula and the refutation flag only.
    pub(crate) open spec fn same_tables(&self, s1: Solver) -> bool {
        &&& s1.vars == self.vars
        &&& s1.clauses == self.clauses
        &&& s1.base_clauses == self.base_clauses
        &&& s1.prop_q == self.prop_q
        &&& s1.history == self.history
        &&& s1.assumption_history == self.assumption_history
    }

    /// Inserting a clause into the formula keeps the state grounded: what
    /// followed from the formula still does.
    pub(crate) proof fn lemma_formula_pushed(&self, s1: Solver, x: Seq<Lit>)
        requires
            self.grounded(),
            self.same_tables(s1),
            s1.formula@ == self.formula@.push(x),
        ensures
            s1.grounded(),
            forall|m: Seq<bool>| s1.models_base(m) == self.models_base(m),
            forall|l: Lit| l.var < self.n() ==> s1.is_true(l) == self.is_true(l) && s1.is_false(l) == self.is_false(l),
    {
        assert(self.same_assignment(s1)) by {
            assert forall|u: int| 0 <= u < self.n() implies (#[trigger] s1.vars@[u]).value == self.vars@[u].value by {}
        }
        self.lemma_lists_changed(s1);
        self.lemma_watch_frame(s1);
        lemma_push_entails(self.formula@, x);
        assert forall|k: int| 0 <= k < s1.nc() implies entails_clause(s1.formula@, #[trigger] s1.cl(k)) by {
            assert(entails_clause(self.formula@, self.cl(k)));
        }
        assert forall|u: int|
            0 <= u < s1.n() && #[trigger] s1.assigned(u) && s1.level(u) == 0 implies entails_lit(
            s1.formula@,
            s1.lit_of(u),
        ) by {
            assert(self.assigned(u));
            assert(entails_lit(self.formula@, self.lit_of(u)));
        }
    }

    /// A clause inserted into a formula that is refuted already.
    pub(crate) proof fn lemma_add_refuted(&self, s1: Solver, x: Seq<Lit>)
        requires
            self.idle(),
            self.unsat,
            self.same_tables(s1),
            s1.unsat,
            s1.formula@ == self.formula@.push(x),
        ensures
            s1.idle(),
    {
        self.lemma_formula_pushed(s1, x);
        lemma_push_entails(self.formula@, x);
        lemma_push_units(self.formula@, x);
        let f = self.formula@;
        if !has_empty(f) {
            let l = choose|l: Lit| #[trigger] has_unit(f, l) && has_unit(f, l.neg());
            assert(has_unit(s1.formula@, l) && has_unit(s1.formula@, l.neg()));
        }
    }

    /// An empty clause refutes the formula.
    pub(crate) proof fn lemma_add_empty(&self, s1: Solver, x: Seq<Lit>)
        requires
            self.idle(),
            self.same_tables(s1),
            s1.unsat,
            x.len() == 0,
            s1.formula@ == self.formula@.push(x),
        ensures
            s1.idle(),
    {
        self.lemma_formula_pushed(s1, x);
        lemma_push_units(self.formula@, x);
        lemma_trivially_unsat(s1.formula@);
    }

    /// A clause that changes neither the table nor the trail: a tautology,
    /// or a unit clause whose literal is true already.
    pub(crate) proof fn lemma_add_nothing(&self, s1: Solver, x: Seq<Lit>)
        requires
            self.idle(),
            !self.unsat,
            self.same_tables(s1),
            !s1.unsat,
            s1.formula@ == self.formula@.push(x),
            forall|i: int| 0 <= i < x.len() ==> (#[trigger] x[i]).var < self.n(),
            is_tautology(x) || exists|l: Lit| is_unit(x, l) && self.is_true(l),
        ensures
            s1.idle(),
    {
        let f = self.formula@;
        let g = s1.formula@;
        self.lemma_formula_pushed(s1, x);
        lemma_push_entails(f, x);
        lemma_push_units(f, x);
        assert(!trivially_unsat(f));
        if is_tautology(x) {
            let (i, j) = choose|i: int, j: int|
                0 <= i < x.len() && 0 <= j < x.len() && #[trigger] x[i] == (#[trigger] x[j]).neg();
            assert forall|l: Lit| !is_unit(x, l) by {
                if is_unit(x, l) {
                    assert(x[i] == l && x[j] == l);
                }
            }
            assert forall|m: Seq<bool>| #[trigger] s1.models_base(m) implies formula_holds(g, m) by {
                assert(self.models_base(m));
                lemma_tautology_holds(x, m);
            }
        } else {
            let l = choose|l: Lit| is_unit(x, l) && self.is_true(l);
            assert(x[0] == l);
            assert forall|l2: Lit| is_unit(x, l2) implies l2 == l by {
                assert(x[0] == l2);
            }
            assert(has_unit(f, l));
            assert forall|m: Seq<bool>| #[trigger] s1.models_base(m) implies formula_holds(g, m) by {
                assert(self.models_base(m));
                assert(self.assigned(l.var as int));
                assert(lit_holds(x[0], m));
            }
        }
        assert forall|l2: Lit| #[trigger] has_unit(g, l2) <==> l2.var < s1.n() && s1.is_true(l2) by {
            assert(has_unit(f, l2) <==> l2.var < self.n() && self.is_true(l2));
        }
        assert(!has_empty(g));
        if exists|l2: Lit| #[trigger] has_unit(g, l2) && has_unit(g, l2.neg()) {
            let l2 = choose|l2: Lit| #[trigger] has_unit(g, l2) && has_unit(g, l2.neg());
            assert(has_unit(f, l2));
            assert(has_unit(f, l2.neg()));
        }
    }

    /// A unit clause whose literal was put on the trail.
    pub(crate) proof fn lemma_add_unit(&self, sf: Solver, s1: Solver, x: Seq<Lit>, l: Lit)
        requires
            self.idle(),
            !self.unsat,
            self.same_tables(sf),
            !sf.unsat,
            sf.formula@ == self.formula@.push(x),
            is_unit(x, l),
            l.var < self.n(),
            !self.assigned(l.var as int),
            sf.assign_step(s1, l, None, false),
            s1.grounded(),
        ensures
            s1.idle(),
    {
        let f = self.formula@;
        let g = s1.formula@;
        self.lemma_formula_pushed(sf, x);
        lemma_push_entails(f, x);
        lemma_push_units(f, x);
        assert(x[0] == l);
        assert forall|l2: Lit| is_unit(x, l2) implies l2 == l by {
            assert(x[0] == l2);
        }
        assert(s1.vars@[l.var as int].value is Some);
        assert(s1.is_true(l));
        assert forall|u: int| 0 <= u < self.n() && self.assigned(u) implies s1.vars@[u] == self.vars@[u] by {
            assert(u != l.var);
        }
        assert forall|m: Seq<bool>| #[trigger] s1.models_base(m) implies formula_holds(g, m) by {
            assert(self.models_base(m)) by {
                assert forall|k: int| 0 <= k < self.base_clauses implies clause_holds(
                    #[trigger] self.cl(k),
                    m,
                ) by {
                    assert(clause_holds(s1.cl(k), m));
                }
                assert forall|u: int|
                    0 <= u < self.n() && #[trigger] self.assigned(u) && self.level(u) == 0 implies m[u]
                    == self.val_of(u) by {
                    assert(s1.assigned(u));
                }
            }
            assert(s1.assigned(l.var as int));
            assert(s1.level(l.var as int) == 0);
            assert(lit_holds(x[0], m));
        }
        assert forall|l2: Lit| #[trigger] has_unit(g, l2) <==> l2.var < s1.n() && s1.is_true(l2) by {
            assert(has_unit(f, l2) <==> l2.var < self.n() && self.is_true(l2));
            if l2.var < self.n() && l2.var != l.var {
                assert(s1.vars@[l2.var as int] == sf.vars@[l2.var as int]);
            }
        }
        assert(!trivially_unsat(f));
        assert(!has_empty(g));
        if exists|l2: Lit| #[trigger] has_unit(g, l2) && has_unit(g, l2.neg()) {
            let l2 = choose|l2: Lit| #[trigger] has_unit(g, l2) && has_unit(g, l2.neg());
            assert(s1.is_true(l2) && s1.is_true(l2.neg()));
        }
    }

    /// A unit clause whose literal is false already refutes the formula.
    pub(crate) proof fn lemma_add_clash(&self, s1: Solver, x: Seq<Lit>, l: Lit)
        requires
            self.idle(),
            !self.unsat,
            self.same_tables(s1),
            s1.unsat,
            s1.formula@ == self.formula@.push(x),
            is_unit(x, l),
            l.var < self.n(),
            self.is_false(l),
        ensures
            s1.idle(),
    {
        let f = self.formula@;
        let g = s1.formula@;
        self.lemma_formula_pushed(s1, x);
        lemma_push_units(f, x);
        assert(self.is_true(l.neg()));
        assert(has_unit(f, l.neg()));
        assert(has_unit(g, l) && has_unit(g, l.neg()));
        lemma_trivially_unsat(g);
    }

    /// A clause of two or more literals that was stored.
    pub(crate) proof fn lemma_add_stored(&self, s1: Solver, x: Seq<Lit>, lits: Seq<Lit>)
        requires
            self.idle(),
            !self.unsat,
            s1.grounded(),
            !s1.unsat,
            s1.formula@ == self.formula@.push(x),
            lits.len() >= 2,
            lits.no_duplicates(),
            lits_within(lits, x),
            lits_within(x, lits),
            s1.vars@.len() == self.vars@.len(),
            forall|u: int| 0 <= u < self.n() ==> (#[trigger] s1.vars@[u]).value == self.vars@[u].value,
            s1.clauses@.len() == self.clauses@.len() + 1,
            forall|k: int| 0 <= k < self.nc() ==> #[trigger] s1.clauses@[k] == self.clauses@[k],
            s1.clauses@[self.nc()]@ == lits,
            s1.base_clauses == s1.nc(),
            s1.prop_q == 0,
            s1.assumption_history == self.assumption_history,
        ensures
            s1.idle(),
    {
        let f = self.formula@;
        let g = s1.formula@;
        lemma_push_entails(f, x);
        lemma_push_units(f, x);
        assert forall|u: int| 0 <= u < self.n() implies s1.assigned(u) == self.assigned(u) by {
            assert(s1.vars@[u].value == self.vars@[u].value);
        }
        assert forall|l: Lit| !is_unit(x, l) by {
            if is_unit(x, l) {
                assert(x.contains(lits[0]) && x.contains(lits[1]));
            }
        }
        assert forall|m: Seq<bool>| #[trigger] s1.models_base(m) implies formula_holds(g, m) by {
            assert(self.models_base(m)) by {
                assert forall|k: int| 0 <= k < self.base_clauses implies clause_holds(
                    #[trigger] self.cl(k),
                    m,
                ) by {
                    assert(s1.clauses@[k] == self.clauses@[k]);
                    assert(clause_holds(s1.cl(k), m));
                }
                assert forall|u: int|
                    0 <= u < self.n() && #[trigger] self.assigned(u) && self.level(u) == 0 implies m[u]
                    == self.val_of(u) by {
                    assert(s1.assigned(u));
                    assert(s1.vars@[u].value == self.vars@[u].value);
                }
            }
            assert(clause_holds(s1.cl(self.nc()), m));
            lemma_within_holds(lits, x, m);
        }
        assert forall|l2: Lit| #[trigger] has_unit(g, l2) <==> l2.var < s1.n() && s1.is_true(l2) by {
            assert(has_unit(f, l2) <==> l2.var < self.n() && self.is_true(l2));
            if l2.var < self.n() {
                assert(s1.vars@[l2.var as int].value == self.vars@[l2.var as int].value);
            }
        }
        assert(!trivially_unsat(f));
        assert(x.contains(lits[0]));
        assert(!has_empty(g));
        if exists|l2: Lit| #[trigger] has_unit(g, l2) && has_unit(g, l2.neg()) {
            let l2 = choose|l2: Lit| #[trigger] has_unit(g, l2) && has_unit(g, l2.neg());
            assert(has_unit(f, l2));
            assert(has_unit(f, l2.neg()));
        }
    }

    /// `s1` is `self` with variables appended, each without a value and
    /// with empty watch lists, and nothing else changed.
    pub(crate) open spec fn vars_added(&self, s1: Solver) -> bool {
        &&& s1.vars@.len() >= self.vars@.len()
        &&& forall|v: int| 0 <= v < self.n() ==> #[trigger] s1.vars@[v] == self.vars@[v]
        &&& forall|v: int|
            self.n() <= v < s1.n() ==> (#[trigger] s1.vars@[v]).value is None && s1.vars@[v].watchers[0]@.len()
                == 0 && s1.vars@[v].watchers[1]@.len() == 0
        &&& s1.clauses == self.clauses
        &&& s1.base_clauses == self.base_clauses
        &&& s1.prop_q == self.prop_q
        &&& s1.history == self.history
        &&& s1.assumption_history == self.assumption_history
        &&& s1.unsat == self.unsat
        &&& s1.formula == self.formula
    }

    /// What inserting the clause `x` does to the state, with `d` its
    /// literals, each once, in the order of their first occurrence.
    ///
    /// Variables are appended, without values and with empty watch lists,
    /// until every literal has one. If the formula was refuted already, or
    /// `x` holds a variable in both polarities, nothing else changes. If
    /// `d` is empty, the formula is refuted. If `d` is one literal: a true
    /// one changes nothing, a false one refutes the formula, and one without
    /// a value is put on the trail, at level 0 and without a cause. If `d`
    /// has two or more literals, `d` is appended to the clause table, which
    /// holds inserted clauses only, and its handle is appended to the watch
    /// lists of its first two literals. The trail, the values and the watch
    /// lists change in no other way.
    pub(crate) open spec fn add_effect(&self, s1: Solver, x: Seq<Lit>) -> bool {
        let d = distinct(x);
        let n0 = self.n();
        let live = !self.unsat && !is_tautology(x);
        let stored = live && d.len() >= 2;
        let unit = live && d.len() == 1;
        let known = d[0].var < n0 && self.assigned(d[0].var as int);
        let put = unit && !known;
        let h = self.clauses@.len() as usize;
        &&& s1.n() == if vars_needed(x) > n0 { vars_needed(x) as int } else { n0 }
        &&& s1.formula@ == self.formula@.push(x)
        &&& s1.assumption_history@ == self.assumption_history@
        &&& s1.prop_q == self.prop_q
        &&& s1.unsat == (self.unsat || x.len() == 0 || (unit && known && self.is_false(d[0])))
        &&& s1.base_clauses == s1.nc()
        &&& if stored {
            &&& s1.clauses@.len() == self.clauses@.len() + 1
            &&& forall|k: int| 0 <= k < self.nc() ==> #[trigger] s1.clauses@[k] == self.clauses@[k]
            &&& s1.cl(self.nc()) == d
        } else {
            s1.clauses@ == self.clauses@
        }
        &&& s1.history@ == if put { self.history@.push(d[0].var) } else { self.history@ }
        &&& forall|u: int|
            0 <= u < s1.n() ==> (#[trigger] s1.vars@[u]).value == if put && u == d[0].var {
                Some(
                    Assigned {
                        val: d[0].val,
                        cause: None,
                        level: s1.assumption_history.len(),
                        pos: Ghost(self.trail().len() as int),
                    },
                )
            } else if u < n0 {
                self.vars@[u].value
            } else {
                None
            }
        &&& forall|u: int, t: int|
            0 <= u < s1.n() && 0 <= t < 2 ==> #[trigger] s1.wl(u, t) == {
                let was = if u < n0 { self.wl(u, t) } else { Seq::empty() };
                if stored && ((u == d[0].var && t == d[0].slot()) || (u == d[1].var && t == d[1].slot())) {
                    was.push(h)
                } else {
                    was
                }
            }
    }

    /// The effect of an insertion that leaves table, trail, values and watch
    /// lists as they were after the variables were appended.
    pub(crate) proof fn lemma_effect_plain(&self, sc: Solver, s1: Solver, x: Seq<Lit>)
        requires
            self.vars_added(sc),
            sc.n() == if vars_needed(x) > self.n() { vars_needed(x) as int } else { self.n() },
            sc.base_clauses == sc.nc(),
            sc.same_tables(s1),
            s1.formula@ == sc.formula@.push(x),
            ({
                let d = distinct(x);
                let live = !self.unsat && !is_tautology(x);
                let known = d[0].var < self.n() && self.assigned(d[0].var as int);
                &&& !(live && d.len() >= 2)
                &&& !(live && d.len() == 1 && !known)
                &&& s1.unsat == (self.unsat || x.len() == 0 || (live && d.len() == 1 && known && self.is_false(
                    d[0],
                )))
            }),
        ensures
            self.add_effect(s1, x),
    {
        assert forall|u: int| 0 <= u < s1.n() implies (#[trigger] s1.vars@[u]).value == if u < self.n() {
            self.vars@[u].value
        } else {
            None
        } by {
            assert(s1.vars@[u] == sc.vars@[u]);
        }
        assert forall|u: int, t: int| 0 <= u < s1.n() && 0 <= t < 2 implies #[trigger] s1.wl(u, t) == if u
            < self.n() {
            self.wl(u, t)
        } else {
            Seq::empty()
        } by {
            assert(s1.vars@[u] == sc.vars@[u]);
            if u >= self.n() {
                assert(sc.vars@[u].watchers[t]@.len() == 0);
            }
        }
    }

    /// The effect of inserting a unit clause whose literal had no value.
    pub(crate) proof fn lemma_effect_unit(&self, sc: Solver, sf: Solver, s1: Solver, x: Seq<Lit>)
        requires
            self.vars_added(sc),
            sc.n() == if vars_needed(x) > self.n() { vars_needed(x) as int } else { self.n() },
            sc.base_clauses == sc.nc(),
            sc.same_tables(sf),
            sf.unsat == sc.unsat,
            sf.formula@ == sc.formula@.push(x),
            !self.unsat,
            !is_tautology(x),
            distinct(x).len() == 1,
            distinct(x)[0].var < sc.n(),
            !sc.assigned(distinct(x)[0].var as int),
            sf.assign_step(s1, distinct(x)[0], None, false),
            x.len() > 0,
        ensures
            self.add_effect(s1, x),
    {
        let d = distinct(x);
        let v = d[0].var as int;
        if v < self.n() {
            assert(sc.vars@[v] == self.vars@[v]);
        }
        assert forall|u: int| 0 <= u < s1.n() implies (#[trigger] s1.vars@[u]).value == if u == v {
            Some(
                Assigned {
                    val: d[0].val,
                    cause: None,
                    level: s1.assumption_history.len(),
                    pos: Ghost(self.trail().len() as int),
                },
            )
        } else if u < self.n() {
            self.vars@[u].value
        } else {
            None
        } by {
            if u != v {
                assert(s1.vars@[u] == sf.vars@[u]);
                assert(sf.vars@[u] == sc.vars@[u]);
            }
        }
        assert forall|u: int, t: int| 0 <= u < s1.n() && 0 <= t < 2 implies #[trigger] s1.wl(u, t) == if u
            < self.n() {
            self.wl(u, t)
        } else {
            Seq::empty()
        } by {
            assert(s1.vars@[u].watchers == sf.vars@[u].watchers);
            assert(sf.vars@[u] == sc.vars@[u]);
            if u >= self.n() {
                assert(sc.vars@[u].watchers[t]@.len() == 0);
            }
        }
    }

    /// The effect of inserting a clause that is stored.
    pub(crate) proof fn lemma_effect_stored(&self, sc: Solver, sf: Solver, sa: Solver, s1: Solver, x: Seq<Lit>)
        requires
            self.vars_added(sc),
            sc.n() == if vars_needed(x) > self.n() { vars_needed(x) as int } else { self.n() },
            sc.base_clauses == sc.nc(),
            sc.same_tables(sf),
            sf.unsat == sc.unsat,
            sf.formula@ == sc.formula@.push(x),
            !self.unsat,
            !is_tautology(x),
            distinct(x).len() >= 2,
            distinct(x)[0].var < sc.n(),
            distinct(x)[1].var < sc.n(),
            sf.attach_step(sa, distinct(x)),
            s1.vars == sa.vars,
            s1.clauses == sa.clauses,
            s1.history == sa.history,
            s1.assumption_history == sa.assumption_history,
            s1.prop_q == sa.prop_q,
            s1.unsat == sa.unsat,
            s1.formula == sa.formula,
            s1.base_clauses == s1.nc(),
            x.len() > 0,
        ensures
            self.add_effect(s1, x),
    {
        let d = distinct(x);
        let h = self.clauses@.len() as usize;
        assert forall|k: int| 0 <= k < self.nc() implies #[trigger] s1.clauses@[k] == self.clauses@[k] by {
            assert(sa.clauses@[k] == sf.clauses@[k]);
        }
        assert forall|u: int| 0 <= u < s1.n() implies (#[trigger] s1.vars@[u]).value == if u < self.n() {
            self.vars@[u].value
        } else {
            None
        } by {
            assert(sa.vars@[u].value == sf.vars@[u].value);
            assert(sf.vars@[u] == sc.vars@[u]);
        }
        assert forall|u: int, t: int| 0 <= u < s1.n() && 0 <= t < 2 implies #[trigger] s1.wl(u, t) == {
            let was = if u < self.n() { self.wl(u, t) } else { Seq::empty() };
            if (u == d[0].var && t == d[0].slot()) || (u == d[1].var && t == d[1].slot()) {
                was.push(h)
            } else {
                was
            }
        } by {
            assert(s1.wl(u, t) == sa.wl(u, t));
            assert(sf.vars@[u] == sc.vars@[u]);
            assert(sf.wl(u, t) == sc.wl(u, t));
            if u >= self.n() {
                assert(sc.vars@[u].watchers[t]@.len() == 0);
                assert(sc.wl(u, t) == Seq::<usize>::empty());
            } else {
                assert(sc.vars@[u] == self.vars@[u]);
            }
        }
    }

    /// What inserting the clause `x` does to the state: see `add_effect`.
    pub closed spec fn with_clause(&self, s1: Solver, x: Seq<Lit>) -> bool {
        self.add_effect(s1, x)
    }

    /// What `with_clause` stands for.
    pub(crate) proof fn lemma_with_clause(&self, s1: Solver, x: Seq<Lit>)
        ensures
            self.with_clause(s1, x) == self.add_effect(s1, x),
    {
    }

    /// Appends variables until every literal of `clause` has one.
    pub(crate) fn cover(&mut self, clause: &[Lit])
        requires
            old(self).wf(),
        ensures
            final(self).wf(),
            final(self).formula() == old(self).formula(),
            final(self).num_vars() == if vars_needed(clause@) > old(self).num_vars() {
                vars_needed(clause@)
            } else {
                old(self).num_vars()
            },
            old(self).vars_added(*final(self)),
    {
        let mut i: usize = 0;
        while i < clause.len()
            invariant
                i <= clause@.len(),
                self.wf(),
                old(self).vars_added(*self),
                self.formula() == old(self).formula(),
                self.num_vars() == if vars_needed(clause@.take(i as int)) > old(self).num_vars() {
                    vars_needed(clause@.take(i as int))
                } else {
                    old(self).num_vars()
                },
            decreases clause@.len() - i,
        {
            let x = clause[i];
            let ghost n0 = self.num_vars();
            proof {
                self.lemma_view();
            }
            while x.var >= self.vars.len()
                invariant
                    self.wf(),
                    self.formula() == old(self).formula(),
                    n0 <= self.num_vars(),
                    self.num_vars() <= if x.var + 1 > n0 { (x.var + 1) as nat } else { n0 },
                    self.num_vars() == self.vars@.len(),
                    old(self).vars_added(*self),
                decreases x.var + 1 - self.vars@.len(),
            {
                let ghost before = *self;
                self.add_var();
                proof {
                    self.lemma_view();
                    before.lemma_with_var(*self);
                }
            }
            proof {
                let t = clause@.take(i + 1);
                assert(t.drop_last() == clause@.take(i as int));
                assert(t.last() == x);
            }
            i = i + 1;
        }
        proof {
            assert(clause@.take(clause@.len() as int) == clause@);
        }
    }

    /// Inserts a clause.
    ///
    /// Variables are appended until every literal has one. Repeated literals
    /// count once. A clause that holds a variable in both polarities is
    /// dropped. An empty clause refutes the formula. A unit clause puts its
    /// literal on the trail, or refutes the formula if the literal is false
    /// already. Any other clause is stored, with its first two literals
    /// watched.
    ///
    /// The call fails exactly when the formula, with this clause, holds an
    /// empty clause or two complementary unit clauses; from then on every
    /// insertion fails and [`Solver::solve`] reports `Unsat`.
    #[verifier::rlimit(50)]
    pub fn add_clause(&mut self, clause: &[Lit]) -> (r: Result<(), Unsat>)
        requires
            old(self).wf(),
        ensures
            final(self).wf(),
            final(self).formula() == old(self).formula().push(clause@),
            final(self).num_vars() == if vars_needed(clause@) > old(self).num_vars() {
                vars_needed(clause@)
            } else {
                old(self).num_vars()
            },
            r is Err <==> trivially_unsat(final(self).formula()),
            r matches Err(e) ==> e.learnt@.len() == 0 && e.max_assumption == 0,
            old(self).with_clause(*final(self), clause@),
    {
        self.cover(clause);
        let (lits, taut) = distinct_lits(clause);
        let ghost s0 = *self;
        let ghost x = clause@;
        proof {
            self.lemma_view();
            lemma_vars_needed(x);
            self.formula@ = self.formula@.push(x);
            self.lemma_view();
            assert forall|i: int| 0 <= i < lits@.len() implies (#[trigger] lits@[i]).var < s0.n() by {
                assert(x.contains(lits@[i]));
            }
        }
        proof {
            old(self).lemma_view();
            if x.len() > 0 {
                assert(lits@.contains(x[0]));
            }
            if lits@.len() > 0 {
                assert(x.contains(lits@[0]));
            }
        }
        if self.unsat {
            proof {
                s0.lemma_add_refuted(*self, x);
                self.lemma_view();
                old(self).lemma_effect_plain(s0, *self, x);
                old(self).lemma_with_clause(*self, x);
            }
            return Err(Unsat { learnt: Vec::new(), max_assumption: 0 });
        }
        if taut {
            proof {
                s0.lemma_add_nothing(*self, x);
                self.lemma_view();
                old(self).lemma_effect_plain(s0, *self, x);
                old(self).lemma_with_clause(*self, x);
            }
            return Ok(());
        }
        if lits.len() == 0 {
            self.unsat = true;
            proof {
                if x.len() > 0 {
                    assert(lits@.contains(x[0]));
                }
                s0.lemma_add_empty(*self, x);
                self.lemma_view();
                old(self).lemma_effect_plain(s0, *self, x);
                old(self).lemma_with_clause(*self, x);
            }
            return Err(Unsat { learnt: Vec::new(), max_assumption: 0 });
        }
        if lits.len() == 1 {
            let l = lits[0];
            let ghost sf = *self;
            proof {
                assert(is_unit(x, l)) by {
                    assert(x.contains(lits@[0]));
                    assert forall|i: int| 0 <= i < x.len() implies x[i] == l by {
                        assert(lits@.contains(x[i]));
                    }
                }
                s0.lemma_formula_pushed(sf, x);
                lemma_push_entails(s0.formula@, x);
                assert(entails_lit(sf.formula@, l)) by {
                    assert forall|m: Seq<bool>| #[trigger] formula_holds(sf.formula@, m) implies lit_holds(
                        l,
                        m,
                    ) by {
                        assert(clause_holds(x, m));
                    }
                }
            }
            match self.enqueue(l, None) {
                Ok(()) => {
                    proof {
                        if l.var < old(self).n() {
                            assert(s0.vars@[l.var as int] == old(self).vars@[l.var as int]);
                        }
                        if s0.is_true(l) {
                            s0.lemma_add_nothing(*self, x);
                            old(self).lemma_effect_plain(s0, *self, x);
                        } else {
                            s0.lemma_add_unit(sf, *self, x, l);
                            old(self).lemma_effect_unit(s0, sf, *self, x);
                        }
                        self.lemma_view();
                        old(self).lemma_with_clause(*self, x);
                    }
                    Ok(())
                },
                Err(e) => {
                    self.unsat = true;
                    proof {
                        s0.lemma_add_clash(*self, x, l);
                        self.lemma_view();
                        if l.var < old(self).n() {
                            assert(s0.vars@[l.var as int] == old(self).vars@[l.var as int]);
                        }
                        old(self).lemma_effect_plain(s0, *self, x);
                        old(self).lemma_with_clause(*self, x);
                    }
                    Err(e)
                },
            }
        } else {
            let ghost sf = *self;
            proof {
                s0.lemma_formula_pushed(sf, x);
                lemma_push_entails(s0.formula@, x);
                lemma_within_entails(sf.formula@, x, lits@);
                assert(clause_ok(lits@, sf.n())) by {
                    assert forall|i: int, j: int| 0 <= i < j < lits@.len() implies (#[trigger] lits@[i]).var != (
                    #[trigger] lits@[j]).var by {
                        if lits@[i].var == lits@[j].var {
                            assert(lits@[i] != lits@[j]);
                            assert(lits@[i] == lits@[j].neg());
                            assert(x.contains(lits@[i]) && x.contains(lits@[j]));
                            let a = choose|a: int| 0 <= a < x.len() && x[a] == lits@[i];
                            let b = choose|b: int| 0 <= b < x.len() && x[b] == lits@[j];
                            assert(x[a] == x[b].neg());
                        }
                    }
                }
            }
            let ghost stored = lits@;
            self.attach(lits);
            let ghost sa = *self;
            self.base_clauses = self.clauses.len();
            proof {
                assert(sa.same_assignment(*self)) by {
                    assert forall|u: int| 0 <= u < sa.n() implies (#[trigger] self.vars@[u]).value == sa.vars@[u].value by {}
                }
                assert forall|u: int, t: int| 0 <= u < sa.n() && 0 <= t < 2 implies #[trigger] self.wl(u, t)
                    == sa.wl(u, t) by {}
                assert(sf.attach_step(*self, stored));
                sf.lemma_attach(*self, stored);
                s0.lemma_add_stored(*self, x, stored);
                self.lemma_view();
                old(self).lemma_effect_stored(s0, sf, sa, *self, x);
                old(self).lemma_with_clause(*self, x);
            }
            Ok(())
        }
    }
}

} // verus!
