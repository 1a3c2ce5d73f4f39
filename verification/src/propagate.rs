//! Boolean constraint propagation over two watched literals per clause.

use crate::cnf::{
    clause_holds, entails_clause, entails_lit, formula_holds, lemma_swapped_within,
    lemma_within_entails, lemma_within_holds, lits_within, swapped,
};
use crate::lit::{slot_of, Lit};
use crate::solver::{clause_ok, Assigned, Solver, Unsat};
use vstd::prelude::*;

verus! {

/// The clause with `fl` moved to the second watched position if it stood in
/// the first.
pub(crate) open spec fn normalized(c: Seq<Lit>, fl: Lit) -> Seq<Lit> {
    if c[0] == fl { swapped(c, 0, 1) } else { c }
}

/// Exchanging two literals of a stored clause leaves a stored clause.
pub(crate) proof fn lemma_swapped_ok(c: Seq<Lit>, i: int, j: int, n: int)
    requires
        clause_ok(c, n),
        0 <= i < c.len(),
        0 <= j < c.len(),
    ensures
        clause_ok(swapped(c, i, j), n),
{
    let d = swapped(c, i, j);
    assert forall|x: int| 0 <= x < d.len() implies (#[trigger] d[x]).var < n by {
        let xa = if x == i { j } else if x == j { i } else { x };
        assert(d[x] == c[xa]);
    }
    assert forall|x: int, y: int| 0 <= x < y < d.len() implies (#[trigger] d[x]).var != (#[trigger] d[y]).var by {
        let xa = if x == i { j } else if x == j { i } else { x };
        let ya = if y == i { j } else if y == j { i } else { y };
        assert(d[x] == c[xa]);
        assert(d[y] == c[ya]);
        if xa < ya {
            assert(c[xa].var != c[ya].var);
        } else {
            assert(c[ya].var != c[xa].var);
        }
    }
}

/// `b` holds the literals of `a` in some order. (A stored clause holds no
/// literal twice.)
pub(crate) open spec fn rearranged(a: Seq<Lit>, b: Seq<Lit>) -> bool {
    a.len() == b.len() && lits_within(a, b) && lits_within(b, a)
}

pub(crate) proof fn lemma_rearranged_trans(a: Seq<Lit>, b: Seq<Lit>, c: Seq<Lit>)
    requires
        rearranged(a, b),
        rearranged(b, c),
    ensures
        rearranged(a, c),
{
    assert forall|i: int| 0 <= i < a.len() implies c.contains(#[trigger] a[i]) by {
        assert(b.contains(a[i]));
        let j = choose|j: int| 0 <= j < b.len() && b[j] == a[i];
        assert(c.contains(b[j]));
    }
    assert forall|i: int| 0 <= i < c.len() implies a.contains(#[trigger] c[i]) by {
        assert(b.contains(c[i]));
        let j = choose|j: int| 0 <= j < b.len() && b[j] == c[i];
        assert(a.contains(b[j]));
    }
}

impl Solver {
    /// The first index from `k` on at which `c` has a literal that is not
    /// false, or the length of `c` if there is none.
    pub(crate) open spec fn first_free(&self, c: Seq<Lit>, k: int) -> int
        decreases c.len() - k,
    {
        if k >= c.len() {
            c.len() as int
        } else if !self.is_false(c[k]) {
            k
        } else {
            self.first_free(c, k + 1)
        }
    }

    pub(crate) proof fn lemma_first_free(&self, c: Seq<Lit>, k: int, j: int)
        requires
            0 <= k <= j <= c.len(),
            forall|x: int| k <= x < j ==> self.is_false(#[trigger] c[x]),
            j == c.len() || !self.is_false(c[j]),
        ensures
            self.first_free(c, k) == j,
        decreases j - k,
    {
        if k < j {
            assert(self.is_false(c[k]));
            self.lemma_first_free(c, k + 1, j);
        }
    }

    /// `s1` is `self` with the literals of clause `c` in the order `newc`
    /// and with `l` made true at the current level, with clause `c` as its
    /// cause.
    pub(crate) open spec fn forced_step(&self, s1: Solver, c: int, newc: Seq<Lit>, l: Lit) -> bool {
        let v = l.var as int;
        &&& s1.vars@.len() == self.vars@.len()
        &&& forall|u: int| 0 <= u < self.n() && u != v ==> s1.vars@[u] == self.vars@[u]
        &&& s1.vars@[v].watchers == self.vars@[v].watchers
        &&& s1.vars@[v].value == Some(
            Assigned {
                val: l.val,
                cause: Some(c as usize),
                level: self.assumption_history.len(),
                pos: Ghost(self.trail().len() as int),
            },
        )
        &&& s1.history@ == self.history@.push(l.var)
        &&& s1.assumption_history@ == self.assumption_history@
        &&& s1.base_clauses == self.base_clauses
        &&& s1.prop_q == self.prop_q
        &&& s1.unsat == self.unsat
        &&& s1.formula == self.formula
        &&& s1.clauses@.len() == self.clauses@.len()
        &&& forall|k: int| 0 <= k < self.nc() && k != c ==> #[trigger] s1.clauses@[k] == self.clauses@[k]
        &&& s1.clauses@[c]@ == newc
    }

    /// What a visit of `clause` does, for each state that it can meet.
    /// With `c1` the clause after the false literal `!from` was moved to the
    /// second position: if the first literal is true, nothing else changes;
    /// otherwise the first literal from the third position on that is not
    /// false changes places with the second, and its negation is handed
    /// back; if there is none and the first literal has no value, it is made
    /// true with the clause as its cause; and if it is false, the clause is
    /// false and the visit fails.
    pub(crate) open spec fn visit_effect(
        &self,
        s1: Solver,
        clause: int,
        from: Lit,
        r: Result<Option<Lit>, Unsat>,
    ) -> bool {
        let c1 = normalized(self.cl(clause), from.neg());
        let i = self.first_free(c1, 2);
        if self.is_true(c1[0]) {
            r matches Ok(None) && self.clause_step(s1, clause, c1)
        } else if i < c1.len() {
            r matches Ok(Some(x)) && x == c1[i].neg() && self.clause_step(s1, clause, swapped(c1, 1, i))
        } else if !self.assigned(c1[0].var as int) {
            r matches Ok(None) && self.forced_step(s1, clause, c1, c1[0])
        } else {
            r is Err && self.clause_step(s1, clause, c1) && s1.falsified(clause)
        }
    }

    /// What propagation does to the table and the trail between `self` and
    /// `s1`: every clause keeps its literals, in some order, and every
    /// variable that came onto the trail was forced by a clause at the
    /// current level.
    pub(crate) open spec fn steps_to(&self, s1: Solver) -> bool {
        &&& s1.nc() == self.nc()
        &&& forall|k: int| 0 <= k < self.nc() ==> rearranged(self.cl(k), #[trigger] s1.cl(k))
        &&& forall|i: int|
            self.trail().len() <= i < s1.trail().len() ==> s1.cause(#[trigger] s1.trail()[i] as int) is Some
                && s1.level(s1.trail()[i] as int) == s1.cur_level()
    }

    /// Steps of propagation compose.
    pub(crate) proof fn lemma_steps_trans(&self, s0: Solver, s2: Solver)
        requires
            s0.steps_to(*self),
            self.steps_to(s2),
            self.grows_to(s2),
            self.trail_ok(),
        ensures
            s0.steps_to(s2),
    {
        assert forall|k: int| 0 <= k < s0.nc() implies rearranged(s0.cl(k), #[trigger] s2.cl(k)) by {
            assert(rearranged(s0.cl(k), self.cl(k)));
            lemma_rearranged_trans(s0.cl(k), self.cl(k), s2.cl(k));
        }
        assert forall|i: int| s0.trail().len() <= i < s2.trail().len() implies s2.cause(
            #[trigger] s2.trail()[i] as int,
        ) is Some && s2.level(s2.trail()[i] as int) == s2.cur_level() by {
            if i < self.trail().len() {
                assert(s2.trail()[i] == self.trail()[i]);
                assert(self.assigned(self.trail()[i] as int));
            }
        }
    }

    /// A state steps to one with the same table and as long a trail.
    pub(crate) proof fn lemma_steps_frame(&self, s1: Solver)
        requires
            s1.nc() == self.nc(),
            forall|k: int| 0 <= k < self.nc() ==> #[trigger] s1.cl(k) == self.cl(k),
            s1.trail().len() == self.trail().len(),
        ensures
            self.steps_to(s1),
    {
        assert forall|k: int| 0 <= k < self.nc() implies rearranged(self.cl(k), #[trigger] s1.cl(k)) by {
            assert forall|i: int| 0 <= i < self.cl(k).len() implies self.cl(k).contains(#[trigger] self.cl(k)[i]) by {}
        }
    }

    /// Some clause of the table has all its literals false.
    pub(crate) open spec fn has_falsified(&self) -> bool {
        exists|c: int| 0 <= c < self.nc() && #[trigger] self.falsified(c)
    }

    /// A state steps to itself.
    pub(crate) proof fn lemma_steps_self(&self)
        ensures
            self.steps_to(*self),
    {
        assert forall|k: int| 0 <= k < self.nc() implies rearranged(self.cl(k), #[trigger] self.cl(k)) by {
            assert forall|i: int| 0 <= i < self.cl(k).len() implies self.cl(k).contains(#[trigger] self.cl(k)[i]) by {}
        }
    }

    /// A state steps to one that differs in the order of one clause.
    pub(crate) proof fn lemma_steps_clause(&self, s1: Solver, c: int, newc: Seq<Lit>)
        requires
            0 <= c < self.nc(),
            rearranged(self.cl(c), newc),
            s1.clauses@.len() == self.clauses@.len(),
            forall|k: int| 0 <= k < self.nc() && k != c ==> #[trigger] s1.clauses@[k] == self.clauses@[k],
            s1.clauses@[c]@ == newc,
            s1.trail().len() == self.trail().len() || (s1.trail().len() == self.trail().len() + 1 && s1.cause(
                s1.trail()[self.trail().len() as int] as int,
            ) is Some && s1.level(s1.trail()[self.trail().len() as int] as int) == s1.cur_level()),
        ensures
            self.steps_to(s1),
    {
        assert forall|k: int| 0 <= k < self.nc() implies rearranged(self.cl(k), #[trigger] s1.cl(k)) by {
            if k != c {
                assert(s1.clauses@[k] == self.clauses@[k]);
                assert forall|i: int| 0 <= i < self.cl(k).len() implies self.cl(k).contains(
                    #[trigger] self.cl(k)[i],
                ) by {}
            }
        }
    }

    /// `s1` is `self` with the literals of clause `c` in the order `newc`.
    pub(crate) open spec fn clause_step(&self, s1: Solver, c: int, newc: Seq<Lit>) -> bool {
        &&& s1.vars == self.vars
        &&& s1.history == self.history
        &&& s1.assumption_history == self.assumption_history
        &&& s1.base_clauses == self.base_clauses
        &&& s1.prop_q == self.prop_q
        &&& s1.unsat == self.unsat
        &&& s1.formula == self.formula
        &&& s1.clauses@.len() == self.clauses@.len()
        &&& forall|k: int| 0 <= k < self.nc() && k != c ==> #[trigger] s1.clauses@[k] == self.clauses@[k]
        &&& s1.clauses@[c]@ == newc
    }

    /// Both watched literals of `c` are non-false, or one of them is true.
    pub(crate) open spec fn settled(&self, c: int) -> bool {
        ||| !self.is_false(self.cl(c)[0]) && !self.is_false(self.cl(c)[1])
        ||| self.is_true(self.cl(c)[0])
        ||| self.is_true(self.cl(c)[1])
    }

    /// Every literal of `c` is false.
    pub(crate) open spec fn falsified(&self, c: int) -> bool {
        forall|j: int| 0 <= j < self.cl(c).len() ==> self.is_false(#[trigger] self.cl(c)[j])
    }

    /// One literal of `c` is unassigned and all the others are false.
    pub(crate) open spec fn unit(&self, c: int) -> bool {
        exists|j: int|
            0 <= j < self.cl(c).len() && !self.assigned((#[trigger] self.cl(c)[j]).var as int) && forall|k: int|
                0 <= k < self.cl(c).len() && k != j ==> self.is_false(#[trigger] self.cl(c)[k])
    }

    /// No clause is falsified or unit, and the watched literals of every
    /// clause are settled.
    pub(crate) open spec fn quiescent(&self) -> bool {
        forall|c: int|
            0 <= c < self.nc() ==> #[trigger] self.settled(c) && !self.falsified(c) && !self.unit(c)
    }

    /// Once every trail entry has been propagated, the solver is quiescent.
    pub(crate) proof fn lemma_quiescent(&self)
        requires
            self.grounded(),
            self.watched_upto(self.trail().len() as int),
        ensures
            self.quiescent(),
    {
        let p = self.trail().len() as int;
        assert forall|c: int| 0 <= c < self.nc() implies #[trigger] self.settled(c) && !self.falsified(c)
            && !self.unit(c) by {
            assert(clause_ok(self.cl(c), self.n()));
            assert(self.watch_sem(c, 0, p));
            assert(self.watch_sem(c, 1, p));
            let a = self.cl(c)[0];
            let b = self.cl(c)[1];
            if self.is_false(a) {
                assert(self.assigned(a.var as int));
            }
            if self.is_false(b) {
                assert(self.assigned(b.var as int));
            }
            assert(self.settled(c));
            if self.falsified(c) {
                assert(self.is_false(self.cl(c)[0]));
                assert(self.is_false(self.cl(c)[1]));
            }
            if self.unit(c) {
                let j = choose|j: int|
                    0 <= j < self.cl(c).len() && !self.assigned((#[trigger] self.cl(c)[j]).var as int)
                        && forall|k: int|
                        0 <= k < self.cl(c).len() && k != j ==> self.is_false(#[trigger] self.cl(c)[k]);
                if j != 0 {
                    assert(self.is_false(self.cl(c)[0]));
                }
                if j != 1 {
                    assert(self.is_false(self.cl(c)[1]));
                }
            }
        }
    }

    /// Reordering the literals of a clause that is nobody's reason (or
    /// keeping its first literal) keeps the structure.
    pub(crate) proof fn lemma_permute(&self, s1: Solver, c: int, newc: Seq<Lit>)
        requires
            self.structure(),
            0 <= c < self.nc(),
            self.clause_step(s1, c, newc),
            newc.len() == self.cl(c).len(),
            lits_within(newc, self.cl(c)),
            lits_within(self.cl(c), newc),
            clause_ok(newc, self.n()),
            newc[0] == self.cl(c)[0] || !self.is_true(self.cl(c)[0]),
        ensures
            s1.structure(),
            self.complete() ==> s1.complete(),
            self.queue_ok() == s1.queue_ok(),
            self.grows_to(s1),
    {
        let old = self.cl(c);
        assert(clause_ok(old, self.n()));
        assert forall|k: int| 0 <= k < self.nc() && k != c implies s1.cl(k) == self.cl(k) by {
            assert(s1.clauses@[k] == self.clauses@[k]);
        }
        assert(s1.cl(c) == newc);
        assert(s1.clauses_ok()) by {
            assert forall|k: int| 0 <= k < s1.nc() implies clause_ok(#[trigger] s1.cl(k), s1.n()) by {
                if k != c {
                    assert(clause_ok(self.cl(k), self.n()));
                }
            }
        }
        self.lemma_same_assignment(s1);
        assert(s1.reasons_ok()) by {
            assert forall|u: int|
                0 <= u < s1.n() && #[trigger] s1.assigned(u) && s1.cause(u) is Some implies s1.reason_ok(
                u,
            ) by {
                let k = s1.cause(u)->0 as int;
                assert(self.assigned(u));
                assert(self.reason_ok(u));
                if k == c {
                    assert(self.is_true(old[0]));
                    assert forall|j: int| 1 <= j < s1.cl(k).len() implies s1.is_false(
                        #[trigger] s1.cl(k)[j],
                    ) && s1.pos(s1.cl(k)[j].var as int) < s1.pos(u) by {
                        assert(old.contains(newc[j]));
                        let j0 = choose|j0: int| 0 <= j0 < old.len() && old[j0] == newc[j];
                        assert(newc[0].var != newc[j].var);
                        assert(j0 != 0);
                        assert(self.is_false(old[j0]));
                    }
                } else {
                    assert forall|j: int| 1 <= j < s1.cl(k).len() implies s1.is_false(
                        #[trigger] s1.cl(k)[j],
                    ) && s1.pos(s1.cl(k)[j].var as int) < s1.pos(u) by {
                        assert(self.is_false(self.cl(k)[j]));
                    }
                }
            }
        }
        assert(s1.sound()) by {
            assert forall|k: int| 0 <= k < s1.nc() implies entails_clause(
                s1.formula@,
                #[trigger] s1.cl(k),
            ) by {
                assert(entails_clause(self.formula@, self.cl(k)));
                if k == c {
                    lemma_within_entails(self.formula@, old, newc);
                }
            }
            assert forall|u: int|
                0 <= u < s1.n() && #[trigger] s1.assigned(u) && s1.level(u) == 0 implies entails_lit(
                s1.formula@,
                s1.lit_of(u),
            ) by {
                assert(self.assigned(u));
            }
        }
        if self.complete() && !self.unsat {
            assert forall|m: Seq<bool>| #[trigger] s1.models_base(m) implies formula_holds(
                s1.formula@,
                m,
            ) by {
                assert(self.models_base(m)) by {
                    assert forall|k: int| 0 <= k < self.base_clauses implies clause_holds(
                        #[trigger] self.cl(k),
                        m,
                    ) by {
                        assert(clause_holds(s1.cl(k), m));
                        if k == c {
                            lemma_within_holds(newc, old, m);
                        }
                    }
                    assert forall|u: int|
                        0 <= u < self.n() && #[trigger] self.assigned(u) && self.level(u)
                            == 0 implies m[u] == self.val_of(u) by {
                        assert(s1.assigned(u));
                    }
                }
            }
        }
    }

    /// Exchanging the two watched literals of a clause keeps the watch lists
    /// in step and the watched literals as settled as they were.
    pub(crate) proof fn lemma_swap_watched(&self, s1: Solver, c: int)
        requires
            self.grounded(),
            0 <= c < self.nc(),
            self.clause_step(s1, c, swapped(self.cl(c), 0, 1)),
            !self.is_true(self.cl(c)[0]),
        ensures
            s1.grounded(),
            self.complete() ==> s1.complete(),
            self.queue_ok() == s1.queue_ok(),
            self.grows_to(s1),
            forall|p: int| self.watched_upto(p) ==> s1.watched_upto(p),
    {
        let old = self.cl(c);
        let newc = swapped(old, 0, 1);
        assert(clause_ok(old, self.n()));
        lemma_swapped_within(old, 0, 1);
        lemma_swapped_ok(old, 0, 1, self.n());
        self.lemma_permute(s1, c, newc);
        assert forall|k: int| 0 <= k < self.nc() && k != c implies s1.cl(k) == self.cl(k) by {
            assert(s1.clauses@[k] == self.clauses@[k]);
        }
        assert(s1.cl(c) == newc);
        assert forall|u: int, s: int| 0 <= u < s1.n() && 0 <= s < 2 implies s1.wl(u, s) == self.wl(u, s) by {}
        assert(s1.watch_ok()) by {
            assert forall|u: int, s: int, k: int|
                0 <= u < s1.n() && 0 <= s < 2 && 0 <= k < s1.wl(u, s).len() implies {
                &&& (#[trigger] s1.wl(u, s)[k]) < s1.nc()
                &&& s1.watches(s1.wl(u, s)[k] as int, Lit { var: u as usize, val: s == 0 })
            } by {
                let h = self.wl(u, s)[k] as int;
                assert(h < self.nc());
                assert(self.watches(h, Lit { var: u as usize, val: s == 0 }));
            }
            assert forall|u: int, s: int| 0 <= u < s1.n() && 0 <= s < 2 implies (#[trigger] s1.wl(
                u,
                s,
            )).no_duplicates() by {
                assert(self.wl(u, s).no_duplicates());
            }
            assert forall|k: int, w: int| 0 <= k < s1.nc() && 0 <= w < 2 implies #[trigger] s1.listed(
                k,
                w,
            ) by {
                assert(clause_ok(self.cl(k), self.n()));
                if k == c {
                    assert(self.listed(c, 1 - w));
                } else {
                    assert(self.listed(k, w));
                }
            }
        }
        assert forall|p: int| self.watched_upto(p) implies s1.watched_upto(p) by {
            assert forall|k: int, w: int| 0 <= k < s1.nc() && 0 <= w < 2 implies #[trigger] s1.watch_sem(
                k,
                w,
                p,
            ) by {
                if k == c {
                    assert(self.watch_sem(c, 1 - w, p));
                } else {
                    assert(self.watch_sem(k, w, p));
                }
            }
        }
    }

    /// A change that touches the watch lists and the propagation pointer
    /// only keeps the structure and how far the watched literals are settled.
    pub(crate) proof fn lemma_lists_changed(&self, s1: Solver)
        requires
            self.structure(),
            self.same_assignment(s1),
            s1.clauses == self.clauses,
            s1.base_clauses == self.base_clauses,
        ensures
            s1.clauses_ok(),
            s1.trail_ok(),
            s1.levels_ok(),
            s1.reasons_ok(),
            s1.formula == self.formula ==> s1.structure(),
            s1.formula == self.formula && s1.unsat == self.unsat && self.complete() ==> s1.complete(),
            self.prop_q == s1.prop_q ==> self.queue_ok() == s1.queue_ok(),
            s1.formula == self.formula && s1.unsat == self.unsat ==> self.grows_to(s1),
            forall|p: int| self.watched_upto(p) ==> s1.watched_upto(p),
            forall|x: Lit| x.var < self.n() ==> s1.is_true(x) == self.is_true(x) && s1.is_false(x) == self.is_false(x),
            forall|m: Seq<bool>| s1.models_base(m) == self.models_base(m),
    {
        self.lemma_same_assignment(s1);
        assert forall|u: int| 0 <= u < self.n() implies s1.assigned(u) == self.assigned(u) by {
            assert(s1.vars@[u].value == self.vars@[u].value);
        }
        assert forall|x: Lit| x.var < self.n() implies s1.is_false(x) == self.is_false(x) && s1.is_true(x)
            == self.is_true(x) by {
            assert(s1.vars@[x.var as int].value == self.vars@[x.var as int].value);
        }
        assert forall|k: int| 0 <= k < self.nc() implies s1.cl(k) == self.cl(k) by {}
        assert(s1.clauses_ok()) by {
            assert forall|k: int| 0 <= k < s1.nc() implies clause_ok(#[trigger] s1.cl(k), s1.n()) by {
                assert(clause_ok(self.cl(k), self.n()));
            }
        }
        assert(s1.reasons_ok()) by {
            assert forall|u: int|
                0 <= u < s1.n() && #[trigger] s1.assigned(u) && s1.cause(u) is Some implies s1.reason_ok(
                u,
            ) by {
                let k = s1.cause(u)->0 as int;
                assert(self.assigned(u));
                assert(self.reason_ok(u));
                assert(clause_ok(self.cl(k), self.n()));
                assert forall|j: int| 1 <= j < s1.cl(k).len() implies s1.is_false(
                    #[trigger] s1.cl(k)[j],
                ) && s1.pos(s1.cl(k)[j].var as int) < s1.pos(u) by {
                    assert(self.is_false(self.cl(k)[j]));
                    assert(s1.vars@[self.cl(k)[j].var as int].value == self.vars@[self.cl(k)[j].var as int].value);
                }
            }
        }
        if s1.formula == self.formula {
            assert(s1.sound()) by {
                assert forall|k: int| 0 <= k < s1.nc() implies entails_clause(
                    s1.formula@,
                    #[trigger] s1.cl(k),
                ) by {
                    assert(entails_clause(self.formula@, self.cl(k)));
                }
                assert forall|u: int|
                    0 <= u < s1.n() && #[trigger] s1.assigned(u) && s1.level(u) == 0 implies entails_lit(
                    s1.formula@,
                    s1.lit_of(u),
                ) by {
                    assert(self.assigned(u));
                }
            }
        }
        assert forall|m: Seq<bool>| s1.models_base(m) == self.models_base(m) by {
            if s1.models_base(m) {
                assert forall|k: int| 0 <= k < self.base_clauses implies clause_holds(
                    #[trigger] self.cl(k),
                    m,
                ) by {
                    assert(clause_holds(s1.cl(k), m));
                }
                assert forall|u: int|
                    0 <= u < self.n() && #[trigger] self.assigned(u) && self.level(u) == 0 implies m[u]
                    == self.val_of(u) by {
                    assert(s1.assigned(u));
                }
            }
            if self.models_base(m) {
                assert forall|k: int| 0 <= k < s1.base_clauses implies clause_holds(
                    #[trigger] s1.cl(k),
                    m,
                ) by {
                    assert(clause_holds(self.cl(k), m));
                }
                assert forall|u: int|
                    0 <= u < s1.n() && #[trigger] s1.assigned(u) && s1.level(u) == 0 implies m[u]
                    == s1.val_of(u) by {
                    assert(self.assigned(u));
                }
            }
        }
        if s1.formula == self.formula && s1.unsat == self.unsat && self.complete() && !self.unsat {
            assert forall|m: Seq<bool>| #[trigger] s1.models_base(m) implies formula_holds(
                s1.formula@,
                m,
            ) by {
                assert(self.models_base(m));
            }
        }
        assert forall|p: int| self.watched_upto(p) implies s1.watched_upto(p) by {
            assert forall|k: int, w: int| 0 <= k < s1.nc() && 0 <= w < 2 implies #[trigger] s1.watch_sem(
                k,
                w,
                p,
            ) by {
                assert(self.watch_sem(k, w, p));
                assert(clause_ok(self.cl(k), self.n()));
                assert(s1.vars@[self.cl(k)[w].var as int].value == self.vars@[self.cl(k)[w].var as int].value);
                assert(s1.vars@[self.cl(k)[1 - w].var as int].value == self.vars@[self.cl(k)[1
                    - w].var as int].value);
            }
        }
    }

    /// Watch lists that did not change stay in step with an unchanged
    /// clause table.
    pub(crate) proof fn lemma_watch_frame(&self, s1: Solver)
        requires
            self.watch_ok(),
            self.clauses_ok(),
            s1.vars@.len() == self.vars@.len(),
            s1.clauses == self.clauses,
            forall|u: int| 0 <= u < self.n() ==> (#[trigger] s1.vars@[u]).watchers == self.vars@[u].watchers,
        ensures
            s1.watch_ok(),
    {
        assert forall|u: int, s: int| 0 <= u < s1.n() && 0 <= s < 2 implies s1.wl(u, s) == self.wl(u, s) by {
            assert(s1.vars@[u].watchers == self.vars@[u].watchers);
        }
        assert forall|u: int, s: int, k: int|
            0 <= u < s1.n() && 0 <= s < 2 && 0 <= k < s1.wl(u, s).len() implies {
            &&& (#[trigger] s1.wl(u, s)[k]) < s1.nc()
            &&& s1.watches(s1.wl(u, s)[k] as int, Lit { var: u as usize, val: s == 0 })
        } by {
            assert(self.wl(u, s)[k] < self.nc());
        }
        assert forall|u: int, s: int| 0 <= u < s1.n() && 0 <= s < 2 implies (#[trigger] s1.wl(
            u,
            s,
        )).no_duplicates() by {
            assert(self.wl(u, s).no_duplicates());
        }
        assert forall|k: int, w: int| 0 <= k < s1.nc() && 0 <= w < 2 implies #[trigger] s1.listed(k, w) by {
            assert(self.listed(k, w));
            assert(clause_ok(self.cl(k), self.n()));
        }
    }

    /// Moves the watched literal `!from` of `clause` to the second position.
    pub(crate) fn face_watch(&mut self, clause: usize, from: Lit)
        requires
            old(self).grounded(),
            clause < old(self).nc(),
            old(self).is_true(from),
            old(self).watches(clause as int, from.neg()),
        ensures
            final(self).grounded(),
            old(self).complete() ==> final(self).complete(),
            old(self).queue_ok() ==> final(self).queue_ok(),
            old(self).grows_to(*final(self)),
            old(self).clause_step(*final(self), clause as int, normalized(old(self).cl(clause as int), from.neg())),
            final(self).cl(clause as int)[1] == from.neg(),
            forall|p: int| old(self).watched_upto(p) ==> final(self).watched_upto(p),
    {
        proof {
            assert(clause_ok(self.cl(clause as int), self.n()));
        }
        let a = self.clauses[clause][0];
        if a.not() == from {
            let b = self.clauses[clause][1];
            self.clauses[clause][0] = b;
            self.clauses[clause][1] = a;
            proof {
                assert(a == from.neg());
                assert(self.clauses@[clause as int]@ == swapped(old(self).cl(clause as int), 0, 1));
                old(self).lemma_swap_watched(*self, clause as int);
            }
        } else {
            proof {
                self.lemma_grows_self();
            }
        }
    }

    /// The first position after the two watched ones whose literal is not
    /// false.
    pub(crate) fn find_free(&self, clause: usize) -> (r: Option<usize>)
        requires
            self.clauses_ok(),
            clause < self.nc(),
        ensures
            match r {
                Some(i) => {
                    &&& 2 <= i < self.cl(clause as int).len()
                    &&& !self.is_false(self.cl(clause as int)[i as int])
                    &&& forall|k: int| 2 <= k < i ==> self.is_false(#[trigger] self.cl(clause as int)[k])
                    &&& i == self.first_free(self.cl(clause as int), 2)
                },
                None => {
                    &&& forall|k: int|
                        2 <= k < self.cl(clause as int).len() ==> self.is_false(
                            #[trigger] self.cl(clause as int)[k],
                        )
                    &&& self.first_free(self.cl(clause as int), 2) == self.cl(clause as int).len()
                },
            },
    {
        proof {
            assert(clause_ok(self.cl(clause as int), self.n()));
        }
        let len = self.clauses[clause].len();
        let mut i: usize = 2;
        while i < len
            invariant
                clause < self.nc(),
                len == self.cl(clause as int).len(),
                clause_ok(self.cl(clause as int), self.n()),
                2 <= i,
                forall|k: int| 2 <= k < i && k < len ==> self.is_false(#[trigger] self.cl(clause as int)[k]),
            decreases len - i,
        {
            let lit = self.clauses[clause][i];
            match self.val(lit) {
                Some(false) => {},
                _ => {
                    proof {
                        self.lemma_first_free(self.cl(clause as int), 2, i as int);
                    }
                    return Some(i);
                },
            }
            i = i + 1;
        }
        proof {
            self.lemma_first_free(self.cl(clause as int), 2, len as int);
        }
        None
    }

    /// Exchanges the false second watched literal of `clause` with the
    /// literal at `i`, which is not false.
    pub(crate) fn move_watch(&mut self, clause: usize, i: usize)
        requires
            old(self).structure(),
            clause < old(self).nc(),
            2 <= i < old(self).cl(clause as int).len(),
            old(self).is_false(old(self).cl(clause as int)[1]),
            !old(self).is_false(old(self).cl(clause as int)[i as int]),
        ensures
            final(self).structure(),
            old(self).complete() ==> final(self).complete(),
            old(self).queue_ok() ==> final(self).queue_ok(),
            old(self).grows_to(*final(self)),
            old(self).clause_step(*final(self), clause as int, swapped(old(self).cl(clause as int), 1, i as int)),
            forall|p: int| old(self).watched_upto(p) ==> final(self).watched_upto(p),
    {
        let ghost c1 = self.cl(clause as int);
        proof {
            assert(clause_ok(c1, self.n()));
        }
        let lit = self.clauses[clause][i];
        let b = self.clauses[clause][1];
        self.clauses[clause][1] = lit;
        self.clauses[clause][i] = b;
        proof {
            let newc = swapped(c1, 1, i as int);
            assert(self.clauses@[clause as int]@ == newc);
            lemma_swapped_within(c1, 1, i as int);
            lemma_swapped_ok(c1, 1, i as int, old(self).n());
            old(self).lemma_permute(*self, clause as int, newc);
            old(self).lemma_move_settled(*self, clause as int, i as int);
        }
    }

    /// Giving a clause a second watched literal that is not false, in place of
    /// a false one, leaves the watched literals as settled as they were.
    pub(crate) proof fn lemma_move_settled(&self, s1: Solver, c: int, i: int)
        requires
            self.clauses_ok(),
            0 <= c < self.nc(),
            2 <= i < self.cl(c).len(),
            self.is_false(self.cl(c)[1]),
            !self.is_false(self.cl(c)[i]),
            self.clause_step(s1, c, swapped(self.cl(c), 1, i)),
        ensures
            forall|p: int| self.watched_upto(p) ==> s1.watched_upto(p),
    {
        assert forall|p: int| self.watched_upto(p) implies s1.watched_upto(p) by {
            assert forall|k: int, w: int| 0 <= k < s1.nc() && 0 <= w < 2 implies #[trigger] s1.watch_sem(
                k,
                w,
                p,
            ) by {
                if k == c {
                    assert(self.watch_sem(k, 0, p));
                } else {
                    assert(s1.clauses@[k] == self.clauses@[k]);
                    assert(self.watch_sem(k, w, p));
                }
            }
        }
    }

    /// Looks at clause `clause` after its watched literal `!from` became
    /// false. That literal is moved to the second position. If the first is
    /// true, nothing more is done. Otherwise the first literal after the two
    /// that is not false takes the second position and its negation is
    /// returned: the caller moves the clause to that literal's watch list.
    /// If there is none, the first literal is enqueued with the clause as
    /// its cause, which is a conflict if that literal is false.
    #[verifier::rlimit(50)]
    pub(crate) fn visit(&mut self, clause: usize, from: Lit) -> (r: Result<Option<Lit>, Unsat>)
        requires
            old(self).grounded(),
            clause < old(self).nc(),
            from.var < old(self).n(),
            old(self).is_true(from),
            old(self).level(from.var as int) == old(self).cur_level(),
            old(self).watches(clause as int, from.neg()),
        ensures
            final(self).structure(),
            old(self).complete() ==> final(self).complete(),
            old(self).queue_ok() ==> final(self).queue_ok(),
            old(self).grows_to(*final(self)),
            final(self).prop_q == old(self).prop_q,
            forall|k: int|
                0 <= k < old(self).nc() && k != clause ==> #[trigger] final(self).clauses@[k] == old(self).clauses@[k],
            forall|u: int|
                0 <= u < old(self).n() ==> (#[trigger] final(self).vars@[u]).watchers == old(self).vars@[u].watchers,
            forall|p: int|
                p <= old(self).trail().len() && old(self).watched_upto(p) ==> final(self).watched_upto(p),
            old(self).visit_effect(*final(self), clause as int, from, r),
            old(self).steps_to(*final(self)),
            match r {
                Ok(None) => {
                    &&& final(self).watch_ok()
                    &&& final(self).cl(clause as int)[1] == from.neg()
                    &&& final(self).is_true(final(self).cl(clause as int)[0])
                },
                Ok(Some(x)) => {
                    let c1 = normalized(old(self).cl(clause as int), from.neg());
                    &&& final(self).vars == old(self).vars
                    &&& final(self).history == old(self).history
                    &&& c1[1] == from.neg()
                    &&& exists|i: int|
                        2 <= i < c1.len() && final(self).cl(clause as int) == swapped(c1, 1, i) && x == (
                        #[trigger] c1[i]).neg()
                },
                Err(e) => {
                    &&& final(self).watch_ok()
                    &&& final(self).conflict_ok(e)
                    &&& (e.learnt@.len() == 0) == (final(self).cur_level() == 0)
                    &&& final(self).vars == old(self).vars
                    &&& final(self).history == old(self).history
                    &&& final(self).falsified(clause as int)
                    &&& final(self).uip_ok(clause as int, e)
                },
            },
    {
        self.face_watch(clause, from);
        let ghost sa = *self;
        let ghost c0 = old(self).cl(clause as int);
        let ghost c1 = self.cl(clause as int);
        proof {
            assert(clause_ok(c0, old(self).n()));
            assert(clause_ok(c1, self.n()));
            assert(self.is_false(from.neg()));
            lemma_swapped_within(c0, 0, 1);
            assert(rearranged(c0, c1)) by {
                assert forall|i: int| 0 <= i < c0.len() implies c0.contains(#[trigger] c0[i]) by {}
            }
            assert(c1 == normalized(c0, from.neg()));
            assert forall|x: Lit| x.var < self.n() implies sa.is_true(x) == old(self).is_true(x) && sa.is_false(x)
                == old(self).is_false(x) by {}
            old(self).lemma_first_free_same(sa, c1, 2);
        }
        let first = self.clauses[clause][0];
        match self.val(first) {
            Some(true) => {
                proof {
                    old(self).lemma_steps_clause(*self, clause as int, c1);
                }
                return Ok(None);
            },
            _ => {},
        }
        match self.find_free(clause) {
            Some(i) => {
                let lit = self.clauses[clause][i];
                self.move_watch(clause, i);
                proof {
                    assert forall|k: int| 0 <= k < old(self).nc() && k != clause implies #[trigger] self.clauses@[k]
                        == old(self).clauses@[k] by {
                        assert(sa.clauses@[k] == old(self).clauses@[k]);
                    }
                    assert(lit == c1[i as int]);
                    sa.lemma_grows_trans(*old(self), *self);
                    lemma_swapped_within(c1, 1, i as int);
                    assert(rearranged(c1, swapped(c1, 1, i as int))) by {
                        assert forall|j: int| 0 <= j < c1.len() implies c1.contains(#[trigger] c1[j]) by {}
                    }
                    lemma_rearranged_trans(c0, c1, swapped(c1, 1, i as int));
                    old(self).lemma_steps_clause(*self, clause as int, swapped(c1, 1, i as int));
                }
                Ok(Some(lit.not()))
            },
            None => {
                proof {
                    assert forall|j: int| 1 <= j < self.cl(clause as int).len() implies self.is_false(
                        #[trigger] self.cl(clause as int)[j],
                    ) by {}
                }
                let r = self.enqueue(first, Some(clause));
                proof {
                    assert forall|k: int| 0 <= k < old(self).nc() && k != clause implies #[trigger] self.clauses@[k]
                        == old(self).clauses@[k] by {
                        assert(sa.clauses@[k] == old(self).clauses@[k]);
                    }
                    sa.lemma_grows_trans(*old(self), *self);
                    assert(self.cl(clause as int) == c1);
                    if r is Ok {
                        assert(!sa.is_true(first));
                        assert(self.trail().len() == sa.trail().len() + 1);
                        assert(self.trail()[sa.trail().len() as int] == first.var);
                    }
                    old(self).lemma_steps_clause(*self, clause as int, c1);
                }
                match r {
                    Ok(()) => Ok(None),
                    Err(e) => Err(e),
                }
            },
        }
    }

    /// The first literal that is not false is the same in a state with the
    /// same values.
    pub(crate) proof fn lemma_first_free_same(&self, s1: Solver, c: Seq<Lit>, k: int)
        requires
            0 <= k,
            forall|j: int| 0 <= j < c.len() ==> s1.is_false(#[trigger] c[j]) == self.is_false(c[j]),
        ensures
            self.first_free(c, k) == s1.first_free(c, k),
        decreases c.len() - k,
    {
        if k < c.len() {
            assert(s1.is_false(c[k]) == self.is_false(c[k]));
            if self.is_false(c[k]) {
                self.lemma_first_free_same(s1, c, k + 1);
            }
        }
    }

    /// Growth of the trail composes.
    pub(crate) proof fn lemma_grows_trans(&self, s0: Solver, s2: Solver)
        requires
            s0.grows_to(*self),
            self.grows_to(s2),
        ensures
            s0.grows_to(s2),
    {
        assert forall|i: int| 0 <= i < s0.trail().len() implies #[trigger] s2.trail()[i] == s0.trail()[i] by {
            assert(self.trail()[i] == s0.trail()[i]);
        }
        assert forall|u: int| 0 <= u < s0.n() && #[trigger] s0.assigned(u) implies s2.vars@[u].value
            == s0.vars@[u].value by {
            assert(self.vars@[u].value == s0.vars@[u].value);
            assert(self.assigned(u));
        }
    }

    /// The clause `h` has `fl` as its second watched literal and a true
    /// first literal.
    pub(crate) open spec fn visited(&self, h: int, fl: Lit) -> bool {
        self.cl(h)[1] == fl && self.is_true(self.cl(h)[0])
    }

    /// The state while the watch list of `from`'s variable is swept: the
    /// variable stands at trail index `q`, which is the last one taken from
    /// the queue, and the first `i` clauses of the list have been visited.
    pub(crate) open spec fn sweeping(&self, from: Lit, q: int, i: int) -> bool {
        let s = from.neg().slot();
        &&& self.inv()
        &&& self.queue_ok()
        &&& self.watched_upto(q)
        &&& self.prop_q == q + 1
        &&& 0 <= q < self.trail().len()
        &&& self.trail()[q] == from.var
        &&& from.var < self.n()
        &&& self.is_true(from)
        &&& self.level(from.var as int) == self.cur_level()
        &&& 0 <= i <= self.wl(from.var as int, s).len()
        &&& forall|k: int| 0 <= k < i ==> self.visited(#[trigger] self.wl(from.var as int, s)[k] as int, from.neg())
    }

    /// The sweep goes on after a clause that stays in the list.
    pub(crate) proof fn lemma_case_kept(&self, s1: Solver, from: Lit, q: int, i: int)
        requires
            self.sweeping(from, q, i),
            i < self.wl(from.var as int, from.neg().slot()).len(),
            s1.structure(),
            s1.watch_ok(),
            self.complete() ==> s1.complete(),
            self.queue_ok() ==> s1.queue_ok(),
            self.grows_to(s1),
            s1.prop_q == self.prop_q,
            forall|k: int|
                0 <= k < self.nc() && k != self.wl(from.var as int, from.neg().slot())[i] ==> #[trigger] s1.clauses@[k]
                    == self.clauses@[k],
            forall|u: int| 0 <= u < self.n() ==> (#[trigger] s1.vars@[u]).watchers == self.vars@[u].watchers,
            forall|p: int| p <= self.trail().len() && self.watched_upto(p) ==> s1.watched_upto(p),
            s1.visited(self.wl(from.var as int, from.neg().slot())[i] as int, from.neg()),
        ensures
            s1.sweeping(from, q, i + 1),
            s1.wl(from.var as int, from.neg().slot()).len() == self.wl(from.var as int, from.neg().slot()).len(),
    {
        let v = from.var as int;
        let s = from.neg().slot();
        let fl = from.neg();
        let list = self.wl(v, s);
        assert(s1.vars@[v].watchers == self.vars@[v].watchers);
        assert(s1.wl(v, s) == list);
        assert(list.no_duplicates());
        assert(self.assigned(v));
        assert(s1.vars@[v].value == self.vars@[v].value);
        assert(s1.trail()[q] == self.trail()[q]);
        assert forall|k: int| 0 <= k < i + 1 implies s1.visited(#[trigger] s1.wl(v, s)[k] as int, fl) by {
            if k < i {
                let h = list[k] as int;
                assert(h != list[i]);
                assert(h < self.nc());
                assert(s1.clauses@[h] == self.clauses@[h]);
                assert(self.visited(h, fl));
                assert(clause_ok(self.cl(h), self.n()));
                let x = self.cl(h)[0];
                assert(self.assigned(x.var as int));
                assert(s1.vars@[x.var as int].value == self.vars@[x.var as int].value);
            }
        }
    }

    /// How the watch lists of `s3` come from those of `self` when the clause
    /// at index `i` of list `(v, s)` moves to the list of the literal `nw`.
    pub(crate) open spec fn lists_moved(&self, s3: Solver, v: int, s: int, i: int, nw: Lit) -> bool {
        let c = self.wl(v, s)[i];
        forall|u: int, t: int|
            0 <= u < self.n() && 0 <= t < 2 ==> #[trigger] s3.wl(u, t) == if u == nw.var && t == nw.slot() {
                self.wl(u, t).push(c)
            } else if u == v && t == s {
                self.wl(u, t).update(i, self.wl(u, t).last()).drop_last()
            } else {
                self.wl(u, t)
            }
    }

    /// After the clause at index `i` of list `(v, s)` got the literal at
    /// `at` as its second watched literal, was appended to that literal's
    /// list and was removed from `(v, s)`, the watch lists are in step with
    /// the clause table again.
    pub(crate) proof fn lemma_rewatch(&self, s3: Solver, v: int, s: int, i: int, at: int)
        requires
            self.clauses_ok(),
            self.watch_ok(),
            0 <= v < self.n(),
            0 <= s < 2,
            0 <= i < self.wl(v, s).len(),
            s3.n() == self.n(),
            s3.nc() == self.nc(),
            ({
                let c = self.wl(v, s)[i] as int;
                let fl = Lit { var: v as usize, val: s == 0 };
                let c1 = normalized(self.cl(c), fl);
                &&& c1[1] == fl
                &&& 2 <= at < c1.len()
                &&& s3.cl(c) == swapped(c1, 1, at)
                &&& forall|k: int| 0 <= k < self.nc() && k != c ==> #[trigger] s3.cl(k) == self.cl(k)
                &&& self.lists_moved(s3, v, s, i, c1[at])
            }),
        ensures
            s3.watch_ok(),
    {
        let fl = Lit { var: v as usize, val: s == 0 };
        let list = self.wl(v, s);
        let c = list[i] as int;
        let c0 = self.cl(c);
        let c1 = normalized(c0, fl);
        let nw = c1[at];
        self.lemma_sizes();
        assert(c < self.nc());
        assert(self.watches(c, fl));
        assert(clause_ok(c0, self.n()));
        lemma_swapped_ok(c0, 0, 1, self.n());
        assert(clause_ok(c1, self.n()));
        assert(c1[at] == c0[at]);
        assert(nw.var != fl.var);
        assert(list.no_duplicates());
        assert(s3.wl(v, s) == list.update(i, list.last()).drop_last());
        let target = self.wl(nw.var as int, nw.slot());
        assert(s3.wl(nw.var as int, nw.slot()) == target.push(c as usize));
        // the clause was not in the list of its new watched literal
        assert(!target.contains(c as usize)) by {
            if target.contains(c as usize) {
                let k = choose|k: int| 0 <= k < target.len() && target[k] == c as usize;
                assert(self.watches(target[k] as int, Lit { var: nw.var, val: nw.slot() == 0 }));
            }
        }
        assert forall|u: int, t: int, k: int|
            0 <= u < s3.n() && 0 <= t < 2 && 0 <= k < s3.wl(u, t).len() implies {
            &&& (#[trigger] s3.wl(u, t)[k]) < s3.nc()
            &&& s3.watches(s3.wl(u, t)[k] as int, Lit { var: u as usize, val: t == 0 })
        } by {
            let l = Lit { var: u as usize, val: t == 0 };
            if u == nw.var && t == nw.slot() {
                if k < target.len() {
                    let h = target[k] as int;
                    assert(h < self.nc() && self.watches(h, l));
                    assert(target.contains(h as usize));
                    assert(s3.cl(h) == self.cl(h));
                } else {
                    assert(s3.wl(u, t)[k] == c);
                    assert(l == nw);
                }
            } else if u == v && t == s {
                let k0 = if k == i { list.len() - 1 } else { k };
                assert(s3.wl(u, t)[k] == list[k0]);
                let h = list[k0] as int;
                assert(h < self.nc() && self.watches(h, l));
                assert(h != c);
                assert(s3.cl(h) == self.cl(h));
            } else {
                let h = self.wl(u, t)[k] as int;
                assert(s3.wl(u, t)[k] == h);
                assert(h < self.nc() && self.watches(h, l));
                if h == c {
                    assert(c1[1] == fl);
                    assert(l != fl);
                    assert(l == c1[0]);
                } else {
                    assert(s3.cl(h) == self.cl(h));
                }
            }
        }
        assert forall|u: int, t: int| 0 <= u < s3.n() && 0 <= t < 2 implies (#[trigger] s3.wl(
            u,
            t,
        )).no_duplicates() by {
            assert(self.wl(u, t).no_duplicates());
            let z = s3.wl(u, t);
            if u == nw.var && t == nw.slot() {
                assert forall|a: int, b: int| 0 <= a < z.len() && 0 <= b < z.len() && a != b implies z[a]
                    != z[b] by {
                    if a < target.len() {
                        assert(target.contains(z[a]));
                    }
                    if b < target.len() {
                        assert(target.contains(z[b]));
                    }
                }
            } else if u == v && t == s {
                assert forall|a: int, b: int| 0 <= a < z.len() && 0 <= b < z.len() && a != b implies z[a]
                    != z[b] by {
                    let a0 = if a == i { list.len() - 1 } else { a };
                    let b0 = if b == i { list.len() - 1 } else { b };
                    assert(z[a] == list[a0]);
                    assert(z[b] == list[b0]);
                }
            }
        }
        assert forall|k: int, w: int| 0 <= k < s3.nc() && 0 <= w < 2 implies #[trigger] s3.listed(k, w) by {
            assert(clause_ok(self.cl(k), self.n()));
            if k == c {
                if w == 0 {
                    let w0: int = if c0[0] == fl { 1 } else { 0 };
                    assert(c1[0] == c0[w0]);
                    assert(self.listed(c, w0));
                    assert(c1[0].var != fl.var);
                    assert(c1[0].var != nw.var);
                    assert(s3.wl(c1[0].var as int, c1[0].slot()) == self.wl(c1[0].var as int, c1[0].slot()));
                } else {
                    assert(s3.cl(c)[1] == nw);
                    let z = s3.wl(nw.var as int, nw.slot());
                    assert(z[z.len() - 1] == c as usize);
                }
            } else {
                assert(s3.cl(k) == self.cl(k));
                let y = self.cl(k)[w];
                assert(self.listed(k, w));
                let yl = self.wl(y.var as int, y.slot());
                let j = choose|j: int| 0 <= j < yl.len() && yl[j] == k as usize;
                let z = s3.wl(y.var as int, y.slot());
                if y.var == nw.var && y.slot() == nw.slot() {
                    assert(z[j] == k as usize);
                } else if y.var == v && y.slot() == s {
                    if j == list.len() - 1 {
                        assert(j != i);
                        assert(z[i] == k as usize);
                    } else {
                        assert(z[j] == k as usize);
                    }
                } else {
                    assert(z[j] == k as usize);
                }
            }
        }
    }

    /// The sweep goes on at the same index after the clause at that index
    /// moved to another list.
    pub(crate) proof fn lemma_case_moved(&self, s1: Solver, s3: Solver, from: Lit, q: int, i: int)
        requires
            self.sweeping(from, q, i),
            i < self.wl(from.var as int, from.neg().slot()).len(),
            s1.structure(),
            self.complete() ==> s1.complete(),
            self.queue_ok() ==> s1.queue_ok(),
            self.grows_to(s1),
            s1.prop_q == self.prop_q,
            s1.vars == self.vars,
            s1.history == self.history,
            forall|k: int|
                0 <= k < self.nc() && k != self.wl(from.var as int, from.neg().slot())[i] ==> #[trigger] s1.clauses@[k]
                    == self.clauses@[k],
            forall|p: int| p <= self.trail().len() && self.watched_upto(p) ==> s1.watched_upto(p),
            s1.same_assignment(s3),
            s3.clauses == s1.clauses,
            s3.base_clauses == s1.base_clauses,
            s3.unsat == s1.unsat,
            s3.formula == s1.formula,
            s3.prop_q == s1.prop_q,
            s3.watch_ok(),
            forall|k: int|
                0 <= k < i ==> #[trigger] s3.wl(from.var as int, from.neg().slot())[k] == self.wl(
                    from.var as int,
                    from.neg().slot(),
                )[k],
            i <= s3.wl(from.var as int, from.neg().slot()).len(),
        ensures
            s3.sweeping(from, q, i),
            self.grows_to(s3),
    {
        let v = from.var as int;
        let s = from.neg().slot();
        let fl = from.neg();
        let list = self.wl(v, s);
        let c = list[i] as int;
        self.lemma_sizes();
        assert(list.no_duplicates());
        s1.lemma_lists_changed(s3);
        s1.lemma_grows_trans(*self, s3);
        assert(self.assigned(v));
        assert(s1.assigned(v));
        assert(s3.vars@[v].value == s1.vars@[v].value);
        assert forall|k: int| 0 <= k < i implies s3.visited(#[trigger] s3.wl(v, s)[k] as int, fl) by {
            let h = list[k] as int;
            assert(s3.wl(v, s)[k] == list[k]);
            assert(h != c);
            assert(h < self.nc());
            assert(s1.clauses@[h] == self.clauses@[h]);
            assert(self.visited(h, fl));
            assert(clause_ok(self.cl(h), self.n()));
            let x = self.cl(h)[0];
            assert(self.assigned(x.var as int));
            assert(s3.vars@[x.var as int].value == s1.vars@[x.var as int].value);
        }
        assert(s1.watched_upto(q));
        assert(s3.watched_upto(q));
    }

    /// When every clause in the list of the literal that the variable at
    /// trail index `q` made false has been visited, the watched literals are
    /// settled up to and including `q`.
    pub(crate) proof fn lemma_sweep_done(&self, from: Lit, q: int)
        requires
            self.sweeping(from, q, self.wl(from.var as int, from.neg().slot()).len() as int),
        ensures
            self.watched_upto(q + 1),
            self.searching(),
    {
        let v = from.var as int;
        let fl = from.neg();
        let list = self.wl(v, fl.slot());
        self.lemma_sizes();
        assert forall|c: int, w: int| 0 <= c < self.nc() && 0 <= w < 2 implies #[trigger] self.watch_sem(
            c,
            w,
            q + 1,
        ) by {
            assert(self.watch_sem(c, w, q));
            assert(clause_ok(self.cl(c), self.n()));
            let x = self.cl(c)[w];
            if self.is_false(x) && self.pos(x.var as int) == q {
                assert(self.assigned(x.var as int));
                assert(self.trail()[self.pos(x.var as int)] == x.var);
                assert(x == fl);
                assert(self.listed(c, w));
                let k = choose|k: int| 0 <= k < list.len() && list[k] == c as usize;
                assert(self.visited(list[k] as int, fl));
                assert(w == 1);
                let y = self.cl(c)[0];
                assert(self.assigned(y.var as int));
            }
        }
    }

    /// Watched literals that are settled up to `p` are settled up to any
    /// earlier index.
    pub(crate) proof fn lemma_watched_mono(&self, p: int, p2: int)
        requires
            self.watched_upto(p),
            p2 <= p,
        ensures
            self.watched_upto(p2),
    {
        assert forall|c: int, w: int| 0 <= c < self.nc() && 0 <= w < 2 implies #[trigger] self.watch_sem(
            c,
            w,
            p2,
        ) by {
            assert(self.watch_sem(c, w, p));
        }
    }

    /// Visits, one after the other, the clauses that watch the literal
    /// which `from` made false. A clause that finds another literal to watch
    /// leaves the list for that literal's; the others stay.
    #[verifier::rlimit(50)]
    pub(crate) fn sweep(&mut self, from: Lit, Ghost(q): Ghost<int>) -> (r: Result<(), Unsat>)
        requires
            old(self).sweeping(from, q, 0),
        ensures
            final(self).inv(),
            final(self).queue_ok(),
            old(self).grows_to(*final(self)),
            old(self).steps_to(*final(self)),
            final(self).prop_q == old(self).prop_q,
            match r {
                Ok(()) => final(self).searching(),
                Err(e) => {
                    &&& final(self).watched_upto(q)
                    &&& final(self).conflict_ok(e)
                    &&& (e.learnt@.len() == 0) == (final(self).cur_level() == 0)
                    &&& final(self).has_falsified()
                    &&& final(self).conflict_at(e)
                },
            },
    {
        let var = from.var;
        let s = slot_of(from.val);
        let mut i: usize = 0;
        proof {
            self.lemma_grows_self();
            self.lemma_steps_self();
        }
        while i < self.vars[var].watchers[s].len()
            invariant
                self.sweeping(from, q, i as int),
                old(self).grows_to(*self),
                old(self).steps_to(*self),
                self.prop_q == old(self).prop_q,
                s == from.neg().slot(),
                var == from.var,
            decreases self.wl(var as int, s as int).len() - i,
        {
            let c = self.vars[var].watchers[s][i];
            let ghost s0 = *self;
            proof {
                self.lemma_sizes();
                assert(c == self.wl(var as int, s as int)[i as int]);
                assert(Lit { var: var, val: s == 0 } == from.neg());
                assert(self.watches(c as int, from.neg()));
            }
            match self.visit(c, from) {
                Err(e) => {
                    proof {
                        s0.lemma_steps_trans(*old(self), *self);
                        s0.lemma_grows_trans(*old(self), *self);
                        assert(self.falsified(c as int));
                        self.lemma_conflict_at(c as int, e);
                    }
                    return Err(e);
                },
                Ok(Some(x)) => {
                    let ghost s1 = *self;
                    let ghost c1 = normalized(s0.cl(c as int), from.neg());
                    let ghost at = choose|at: int|
                        2 <= at < c1.len() && s1.cl(c as int) == swapped(c1, 1, at) && x == (#[trigger] c1[at]).neg();
                    proof {
                        assert(clause_ok(s0.cl(c as int), s0.n()));
                        lemma_swapped_ok(s0.cl(c as int), 0, 1, s0.n());
                        assert(c1[at].var < s0.n());
                        assert(c1[at].var != c1[1].var);
                    }
                    let t = slot_of(x.val);
                    self.vars[x.var].watchers[t].push(c);
                    self.vars[var].watchers[s].swap_remove(i);
                    proof {
                        let nw = c1[at];
                        assert(t == nw.slot());
                        assert forall|u: int, t2: int| 0 <= u < s0.n() && 0 <= t2 < 2 implies #[trigger] self.wl(
                            u,
                            t2,
                        ) == if u == nw.var && t2 == nw.slot() {
                            s0.wl(u, t2).push(c)
                        } else if u == var && t2 == s {
                            s0.wl(u, t2).update(i as int, s0.wl(u, t2).last()).drop_last()
                        } else {
                            s0.wl(u, t2)
                        } by {
                            assert(s1.vars@[u] == s0.vars@[u]);
                        }
                        assert forall|k: int| 0 <= k < s0.nc() && k != c implies #[trigger] self.cl(k) == s0.cl(
                            k,
                        ) by {
                            assert(s1.clauses@[k] == s0.clauses@[k]);
                        }
                        s0.lemma_rewatch(*self, var as int, s as int, i as int, at);
                        assert(s1.same_assignment(*self)) by {
                            assert forall|u: int| 0 <= u < s1.n() implies (#[trigger] self.vars@[u]).value
                                == s1.vars@[u].value by {}
                        }
                        s0.lemma_case_moved(s1, *self, from, q, i as int);
                        assert(s0.steps_to(*self)) by {
                            s1.lemma_steps_frame(*self);
                            s1.lemma_steps_trans(s0, *self);
                        }
                        s0.lemma_steps_trans(*old(self), *self);
                        s0.lemma_grows_trans(*old(self), *self);
                    }
                },
                Ok(None) => {
                    proof {
                        s0.lemma_case_kept(*self, from, q, i as int);
                        s0.lemma_steps_trans(*old(self), *self);
                        s0.lemma_grows_trans(*old(self), *self);
                    }
                    i = i + 1;
                },
            }
        }
        proof {
            self.lemma_sweep_done(from, q);
        }
        Ok(())
    }

    /// Boolean constraint propagation: takes the trail entries that are
    /// still to be propagated, in trail order, and visits the clauses that
    /// watch the literal each of them made false, until the queue is empty
    /// or a clause is found false.
    ///
    /// The trail only grows, at the current level, by variables that a
    /// clause forced, and every clause keeps its literals, in some order.
    /// When no conflict comes up, no clause is left false or unit, and in
    /// every clause the two watched literals are both non-false or one of
    /// them is true. On a conflict some clause has all its literals false,
    /// the queue is emptied and the outcome of the analysis of that clause
    /// is returned.
    #[verifier::rlimit(50)]
    pub(crate) fn propagate(&mut self) -> (r: Result<(), Unsat>)
        requires
            old(self).searching(),
        ensures
            final(self).inv(),
            final(self).queue_ok(),
            final(self).ascending(),
            old(self).grows_to(*final(self)),
            old(self).steps_to(*final(self)),
            final(self).prop_q == final(self).trail().len(),
            match r {
                Ok(()) => final(self).watched_upto(final(self).trail().len() as int) && final(self).quiescent(),
                Err(e) => {
                    &&& final(self).watched_upto(final(self).level_start())
                    &&& final(self).conflict_ok(e)
                    &&& (e.learnt@.len() == 0) == (final(self).cur_level() == 0)
                    &&& final(self).has_falsified()
                    &&& final(self).conflict_at(e)
                },
            },
    {
        proof {
            self.lemma_grows_self();
            self.lemma_steps_self();
        }
        while self.prop_q < self.history.len()
            invariant
                self.searching(),
                old(self).grows_to(*self),
                old(self).steps_to(*self),
            decreases self.n() - self.prop_q,
        {
            let var = self.history[self.prop_q];
            let ghost q = self.prop_q as int;
            let ghost s0 = *self;
            proof {
                self.lemma_trail_bound();
                assert(self.assigned(var as int));
            }
            self.prop_q = self.prop_q + 1;
            let val = self.value_of(var);
            let from = Lit { var, val };
            proof {
                assert(s0.same_assignment(*self)) by {
                    assert forall|u: int| 0 <= u < s0.n() implies (#[trigger] self.vars@[u]).value
                        == s0.vars@[u].value by {}
                }
                s0.lemma_lists_changed(*self);
                s0.lemma_watch_frame(*self);
                assert(self.queue_ok()) by {
                    assert forall|i: int| self.prop_q <= i < self.trail().len() implies self.level(
                        #[trigger] self.trail()[i] as int,
                    ) == self.cur_level() by {
                        assert(s0.level(s0.trail()[i] as int) == s0.cur_level());
                    }
                }
                assert(s0.level(s0.trail()[q] as int) == s0.cur_level());
                assert(self.sweeping(from, q, 0));
                s0.lemma_steps_frame(*self);
                s0.lemma_steps_trans(*old(self), *self);
                s0.lemma_grows_trans(*old(self), *self);
            }
            let ghost s1 = *self;
            match self.sweep(from, Ghost(q)) {
                Err(e) => {
                    let ghost s2 = *self;
                    self.prop_q = self.history.len();
                    proof {
                        assert(s2.same_assignment(*self)) by {
                            assert forall|u: int| 0 <= u < s2.n() implies (#[trigger] self.vars@[u]).value
                                == s2.vars@[u].value by {}
                        }
                        s2.lemma_lists_changed(*self);
                        s2.lemma_watch_frame(*self);
                        s1.lemma_steps_trans(*old(self), s2);
                        s1.lemma_grows_trans(*old(self), s2);
                        s2.lemma_steps_frame(*self);
                        s2.lemma_steps_trans(*old(self), *self);
                        s2.lemma_grows_trans(*old(self), *self);
                        let uc = choose|uc: int|
                            0 <= uc < s2.nc() && (forall|j: int|
                                0 <= j < s2.cl(uc).len() ==> s2.is_false(#[trigger] s2.cl(uc)[j])) && #[trigger] s2.uip_ok(
                                uc,
                                e,
                            );
                        s2.lemma_uip_frame(*self, uc, e);
                        assert(clause_ok(s2.cl(uc), s2.n()));
                        assert forall|j: int| 0 <= j < self.cl(uc).len() implies self.is_false(
                            #[trigger] self.cl(uc)[j],
                        ) by {
                            assert(s2.is_false(s2.cl(uc)[j]));
                        }
                        let fc = choose|fc: int| 0 <= fc < s2.nc() && #[trigger] s2.falsified(fc);
                        assert(self.falsified(fc)) by {
                            assert(clause_ok(s2.cl(fc), s2.n()));
                            assert forall|j: int| 0 <= j < self.cl(fc).len() implies self.is_false(
                                #[trigger] self.cl(fc)[j],
                            ) by {
                                assert(s2.is_false(s2.cl(fc)[j]));
                            }
                        }
                        // the swept variable is of the current level, which begins at or before it
                        assert(s1.assigned(var as int));
                        assert(s2.vars@[var as int].value == s1.vars@[var as int].value);
                        assert(self.assigned(var as int));
                        assert(self.level_start() <= q);
                        self.lemma_watched_mono(q, self.level_start());
                        self.lemma_trail_monotone();
                    }
                    return Err(e);
                },
                Ok(()) => {
                    proof {
                        s1.lemma_steps_trans(*old(self), *self);
                        s1.lemma_grows_trans(*old(self), *self);
                    }
                },
            }
        }
        proof {
            self.lemma_quiescent();
            self.lemma_trail_monotone();
        }
        Ok(())
    }
}

} // verus!
