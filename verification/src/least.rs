//! Which model the search finds: every value on the trail follows from the
//! formula and the decisions below it, decisions are made on the lowest free
//! variable and set it to false, and so the model that is found is the first
//! in the lexicographic order.

use crate::cnf::{clause_holds, entails_clause, entails_lit, formula_holds, lemma_first_difference, lex_le, lit_holds};
use crate::lit::Lit;
use crate::solver::{clause_ok, Solver};
use vstd::prelude::*;

verus! {

impl Solver {
    /// `m` agrees with the decisions of the first `lvl` levels.
    pub(crate) open spec fn decided(&self, m: Seq<bool>, lvl: int) -> bool {
        forall|k: int| 0 <= k < lvl && k < self.decs().len() ==> lit_holds(self.lit_of(#[trigger] self.decs()[k] as int), m)
    }

    /// The value of `v` follows from the formula and the decisions up to
    /// the level of `v`.
    pub(crate) open spec fn implied(&self, v: int) -> bool {
        forall|m: Seq<bool>|
            #[trigger] formula_holds(self.formula@, m) && self.decided(m, self.level(v)) ==> lit_holds(
                self.lit_of(v),
                m,
            )
    }

    /// Every value follows from the formula and the decisions below it;
    /// every decision set its variable to false, and was made when all
    /// lower variables had a value.
    pub(crate) open spec fn lex_ok(&self) -> bool {
        &&& forall|v: int| 0 <= v < self.n() && #[trigger] self.assigned(v) ==> self.implied(v)
        &&& forall|k: int| 0 <= k < self.decs().len() ==> !self.val_of(#[trigger] self.decs()[k] as int)
        &&& forall|k: int, u: int|
            0 <= k < self.decs().len() && 0 <= u < self.decs()[k] ==> #[trigger] self.before_decision(k, u)
    }

    /// The variable `u` had a value when the decision `k` was made.
    pub(crate) open spec fn before_decision(&self, k: int, u: int) -> bool {
        self.assigned(u) && self.pos(u) < self.pos(self.decs()[k] as int)
    }

    /// `s1` has the values, levels and trail places of `self`, the same
    /// decisions and the same formula.
    pub(crate) open spec fn same_values(&self, s1: Solver) -> bool {
        &&& s1.n() == self.n()
        &&& s1.formula == self.formula
        &&& s1.assumption_history@ == self.assumption_history@
        &&& forall|u: int|
            0 <= u < self.n() ==> (#[trigger] s1.assigned(u)) == self.assigned(u) && (self.assigned(u) ==> s1.val_of(
                u,
            ) == self.val_of(u) && s1.level(u) == self.level(u) && s1.pos(u) == self.pos(u))
    }

    /// Before the search, every value follows from the formula alone.
    pub(crate) proof fn lemma_lex_start(&self)
        requires
            self.inv(),
            self.cur_level() == 0,
        ensures
            self.lex_ok(),
    {
        assert forall|v: int| 0 <= v < self.n() && #[trigger] self.assigned(v) implies self.implied(v) by {
            assert(entails_lit(self.formula@, self.lit_of(v)));
        }
    }

    /// What speaks of values and decisions alone carries over.
    pub(crate) proof fn lemma_lex_frame(&self, s1: Solver)
        requires
            self.lex_ok(),
            self.levels_ok(),
            self.same_values(s1),
        ensures
            s1.lex_ok(),
    {
        assert forall|k: int| 0 <= k < self.decs().len() implies s1.lit_of(#[trigger] s1.decs()[k] as int)
            == self.lit_of(self.decs()[k] as int) by {
            assert(self.assigned(self.decs()[k] as int));
            assert(s1.assigned(self.decs()[k] as int) == self.assigned(self.decs()[k] as int));
        }
        assert forall|v: int| 0 <= v < s1.n() && #[trigger] s1.assigned(v) implies s1.implied(v) by {
            assert(self.assigned(v));
            assert(self.implied(v));
            assert forall|m: Seq<bool>|
                #[trigger] formula_holds(s1.formula@, m) && s1.decided(m, s1.level(v)) implies lit_holds(
                s1.lit_of(v),
                m,
            ) by {
                assert(self.decided(m, self.level(v))) by {
                    assert forall|k: int| 0 <= k < self.level(v) && k < self.decs().len() implies lit_holds(
                        self.lit_of(#[trigger] self.decs()[k] as int),
                        m,
                    ) by {
                        assert(lit_holds(s1.lit_of(s1.decs()[k] as int), m));
                    }
                }
            }
        }
        assert forall|k: int| 0 <= k < s1.decs().len() implies !s1.val_of(#[trigger] s1.decs()[k] as int) by {
            assert(self.assigned(self.decs()[k] as int));
            assert(s1.assigned(self.decs()[k] as int) == self.assigned(self.decs()[k] as int));
        }
        assert forall|k: int, u: int| 0 <= k < s1.decs().len() && 0 <= u < s1.decs()[k] implies #[trigger] s1.before_decision(
            k,
            u,
        ) by {
            assert(self.before_decision(k, u));
            assert(self.assigned(self.decs()[k] as int));
            assert(s1.assigned(self.decs()[k] as int) == self.assigned(self.decs()[k] as int));
            assert(s1.assigned(u) == self.assigned(u));
        }
    }

    /// A value follows from the formula and the decisions if a clause
    /// that follows from the formula forces it: the clause holds the value's
    /// literal, and its other literals are false by values that follow and
    /// are of no higher level.
    pub(crate) proof fn lemma_implied_by(&self, v: int, c: Seq<Lit>)
        requires
            0 <= v < self.n(),
            self.assigned(v),
            entails_clause(self.formula@, c),
            forall|j: int|
                0 <= j < c.len() ==> #[trigger] c[j] == self.lit_of(v) || (c[j].var < self.n() && self.is_false(c[j])
                    && self.implied(c[j].var as int) && self.level(c[j].var as int) <= self.level(v)),
        ensures
            self.implied(v),
    {
        self.lemma_sizes();
        assert forall|m: Seq<bool>|
            #[trigger] formula_holds(self.formula@, m) && self.decided(m, self.level(v)) implies lit_holds(
            self.lit_of(v),
            m,
        ) by {
            assert(clause_holds(c, m));
            let j = choose|j: int| 0 <= j < c.len() && lit_holds(#[trigger] c[j], m);
            if c[j] != self.lit_of(v) {
                let u = c[j].var as int;
                assert(self.implied(u));
                assert(self.decided(m, self.level(u)));
                assert(lit_holds(self.lit_of(u), m));
            }
        }
    }

    /// After propagation from `s0`, the values up to trail index `p` follow
    /// from the formula and the decisions.
    pub(crate) proof fn lemma_implied_upto(&self, s0: Solver, p: int)
        requires
            s0.lex_ok(),
            s0.trail_ok(),
            s0.grows_to(*self),
            s0.steps_to(*self),
            self.structure(),
            0 <= p <= self.trail().len(),
        ensures
            forall|i: int| 0 <= i < p ==> self.implied(#[trigger] self.trail()[i] as int),
        decreases p,
    {
        if p > 0 {
            self.lemma_implied_upto(s0, p - 1);
            self.lemma_sizes();
            let v = self.trail()[p - 1] as int;
            assert(self.assigned(v));
            if p - 1 < s0.trail().len() {
                assert(s0.trail()[p - 1] == v);
                assert(s0.assigned(v));
                assert(s0.implied(v));
                assert(self.vars@[v].value == s0.vars@[v].value);
                assert forall|k: int| 0 <= k < s0.decs().len() implies self.lit_of(#[trigger] self.decs()[k] as int)
                    == s0.lit_of(s0.decs()[k] as int) by {
                    assert(s0.assigned(s0.decs()[k] as int));
                }
                assert forall|m: Seq<bool>|
                    #[trigger] formula_holds(self.formula@, m) && self.decided(m, self.level(v)) implies lit_holds(
                    self.lit_of(v),
                    m,
                ) by {
                    assert(s0.decided(m, s0.level(v))) by {
                        assert forall|k: int| 0 <= k < s0.level(v) && k < s0.decs().len() implies lit_holds(
                            s0.lit_of(#[trigger] s0.decs()[k] as int),
                            m,
                        ) by {
                            assert(lit_holds(self.lit_of(self.decs()[k] as int), m));
                        }
                    }
                }
            } else {
                assert(self.cause(v) is Some);
                assert(self.reason_ok(v));
                let c = self.cause(v)->0 as int;
                let cl = self.cl(c);
                assert(clause_ok(cl, self.n()));
                assert(entails_clause(self.formula@, cl));
                assert forall|j: int| 0 <= j < cl.len() implies #[trigger] cl[j] == self.lit_of(v) || (cl[j].var
                    < self.n() && self.is_false(cl[j]) && self.implied(cl[j].var as int) && self.level(
                    cl[j].var as int,
                ) <= self.level(v)) by {
                    if j >= 1 {
                        let u = cl[j].var as int;
                        assert(self.is_false(cl[j]));
                        assert(self.assigned(u));
                        assert(self.trail()[self.pos(u)] == u);
                    }
                }
                self.lemma_implied_by(v, cl);
            }
        }
    }

    /// Propagation keeps every value implied and every decision in order.
    pub(crate) proof fn lemma_lex_extend(&self, s0: Solver)
        requires
            s0.lex_ok(),
            s0.trail_ok(),
            s0.levels_ok(),
            s0.grows_to(*self),
            s0.steps_to(*self),
            self.structure(),
        ensures
            self.lex_ok(),
    {
        self.lemma_implied_upto(s0, self.trail().len() as int);
        assert forall|v: int| 0 <= v < self.n() && #[trigger] self.assigned(v) implies self.implied(v) by {
            assert(self.trail()[self.pos(v)] == v);
        }
        assert forall|k: int| 0 <= k < self.decs().len() implies !self.val_of(#[trigger] self.decs()[k] as int) by {
            assert(s0.assigned(s0.decs()[k] as int));
        }
        assert forall|k: int, u: int| 0 <= k < self.decs().len() && 0 <= u < self.decs()[k] implies #[trigger] self.before_decision(
            k,
            u,
        ) by {
            assert(s0.before_decision(k, u));
            assert(s0.assigned(s0.decs()[k] as int));
        }
    }

    /// A backjump keeps every value implied and every decision in order.
    pub(crate) proof fn lemma_lex_back(&self, sb: Solver, level: int)
        requires
            self.lex_ok(),
            self.trail_ok(),
            self.levels_ok(),
            0 <= level < self.cur_level(),
            self.backed_to(sb, level),
        ensures
            sb.lex_ok(),
    {
        assert forall|k: int| 0 <= k < sb.decs().len() implies sb.decs()[k] == self.decs()[k] && sb.assigned(
            #[trigger] sb.decs()[k] as int,
        ) && sb.vars@[sb.decs()[k] as int] == self.vars@[self.decs()[k] as int] by {
            let d = self.decs()[k] as int;
            assert(self.assigned(d));
            assert(sb.assigned(d));
        }
        assert forall|v: int| 0 <= v < sb.n() && #[trigger] sb.assigned(v) implies sb.implied(v) by {
            assert(self.assigned(v));
            assert(self.implied(v));
            assert(sb.vars@[v] == self.vars@[v]);
            assert forall|m: Seq<bool>|
                #[trigger] formula_holds(sb.formula@, m) && sb.decided(m, sb.level(v)) implies lit_holds(
                sb.lit_of(v),
                m,
            ) by {
                assert(self.decided(m, self.level(v))) by {
                    assert forall|k: int| 0 <= k < self.level(v) && k < self.decs().len() implies lit_holds(
                        self.lit_of(#[trigger] self.decs()[k] as int),
                        m,
                    ) by {
                        assert(lit_holds(sb.lit_of(sb.decs()[k] as int), m));
                    }
                }
            }
        }
        assert forall|k: int, u: int| 0 <= k < sb.decs().len() && 0 <= u < sb.decs()[k] implies #[trigger] sb.before_decision(
            k,
            u,
        ) by {
            assert(self.before_decision(k, u));
            let d = self.decs()[k] as int;
            assert(self.assigned(d));
            assert(self.assigned(u));
            assert(self.level(u) <= self.level(d));
            assert(sb.assigned(u));
            assert(sb.vars@[u] == self.vars@[u]);
        }
    }

    /// One more value, at the current level, keeps the order of things if
    /// it follows from the formula and the decisions: `self` is the state
    /// before, `s1` the state after, in which `v` has the value.
    pub(crate) proof fn lemma_lex_push(&self, s1: Solver, v: int)
        requires
            self.lex_ok(),
            self.trail_ok(),
            self.levels_ok(),
            s1.n() == self.n(),
            s1.formula == self.formula,
            s1.assumption_history@ == self.assumption_history@,
            0 <= v < self.n(),
            !self.assigned(v),
            s1.assigned(v),
            s1.implied(v),
            forall|u: int| 0 <= u < self.n() && u != v ==> (#[trigger] s1.assigned(u)) == self.assigned(u),
            forall|u: int|
                0 <= u < self.n() && #[trigger] self.assigned(u) ==> s1.vars@[u].value == self.vars@[u].value,
        ensures
            s1.lex_ok(),
    {
        self.lemma_lex_kept(s1);
        assert forall|u: int| 0 <= u < s1.n() && #[trigger] s1.assigned(u) implies s1.implied(u) by {
            if u != v {
                assert(self.assigned(u));
            }
        }
    }

    /// The values of `self` are implied in a state that has them, the same
    /// formula and the same decisions, or one decision more.
    pub(crate) proof fn lemma_lex_kept(&self, s1: Solver)
        requires
            self.lex_ok(),
            self.levels_ok(),
            s1.n() == self.n(),
            s1.formula == self.formula,
            s1.decs().len() >= self.decs().len(),
            forall|k: int| 0 <= k < self.decs().len() ==> #[trigger] s1.decs()[k] == self.decs()[k],
            forall|u: int|
                0 <= u < self.n() && #[trigger] self.assigned(u) ==> s1.vars@[u].value == self.vars@[u].value,
        ensures
            forall|u: int| 0 <= u < self.n() && #[trigger] self.assigned(u) ==> s1.implied(u),
            forall|k: int| 0 <= k < self.decs().len() ==> !s1.val_of(#[trigger] s1.decs()[k] as int),
            forall|k: int, u: int|
                0 <= k < self.decs().len() && 0 <= u < s1.decs()[k] ==> #[trigger] s1.before_decision(k, u),
    {
        assert forall|k: int| 0 <= k < self.decs().len() implies s1.vars@[#[trigger] self.decs()[k] as int].value
            == self.vars@[self.decs()[k] as int].value by {
            assert(self.assigned(self.decs()[k] as int));
        }
        assert forall|u: int| 0 <= u < self.n() && #[trigger] self.assigned(u) implies s1.implied(u) by {
            assert(self.implied(u));
            assert forall|m: Seq<bool>|
                #[trigger] formula_holds(s1.formula@, m) && s1.decided(m, s1.level(u)) implies lit_holds(
                s1.lit_of(u),
                m,
            ) by {
                assert(self.decided(m, self.level(u))) by {
                    assert forall|k: int| 0 <= k < self.level(u) && k < self.decs().len() implies lit_holds(
                        self.lit_of(#[trigger] self.decs()[k] as int),
                        m,
                    ) by {
                        assert(s1.decs()[k] == self.decs()[k]);
                        assert(lit_holds(s1.lit_of(s1.decs()[k] as int), m));
                    }
                }
            }
        }
        assert forall|k: int| 0 <= k < self.decs().len() implies !s1.val_of(#[trigger] s1.decs()[k] as int) by {
            assert(s1.decs()[k] == self.decs()[k]);
        }
        assert forall|k: int, u: int| 0 <= k < self.decs().len() && 0 <= u < s1.decs()[k] implies #[trigger] s1.before_decision(
            k,
            u,
        ) by {
            assert(s1.decs()[k] == self.decs()[k]);
            assert(self.before_decision(k, u));
            assert(self.assigned(u));
            assert(self.assigned(self.decs()[k] as int));
        }
    }

    /// The asserting literal of a learnt clause follows from the formula
    /// and the decisions of the level that the search returned to.
    pub(crate) proof fn lemma_lex_learn(&self, s1: Solver, learnt: Seq<Lit>)
        requires
            self.lex_ok(),
            self.trail_ok(),
            self.levels_ok(),
            self.learnable(learnt),
            s1.n() == self.n(),
            s1.formula == self.formula,
            s1.assumption_history@ == self.assumption_history@,
            s1.is_true(learnt[0]),
            s1.level(learnt[0].var as int) == self.cur_level(),
            forall|u: int| 0 <= u < self.n() && u != learnt[0].var ==> (#[trigger] s1.assigned(u)) == self.assigned(u),
            forall|u: int|
                0 <= u < self.n() && #[trigger] self.assigned(u) ==> s1.vars@[u].value == self.vars@[u].value,
        ensures
            s1.lex_ok(),
    {
        let v = learnt[0].var as int;
        self.lemma_sizes();
        self.lemma_lex_kept(s1);
        assert forall|j: int| 0 <= j < learnt.len() implies #[trigger] learnt[j] == s1.lit_of(v) || (learnt[j].var
            < s1.n() && s1.is_false(learnt[j]) && s1.implied(learnt[j].var as int) && s1.level(
            learnt[j].var as int,
        ) <= s1.level(v)) by {
            if j >= 1 {
                let u = learnt[j].var as int;
                assert(self.is_false(learnt[j]));
                assert(self.assigned(u));
            }
        }
        s1.lemma_implied_by(v, learnt);
        self.lemma_lex_push(s1, v);
    }

    /// A decision on the lowest free variable, set to false, keeps the
    /// order of things.
    pub(crate) proof fn lemma_lex_decide(&self, s1: Solver, v: int)
        requires
            self.lex_ok(),
            self.trail_ok(),
            self.levels_ok(),
            0 <= v < self.n(),
            !self.assigned(v),
            forall|u: int| 0 <= u < v ==> self.assigned(u),
            self.assign_step(s1, Lit { var: v as usize, val: false }, None, true),
        ensures
            s1.lex_ok(),
    {
        self.lemma_sizes();
        let d = self.decs().len() as int;
        assert(s1.decs()[d] == v);
        assert forall|k: int| 0 <= k < self.decs().len() implies #[trigger] s1.decs()[k] == self.decs()[k] by {}
        assert forall|u: int| 0 <= u < self.n() && #[trigger] self.assigned(u) implies s1.vars@[u].value
            == self.vars@[u].value by {}
        self.lemma_lex_kept(s1);
        assert(s1.implied(v)) by {
            assert forall|m: Seq<bool>|
                #[trigger] formula_holds(s1.formula@, m) && s1.decided(m, s1.level(v)) implies lit_holds(
                s1.lit_of(v),
                m,
            ) by {
                assert(lit_holds(s1.lit_of(s1.decs()[d] as int), m));
            }
        }
        assert forall|u: int| 0 <= u < s1.n() && #[trigger] s1.assigned(u) implies s1.implied(u) by {
            if u != v {
                assert(s1.vars@[u] == self.vars@[u]);
                assert(self.assigned(u));
            }
        }
        assert forall|k: int| 0 <= k < s1.decs().len() implies !s1.val_of(#[trigger] s1.decs()[k] as int) by {
            if k < d {
                assert(s1.decs()[k] == self.decs()[k]);
            }
        }
        assert forall|k: int, u: int| 0 <= k < s1.decs().len() && 0 <= u < s1.decs()[k] implies #[trigger] s1.before_decision(
            k,
            u,
        ) by {
            if k == d {
                assert(self.assigned(u));
                assert(s1.vars@[u] == self.vars@[u]);
            }
        }
    }

    /// A model made of the values of a state in which every variable has
    /// one comes first among the models of the formula.
    pub(crate) proof fn lemma_least(&self, m: Seq<bool>, m2: Seq<bool>)
        requires
            self.trail_ok(),
            self.levels_ok(),
            self.lex_ok(),
            forall|u: int| 0 <= u < self.n() ==> self.assigned(u),
            m.len() == self.n(),
            forall|v: int| 0 <= v < self.n() ==> m[v] == (self.assigned(v) && self.val_of(v)),
            m2.len() == m.len(),
            formula_holds(self.formula@, m2),
        ensures
            lex_le(m, m2),
    {
        self.lemma_sizes();
        if m != m2 {
            assert(exists|k: int| 0 <= k < m.len() && m[k] != m2[k]) by {
                if forall|k: int| 0 <= k < m.len() ==> m[k] == m2[k] {
                    assert(m =~= m2);
                }
            }
            let k0 = choose|k: int| 0 <= k < m.len() && m[k] != m2[k];
            lemma_first_difference(m, m2, k0);
            let v = choose|v: int| 0 <= v <= k0 && #[trigger] m[v] != m2[v] && forall|u: int| 0 <= u < v ==> m[u] == m2[u];
            if m[v] {
                // then `v` is no decision, and `m2` agrees with the decisions below it
                assert(self.assigned(v));
                assert(self.implied(v));
                assert(self.decided(m2, self.level(v))) by {
                    assert forall|k: int| 0 <= k < self.level(v) && k < self.decs().len() implies lit_holds(
                        self.lit_of(#[trigger] self.decs()[k] as int),
                        m2,
                    ) by {
                        let d = self.decs()[k] as int;
                        assert(self.assigned(d));
                        assert(!self.val_of(d));
                        if d > v {
                            assert(self.before_decision(k, v));
                            assert(self.level(v) <= self.level(d));
                            assert(self.level(v) == k + 1);
                        }
                        assert(d < v);
                        assert(m[d] == m2[d]);
                    }
                }
                assert(lit_holds(self.lit_of(v), m2));
                assert(false);
            }
            assert(!m[v] && m2[v]);
        }
    }
}

} // verus!
