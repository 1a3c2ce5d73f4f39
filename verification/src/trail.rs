//! The trail: recording an assignment and unwinding a decision level.

use crate::cnf::{clause_holds, entails_clause, entails_lit, formula_holds};
use crate::lit::Lit;
use crate::solver::{clause_ok, Assigned, Solver};
use vstd::prelude::*;

verus! {

impl Solver {
    /// `s1` is `self` after `l` was made true with the given cause, at the
    /// level that `s1` is at: the current one, or a new one that `l` opens as
    /// its decision.
    pub(crate) open spec fn assign_step(
        &self,
        s1: Solver,
        l: Lit,
        cause: Option<usize>,
        decide: bool,
    ) -> bool {
        let v = l.var as int;
        &&& s1.vars@.len() == self.vars@.len()
        &&& forall|u: int| 0 <= u < self.n() && u != v ==> s1.vars@[u] == self.vars@[u]
        &&& s1.vars@[v].watchers == self.vars@[v].watchers
        &&& s1.vars@[v].value == Some(
            Assigned {
                val: l.val,
                cause,
                level: s1.assumption_history.len(),
                pos: Ghost(self.trail().len() as int),
            },
        )
        &&& s1.history@ == self.history@.push(l.var)
        &&& s1.assumption_history@ == if decide {
            self.assumption_history@.push(l.var)
        } else {
            self.assumption_history@
        }
        &&& s1.clauses == self.clauses
        &&& s1.base_clauses == self.base_clauses
        &&& s1.prop_q == self.prop_q
        &&& s1.unsat == self.unsat
        &&& s1.formula == self.formula
    }

    /// What an assignment step needs in order to keep the invariant.
    pub(crate) open spec fn assign_pre(&self, l: Lit, cause: Option<usize>, decide: bool) -> bool {
        &&& l.var < self.n()
        &&& !self.assigned(l.var as int)
        &&& decide ==> cause is None && self.prop_q == self.trail().len()
        &&& !decide ==> cause is Some || self.cur_level() == 0
        &&& !decide && self.cur_level() == 0 ==> entails_lit(self.formula@, l)
        &&& cause matches Some(c) ==> {
            &&& c < self.nc()
            &&& self.cl(c as int)[0] == l
            &&& forall|j: int| 1 <= j < self.cl(c as int).len() ==> self.is_false(#[trigger] self.cl(c as int)[j])
        }
    }

    /// Records that `lit` is true, with its cause, at the current level, and
    /// appends its variable to the trail.
    pub(crate) fn enqueue_unchecked(&mut self, lit: Lit, cause: Option<usize>)
        requires
            lit.var < old(self).n(),
            !old(self).assigned(lit.var as int),
        ensures
            old(self).assign_step(*final(self), lit, cause, false),
    {
        let level = self.assumption_history.len();
        let ghost pos = self.history@.len() as int;
        self.vars[lit.var].value = Some(Assigned { val: lit.val, cause, level, pos: Ghost(pos) });
        self.history.push(lit.var);
    }

    /// The truth value of an assigned variable.
    pub(crate) fn value_of(&self, v: usize) -> (r: bool)
        requires
            v < self.n(),
            self.assigned(v as int),
        ensures
            r == self.val_of(v as int),
    {
        match &self.vars[v].value {
            Some(a) => a.val,
            None => false,
        }
    }

    /// The decision level of an assigned variable.
    pub(crate) fn level_of(&self, v: usize) -> (r: usize)
        requires
            v < self.n(),
            self.assigned(v as int),
        ensures
            r == self.level(v as int),
    {
        match &self.vars[v].value {
            Some(a) => a.level,
            None => 0,
        }
    }

    /// The clause that forced an assigned variable, if one did.
    pub(crate) fn cause_of(&self, v: usize) -> (r: Option<usize>)
        requires
            v < self.n(),
            self.assigned(v as int),
        ensures
            r == self.cause(v as int),
    {
        match &self.vars[v].value {
            Some(a) => a.cause,
            None => None,
        }
    }

    /// `s1` is `self` with the trail cut back to its first `t` entries, the
    /// variables beyond them unassigned, and the last decision dropped.
    pub(crate) open spec fn cut_step(&self, s1: Solver, t: int) -> bool {
        &&& s1.vars@.len() == self.vars@.len()
        &&& forall|u: int| 0 <= u < self.n() ==> (#[trigger] s1.vars@[u]).watchers == self.vars@[u].watchers
        &&& forall|u: int|
            0 <= u < self.n() && self.assigned(u) && self.pos(u) < t ==> #[trigger] s1.vars@[u]
                == self.vars@[u]
        &&& forall|u: int|
            0 <= u < self.n() && !(self.assigned(u) && self.pos(u) < t) ==> (#[trigger] s1.vars@[u]).value is None
        &&& s1.history@ == self.history@.take(t)
        &&& s1.assumption_history@ == self.assumption_history@.drop_last()
        &&& s1.clauses == self.clauses
        &&& s1.base_clauses == self.base_clauses
        &&& s1.unsat == self.unsat
        &&& s1.formula == self.formula
    }

    /// Undoes the current decision level: pops the trail down to and
    /// including the level's decision, unassigns what it pops, and returns
    /// the decision as the literal it had made true.
    ///
    /// The trail that is left is a proper prefix of the old one, and levels
    /// still do not decrease along it.
    pub(crate) fn undo_assumption(&mut self) -> (r: Lit)
        requires
            old(self).inv(),
            old(self).cur_level() > 0,
            old(self).watched_upto(old(self).level_start()),
        ensures
            final(self).searching(),
            final(self).ascending(),
            final(self).prop_q == final(self).trail().len(),
            old(self).cut_step(*final(self), old(self).level_start()),
            final(self).trail().len() == old(self).level_start(),
            final(self).trail().len() < old(self).trail().len(),
            final(self).trail() == old(self).trail().take(final(self).trail().len() as int),
            final(self).cur_level() == old(self).cur_level() - 1,
            r == old(self).lit_of(old(self).decs().last() as int),
            forall|u: int|
                0 <= u < old(self).n() ==> (#[trigger] final(self).assigned(u) <==> old(self).assigned(u)
                    && old(self).level(u) < old(self).cur_level()),
            forall|i: int|
                final(self).trail().len() <= i < old(self).trail().len() ==> old(self).level(
                    #[trigger] old(self).trail()[i] as int,
                ) == old(self).cur_level(),
    {
        proof {
            self.lemma_decs_bound();
            assert(self.assigned(self.decs()[self.cur_level() - 1] as int));
            assert(self.history@.take(self.history@.len() as int) == self.history@);
        }
        let ghost cut = self.level_start();
        let assumption = self.assumption_history.pop().unwrap();
        loop
            invariant
                old(self).inv(),
                old(self).cur_level() > 0,
                old(self).watched_upto(old(self).level_start()),
                cut == old(self).level_start(),
                assumption == old(self).decs().last(),
                cut < self.history@.len() <= old(self).history@.len(),
                old(self).cut_step(*self, self.history@.len() as int),
            decreases self.history@.len(),
        {
            let ghost t = self.history@.len() as int;
            let ghost mid = *self;
            let var = self.history.pop().unwrap();
            proof {
                assert(var == old(self).trail()[t - 1]);
                assert(old(self).assigned(var as int));
                assert(self.history@ == old(self).history@.take(t - 1));
            }
            let val = match self.vars[var].value.take() {
                Some(a) => a.val,
                None => false,
            };
            proof {
                assert forall|u: int|
                    0 <= u < old(self).n() && old(self).assigned(u) && old(self).pos(u) < t
                        - 1 implies #[trigger] self.vars@[u] == old(self).vars@[u] by {
                    assert(mid.vars@[u] == old(self).vars@[u]);
                }
                assert forall|u: int|
                    0 <= u < old(self).n() && !(old(self).assigned(u) && old(self).pos(u) < t
                        - 1) implies (#[trigger] self.vars@[u]).value is None by {
                    if u != var {
                        if old(self).assigned(u) && old(self).pos(u) < t {
                            assert(old(self).trail()[old(self).pos(u)] == u);
                        } else {
                            assert(mid.vars@[u].value is None);
                        }
                    }
                }
                assert forall|u: int| 0 <= u < old(self).n() implies (#[trigger] self.vars@[u]).watchers
                    == old(self).vars@[u].watchers by {
                    assert(mid.vars@[u].watchers == old(self).vars@[u].watchers);
                }
            }
            if var == assumption {
                self.prop_q = self.history.len();
                proof {
                    assert(old(self).pos(var as int) == t - 1);
                    old(self).lemma_backjump(*self);
                    self.lemma_trail_monotone();
                }
                return Lit { var: assumption, val };
            }
            proof {
                assert(old(self).pos(assumption as int) == cut);
                assert(old(self).trail()[cut] == assumption);
            }
        }
    }

    /// Undoing the current level keeps the invariant, and leaves every
    /// watched literal settled, provided that the watched literals were
    /// settled with respect to the lower levels.
    pub(crate) proof fn lemma_backjump(&self, s1: Solver)
        requires
            self.inv(),
            self.cur_level() > 0,
            self.watched_upto(self.level_start()),
            self.cut_step(s1, self.level_start()),
            s1.prop_q == self.level_start(),
        ensures
            s1.searching(),
            forall|u: int|
                0 <= u < self.n() ==> (#[trigger] s1.assigned(u) <==> self.assigned(u) && self.level(u)
                    < self.cur_level()),
            forall|i: int|
                self.level_start() <= i < self.trail().len() ==> self.level(#[trigger] self.trail()[i] as int)
                    == self.cur_level(),
    {
        let cut = self.level_start();
        let d = self.cur_level();
        let dv = self.decs()[d - 1] as int;
        self.lemma_decs_bound();
        assert(self.assigned(dv));
        // a variable stays assigned exactly if its level is below the current one
        assert forall|u: int| 0 <= u < self.n() && #[trigger] self.assigned(u) implies (self.pos(u)
            < cut <==> self.level(u) < d) by {}
        assert forall|u: int| 0 <= u < self.n() implies (#[trigger] s1.assigned(u) <==> self.assigned(u)
            && self.pos(u) < cut) by {
            if self.assigned(u) && self.pos(u) < cut {
                assert(s1.vars@[u] == self.vars@[u]);
            } else {
                assert(s1.vars@[u].value is None);
            }
        }
        assert forall|u: int| 0 <= u < self.n() && #[trigger] s1.assigned(u) implies s1.vars@[u]
            == self.vars@[u] by {}
        assert forall|i: int| cut <= i < self.trail().len() implies self.level(
            #[trigger] self.trail()[i] as int,
        ) == self.cur_level() by {
            assert(self.assigned(self.trail()[i] as int));
        }
        assert forall|c: int| 0 <= c < s1.nc() implies s1.cl(c) == self.cl(c) by {}
        assert forall|u: int, s: int| 0 <= u < s1.n() && 0 <= s < 2 implies s1.wl(u, s) == self.wl(u, s) by {
            assert(s1.vars@[u].watchers == self.vars@[u].watchers);
        }
        assert(s1.clauses_ok()) by {
            assert forall|c: int| 0 <= c < s1.nc() implies clause_ok(#[trigger] s1.cl(c), s1.n()) by {
                assert(clause_ok(self.cl(c), self.n()));
            }
        }
        assert(s1.trail_ok()) by {
            assert forall|i: int| 0 <= i < s1.trail().len() implies {
                &&& (#[trigger] s1.trail()[i]) < s1.n()
                &&& s1.assigned(s1.trail()[i] as int)
                &&& s1.pos(s1.trail()[i] as int) == i
            } by {
                assert(s1.trail()[i] == self.trail()[i]);
                assert(self.assigned(self.trail()[i] as int));
            }
            assert forall|u: int| 0 <= u < s1.n() && #[trigger] s1.assigned(u) implies {
                &&& 0 <= s1.pos(u) < s1.trail().len()
                &&& s1.trail()[s1.pos(u)] == u
            } by {
                assert(self.assigned(u));
            }
        }
        assert(s1.levels_ok()) by {
            assert forall|a: int, b: int|
                0 <= a < s1.n() && 0 <= b < s1.n() && #[trigger] s1.assigned(a)
                    && #[trigger] s1.assigned(b) && s1.pos(a) <= s1.pos(b) implies s1.level(a)
                <= s1.level(b) by {
                assert(self.assigned(a) && self.assigned(b));
            }
            assert forall|k: int| 0 <= k < s1.decs().len() implies {
                &&& (#[trigger] s1.decs()[k]) < s1.n()
                &&& s1.assigned(s1.decs()[k] as int)
                &&& s1.level(s1.decs()[k] as int) == k + 1
                &&& s1.cause(s1.decs()[k] as int) is None
                &&& s1.pos(s1.decs()[k] as int) >= k
            } by {
                assert(s1.decs()[k] == self.decs()[k]);
                assert(self.assigned(self.decs()[k] as int));
            }
            assert forall|u: int| 0 <= u < s1.n() && #[trigger] s1.assigned(u) implies {
                &&& s1.level(u) <= s1.cur_level()
                &&& s1.level(u) >= 1 ==> s1.pos(s1.decs()[s1.level(u) - 1] as int) <= s1.pos(u)
                &&& s1.level(u) >= 1 && s1.cause(u) is None ==> s1.decs()[s1.level(u) - 1] == u
            } by {
                assert(self.assigned(u));
                if self.level(u) >= 1 {
                    let k = self.level(u) - 1;
                    assert(s1.decs()[k] == self.decs()[k]);
                    assert(self.assigned(self.decs()[k] as int));
                    assert(s1.assigned(self.decs()[k] as int));
                }
            }
        }
        assert(s1.reasons_ok()) by {
            assert forall|u: int|
                0 <= u < s1.n() && #[trigger] s1.assigned(u) && s1.cause(u) is Some implies s1.reason_ok(
                u,
            ) by {
                let c = s1.cause(u)->0 as int;
                assert(self.assigned(u));
                assert(self.reason_ok(u));
                assert forall|j: int| 1 <= j < s1.cl(c).len() implies s1.is_false(
                    #[trigger] s1.cl(c)[j],
                ) && s1.pos(s1.cl(c)[j].var as int) < s1.pos(u) by {
                    assert(self.is_false(self.cl(c)[j]));
                    assert(clause_ok(self.cl(c), self.n()));
                    assert(s1.assigned(self.cl(c)[j].var as int));
                }
            }
        }
        assert(s1.watch_ok()) by {
            assert forall|u: int, s: int, k: int|
                0 <= u < s1.n() && 0 <= s < 2 && 0 <= k < s1.wl(u, s).len() implies {
                &&& (#[trigger] s1.wl(u, s)[k]) < s1.nc()
                &&& s1.watches(s1.wl(u, s)[k] as int, Lit { var: u as usize, val: s == 0 })
            } by {
                assert(self.wl(u, s)[k] < self.nc());
            }
            assert forall|u: int, s: int| 0 <= u < s1.n() && 0 <= s < 2 implies (#[trigger] s1.wl(
                u,
                s,
            )).no_duplicates() by {
                assert(self.wl(u, s).no_duplicates());
            }
            assert forall|c: int, w: int| 0 <= c < s1.nc() && 0 <= w < 2 implies #[trigger] s1.listed(
                c,
                w,
            ) by {
                assert(self.listed(c, w));
                assert(clause_ok(self.cl(c), self.n()));
            }
        }
        assert(s1.sound()) by {
            assert forall|c: int| 0 <= c < s1.nc() implies entails_clause(
                s1.formula@,
                #[trigger] s1.cl(c),
            ) by {
                assert(entails_clause(self.formula@, self.cl(c)));
            }
            assert forall|u: int|
                0 <= u < s1.n() && #[trigger] s1.assigned(u) && s1.level(u) == 0 implies entails_lit(
                s1.formula@,
                s1.lit_of(u),
            ) by {
                assert(self.assigned(u));
            }
        }
        if !self.unsat {
            assert forall|m: Seq<bool>| #[trigger] s1.models_base(m) implies formula_holds(
                s1.formula@,
                m,
            ) by {
                assert(self.models_base(m)) by {
                    assert forall|c: int| 0 <= c < self.base_clauses implies clause_holds(
                        #[trigger] self.cl(c),
                        m,
                    ) by {
                        assert(clause_holds(s1.cl(c), m));
                    }
                    assert forall|u: int|
                        0 <= u < self.n() && #[trigger] self.assigned(u) && self.level(u)
                            == 0 implies m[u] == self.val_of(u) by {
                        assert(s1.assigned(u));
                    }
                }
            }
        }
        assert(s1.watched_upto(s1.prop_q as int)) by {
            assert forall|c: int, w: int| 0 <= c < s1.nc() && 0 <= w < 2 implies #[trigger] s1.watch_sem(
                c,
                w,
                cut,
            ) by {
                assert(self.watch_sem(c, w, cut));
                assert(clause_ok(self.cl(c), self.n()));
                let x = self.cl(c)[w];
                let y = self.cl(c)[1 - w];
                if s1.is_false(x) && s1.pos(x.var as int) < cut {
                    assert(self.assigned(x.var as int));
                    assert(self.is_true(y));
                    assert(self.assigned(y.var as int));
                    assert(s1.assigned(y.var as int));
                }
            }
        }
    }

    /// `s1` has the assignment, the trail and the decisions of `self`.
    pub(crate) open spec fn same_assignment(&self, s1: Solver) -> bool {
        &&& s1.vars@.len() == self.vars@.len()
        &&& forall|u: int| 0 <= u < self.n() ==> (#[trigger] s1.vars@[u]).value == self.vars@[u].value
        &&& s1.history == self.history
        &&& s1.assumption_history == self.assumption_history
        &&& s1.prop_q <= s1.history@.len()
    }

    /// What speaks of the assignment alone carries over to a state with
    /// the same assignment.
    pub(crate) proof fn lemma_same_assignment(&self, s1: Solver)
        requires
            self.trail_ok(),
            self.levels_ok(),
            self.same_assignment(s1),
        ensures
            s1.trail_ok(),
            s1.levels_ok(),
            self.prop_q == s1.prop_q ==> self.queue_ok() == s1.queue_ok(),
            forall|u: int| 0 <= u < self.n() ==> s1.assigned(u) == self.assigned(u),
            forall|x: Lit| x.var < self.n() ==> s1.is_false(x) == self.is_false(x),
            forall|x: Lit| x.var < self.n() ==> s1.is_true(x) == self.is_true(x),
    {
        assert forall|u: int| 0 <= u < self.n() implies s1.assigned(u) == self.assigned(u) by {
            assert(s1.vars@[u].value == self.vars@[u].value);
        }
        assert forall|x: Lit| x.var < self.n() implies s1.is_false(x) == self.is_false(x) && s1.is_true(x)
            == self.is_true(x) by {
            assert(s1.vars@[x.var as int].value == self.vars@[x.var as int].value);
        }
        assert forall|i: int| 0 <= i < s1.trail().len() implies {
            &&& (#[trigger] s1.trail()[i]) < s1.n()
            &&& s1.assigned(s1.trail()[i] as int)
            &&& s1.pos(s1.trail()[i] as int) == i
        } by {
            assert(self.trail()[i] < self.n());
        }
        assert forall|u: int| 0 <= u < s1.n() && #[trigger] s1.assigned(u) implies {
            &&& 0 <= s1.pos(u) < s1.trail().len()
            &&& s1.trail()[s1.pos(u)] == u
        } by {
            assert(self.assigned(u));
        }
        assert forall|a: int, b: int|
            0 <= a < s1.n() && 0 <= b < s1.n() && #[trigger] s1.assigned(a) && #[trigger] s1.assigned(
                b,
            ) && s1.pos(a) <= s1.pos(b) implies s1.level(a) <= s1.level(b) by {
            assert(self.assigned(a) && self.assigned(b));
        }
        assert forall|k: int| 0 <= k < s1.decs().len() implies {
            &&& (#[trigger] s1.decs()[k]) < s1.n()
            &&& s1.assigned(s1.decs()[k] as int)
            &&& s1.level(s1.decs()[k] as int) == k + 1
            &&& s1.cause(s1.decs()[k] as int) is None
            &&& s1.pos(s1.decs()[k] as int) >= k
        } by {
            assert(self.assigned(self.decs()[k] as int));
        }
        assert forall|u: int| 0 <= u < s1.n() && #[trigger] s1.assigned(u) implies {
            &&& s1.level(u) <= s1.cur_level()
            &&& s1.level(u) >= 1 ==> s1.pos(s1.decs()[s1.level(u) - 1] as int) <= s1.pos(u)
            &&& s1.level(u) >= 1 && s1.cause(u) is None ==> s1.decs()[s1.level(u) - 1] == u
        } by {
            assert(self.assigned(u));
            if self.level(u) >= 1 {
                assert(self.assigned(self.decs()[self.level(u) - 1] as int));
            }
        }
        if self.prop_q == s1.prop_q && self.queue_ok() {
            assert forall|i: int| s1.prop_q <= i < s1.trail().len() implies s1.level(
                #[trigger] s1.trail()[i] as int,
            ) == s1.cur_level() by {
                assert(self.level(self.trail()[i] as int) == self.cur_level());
            }
        }
        if self.prop_q == s1.prop_q && s1.queue_ok() {
            assert forall|i: int| self.prop_q <= i < self.trail().len() implies self.level(
                #[trigger] self.trail()[i] as int,
            ) == self.cur_level() by {
                assert(s1.level(s1.trail()[i] as int) == s1.cur_level());
            }
        }
    }

    /// Decision levels do not decrease along the trail.
    pub(crate) proof fn lemma_trail_monotone(&self)
        requires
            self.trail_ok(),
            self.levels_ok(),
        ensures
            self.ascending(),
    {
        assert forall|i: int, j: int| 0 <= i <= j < self.trail().len() implies self.level(
            #[trigger] self.trail()[i] as int,
        ) <= self.level(#[trigger] self.trail()[j] as int) by {
            assert(self.assigned(self.trail()[i] as int));
            assert(self.assigned(self.trail()[j] as int));
        }
    }

    /// The trail holds each variable at most once, so it is no longer than
    /// the number of variables.
    pub(crate) proof fn lemma_trail_bound(&self)
        requires
            self.trail_ok(),
        ensures
            self.trail().len() <= self.n(),
    {
        let t = self.trail();
        let ti = Seq::new(t.len(), |i: int| t[i] as int);
        assert(ti.no_duplicates()) by {
            assert forall|i: int, j: int| 0 <= i < ti.len() && 0 <= j < ti.len() && i != j implies ti[i]
                != ti[j] by {
                assert(self.pos(t[i] as int) == i);
                assert(self.pos(t[j] as int) == j);
            }
        }
        ti.unique_seq_to_set();
        let range = vstd::set_lib::set_int_range(0, self.n());
        vstd::set_lib::lemma_int_range(0, self.n());
        assert(ti.to_set().subset_of(range)) by {
            assert forall|x: int| ti.to_set().contains(x) implies range.contains(x) by {
                let i = choose|i: int| 0 <= i < ti.len() && ti[i] == x;
                assert(t[i] < self.n());
            }
        }
        vstd::set_lib::lemma_len_subset(ti.to_set(), range);
    }

    /// The decision stack is never deeper than the trail is long, and the
    /// current level begins on the trail.
    pub(crate) proof fn lemma_decs_bound(&self)
        requires
            self.trail_ok(),
            self.levels_ok(),
        ensures
            self.cur_level() <= self.trail().len(),
            0 <= self.level_start() <= self.trail().len(),
            self.cur_level() > 0 ==> self.level_start() < self.trail().len(),
    {
        if self.cur_level() > 0 {
            let d = self.decs()[self.cur_level() - 1];
            assert(self.assigned(d as int));
        }
    }

    /// An assignment step keeps the trail and the levels in order.
    pub(crate) proof fn lemma_assign_trail(&self, s1: Solver, l: Lit, cause: Option<usize>, decide: bool)
        requires
            self.trail_ok(),
            self.levels_ok(),
            self.assign_step(s1, l, cause, decide),
            self.assign_pre(l, cause, decide),
        ensures
            s1.trail_ok(),
            s1.levels_ok(),
            forall|u: int| 0 <= u < self.n() && self.assigned(u) ==> s1.vars@[u] == self.vars@[u],
            forall|u: int| 0 <= u < self.n() && u != l.var ==> s1.assigned(u) == self.assigned(u),
            forall|x: Lit| x.var < self.n() && self.is_false(x) ==> s1.is_false(x),
            forall|x: Lit| x.var < self.n() && self.is_true(x) ==> s1.is_true(x),
            s1.is_true(l),
            s1.level(l.var as int) == s1.cur_level(),
            s1.pos(l.var as int) == self.trail().len(),
    {
        let v = l.var as int;
        let p = self.trail().len() as int;
        self.lemma_decs_bound();
        assert forall|i: int| 0 <= i < s1.trail().len() implies {
            &&& (#[trigger] s1.trail()[i]) < s1.n()
            &&& s1.assigned(s1.trail()[i] as int)
            &&& s1.pos(s1.trail()[i] as int) == i
        } by {
            if i < p {
                assert(s1.trail()[i] == self.trail()[i]);
                assert(self.assigned(self.trail()[i] as int));
            }
        }
        assert forall|u: int| 0 <= u < s1.n() && #[trigger] s1.assigned(u) implies {
            &&& 0 <= s1.pos(u) < s1.trail().len()
            &&& s1.trail()[s1.pos(u)] == u
        } by {
            if u != v {
                assert(self.assigned(u));
            }
        }
        assert forall|a: int, b: int|
            0 <= a < s1.n() && 0 <= b < s1.n() && #[trigger] s1.assigned(a) && #[trigger] s1.assigned(
                b,
            ) && s1.pos(a) <= s1.pos(b) implies s1.level(a) <= s1.level(b) by {
            if a != v {
                assert(self.assigned(a));
            }
            if b != v {
                assert(self.assigned(b));
            }
        }
        assert forall|k: int| 0 <= k < s1.decs().len() implies {
            &&& (#[trigger] s1.decs()[k]) < s1.n()
            &&& s1.assigned(s1.decs()[k] as int)
            &&& s1.level(s1.decs()[k] as int) == k + 1
            &&& s1.cause(s1.decs()[k] as int) is None
            &&& s1.pos(s1.decs()[k] as int) >= k
        } by {
            if k < self.decs().len() {
                assert(s1.decs()[k] == self.decs()[k]);
                assert(self.assigned(self.decs()[k] as int));
            }
        }
        assert forall|u: int| 0 <= u < s1.n() && #[trigger] s1.assigned(u) implies {
            &&& s1.level(u) <= s1.cur_level()
            &&& s1.level(u) >= 1 ==> s1.pos(s1.decs()[s1.level(u) - 1] as int) <= s1.pos(u)
            &&& s1.level(u) >= 1 && s1.cause(u) is None ==> s1.decs()[s1.level(u) - 1] == u
        } by {
            if u != v {
                assert(self.assigned(u));
                if self.level(u) >= 1 {
                    let k = self.level(u) - 1;
                    assert(s1.decs()[k] == self.decs()[k]);
                    assert(self.assigned(self.decs()[k] as int));
                }
            } else {
                if s1.level(u) >= 1 && !decide {
                    let k = self.cur_level() - 1;
                    assert(self.assigned(self.decs()[k] as int));
                }
            }
        }
    }

    /// An assignment step keeps the state grounded, and complete, queued and
    /// settled as far as it was.
    pub(crate) proof fn lemma_assign_inv(&self, s1: Solver, l: Lit, cause: Option<usize>, decide: bool)
        requires
            self.grounded(),
            self.assign_step(s1, l, cause, decide),
            self.assign_pre(l, cause, decide),
        ensures
            s1.grounded(),
            self.complete() ==> s1.complete(),
            self.queue_ok() ==> s1.queue_ok(),
            !decide ==> self.grows_to(s1),
            forall|p: int| p <= self.trail().len() && self.watched_upto(p) ==> s1.watched_upto(p),
            forall|u: int| 0 <= u < self.n() && self.assigned(u) ==> s1.vars@[u] == self.vars@[u],
            forall|x: Lit| x.var < self.n() && self.is_false(x) ==> s1.is_false(x),
            forall|x: Lit| x.var < self.n() && self.is_true(x) ==> s1.is_true(x),
            s1.is_true(l),
            s1.level(l.var as int) == s1.cur_level(),
            s1.pos(l.var as int) == self.trail().len(),
    {
        let v = l.var as int;
        self.lemma_assign_trail(s1, l, cause, decide);
        assert(!decide ==> self.grows_to(s1)) by {
            assert forall|i: int| 0 <= i < self.trail().len() implies #[trigger] s1.trail()[i]
                == self.trail()[i] by {}
            assert forall|u: int| 0 <= u < self.n() && #[trigger] self.assigned(u) implies s1.vars@[u].value
                == self.vars@[u].value by {}
        }
        assert forall|c: int| 0 <= c < s1.nc() implies s1.cl(c) == self.cl(c) by {}
        assert forall|u: int, s: int| 0 <= u < s1.n() && 0 <= s < 2 implies s1.wl(u, s) == self.wl(u, s) by {}
        // clauses
        assert(s1.clauses_ok()) by {
            assert forall|c: int| 0 <= c < s1.nc() implies clause_ok(#[trigger] s1.cl(c), s1.n()) by {
                assert(clause_ok(self.cl(c), self.n()));
            }
        }
        // reasons
        assert(s1.reasons_ok()) by {
            assert forall|u: int|
                0 <= u < s1.n() && #[trigger] s1.assigned(u) && s1.cause(u) is Some implies s1.reason_ok(
                u,
            ) by {
                let c = s1.cause(u)->0 as int;
                if u != v {
                    assert(self.assigned(u));
                    assert(self.reason_ok(u));
                    assert forall|j: int| 1 <= j < s1.cl(c).len() implies s1.is_false(
                        #[trigger] s1.cl(c)[j],
                    ) && s1.pos(s1.cl(c)[j].var as int) < s1.pos(u) by {
                        assert(self.is_false(self.cl(c)[j]));
                        assert(clause_ok(self.cl(c), self.n()));
                    }
                } else {
                    assert forall|j: int| 1 <= j < s1.cl(c).len() implies s1.is_false(
                        #[trigger] s1.cl(c)[j],
                    ) && s1.pos(s1.cl(c)[j].var as int) < s1.pos(u) by {
                        assert(self.is_false(self.cl(c)[j]));
                        assert(clause_ok(self.cl(c), self.n()));
                        assert(self.assigned(self.cl(c)[j].var as int));
                    }
                }
            }
        }
        // watch lists
        assert(s1.watch_ok()) by {
            assert forall|u: int, s: int, k: int|
                0 <= u < s1.n() && 0 <= s < 2 && 0 <= k < s1.wl(u, s).len() implies {
                &&& (#[trigger] s1.wl(u, s)[k]) < s1.nc()
                &&& s1.watches(s1.wl(u, s)[k] as int, Lit { var: u as usize, val: s == 0 })
            } by {
                assert(self.wl(u, s)[k] < self.nc());
            }
            assert forall|u: int, s: int| 0 <= u < s1.n() && 0 <= s < 2 implies (#[trigger] s1.wl(
                u,
                s,
            )).no_duplicates() by {
                assert(self.wl(u, s).no_duplicates());
            }
            assert forall|c: int, w: int| 0 <= c < s1.nc() && 0 <= w < 2 implies #[trigger] s1.listed(
                c,
                w,
            ) by {
                assert(self.listed(c, w));
                assert(clause_ok(self.cl(c), self.n()));
            }
        }
        // entailment
        assert(s1.sound()) by {
            assert forall|c: int| 0 <= c < s1.nc() implies entails_clause(
                s1.formula@,
                #[trigger] s1.cl(c),
            ) by {
                assert(entails_clause(self.formula@, self.cl(c)));
            }
            assert forall|u: int|
                0 <= u < s1.n() && #[trigger] s1.assigned(u) && s1.level(u) == 0 implies entails_lit(
                s1.formula@,
                s1.lit_of(u),
            ) by {
                if u != v {
                    assert(self.assigned(u));
                }
            }
        }
        if self.complete() && !self.unsat {
            assert forall|m: Seq<bool>| #[trigger] s1.models_base(m) implies formula_holds(
                s1.formula@,
                m,
            ) by {
                assert(self.models_base(m)) by {
                    assert forall|c: int| 0 <= c < self.base_clauses implies clause_holds(
                        #[trigger] self.cl(c),
                        m,
                    ) by {
                        assert(clause_holds(s1.cl(c), m));
                    }
                    assert forall|u: int|
                        0 <= u < self.n() && #[trigger] self.assigned(u) && self.level(u)
                            == 0 implies m[u] == self.val_of(u) by {
                        assert(s1.assigned(u));
                    }
                }
            }
        }
        // queue
        if self.queue_ok() {
            assert forall|i: int| s1.prop_q <= i < s1.trail().len() implies s1.level(
                #[trigger] s1.trail()[i] as int,
            ) == s1.cur_level() by {
                if i < self.trail().len() {
                    assert(s1.trail()[i] == self.trail()[i]);
                    assert(self.assigned(self.trail()[i] as int));
                }
            }
        }
        // watches
        assert forall|p: int| p <= self.trail().len() && self.watched_upto(p) implies s1.watched_upto(
            p,
        ) by {
            assert forall|c: int, w: int| 0 <= c < s1.nc() && 0 <= w < 2 implies #[trigger] s1.watch_sem(
                c,
                w,
                p,
            ) by {
                assert(self.watch_sem(c, w, p));
                assert(clause_ok(self.cl(c), self.n()));
                let x = self.cl(c)[w];
                let y = self.cl(c)[1 - w];
                if s1.is_false(x) && s1.pos(x.var as int) < p {
                    assert(x.var != v);
                    assert(self.is_false(x));
                    assert(self.is_true(y));
                    assert(y.var != v);
                }
            }
        }
    }
}

} // verus!
