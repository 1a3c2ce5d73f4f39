//! The solver's state, the model of it that contracts speak of, and the
//! invariants that tie the trail, the reasons, the clause table and the watch
//! lists together.

use crate::cnf::{
    clause_holds, entails_clause, entails_lit, formula_holds, has_unit, satisfiable,
    trivially_unsat,
};
use crate::lit::Lit;
use vstd::prelude::*;

verus! {

/// What is recorded of a variable while it is assigned.
pub(crate) struct Assigned {
    /// The truth value.
    pub(crate) val: bool,
    /// The clause that forced the value, or `None` for a decision, a unit
    /// clause or a learnt unit.
    pub(crate) cause: Option<usize>,
    /// The decision level at which the value was set.
    pub(crate) level: usize,
    /// The variable's index on the trail.
    pub(crate) pos: Ghost<int>,
}

/// A variable: its assignment, if any, and its two watch lists.
///
/// `watchers[1]` holds the clauses that watch the variable's negative
/// literal and is visited when the variable becomes true; `watchers[0]`
/// holds those that watch the positive literal.
pub(crate) struct VarInfo {
    pub(crate) value: Option<Assigned>,
    pub(crate) watchers: [Vec<usize>; 2],
}

/// A CDCL solver.
pub struct Solver {
    pub(crate) vars: Vec<VarInfo>,
    /// The clause table; the first `base_clauses` entries were inserted,
    /// the rest learnt.
    pub(crate) clauses: Vec<Vec<Lit>>,
    pub(crate) base_clauses: usize,
    /// The first trail index whose watchers have not been visited.
    pub(crate) prop_q: usize,
    /// The trail: the assigned variables in the order of their assignment.
    pub(crate) history: Vec<usize>,
    /// The decision variables, one for each level above 0.
    pub(crate) assumption_history: Vec<usize>,
    /// Set once clause insertion has met an empty clause or two
    /// complementary units.
    pub(crate) unsat: bool,
    /// Every clause that was inserted, as it was given.
    pub(crate) formula: Ghost<Seq<Seq<Lit>>>,
}

/// The outcome of a conflict.
///
/// From conflict analysis above level 0, `learnt` is the learnt clause, its
/// asserting literal first, and `max_assumption` the level to return to. When
/// the formula has been refuted, `learnt` is empty and `max_assumption` is 0.
#[derive(Debug)]
pub struct Unsat {
    pub learnt: Vec<Lit>,
    pub max_assumption: usize,
}

/// A stored clause has at least two literals, on distinct variables below `n`.
pub open spec fn clause_ok(c: Seq<Lit>, n: int) -> bool {
    &&& c.len() >= 2
    &&& forall|i: int| 0 <= i < c.len() ==> (#[trigger] c[i]).var < n
    &&& forall|i: int, j: int| 0 <= i < j < c.len() ==> (#[trigger] c[i]).var != (#[trigger] c[j]).var
}

impl Solver {
    // ----- the model -----

    /// The number of variables.
    pub(crate) open spec fn n(&self) -> int {
        self.vars@.len() as int
    }

    /// The number of clauses in the table.
    pub(crate) open spec fn nc(&self) -> int {
        self.clauses@.len() as int
    }

    /// The literals of the clause with handle `c`.
    pub(crate) open spec fn cl(&self, c: int) -> Seq<Lit> {
        self.clauses@[c]@
    }

    /// The watch list `s` of variable `v`.
    pub(crate) open spec fn wl(&self, v: int, s: int) -> Seq<usize> {
        self.vars@[v].watchers[s]@
    }

    /// The trail.
    pub(crate) open spec fn trail(&self) -> Seq<usize> {
        self.history@
    }

    /// The decision variables, lowest level first.
    pub(crate) open spec fn decs(&self) -> Seq<usize> {
        self.assumption_history@
    }

    /// The current decision level.
    pub(crate) open spec fn cur_level(&self) -> int {
        self.assumption_history@.len() as int
    }

    /// Whether `v` has a value.
    pub(crate) open spec fn assigned(&self, v: int) -> bool {
        self.vars@[v].value is Some
    }

    /// The value of an assigned variable.
    pub(crate) open spec fn val_of(&self, v: int) -> bool {
        self.vars@[v].value->0.val
    }

    /// The decision level of an assigned variable.
    pub(crate) open spec fn level(&self, v: int) -> int {
        self.vars@[v].value->0.level as int
    }

    /// The clause that forced an assigned variable, if one did.
    pub(crate) open spec fn cause(&self, v: int) -> Option<usize> {
        self.vars@[v].value->0.cause
    }

    /// The trail index of an assigned variable.
    pub(crate) open spec fn pos(&self, v: int) -> int {
        self.vars@[v].value->0.pos@
    }

    /// The literal on `v` that is true under the current assignment.
    pub(crate) open spec fn lit_of(&self, v: int) -> Lit {
        Lit { var: v as usize, val: self.val_of(v) }
    }

    /// The literal is true under the current assignment.
    pub(crate) open spec fn is_true(&self, l: Lit) -> bool {
        self.assigned(l.var as int) && self.val_of(l.var as int) == l.val
    }

    /// The literal is false under the current assignment.
    pub(crate) open spec fn is_false(&self, l: Lit) -> bool {
        self.assigned(l.var as int) && self.val_of(l.var as int) != l.val
    }

    /// The value of a literal under the current partial assignment.
    pub(crate) open spec fn lit_val(&self, l: Lit) -> Option<bool> {
        if self.assigned(l.var as int) {
            Some(self.val_of(l.var as int) == l.val)
        } else {
            None
        }
    }

    /// The clause `c` has `l` in one of its two watched positions.
    pub(crate) open spec fn watches(&self, c: int, l: Lit) -> bool {
        self.cl(c)[0] == l || self.cl(c)[1] == l
    }

    /// The clause `c` stands in the watch list of its watched literal `w`.
    pub(crate) open spec fn listed(&self, c: int, w: int) -> bool {
        self.wl(self.cl(c)[w].var as int, self.cl(c)[w].slot()).contains(c as usize)
    }

    // ----- the invariants -----

    /// Every clause of the table is a stored clause, and the inserted ones
    /// come first.
    pub(crate) open spec fn clauses_ok(&self) -> bool {
        &&& self.base_clauses <= self.nc()
        &&& forall|c: int| 0 <= c < self.nc() ==> clause_ok(#[trigger] self.cl(c), self.n())
    }

    /// The trail lists exactly the assigned variables, each once.
    pub(crate) open spec fn trail_ok(&self) -> bool {
        &&& self.prop_q <= self.trail().len()
        &&& forall|i: int|
            0 <= i < self.trail().len() ==> {
                &&& (#[trigger] self.trail()[i]) < self.n()
                &&& self.assigned(self.trail()[i] as int)
                &&& self.pos(self.trail()[i] as int) == i
            }
        &&& forall|v: int|
            0 <= v < self.n() && #[trigger] self.assigned(v) ==> {
                &&& 0 <= self.pos(v) < self.trail().len()
                &&& self.trail()[self.pos(v)] == v
            }
    }

    /// Levels do not decrease along the trail, each level above 0 begins
    /// with its decision, and only decisions lack a cause above level 0.
    pub(crate) open spec fn levels_ok(&self) -> bool {
        &&& forall|u: int, v: int|
            0 <= u < self.n() && 0 <= v < self.n() && #[trigger] self.assigned(u)
                && #[trigger] self.assigned(v) && self.pos(u) <= self.pos(v) ==> self.level(u)
                <= self.level(v)
        &&& forall|k: int|
            0 <= k < self.decs().len() ==> {
                &&& (#[trigger] self.decs()[k]) < self.n()
                &&& self.assigned(self.decs()[k] as int)
                &&& self.level(self.decs()[k] as int) == k + 1
                &&& self.cause(self.decs()[k] as int) is None
                &&& self.pos(self.decs()[k] as int) >= k
            }
        &&& forall|v: int|
            0 <= v < self.n() && #[trigger] self.assigned(v) ==> {
                &&& self.level(v) <= self.cur_level()
                &&& self.level(v) >= 1 ==> self.pos(self.decs()[self.level(v) - 1] as int)
                    <= self.pos(v)
                &&& self.level(v) >= 1 && self.cause(v) is None ==> self.decs()[self.level(v) - 1]
                    == v
            }
    }

    /// The clause that forced `v` has `v`'s true literal first and is
    /// otherwise false, by variables that were assigned before `v`.
    pub(crate) open spec fn reason_ok(&self, v: int) -> bool {
        let c = self.cause(v)->0 as int;
        &&& 0 <= c < self.nc()
        &&& self.cl(c)[0] == self.lit_of(v)
        &&& forall|j: int|
            1 <= j < self.cl(c).len() ==> self.is_false(#[trigger] self.cl(c)[j]) && self.pos(
                self.cl(c)[j].var as int,
            ) < self.pos(v)
    }

    /// Every cause is in order.
    pub(crate) open spec fn reasons_ok(&self) -> bool {
        forall|v: int|
            0 <= v < self.n() && #[trigger] self.assigned(v) && self.cause(v) is Some
                ==> self.reason_ok(v)
    }

    /// Each watch list holds, once each, clauses that watch its literal, and
    /// each clause stands in the lists of its two watched literals.
    pub(crate) open spec fn watch_ok(&self) -> bool {
        &&& forall|v: int, s: int, k: int|
            0 <= v < self.n() && 0 <= s < 2 && 0 <= k < self.wl(v, s).len() ==> {
                &&& (#[trigger] self.wl(v, s)[k]) < self.nc()
                &&& self.watches(self.wl(v, s)[k] as int, Lit { var: v as usize, val: s == 0 })
            }
        &&& forall|v: int, s: int|
            0 <= v < self.n() && 0 <= s < 2 ==> (#[trigger] self.wl(v, s)).no_duplicates()
        &&& forall|c: int, w: int| 0 <= c < self.nc() && 0 <= w < 2 ==> #[trigger] self.listed(c, w)
    }

    /// Every stored clause, and every assignment at level 0, follows from the
    /// formula.
    pub(crate) open spec fn sound(&self) -> bool {
        &&& forall|c: int| 0 <= c < self.nc() ==> entails_clause(self.formula@, #[trigger] self.cl(c))
        &&& forall|v: int|
            0 <= v < self.n() && #[trigger] self.assigned(v) && self.level(v) == 0 ==> entails_lit(
                self.formula@,
                self.lit_of(v),
            )
    }

    /// `m` assigns every variable, satisfies the inserted clauses in the
    /// table and agrees with the assignments at level 0.
    pub(crate) open spec fn models_base(&self, m: Seq<bool>) -> bool {
        &&& m.len() == self.n()
        &&& forall|c: int| 0 <= c < self.base_clauses ==> clause_holds(#[trigger] self.cl(c), m)
        &&& forall|v: int|
            0 <= v < self.n() && #[trigger] self.assigned(v) && self.level(v) == 0 ==> m[v]
                == self.val_of(v)
    }

    /// The table and the level-0 assignments stand for the whole formula.
    pub(crate) open spec fn complete(&self) -> bool {
        &&& self.unsat ==> !satisfiable(self.formula@)
        &&& !self.unsat ==> forall|m: Seq<bool>| #[trigger]
            self.models_base(m) ==> formula_holds(self.formula@, m)
    }

    /// The clause table, the trail and the reasons are consistent, and what
    /// they hold follows from the formula.
    pub(crate) open spec fn structure(&self) -> bool {
        &&& self.clauses_ok()
        &&& self.trail_ok()
        &&& self.levels_ok()
        &&& self.reasons_ok()
        &&& self.sound()
    }

    /// The structure, with the watch lists in step with the clause table.
    pub(crate) open spec fn grounded(&self) -> bool {
        &&& self.structure()
        &&& self.watch_ok()
    }

    /// `s1` has the trail of `self`, possibly with more entries, the same
    /// values for what `self` had assigned, and the same decisions.
    pub(crate) open spec fn grows_to(&self, s1: Solver) -> bool {
        &&& s1.vars@.len() == self.vars@.len()
        &&& s1.clauses@.len() == self.clauses@.len()
        &&& s1.base_clauses == self.base_clauses
        &&& s1.assumption_history@ == self.assumption_history@
        &&& s1.unsat == self.unsat
        &&& s1.formula == self.formula
        &&& self.trail().len() <= s1.trail().len()
        &&& forall|i: int| 0 <= i < self.trail().len() ==> #[trigger] s1.trail()[i] == self.trail()[i]
        &&& forall|u: int|
            0 <= u < self.n() && #[trigger] self.assigned(u) ==> s1.vars@[u].value == self.vars@[u].value
    }

    /// The invariant that holds between any two steps of the solver.
    pub(crate) open spec fn inv(&self) -> bool {
        &&& self.grounded()
        &&& self.complete()
    }

    /// Watched position `w` of clause `c` is settled with respect to the
    /// first `p` trail entries: if its literal was falsified by one of them,
    /// the other watched literal is true, and was no later in level.
    pub(crate) open spec fn watch_sem(&self, c: int, w: int, p: int) -> bool {
        self.is_false(self.cl(c)[w]) && self.pos(self.cl(c)[w].var as int) < p ==> self.is_true(
            self.cl(c)[1 - w],
        ) && self.level(self.cl(c)[1 - w].var as int) <= self.level(self.cl(c)[w].var as int)
    }

    /// Every watched position is settled with respect to the first `p` trail
    /// entries.
    pub(crate) open spec fn watched_upto(&self, p: int) -> bool {
        forall|c: int, w: int| 0 <= c < self.nc() && 0 <= w < 2 ==> #[trigger] self.watch_sem(c, w, p)
    }

    /// Every trail entry that is still to be propagated is at the current level.
    pub(crate) open spec fn queue_ok(&self) -> bool {
        forall|i: int|
            self.prop_q <= i < self.trail().len() ==> self.level(#[trigger] self.trail()[i] as int)
                == self.cur_level()
    }

    /// The state between two steps of the search.
    pub(crate) open spec fn searching(&self) -> bool {
        &&& self.inv()
        &&& self.watched_upto(self.prop_q as int)
        &&& self.queue_ok()
    }

    /// The trail index at which the current level begins.
    pub(crate) open spec fn level_start(&self) -> int {
        if self.cur_level() == 0 {
            0
        } else {
            self.pos(self.decs()[self.cur_level() - 1] as int)
        }
    }

    /// Before the search: nothing decided, nothing propagated, nothing
    /// learnt, and the assignments are the unit clauses of the formula.
    pub(crate) open spec fn idle(&self) -> bool {
        &&& self.inv()
        &&& self.cur_level() == 0
        &&& self.prop_q == 0
        &&& self.base_clauses == self.nc()
        &&& self.unsat <==> trivially_unsat(self.formula@)
        &&& !self.unsat ==> forall|l: Lit| #[trigger]
            has_unit(self.formula@, l) <==> l.var < self.n() && self.is_true(l)
    }

    /// A solver that has not begun to search is ready to: nothing is queued
    /// that is not of level 0, and no trail entry has been propagated.
    pub(crate) proof fn lemma_idle_searching(&self)
        requires
            self.idle(),
        ensures
            self.searching(),
    {
        assert forall|c: int, w: int| 0 <= c < self.nc() && 0 <= w < 2 implies #[trigger] self.watch_sem(c, w, 0) by {
            assert(clause_ok(self.cl(c), self.n()));
            if self.is_false(self.cl(c)[w]) {
                assert(self.assigned(self.cl(c)[w].var as int));
            }
        }
        assert forall|i: int| self.prop_q <= i < self.trail().len() implies self.level(
            #[trigger] self.trail()[i] as int,
        ) == self.cur_level() by {
            assert(self.assigned(self.trail()[i] as int));
        }
    }

    // ----- what callers see -----

    /// The solver is in a consistent state and has not begun to search.
    pub closed spec fn wf(&self) -> bool {
        self.idle()
    }

    /// The clauses inserted so far, in order, each as it was given.
    pub closed spec fn formula(&self) -> Seq<Seq<Lit>> {
        self.formula@
    }

    /// The number of variables.
    pub closed spec fn num_vars(&self) -> nat {
        self.vars@.len()
    }

    /// A state has grown to itself.
    pub(crate) proof fn lemma_grows_self(&self)
        ensures
            self.grows_to(*self),
    {
    }

    /// Levels do not decrease along the trail.
    pub(crate) open spec fn ascending(&self) -> bool {
        forall|i: int, j: int|
            0 <= i <= j < self.trail().len() ==> self.level(#[trigger] self.trail()[i] as int) <= self.level(
                #[trigger] self.trail()[j] as int,
            )
    }

    /// The table sizes are machine integers.
    pub(crate) proof fn lemma_sizes(&self)
        ensures
            self.n() <= usize::MAX,
            self.nc() <= usize::MAX,
            self.trail().len() <= usize::MAX,
    {
        assert(self.vars.len() == self.vars@.len());
        assert(self.clauses.len() == self.clauses@.len());
        assert(self.history.len() == self.history@.len());
    }

    /// What the public specification functions stand for.
    pub(crate) proof fn lemma_view(&self)
        ensures
            self.wf() == self.idle(),
            self.formula() == self.formula@,
            self.num_vars() == self.n(),
            self.blank() == self.fresh(),
    {
    }

    /// The solver has no variable, no clause, an empty trail and no
    /// decision, and its formula is empty and not refuted.
    pub closed spec fn blank(&self) -> bool {
        self.fresh()
    }

    /// The solver has no variable, no clause, an empty trail and no
    /// decision, and its formula is empty and not refuted.
    pub(crate) open spec fn fresh(&self) -> bool {
        &&& self.vars@.len() == 0
        &&& self.clauses@.len() == 0
        &&& self.base_clauses == 0
        &&& self.prop_q == 0
        &&& self.history@.len() == 0
        &&& self.assumption_history@.len() == 0
        &&& !self.unsat
        &&& self.formula@.len() == 0
    }

    // ----- construction -----

    /// A solver with no variables and no clauses.
    pub fn new() -> (s: Solver)
        ensures
            s.wf(),
            s.formula() == Seq::<Seq<Lit>>::empty(),
            s.num_vars() == 0,
            s.blank(),
    {
        let s = Solver {
            vars: Vec::new(),
            clauses: Vec::new(),
            base_clauses: 0,
            prop_q: 0,
            history: Vec::new(),
            assumption_history: Vec::new(),
            unsat: false,
            formula: Ghost(Seq::empty()),
        };
        assert(!trivially_unsat(s.formula@));
        assert forall|m: Seq<bool>| #[trigger] s.models_base(m) implies formula_holds(s.formula@, m) by {}
        s
    }

    /// Appends a fresh, unassigned variable and returns its index.
    pub fn add_var(&mut self) -> (v: usize)
        requires
            old(self).wf(),
        ensures
            final(self).wf(),
            v == old(self).num_vars(),
            final(self).num_vars() == old(self).num_vars() + 1,
            final(self).formula() == old(self).formula(),
            old(self).with_var(*final(self)),
    {
        let ret = self.vars.len();
        self.vars.push(VarInfo { value: None, watchers: [Vec::new(), Vec::new()] });
        proof {
            old(self).lemma_add_var(*self);
            old(self).lemma_with_var(*self);
        }
        ret
    }

    /// The number of variables.
    pub fn var_count(&self) -> (n: usize)
        ensures
            n == self.num_vars(),
    {
        self.vars.len()
    }

    /// The value of a literal under the current partial assignment.
    pub(crate) fn val(&self, lit: Lit) -> (r: Option<bool>)
        requires
            lit.var < self.n(),
        ensures
            r == self.lit_val(lit),
    {
        match &self.vars[lit.var].value {
            Some(a) => Some(a.val == lit.val),
            None => None,
        }
    }

    /// `s1` is `self` with one more variable, unassigned and unwatched.
    pub(crate) open spec fn var_added(&self, s1: Solver) -> bool {
        &&& s1.vars@.len() == self.vars@.len() + 1
        &&& forall|v: int| 0 <= v < self.n() ==> s1.vars@[v] == self.vars@[v]
        &&& s1.vars@[self.n()].value is None
        &&& s1.vars@[self.n()].watchers[0]@.len() == 0
        &&& s1.vars@[self.n()].watchers[1]@.len() == 0
        &&& s1.clauses == self.clauses
        &&& s1.base_clauses == self.base_clauses
        &&& s1.prop_q == self.prop_q
        &&& s1.history == self.history
        &&& s1.assumption_history == self.assumption_history
        &&& s1.unsat == self.unsat
        &&& s1.formula == self.formula
    }

    /// `s1` is `self` with one more variable, which has no value and two
    /// empty watch lists; the variables below it, the clause table, the
    /// trail, the decisions and the formula are those of `self`.
    pub closed spec fn with_var(&self, s1: Solver) -> bool {
        self.var_added(s1)
    }

    /// What `with_var` stands for.
    pub(crate) proof fn lemma_with_var(&self, s1: Solver)
        ensures
            self.with_var(s1) == self.var_added(s1),
    {
    }

    /// A fresh variable keeps the state before the search in order.
    pub(crate) proof fn lemma_add_var(&self, s1: Solver)
        requires
            self.idle(),
            self.var_added(s1),
        ensures
            s1.idle(),
    {
        let n = self.n();
        assert forall|v: int| 0 <= v < n implies s1.assigned(v) == self.assigned(v) by {}
        assert forall|c: int| 0 <= c < s1.nc() implies clause_ok(#[trigger] s1.cl(c), s1.n()) by {
            assert(clause_ok(self.cl(c), n));
        }
        assert(s1.trail_ok()) by {
            assert forall|i: int| 0 <= i < s1.trail().len() implies {
                &&& (#[trigger] s1.trail()[i]) < s1.n()
                &&& s1.assigned(s1.trail()[i] as int)
                &&& s1.pos(s1.trail()[i] as int) == i
            } by {
                assert(self.trail()[i] < n);
            }
            assert forall|v: int| 0 <= v < s1.n() && #[trigger] s1.assigned(v) implies {
                &&& 0 <= s1.pos(v) < s1.trail().len()
                &&& s1.trail()[s1.pos(v)] == v
            } by {
                assert(self.assigned(v));
            }
        }
        assert(s1.levels_ok()) by {
            assert forall|u: int, v: int|
                0 <= u < s1.n() && 0 <= v < s1.n() && #[trigger] s1.assigned(u)
                    && #[trigger] s1.assigned(v) && s1.pos(u) <= s1.pos(v) implies s1.level(u)
                <= s1.level(v) by {
                assert(self.assigned(u) && self.assigned(v));
            }
            assert forall|v: int| 0 <= v < s1.n() && #[trigger] s1.assigned(v) implies {
                &&& s1.level(v) <= s1.cur_level()
                &&& s1.level(v) >= 1 ==> s1.pos(s1.decs()[s1.level(v) - 1] as int) <= s1.pos(v)
                &&& s1.level(v) >= 1 && s1.cause(v) is None ==> s1.decs()[s1.level(v) - 1] == v
            } by {
                assert(self.assigned(v));
            }
        }
        assert(s1.reasons_ok()) by {
            assert forall|v: int|
                0 <= v < s1.n() && #[trigger] s1.assigned(v) && s1.cause(v) is Some implies s1.reason_ok(
                v,
            ) by {
                assert(self.assigned(v));
                assert(self.reason_ok(v));
                let c = self.cause(v)->0 as int;
                assert(s1.cl(c) == self.cl(c));
                assert(clause_ok(self.cl(c), n));
                assert forall|j: int| 1 <= j < s1.cl(c).len() implies s1.is_false(
                    #[trigger] s1.cl(c)[j],
                ) && s1.pos(s1.cl(c)[j].var as int) < s1.pos(v) by {
                    assert(self.is_false(self.cl(c)[j]));
                }
            }
        }
        assert(s1.watch_ok()) by {
            assert forall|v: int, s: int, k: int|
                0 <= v < s1.n() && 0 <= s < 2 && 0 <= k < s1.wl(v, s).len() implies {
                &&& (#[trigger] s1.wl(v, s)[k]) < s1.nc()
                &&& s1.watches(s1.wl(v, s)[k] as int, Lit { var: v as usize, val: s == 0 })
            } by {
                assert(v < n);
                assert(s1.wl(v, s) == self.wl(v, s));
                assert(self.wl(v, s)[k] < self.nc());
            }
            assert forall|v: int, s: int| 0 <= v < s1.n() && 0 <= s < 2 implies (#[trigger] s1.wl(
                v,
                s,
            )).no_duplicates() by {
                if v < n {
                    assert(s1.wl(v, s) == self.wl(v, s));
                    assert(self.wl(v, s).no_duplicates());
                }
            }
            assert forall|c: int, w: int| 0 <= c < s1.nc() && 0 <= w < 2 implies #[trigger] s1.listed(
                c,
                w,
            ) by {
                assert(self.listed(c, w));
                assert(clause_ok(self.cl(c), n));
                assert(self.cl(c)[w].var < n);
            }
        }
        assert(s1.sound()) by {
            assert forall|c: int| 0 <= c < s1.nc() implies entails_clause(
                s1.formula@,
                #[trigger] s1.cl(c),
            ) by {
                assert(entails_clause(self.formula@, self.cl(c)));
            }
            assert forall|v: int|
                0 <= v < s1.n() && #[trigger] s1.assigned(v) && s1.level(v) == 0 implies entails_lit(
                s1.formula@,
                s1.lit_of(v),
            ) by {
                assert(self.assigned(v));
            }
        }
        if !self.unsat {
            assert forall|m: Seq<bool>| #[trigger] s1.models_base(m) implies formula_holds(
                s1.formula@,
                m,
            ) by {
                let m0 = m.take(n);
                assert(self.models_base(m0)) by {
                    assert forall|c: int| 0 <= c < self.base_clauses implies clause_holds(
                        #[trigger] self.cl(c),
                        m0,
                    ) by {
                        assert(clause_holds(s1.cl(c), m));
                        let i = choose|i: int|
                            0 <= i < s1.cl(c).len() && crate::cnf::lit_holds(
                                #[trigger] s1.cl(c)[i],
                                m,
                            );
                        assert(clause_ok(self.cl(c), n));
                        assert(crate::cnf::lit_holds(self.cl(c)[i], m0));
                    }
                    assert forall|v: int|
                        0 <= v < self.n() && #[trigger] self.assigned(v) && self.level(v)
                            == 0 implies m0[v] == self.val_of(v) by {
                        assert(s1.assigned(v));
                    }
                }
                crate::cnf::lemma_extend_formula(self.formula@, m0, m);
            }
            assert forall|l: Lit| #[trigger]
                has_unit(s1.formula@, l) <==> l.var < s1.n() && s1.is_true(l) by {
                if l.var < n {
                    assert(s1.is_true(l) == self.is_true(l));
                }
            }
        }
    }
}

impl Default for Solver {
    /// A solver with no variables and no clauses.
    fn default() -> (s: Solver)
        ensures
            s.wf(),
            s.formula() == Seq::<Seq<Lit>>::empty(),
            s.num_vars() == 0,
            s.blank(),
    {
        Solver::new()
    }
}

} // verus!
