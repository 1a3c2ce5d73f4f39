//! Conflict analysis: from a falsified clause to a learnt clause with one
//! literal of the current level (first unique implication point), and the
//! level to return to.

use crate::cnf::{
    clause_holds, entails_clause, entails_lit, formula_holds, lemma_swapped_within,
    lemma_within_entails, lit_holds, satisfiable, swapped,
};
use crate::lit::Lit;
use crate::solver::{clause_ok, Solver, Unsat};
use vstd::prelude::*;

verus! {

/// The state of the resolution walk.
pub(crate) struct Walk {
    /// The learnt clause so far; slot 0 is kept for the asserting literal.
    pub(crate) learnt: Vec<Lit>,
    /// The variables met so far.
    pub(crate) seen: Vec<bool>,
    /// How many variables of the current level were met and are still to be
    /// resolved.
    pub(crate) counter: usize,
    /// The highest level among the literals of `learnt` after slot 0.
    pub(crate) max_assumption: usize,
    /// Where in `learnt` a literal of that level stands.
    pub(crate) max_idx: usize,
}

/// Some literal of `l` after slot 0 is on the variable `v`.
pub(crate) open spec fn in_learnt(l: Seq<Lit>, v: int) -> bool {
    exists|k: int| 1 <= k < l.len() && (#[trigger] l[k]).var == v
}

/// `seen`, with the variables of `c` at the indices from `start` up to `j`
/// added.
pub(crate) open spec fn marked_upto(seen: Seq<bool>, c: Seq<Lit>, start: int, j: int) -> Seq<bool> {
    Seq::new(seen.len(), |v: int| seen[v] || exists|i: int| start <= i < j && i < c.len() && (#[trigger] c[i]).var == v)
}

/// `seen`, with the variables of `c` from index `start` on added.
pub(crate) open spec fn marked(seen: Seq<bool>, c: Seq<Lit>, start: int) -> Seq<bool> {
    marked_upto(seen, c, start, c.len() as int)
}

impl Solver {
    /// The variables that the walk from the falsified clause `conflict` has
    /// met when it has dealt with the trail indices from `k` up: those of
    /// `conflict` and, for each variable of the current level that was met
    /// and stands at such an index, those that its cause holds besides it.
    pub(crate) open spec fn met(&self, conflict: int, k: int) -> Seq<bool>
        decreases self.trail().len() - k,
    {
        if k >= self.trail().len() {
            marked(Seq::new(self.n() as nat, |v: int| false), self.cl(conflict), 0)
        } else {
            let above = self.met(conflict, k + 1);
            let v = self.trail()[k] as int;
            if self.pending_at(above, k) && self.cause(v) is Some {
                marked(above, self.cl(self.cause(v)->0 as int), 1)
            } else {
                above
            }
        }
    }

    /// The variable at trail index `k` is a unique implication point of the
    /// walk: it was met, is of the current level, and no other variable of
    /// the current level that was met stands below it.
    pub(crate) open spec fn uip_at(&self, conflict: int, k: int) -> bool {
        self.pending_at(self.met(conflict, k + 1), k) && self.pending(self.met(conflict, k + 1), k) == 0
    }

    /// The variable at trail index `k` is the first unique implication
    /// point: the one that the walk, which goes down the trail, comes to
    /// first.
    pub(crate) open spec fn first_uip(&self, conflict: int, k: int) -> bool {
        &&& 0 <= k < self.trail().len()
        &&& self.uip_at(conflict, k)
        &&& forall|j: int| k < j < self.trail().len() ==> !#[trigger] self.uip_at(conflict, j)
    }

    /// The learnt clause `e` is the one that the walk from `conflict`
    /// gives: its first literal negates the first unique implication point,
    /// and its other literals are on the variables of lower levels above 0
    /// that the walk met before it came to that point.
    pub(crate) open spec fn uip_ok(&self, conflict: int, e: Unsat) -> bool {
        e.learnt@.len() > 0 ==> {
            let k = self.pos(e.learnt@[0].var as int);
            &&& self.first_uip(conflict, k)
            &&& e.learnt@[0] == self.lit_of(self.trail()[k] as int).neg()
            &&& forall|v: int|
                0 <= v < self.n() ==> (#[trigger] in_learnt(e.learnt@, v) <==> self.met(conflict, k + 1)[v] && 0
                    < self.level(v) < self.cur_level())
        }
    }

    /// `s2` has the values, the trail, the decisions and the clause table
    /// of `self`.
    pub(crate) open spec fn same_walk(&self, s2: Solver) -> bool {
        &&& s2.vars == self.vars
        &&& s2.clauses == self.clauses
        &&& s2.history == self.history
        &&& s2.assumption_history == self.assumption_history
    }

    /// The pending count is the same in a state with the same values.
    pub(crate) proof fn lemma_pending_frame(&self, s2: Solver, seen: Seq<bool>, ptr: int)
        requires
            self.same_walk(s2),
        ensures
            s2.pending(seen, ptr) == self.pending(seen, ptr),
        decreases ptr,
    {
        if ptr > 0 {
            self.lemma_pending_frame(s2, seen, ptr - 1);
        }
    }

    /// The walk meets the same variables in a state with the same values
    /// and clauses.
    pub(crate) proof fn lemma_met_frame(&self, s2: Solver, conflict: int, k: int)
        requires
            self.same_walk(s2),
        ensures
            s2.met(conflict, k) == self.met(conflict, k),
        decreases self.trail().len() - k,
    {
        if k < self.trail().len() {
            self.lemma_met_frame(s2, conflict, k + 1);
        }
    }

    /// The learnt clause is that of the walk in a state with the same
    /// values and clauses.
    pub(crate) proof fn lemma_uip_frame(&self, s2: Solver, conflict: int, e: Unsat)
        requires
            self.same_walk(s2),
            self.uip_ok(conflict, e),
        ensures
            s2.uip_ok(conflict, e),
    {
        if e.learnt@.len() > 0 {
            let k = self.pos(e.learnt@[0].var as int);
            assert forall|j: int| s2.uip_at(conflict, j) == self.uip_at(conflict, j) by {
                self.lemma_met_frame(s2, conflict, j + 1);
                self.lemma_pending_frame(s2, self.met(conflict, j + 1), j);
            }
            self.lemma_met_frame(s2, conflict, k + 1);
        }
    }

    /// Some clause of the table has all its literals false, and `e` is the
    /// outcome of the walk from it.
    pub(crate) open spec fn conflict_at(&self, e: Unsat) -> bool {
        exists|c: int|
            0 <= c < self.nc() && (forall|j: int| 0 <= j < self.cl(c).len() ==> self.is_false(#[trigger] self.cl(c)[j]))
                && #[trigger] self.uip_ok(c, e)
    }

    /// A false clause with the outcome of its walk is a conflict.
    pub(crate) proof fn lemma_conflict_at(&self, c: int, e: Unsat)
        requires
            0 <= c < self.nc(),
            forall|j: int| 0 <= j < self.cl(c).len() ==> self.is_false(#[trigger] self.cl(c)[j]),
            self.uip_ok(c, e),
        ensures
            self.conflict_at(e),
    {
    }

    /// The variable at trail index `i` was met and is of the current level.
    pub(crate) open spec fn pending_at(&self, seen: Seq<bool>, i: int) -> bool {
        seen[self.trail()[i] as int] && self.level(self.trail()[i] as int) == self.cur_level()
    }

    /// The number of trail indices below `ptr` that are pending.
    pub(crate) open spec fn pending(&self, seen: Seq<bool>, ptr: int) -> int
        decreases ptr,
    {
        if ptr <= 0 {
            0
        } else {
            self.pending(seen, ptr - 1) + if self.pending_at(seen, ptr - 1) { 1int } else { 0int }
        }
    }

    /// What conflict analysis hands back: nothing when the formula is
    /// refuted; otherwise a clause that follows from the formula, false
    /// under the current assignment, whose first literal alone is of the
    /// current level and whose second is of the level to return to.
    pub(crate) open spec fn conflict_ok(&self, e: Unsat) -> bool {
        if e.learnt@.len() == 0 {
            e.max_assumption == 0 && !satisfiable(self.formula@)
        } else {
            &&& self.cur_level() > 0
            &&& e.max_assumption < self.cur_level()
            &&& entails_clause(self.formula@, e.learnt@)
            &&& forall|k: int|
                0 <= k < e.learnt@.len() ==> (#[trigger] e.learnt@[k]).var < self.n() && self.is_false(
                    e.learnt@[k],
                )
            &&& self.level(e.learnt@[0].var as int) == self.cur_level()
            &&& forall|k: int|
                1 <= k < e.learnt@.len() ==> 0 < self.level((#[trigger] e.learnt@[k]).var as int)
                    <= e.max_assumption
            &&& e.learnt@.len() > 1 ==> self.level(e.learnt@[1].var as int) == e.max_assumption
            &&& e.learnt@.len() == 1 ==> e.max_assumption == 0
            &&& forall|i: int, j: int|
                0 <= i < j < e.learnt@.len() ==> (#[trigger] e.learnt@[i]).var != (
                #[trigger] e.learnt@[j]).var
        }
    }

    /// What holds of the walk while trail indices below `ptr` are still to be
    /// looked at: the counter is the number of pending variables, and `learnt`
    /// holds, after slot 0, the false literals of lower levels that were met.
    pub(crate) open spec fn walk_ok(&self, w: Walk, ptr: int) -> bool {
        let d = self.cur_level();
        &&& 0 <= ptr <= self.trail().len()
        &&& w.seen@.len() == self.n()
        &&& w.learnt@.len() >= 1
        &&& forall|v: int| 0 <= v < self.n() && #[trigger] w.seen@[v] ==> self.assigned(v)
        &&& w.counter == self.pending(w.seen@, ptr)
        &&& forall|k: int|
            1 <= k < w.learnt@.len() ==> {
                &&& (#[trigger] w.learnt@[k]).var < self.n()
                &&& w.seen@[w.learnt@[k].var as int]
                &&& self.is_false(w.learnt@[k])
                &&& 0 < self.level(w.learnt@[k].var as int) < d
                &&& self.level(w.learnt@[k].var as int) <= w.max_assumption
            }
        &&& forall|i: int, j: int|
            1 <= i < j < w.learnt@.len() ==> (#[trigger] w.learnt@[i]).var != (#[trigger] w.learnt@[j]).var
        &&& forall|v: int|
            0 <= v < self.n() && #[trigger] w.seen@[v] && 0 < self.level(v) < d ==> in_learnt(
                w.learnt@,
                v,
            )
        &&& w.max_assumption < d
        &&& w.learnt@.len() == 1 ==> w.max_assumption == 0
        &&& w.learnt@.len() > 1 ==> 1 <= w.max_idx < w.learnt@.len() && self.level(
            w.learnt@[w.max_idx as int].var as int,
        ) == w.max_assumption
    }

    /// The clause made of `learnt` after slot 0 and of the negations of the
    /// pending assignments holds under `m`.
    pub(crate) open spec fn resolvent_holds(&self, w: Walk, ptr: int, m: Seq<bool>) -> bool {
        ||| exists|k: int| 1 <= k < w.learnt@.len() && lit_holds(#[trigger] w.learnt@[k], m)
        ||| exists|i: int|
            0 <= i < ptr && #[trigger] self.pending_at(w.seen@, i) && lit_holds(
                self.lit_of(self.trail()[i] as int).neg(),
                m,
            )
    }

    /// The resolvent follows from the formula.
    pub(crate) open spec fn resolvent_entailed(&self, w: Walk, ptr: int) -> bool {
        forall|m: Seq<bool>| #[trigger] formula_holds(self.formula@, m) ==> self.resolvent_holds(w, ptr, m)
    }

    /// The pending count lies between 0 and `ptr`; it is 0 exactly when no
    /// index below `ptr` is pending.
    pub(crate) proof fn lemma_pending_bounds(&self, seen: Seq<bool>, ptr: int)
        requires
            ptr >= 0,
        ensures
            0 <= self.pending(seen, ptr) <= ptr,
            self.pending(seen, ptr) == 0 ==> forall|i: int| 0 <= i < ptr ==> !self.pending_at(seen, i),
            self.pending(seen, ptr) > 0 ==> exists|i: int| 0 <= i < ptr && self.pending_at(seen, i),
        decreases ptr,
    {
        if ptr > 0 {
            self.lemma_pending_bounds(seen, ptr - 1);
            if self.pending(seen, ptr) > 0 && !self.pending_at(seen, ptr - 1) {
                let i = choose|i: int| 0 <= i < ptr - 1 && self.pending_at(seen, i);
                assert(0 <= i < ptr && self.pending_at(seen, i));
            }
        }
    }

    /// Marking one more variable as met raises the pending count by one if
    /// the variable is of the current level and below `ptr` on the trail, and
    /// leaves it alone otherwise.
    pub(crate) proof fn lemma_pending_mark(&self, seen: Seq<bool>, u: int, ptr: int)
        requires
            self.trail_ok(),
            seen.len() == self.n(),
            0 <= u < self.n(),
            !seen[u],
            self.assigned(u),
            0 <= ptr <= self.trail().len(),
        ensures
            self.pending(seen.update(u, true), ptr) == self.pending(seen, ptr) + if self.pos(u) < ptr
                && self.level(u) == self.cur_level() {
                1int
            } else {
                0int
            },
        decreases ptr,
    {
        if ptr > 0 {
            self.lemma_pending_mark(seen, u, ptr - 1);
            let x = self.trail()[ptr - 1] as int;
            assert(self.assigned(x));
            if x == u {
                assert(self.pos(u) == ptr - 1);
            } else {
                assert(seen.update(u, true)[x] == seen[x]);
            }
        }
    }

    /// A clause that is false at level 0 refutes the formula.
    pub(crate) proof fn lemma_conflict_at_root(&self, c: int)
        requires
            self.grounded(),
            self.cur_level() == 0,
            0 <= c < self.nc(),
            forall|j: int| 0 <= j < self.cl(c).len() ==> self.is_false(#[trigger] self.cl(c)[j]),
        ensures
            !satisfiable(self.formula@),
    {
        if satisfiable(self.formula@) {
            let m = choose|m: Seq<bool>| formula_holds(self.formula@, m);
            assert(entails_clause(self.formula@, self.cl(c)));
            let j = choose|j: int| 0 <= j < self.cl(c).len() && lit_holds(#[trigger] self.cl(c)[j], m);
            let u = self.cl(c)[j].var as int;
            assert(clause_ok(self.cl(c), self.n()));
            assert(self.is_false(self.cl(c)[j]));
            assert(self.assigned(u));
            assert(entails_lit(self.formula@, self.lit_of(u)));
            assert(lit_holds(self.lit_of(u), m));
        }
    }

    /// At level 0, a clause whose literals after the first are false forces
    /// its first literal in every model of the formula.
    pub(crate) proof fn lemma_unit_entailed(&self, c: int)
        requires
            self.grounded(),
            self.cur_level() == 0,
            0 <= c < self.nc(),
            forall|j: int| 1 <= j < self.cl(c).len() ==> self.is_false(#[trigger] self.cl(c)[j]),
        ensures
            entails_lit(self.formula@, self.cl(c)[0]),
    {
        assert forall|m: Seq<bool>| #[trigger] formula_holds(self.formula@, m) implies lit_holds(
            self.cl(c)[0],
            m,
        ) by {
            assert(entails_clause(self.formula@, self.cl(c)));
            let j = choose|j: int| 0 <= j < self.cl(c).len() && lit_holds(#[trigger] self.cl(c)[j], m);
            if j >= 1 {
                let u = self.cl(c)[j].var as int;
                assert(clause_ok(self.cl(c), self.n()));
                assert(self.is_false(self.cl(c)[j]));
                assert(self.assigned(u));
                assert(entails_lit(self.formula@, self.lit_of(u)));
                assert(lit_holds(self.lit_of(u), m));
            }
        }
    }

    /// A false literal that the walk has met and that a model of the formula
    /// makes true is part of the resolvent.
    pub(crate) proof fn lemma_met_literal(&self, w: Walk, ptr: int, m: Seq<bool>, q: Lit)
        requires
            self.grounded(),
            self.walk_ok(w, ptr),
            formula_holds(self.formula@, m),
            q.var < self.n(),
            self.is_false(q),
            w.seen@[q.var as int],
            self.pos(q.var as int) < ptr,
            lit_holds(q, m),
        ensures
            self.resolvent_holds(w, ptr, m),
    {
        let u = q.var as int;
        let d = self.cur_level();
        assert(self.assigned(u));
        if self.level(u) == d {
            let i = self.pos(u);
            assert(self.trail()[i] == u);
            assert(self.pending_at(w.seen@, i));
            assert(self.lit_of(u).neg() == q);
        } else if self.level(u) > 0 {
            assert(in_learnt(w.learnt@, u));
            let k = choose|k: int| 1 <= k < w.learnt@.len() && (#[trigger] w.learnt@[k]).var == u;
            assert(self.is_false(w.learnt@[k]));
            assert(w.learnt@[k] == q);
        } else {
            assert(entails_lit(self.formula@, self.lit_of(u)));
            assert(lit_holds(self.lit_of(u), m));
        }
    }

    /// After the literals of a clause that follows from the formula have
    /// been met, from `start` on, the resolvent follows from the formula:
    /// at the start of the walk (`start == 0`), or when the clause is the
    /// cause of the variable at `ptr`, on which the old resolvent is
    /// resolved with it.
    pub(crate) proof fn lemma_resolve(&self, w0: Walk, ptr0: int, w: Walk, ptr: int, c: int, start: int)
        requires
            self.grounded(),
            self.walk_ok(w, ptr),
            0 <= c < self.nc(),
            forall|j: int|
                start <= j < self.cl(c).len() ==> {
                    &&& self.is_false(#[trigger] self.cl(c)[j])
                    &&& self.pos(self.cl(c)[j].var as int) < ptr
                    &&& w.seen@[self.cl(c)[j].var as int]
                },
            start == 0 || {
                &&& start == 1
                &&& 0 <= ptr < ptr0 <= self.trail().len()
                &&& self.resolvent_entailed(w0, ptr0)
                &&& self.cl(c)[0] == self.lit_of(self.trail()[ptr] as int)
                &&& forall|i: int| ptr < i < ptr0 ==> !self.pending_at(w0.seen@, i)
                &&& w0.seen@.len() == w.seen@.len()
                &&& forall|v: int| 0 <= v < self.n() && w0.seen@[v] ==> w.seen@[v]
                &&& w0.learnt@.len() <= w.learnt@.len()
                &&& forall|k: int| 1 <= k < w0.learnt@.len() ==> w.learnt@[k] == w0.learnt@[k]
            },
        ensures
            self.resolvent_entailed(w, ptr),
    {
        assert forall|m: Seq<bool>| #[trigger] formula_holds(self.formula@, m) implies self.resolvent_holds(
            w,
            ptr,
            m,
        ) by {
            assert(clause_ok(self.cl(c), self.n()));
            assert(entails_clause(self.formula@, self.cl(c)));
            let j = choose|j: int| 0 <= j < self.cl(c).len() && lit_holds(#[trigger] self.cl(c)[j], m);
            if start == 0 {
                self.lemma_met_literal(w, ptr, m, self.cl(c)[j]);
            } else {
                assert(self.resolvent_holds(w0, ptr0, m));
                if exists|k: int| 1 <= k < w0.learnt@.len() && lit_holds(#[trigger] w0.learnt@[k], m) {
                    let k = choose|k: int| 1 <= k < w0.learnt@.len() && lit_holds(#[trigger] w0.learnt@[k], m);
                    assert(lit_holds(w.learnt@[k], m));
                } else {
                    let i = choose|i: int|
                        0 <= i < ptr0 && #[trigger] self.pending_at(w0.seen@, i) && lit_holds(
                            self.lit_of(self.trail()[i] as int).neg(),
                            m,
                        );
                    assert(self.trail()[i] < self.n());
                    if i < ptr {
                        assert(self.pending_at(w.seen@, i));
                    } else {
                        assert(i == ptr);
                        assert(j >= 1);
                        self.lemma_met_literal(w, ptr, m, self.cl(c)[j]);
                    }
                }
            }
        }
    }

    /// Marks the variables of clause `c`, from index `start` on, as met:
    /// those of the current level are counted, those of lower levels above 0
    /// go into the learnt clause.
    pub(crate) fn absorb(&self, c: usize, start: usize, Ghost(ptr): Ghost<int>, w: &mut Walk)
        requires
            self.grounded(),
            self.walk_ok(*old(w), ptr),
            c < self.nc(),
            start <= 1,
            forall|j: int|
                start <= j < self.cl(c as int).len() ==> {
                    &&& self.is_false(#[trigger] self.cl(c as int)[j])
                    &&& self.pos(self.cl(c as int)[j].var as int) < ptr
                },
        ensures
            self.walk_ok(*final(w), ptr),
            forall|v: int| 0 <= v < self.n() && old(w).seen@[v] ==> final(w).seen@[v],
            old(w).learnt@.len() <= final(w).learnt@.len(),
            forall|k: int| 0 <= k < old(w).learnt@.len() ==> final(w).learnt@[k] == old(w).learnt@[k],
            forall|j: int|
                start <= j < self.cl(c as int).len() ==> final(w).seen@[(#[trigger] self.cl(c as int)[j]).var as int],
            final(w).counter >= old(w).counter,
            final(w).seen@ == marked(old(w).seen@, self.cl(c as int), start as int),
    {
        let d = self.assumption_history.len();
        let mut j = start;
        proof {
            assert(clause_ok(self.cl(c as int), self.n()));
            assert(w.seen@ =~= marked_upto(w.seen@, self.cl(c as int), start as int, start as int));
        }
        while j < self.clauses[c].len()
            invariant
                w.seen@ == marked_upto(old(w).seen@, self.cl(c as int), start as int, j as int),
                self.grounded(),
                c < self.nc(),
                start <= j <= self.cl(c as int).len(),
                d == self.cur_level(),
                clause_ok(self.cl(c as int), self.n()),
                self.walk_ok(*w, ptr),
                forall|j: int|
                    start <= j < self.cl(c as int).len() ==> {
                        &&& self.is_false(#[trigger] self.cl(c as int)[j])
                        &&& self.pos(self.cl(c as int)[j].var as int) < ptr
                    },
                old(w).seen@.len() == self.n(),
                w.counter >= old(w).counter,
                forall|v: int| 0 <= v < self.n() && old(w).seen@[v] ==> w.seen@[v],
                old(w).learnt@.len() <= w.learnt@.len(),
                forall|k: int| 0 <= k < old(w).learnt@.len() ==> w.learnt@[k] == old(w).learnt@[k],
                forall|i: int| start <= i < j ==> w.seen@[(#[trigger] self.cl(c as int)[i]).var as int],
            decreases self.cl(c as int).len() - j,
        {
            let q = self.clauses[c][j];
            let ghost seen0 = w.seen@;
            proof {
                assert(q == self.cl(c as int)[j as int]);
                assert(self.is_false(q));
                assert(self.assigned(q.var as int));
            }
            if !w.seen[q.var] {
                let ghost w0 = *w;
                w.seen[q.var] = true;
                let lvl = self.level_of(q.var);
                proof {
                    self.lemma_pending_mark(w0.seen@, q.var as int, ptr);
                    assert(w.seen@ == w0.seen@.update(q.var as int, true));
                    self.lemma_pending_bounds(w.seen@, ptr);
                    assert(self.history.len() == self.history@.len());
                }
                if lvl == d {
                    w.counter = w.counter + 1;
                } else if lvl > 0 {
                    w.learnt.push(q);
                    if lvl > w.max_assumption {
                        w.max_assumption = lvl;
                        w.max_idx = w.learnt.len() - 1;
                    }
                }
                proof {
                    let u = q.var as int;
                    assert forall|v: int| 0 <= v < self.n() && #[trigger] w.seen@[v] implies self.assigned(v) by {
                        if v != u {
                            assert(w0.seen@[v]);
                        }
                    }
                    assert forall|k: int| 1 <= k < w.learnt@.len() implies {
                        &&& (#[trigger] w.learnt@[k]).var < self.n()
                        &&& w.seen@[w.learnt@[k].var as int]
                        &&& self.is_false(w.learnt@[k])
                        &&& 0 < self.level(w.learnt@[k].var as int) < d
                        &&& self.level(w.learnt@[k].var as int) <= w.max_assumption
                    } by {
                        if k < w0.learnt@.len() {
                            assert(w.learnt@[k] == w0.learnt@[k]);
                        }
                    }
                    assert forall|i: int, k: int| 1 <= i < k < w.learnt@.len() implies (#[trigger] w.learnt@[i]).var
                        != (#[trigger] w.learnt@[k]).var by {
                        assert(w.learnt@[i] == w0.learnt@[i]);
                        if k < w0.learnt@.len() {
                            assert(w.learnt@[k] == w0.learnt@[k]);
                        } else {
                            assert(w0.seen@[w0.learnt@[i].var as int]);
                        }
                    }
                    assert forall|v: int|
                        0 <= v < self.n() && #[trigger] w.seen@[v] && 0 < self.level(v) < d implies in_learnt(
                        w.learnt@,
                        v,
                    ) by {
                        if v != u {
                            assert(w0.seen@[v]);
                            assert(in_learnt(w0.learnt@, v));
                            let k = choose|k: int| 1 <= k < w0.learnt@.len() && (#[trigger] w0.learnt@[k]).var == v;
                            assert(w.learnt@[k] == w0.learnt@[k]);
                        } else {
                            let k = w.learnt@.len() - 1;
                            assert(w.learnt@[k].var == v);
                        }
                    }
                    if w.learnt@.len() > 1 {
                        if w.max_idx < w0.learnt@.len() {
                            assert(w.learnt@[w.max_idx as int] == w0.learnt@[w.max_idx as int]);
                        }
                    }
                    assert forall|i: int| start <= i < j + 1 implies w.seen@[(#[trigger] self.cl(c as int)[i]).var as int] by {
                        if i < j {
                            assert(w0.seen@[self.cl(c as int)[i].var as int]);
                        }
                    }
                    assert forall|k: int| 0 <= k < old(w).learnt@.len() implies w.learnt@[k] == old(w).learnt@[k] by {
                        assert(w0.learnt@[k] == old(w).learnt@[k]);
                    }
                }
            }
            proof {
                let cl = self.cl(c as int);
                let b = marked_upto(old(w).seen@, cl, start as int, j + 1);
                assert(w.seen@ =~= b) by {
                    assert forall|v: int| 0 <= v < b.len() implies w.seen@[v] == b[v] by {
                        if v == q.var {
                            assert(cl[j as int].var == v);
                        } else {
                            assert(w.seen@[v] == seen0[v]);
                            if exists|i: int| start <= i < j + 1 && i < cl.len() && (#[trigger] cl[i]).var == v {
                                let i = choose|i: int| start <= i < j + 1 && i < cl.len() && (#[trigger] cl[i]).var == v;
                                assert(i < j);
                            }
                        }
                    }
                }
            }
            j = j + 1;
        }
    }

    /// Swapping two literals after slot 0 of a finished learnt clause, so
    /// that one of the highest remaining level comes second, keeps what is
    /// known of the clause.
    pub(crate) proof fn lemma_learnt_swap(&self, a: Seq<Lit>, b: Seq<Lit>, i: int, max: int)
        requires
            a.len() > 1,
            1 <= i < a.len(),
            b == swapped(a, 1, i),
            entails_clause(self.formula@, a),
            forall|k: int| 0 <= k < a.len() ==> (#[trigger] a[k]).var < self.n() && self.is_false(a[k]),
            forall|k: int| 1 <= k < a.len() ==> 0 < self.level((#[trigger] a[k]).var as int) <= max,
            forall|x: int, y: int| 0 <= x < y < a.len() ==> (#[trigger] a[x]).var != (#[trigger] a[y]).var,
        ensures
            b.len() == a.len(),
            b[0] == a[0],
            b[1] == a[i],
            entails_clause(self.formula@, b),
            forall|k: int| 0 <= k < b.len() ==> (#[trigger] b[k]).var < self.n() && self.is_false(b[k]),
            forall|k: int| 1 <= k < b.len() ==> 0 < self.level((#[trigger] b[k]).var as int) <= max,
            forall|x: int, y: int| 0 <= x < y < b.len() ==> (#[trigger] b[x]).var != (#[trigger] b[y]).var,
    {
        lemma_swapped_within(a, 1, i);
        lemma_within_entails(self.formula@, a, b);
        assert forall|k: int| 0 <= k < b.len() implies (#[trigger] b[k]).var < self.n() && self.is_false(
            b[k],
        ) by {
            if k == 1 {
                assert(b[k] == a[i]);
            } else if k == i {
                assert(b[k] == a[1]);
            } else {
                assert(b[k] == a[k]);
            }
        }
        assert forall|k: int| 1 <= k < b.len() implies 0 < self.level((#[trigger] b[k]).var as int)
            <= max by {
            if k == 1 {
                assert(b[k] == a[i]);
            } else if k == i {
                assert(b[k] == a[1]);
            } else {
                assert(b[k] == a[k]);
            }
        }
        assert forall|x: int, y: int| 0 <= x < y < b.len() implies (#[trigger] b[x]).var != (
        #[trigger] b[y]).var by {
            let xa = if x == 1 { i } else if x == i { 1 } else { x };
            let ya = if y == 1 { i } else if y == i { 1 } else { y };
            assert(b[x] == a[xa]);
            assert(b[y] == a[ya]);
            if xa < ya {
                assert(a[xa].var != a[ya].var);
            } else {
                assert(a[ya].var != a[xa].var);
            }
        }
    }

    /// Analyses the falsified clause `conflict`.
    ///
    /// At level 0 the formula is refuted and the result is empty. Above it,
    /// the clause is resolved with the causes of the current level's
    /// assignments, latest first, until one literal of the current level is
    /// left (the first unique implication point). The learnt clause follows
    /// from the formula; its first literal is the negation of that
    /// assignment, its second is of the highest level among the rest, which
    /// is the level to return to.
    #[verifier::rlimit(50)]
    pub(crate) fn analyze(&self, conflict: usize) -> (e: Unsat)
        requires
            self.grounded(),
            conflict < self.nc(),
            forall|j: int|
                0 <= j < self.cl(conflict as int).len() ==> self.is_false(#[trigger] self.cl(conflict as int)[j]),
            exists|j: int|
                0 <= j < self.cl(conflict as int).len() && self.level(
                    (#[trigger] self.cl(conflict as int)[j]).var as int,
                ) == self.cur_level(),
        ensures
            self.conflict_ok(e),
            (e.learnt@.len() == 0) == (self.cur_level() == 0),
            self.uip_ok(conflict as int, e),
    {
        let d = self.assumption_history.len();
        if d == 0 {
            proof {
                self.lemma_conflict_at_root(conflict as int);
            }
            return Unsat { learnt: Vec::new(), max_assumption: 0 };
        }
        let n = self.vars.len();
        let mut seen: Vec<bool> = Vec::new();
        while seen.len() < n
            invariant
                seen@.len() <= n,
                forall|v: int| 0 <= v < seen@.len() ==> !seen@[v],
            decreases n - seen@.len(),
        {
            seen.push(false);
        }
        let mut learnt: Vec<Lit> = Vec::new();
        learnt.push(Lit { var: 0, val: false });
        let mut w = Walk { learnt, seen, counter: 0, max_assumption: 0, max_idx: 0 };
        let mut ptr = self.history.len();
        proof {
            assert(w.seen@ =~= Seq::new(self.n() as nat, |v: int| false));
            assert(clause_ok(self.cl(conflict as int), self.n()));
            self.lemma_pending_none(w.seen@, ptr as int);
            assert forall|j: int| 0 <= j < self.cl(conflict as int).len() implies self.pos(
                (#[trigger] self.cl(conflict as int)[j]).var as int,
            ) < ptr by {
                assert(self.is_false(self.cl(conflict as int)[j]));
                assert(self.assigned(self.cl(conflict as int)[j].var as int));
            }
        }
        self.absorb(conflict, 0, Ghost(ptr as int), &mut w);
        proof {
            self.lemma_resolve(w, ptr as int, w, ptr as int, conflict as int, 0);
            // the clause has a literal of the current level, which was counted
            let j = choose|j: int|
                0 <= j < self.cl(conflict as int).len() && self.level(
                    (#[trigger] self.cl(conflict as int)[j]).var as int,
                ) == self.cur_level();
            let u = self.cl(conflict as int)[j].var as int;
            assert(self.is_false(self.cl(conflict as int)[j]));
            assert(self.assigned(u));
            assert(self.trail()[self.pos(u)] == u);
            assert(self.pending_at(w.seen@, self.pos(u)));
            self.lemma_pending_bounds(w.seen@, ptr as int);
        }
        loop
            invariant_except_break
                self.walk_ok(w, ptr as int),
                self.resolvent_entailed(w, ptr as int),
                w.counter >= 1,
                w.seen@ == self.met(conflict as int, ptr as int),
                forall|j: int| ptr <= j < self.trail().len() ==> !#[trigger] self.uip_at(conflict as int, j),
            invariant
                self.grounded(),
                d == self.cur_level(),
                d > 0,
                conflict < self.nc(),
            ensures
                self.grounded(),
                d == self.cur_level(),
                self.assigned(w.learnt@[0].var as int),
                self.first_uip(conflict as int, self.pos(w.learnt@[0].var as int)),
                w.learnt@[0] == self.lit_of(w.learnt@[0].var as int).neg(),
                forall|v: int|
                    0 <= v < self.n() ==> (#[trigger] in_learnt(w.learnt@, v) <==> self.met(
                        conflict as int,
                        self.pos(w.learnt@[0].var as int) + 1,
                    )[v] && 0 < self.level(v) < d),
                w.learnt@.len() >= 1,
                w.max_assumption < d,
                entails_clause(self.formula@, w.learnt@),
                forall|k: int|
                    0 <= k < w.learnt@.len() ==> (#[trigger] w.learnt@[k]).var < self.n() && self.is_false(
                        w.learnt@[k],
                    ),
                self.level(w.learnt@[0].var as int) == d,
                forall|k: int|
                    1 <= k < w.learnt@.len() ==> 0 < self.level((#[trigger] w.learnt@[k]).var as int)
                        <= w.max_assumption,
                forall|i: int, j: int|
                    0 <= i < j < w.learnt@.len() ==> (#[trigger] w.learnt@[i]).var != (
                    #[trigger] w.learnt@[j]).var,
                w.learnt@.len() == 1 ==> w.max_assumption == 0,
                w.learnt@.len() > 1 ==> 1 <= w.max_idx < w.learnt@.len() && self.level(
                    w.learnt@[w.max_idx as int].var as int,
                ) == w.max_assumption,
            decreases ptr,
        {
            let ghost ptr0 = ptr as int;
            let ghost w0 = w;
            proof {
                self.lemma_pending_bounds(w.seen@, ptr as int);
            }
            // back to the latest variable that was met
            ptr = ptr - 1;
            while !w.seen[self.history[ptr]]
                invariant
                    self.grounded(),
                    d == self.cur_level(),
                    w == w0,
                    self.walk_ok(w0, ptr0),
                    0 <= ptr < ptr0 <= self.trail().len(),
                    self.pending(w.seen@, ptr + 1) == w.counter,
                    w.counter >= 1,
                    forall|i: int| ptr < i < ptr0 ==> !self.pending_at(w.seen@, i),
                    w.seen@ == self.met(conflict as int, ptr + 1),
                    forall|j: int| ptr < j < self.trail().len() ==> !#[trigger] self.uip_at(conflict as int, j),
                decreases ptr,
            {
                proof {
                    assert(!self.pending_at(w.seen@, ptr as int));
                    self.lemma_pending_bounds(w.seen@, ptr as int);
                    assert(self.met(conflict as int, ptr as int) == self.met(conflict as int, ptr + 1));
                    assert(!self.uip_at(conflict as int, ptr as int));
                }
                ptr = ptr - 1;
            }
            let p = self.history[ptr];
            proof {
                // `p` is of the current level: something pending lies at or below it
                self.lemma_pending_bounds(w.seen@, ptr + 1);
                let i = choose|i: int| 0 <= i < ptr + 1 && self.pending_at(w.seen@, i);
                assert(self.assigned(self.trail()[i] as int));
                assert(self.assigned(p as int));
                assert(self.level(p as int) == d);
                assert(self.pending_at(w.seen@, ptr as int));
                self.lemma_pending_bounds(w.seen@, ptr as int);
            }
            w.counter = w.counter - 1;
            if w.counter == 0 {
                let nv = !self.value_of(p);
                w.learnt[0] = Lit { var: p, val: nv };
                proof {
                    assert forall|k: int| 1 <= k < w.learnt@.len() implies w.learnt@[k] == w0.learnt@[k] by {}
                    assert(self.pos(p as int) == ptr);
                    assert(w.learnt@[0].var == p);
                    assert(w0.seen@ == self.met(conflict as int, ptr + 1));
                    assert(self.uip_at(conflict as int, ptr as int));
                    assert(w.learnt@[0] == self.lit_of(p as int).neg());
                    assert forall|v: int| 0 <= v < self.n() implies (#[trigger] in_learnt(w.learnt@, v)
                        <==> w0.seen@[v] && 0 < self.level(v) < d) by {
                        if in_learnt(w.learnt@, v) {
                            let k = choose|k: int| 1 <= k < w.learnt@.len() && (#[trigger] w.learnt@[k]).var == v;
                            assert(w0.learnt@[k] == w.learnt@[k]);
                        }
                        if w0.seen@[v] && 0 < self.level(v) < d {
                            assert(in_learnt(w0.learnt@, v));
                            let k = choose|k: int| 1 <= k < w0.learnt@.len() && (#[trigger] w0.learnt@[k]).var == v;
                            assert(w.learnt@[k] == w0.learnt@[k]);
                        }
                    }
                    assert forall|m: Seq<bool>| #[trigger] formula_holds(self.formula@, m) implies clause_holds(
                        w.learnt@,
                        m,
                    ) by {
                        assert(self.resolvent_holds(w0, ptr0, m));
                        if exists|k: int| 1 <= k < w0.learnt@.len() && lit_holds(#[trigger] w0.learnt@[k], m) {
                            let k = choose|k: int| 1 <= k < w0.learnt@.len() && lit_holds(#[trigger] w0.learnt@[k], m);
                            assert(lit_holds(w.learnt@[k], m));
                        } else {
                            let i = choose|i: int|
                                0 <= i < ptr0 && #[trigger] self.pending_at(w0.seen@, i) && lit_holds(
                                    self.lit_of(self.trail()[i] as int).neg(),
                                    m,
                                );
                            assert(i == ptr);
                            assert(lit_holds(w.learnt@[0], m));
                        }
                    }
                    assert forall|k: int| 0 <= k < w.learnt@.len() implies (#[trigger] w.learnt@[k]).var
                        < self.n() && self.is_false(w.learnt@[k]) by {
                        if k >= 1 {
                            assert(w.learnt@[k] == w0.learnt@[k]);
                        }
                    }
                    assert forall|k: int| 1 <= k < w.learnt@.len() implies 0 < self.level(
                        (#[trigger] w.learnt@[k]).var as int,
                    ) <= w.max_assumption by {
                        assert(w.learnt@[k] == w0.learnt@[k]);
                    }
                    assert forall|i: int, j: int| 0 <= i < j < w.learnt@.len() implies (#[trigger] w.learnt@[i]).var
                        != (#[trigger] w.learnt@[j]).var by {
                        assert(w.learnt@[j] == w0.learnt@[j]);
                        if i >= 1 {
                            assert(w.learnt@[i] == w0.learnt@[i]);
                        }
                    }
                    if w.learnt@.len() > 1 {
                        assert(w.learnt@[w.max_idx as int] == w0.learnt@[w.max_idx as int]);
                    }
                }
                break;
            }
            proof {
                assert(!self.uip_at(conflict as int, ptr as int));
                // something of the current level lies below `p`, so `p` is no decision
                let i = choose|i: int| 0 <= i < ptr && self.pending_at(w.seen@, i);
                assert(self.assigned(self.trail()[i] as int));
                assert(self.assigned(self.decs()[d - 1] as int));
                assert(self.cause(p as int) is Some);
                assert(self.reason_ok(p as int));
            }
            let c = self.cause_of(p).unwrap();
            let ghost w1 = w;
            proof {
                assert(clause_ok(self.cl(c as int), self.n()));
            }
            self.absorb(c, 1, Ghost(ptr as int), &mut w);
            proof {
                assert forall|i: int| ptr < i < ptr0 implies !self.pending_at(w0.seen@, i) by {}
                assert forall|v: int| 0 <= v < self.n() && w0.seen@[v] implies w.seen@[v] by {
                    assert(w1.seen@[v]);
                }
                assert forall|k: int| 1 <= k < w0.learnt@.len() implies w.learnt@[k] == w0.learnt@[k] by {
                    assert(w1.learnt@[k] == w0.learnt@[k]);
                }
                self.lemma_resolve(w0, ptr0, w, ptr as int, c as int, 1);
            }
        }
        if w.learnt.len() > 1 {
            let ghost before = w.learnt@;
            let a = w.learnt[1];
            let b = w.learnt[w.max_idx];
            let at = w.max_idx;
            w.learnt[1] = b;
            w.learnt[at] = a;
            proof {
                assert(w.learnt@ == swapped(before, 1, at as int));
                self.lemma_learnt_swap(before, w.learnt@, at as int, w.max_assumption as int);
                assert(w.learnt@[0] == before[0]);
                assert forall|v: int| #[trigger] in_learnt(w.learnt@, v) == in_learnt(before, v) by {
                    if in_learnt(w.learnt@, v) {
                        let k = choose|k: int| 1 <= k < w.learnt@.len() && (#[trigger] w.learnt@[k]).var == v;
                        let k0 = if k == 1 { at as int } else if k == at { 1 } else { k };
                        assert(before[k0].var == v);
                    }
                    if in_learnt(before, v) {
                        let k0 = choose|k0: int| 1 <= k0 < before.len() && (#[trigger] before[k0]).var == v;
                        let k = if k0 == 1 { at as int } else if k0 == at { 1 } else { k0 };
                        assert(w.learnt@[k].var == v);
                    }
                }
            }
        }
        proof {
            let k = self.pos(w.learnt@[0].var as int);
            assert(self.trail()[k] == w.learnt@[0].var);
        }
        Unsat { learnt: w.learnt, max_assumption: w.max_assumption }
    }

    /// Before any variable was met, nothing is pending.
    pub(crate) proof fn lemma_pending_none(&self, seen: Seq<bool>, ptr: int)
        requires
            self.trail_ok(),
            seen.len() == self.n(),
            forall|v: int| 0 <= v < seen.len() ==> !seen[v],
            0 <= ptr <= self.trail().len(),
        ensures
            self.pending(seen, ptr) == 0,
        decreases ptr,
    {
        if ptr > 0 {
            self.lemma_pending_none(seen, ptr - 1);
            assert(self.trail()[ptr - 1] < self.n());
        }
    }

    /// Makes `lit` true with the given cause, unless it has a value already:
    /// a true literal is left alone, and a false one is a conflict, which is
    /// analysed when a clause caused it.
    ///
    /// A learnt clause that comes back follows from the formula.
    pub(crate) fn enqueue(&mut self, lit: Lit, cause: Option<usize>) -> (r: Result<(), Unsat>)
        requires
            old(self).grounded(),
            lit.var < old(self).n(),
            cause matches Some(c) ==> {
                &&& c < old(self).nc()
                &&& old(self).cl(c as int)[0] == lit
                &&& forall|j: int|
                    1 <= j < old(self).cl(c as int).len() ==> old(self).is_false(
                        #[trigger] old(self).cl(c as int)[j],
                    )
                &&& old(self).level(old(self).cl(c as int)[1].var as int) == old(self).cur_level()
            },
            cause is None ==> old(self).cur_level() == 0 && entails_lit(old(self).formula@, lit),
        ensures
            final(self).grounded(),
            old(self).complete() ==> final(self).complete(),
            old(self).queue_ok() ==> final(self).queue_ok(),
            old(self).grows_to(*final(self)),
            final(self).prop_q == old(self).prop_q,
            final(self).clauses == old(self).clauses,
            forall|u: int|
                0 <= u < old(self).n() ==> (#[trigger] final(self).vars@[u]).watchers == old(self).vars@[u].watchers,
            forall|p: int|
                p <= old(self).trail().len() && old(self).watched_upto(p) ==> final(self).watched_upto(p),
            match r {
                Ok(()) => {
                    &&& !old(self).is_false(lit)
                    &&& final(self).is_true(lit)
                    &&& old(self).is_true(lit) ==> *final(self) == *old(self)
                    &&& !old(self).is_true(lit) ==> old(self).assign_step(*final(self), lit, cause, false)
                        && old(self).assign_pre(lit, cause, false)
                },
                Err(e) => {
                    &&& old(self).is_false(lit)
                    &&& *final(self) == *old(self)
                    &&& final(self).conflict_ok(e)
                    &&& (e.learnt@.len() == 0) == (final(self).cur_level() == 0)
                    &&& cause matches Some(c) ==> final(self).uip_ok(c as int, e)
                },
            },
    {
        match self.val(lit) {
            Some(true) => Ok(()),
            Some(false) => {
                match cause {
                    Some(c) => {
                        proof {
                            assert(clause_ok(self.cl(c as int), self.n()));
                            assert forall|j: int| 0 <= j < self.cl(c as int).len() implies self.is_false(
                                #[trigger] self.cl(c as int)[j],
                            ) by {}
                            assert(self.level((#[trigger] self.cl(c as int)[1]).var as int) == self.cur_level());
                        }
                        Err(self.analyze(c))
                    },
                    None => {
                        proof {
                            if satisfiable(self.formula@) {
                                let m = choose|m: Seq<bool>| formula_holds(self.formula@, m);
                                assert(self.assigned(lit.var as int));
                                assert(entails_lit(self.formula@, self.lit_of(lit.var as int)));
                                assert(lit_holds(self.lit_of(lit.var as int), m));
                                assert(lit_holds(lit, m));
                            }
                        }
                        Err(Unsat { learnt: Vec::new(), max_assumption: 0 })
                    },
                }
            },
            None => {
                proof {
                    if let Some(c) = cause {
                        if self.cur_level() == 0 {
                            self.lemma_unit_entailed(c as int);
                        }
                    }
                }
                self.enqueue_unchecked(lit, cause);
                proof {
                    old(self).lemma_assign_inv(*self, lit, cause, false);
                }
                Ok(())
            },
        }
    }
}

} // verus!
