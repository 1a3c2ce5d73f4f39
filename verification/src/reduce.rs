//! The database of learnt clauses: removal of a clause from the table and
//! the reduction that keeps the short ones.

use crate::cnf::{clause_holds, entails_clause, entails_lit, formula_holds};
use crate::lit::{slot_of, Lit};
use crate::solver::{clause_ok, Solver};
use vstd::prelude::*;

verus! {

/// Where `h` stands in `list`, if it does.
pub(crate) fn find_handle(list: &Vec<usize>, h: usize) -> (r: Option<usize>)
    ensures
        match r {
            Some(k) => k < list@.len() && list@[k as int] == h,
            None => !list@.contains(h),
        },
{
    let mut k: usize = 0;
    while k < list.len()
        invariant
            k <= list@.len(),
            forall|j: int| 0 <= j < k ==> list@[j] != h,
        decreases list@.len() - k,
    {
        if list[k] == h {
            return Some(k);
        }
        k = k + 1;
    }
    None
}

/// What a watch list holds after clause `i` left the table and the clause
/// `last` took its handle, given what it held before.
pub(crate) open spec fn fixed_list(before: Seq<usize>, after: Seq<usize>, i: usize, last: usize) -> bool {
    &&& after.no_duplicates()
    &&& forall|x: usize|
        after.contains(x) <==> (x != i && x != last && before.contains(x)) || (x == i && i != last
            && before.contains(last))
}

/// The handle that the clause with handle `k` had before clause `i` was
/// removed and the clause `last` took its place.
pub(crate) open spec fn handle_before(k: int, i: int, last: int) -> int {
    if k == i { last } else { k }
}

/// The cause `c` after clause `i` was removed and the clause `last` took
/// its handle.
pub(crate) open spec fn cause_after(c: Option<usize>, i: usize, last: usize) -> Option<usize> {
    if c == Some(last) { Some(i) } else { c }
}

/// Some handle of the present table stands for the earlier handle `j`.
pub(crate) open spec fn in_image(origin: Seq<int>, j: int) -> bool {
    exists|k: int| 0 <= k < origin.len() && #[trigger] origin[k] == j
}

impl Solver {
    /// `s1` differs from `self` in the watch list `(v, s)` only.
    pub(crate) open spec fn list_step(&self, s1: Solver, v: int, s: int) -> bool {
        &&& s1.vars@.len() == self.vars@.len()
        &&& forall|u: int| 0 <= u < self.n() ==> (#[trigger] s1.vars@[u]).value == self.vars@[u].value
        &&& forall|u: int, t: int|
            0 <= u < self.n() && 0 <= t < 2 && !(u == v && t == s) ==> #[trigger] s1.wl(u, t) == self.wl(u, t)
        &&& s1.clauses == self.clauses
        &&& s1.history == self.history
        &&& s1.assumption_history == self.assumption_history
        &&& s1.base_clauses == self.base_clauses
        &&& s1.prop_q == self.prop_q
        &&& s1.unsat == self.unsat
        &&& s1.formula == self.formula
    }

    /// In the watch list of `lit`, drops the handle `i` and gives the
    /// handle `i` to the clause that had `last`.
    pub(crate) fn fix_list(&mut self, lit: Lit, i: usize, last: usize)
        requires
            lit.var < old(self).n(),
            old(self).wl(lit.var as int, lit.slot()).no_duplicates(),
        ensures
            old(self).list_step(*final(self), lit.var as int, lit.slot()),
            fixed_list(
                old(self).wl(lit.var as int, lit.slot()),
                final(self).wl(lit.var as int, lit.slot()),
                i,
                last,
            ),
    {
        let s = slot_of(!lit.val);
        let ghost l0 = self.wl(lit.var as int, lit.slot());
        match find_handle(&self.vars[lit.var].watchers[s], i) {
            Some(k) => {
                self.vars[lit.var].watchers[s].swap_remove(k);
                proof {
                    let l1 = self.wl(lit.var as int, lit.slot());
                    assert(l1 == l0.update(k as int, l0.last()).drop_last());
                    assert(l1.no_duplicates()) by {
                        assert forall|a: int, b: int| 0 <= a < l1.len() && 0 <= b < l1.len() && a != b implies l1[a]
                            != l1[b] by {
                            let a0 = if a == k { l0.len() - 1 } else { a };
                            let b0 = if b == k { l0.len() - 1 } else { b };
                            assert(l1[a] == l0[a0] && l1[b] == l0[b0]);
                        }
                    }
                    assert forall|x: usize| l1.contains(x) <==> x != i && l0.contains(x) by {
                        if l1.contains(x) {
                            let a = choose|a: int| 0 <= a < l1.len() && l1[a] == x;
                            let a0 = if a == k { l0.len() - 1 } else { a };
                            assert(l0[a0] == x);
                        }
                        if x != i && l0.contains(x) {
                            let a0 = choose|a0: int| 0 <= a0 < l0.len() && l0[a0] == x;
                            let a = if a0 == l0.len() - 1 { k as int } else { a0 };
                            assert(l1[a] == x);
                        }
                    }
                }
            },
            None => {},
        }
        let ghost l1 = self.wl(lit.var as int, lit.slot());
        if i != last {
            match find_handle(&self.vars[lit.var].watchers[s], last) {
                Some(k) => {
                    self.vars[lit.var].watchers[s][k] = i;
                    proof {
                        let l2 = self.wl(lit.var as int, lit.slot());
                        assert(l2 == l1.update(k as int, i));
                        assert(l2.no_duplicates()) by {
                            assert forall|a: int, b: int| 0 <= a < l2.len() && 0 <= b < l2.len() && a != b implies l2[a]
                                != l2[b] by {
                                if a != k {
                                    assert(l1.contains(l1[a]));
                                }
                                if b != k {
                                    assert(l1.contains(l1[b]));
                                }
                            }
                        }
                        assert forall|x: usize|
                            l2.contains(x) <==> (x != i && x != last && l0.contains(x)) || (x == i && i != last
                                && l0.contains(last)) by {
                            assert(l0.contains(last)) by {
                                assert(l1.contains(l1[k as int]));
                            }
                            if l2.contains(x) {
                                let a = choose|a: int| 0 <= a < l2.len() && l2[a] == x;
                                if a != k {
                                    assert(l1.contains(l1[a]));
                                }
                            }
                            if x != i && x != last && l0.contains(x) {
                                assert(l1.contains(x));
                                let a = choose|a: int| 0 <= a < l1.len() && l1[a] == x;
                                assert(l2[a] == x);
                            }
                            if x == i {
                                assert(l2[k as int] == x);
                            }
                        }
                    }
                },
                None => {},
            }
        }
    }

    /// Whether clause `h` is the cause of an assignment.
    pub(crate) open spec fn is_reason(&self, h: int) -> bool {
        exists|u: int| 0 <= u < self.n() && #[trigger] self.assigned(u) && self.cause(u) == Some(h as usize)
    }

    /// Whether clause `h` is the cause of an assignment: that of its first
    /// literal, if of any.
    pub(crate) fn reason_of_any(&self, h: usize) -> (r: bool)
        requires
            self.clauses_ok(),
            self.reasons_ok(),
            h < self.nc(),
        ensures
            r == self.is_reason(h as int),
    {
        proof {
            assert(clause_ok(self.cl(h as int), self.n()));
        }
        let f = self.clauses[h][0];
        let r = match &self.vars[f.var].value {
            Some(a) => match a.cause {
                Some(c) => c == h,
                None => false,
            },
            None => false,
        };
        proof {
            if r {
                assert(self.assigned(f.var as int));
            }
            if self.is_reason(h as int) {
                let u = choose|u: int|
                    0 <= u < self.n() && #[trigger] self.assigned(u) && self.cause(u) == Some(h as usize);
                assert(self.reason_ok(u));
                self.lemma_sizes();
                assert(self.cl(h as int)[0] == self.lit_of(u));
                assert(f.var == u);
            }
        }
        r
    }

    /// `s1` is `self` after clause `i` left the table: the last clause has
    /// its handle, and causes and watch lists name that clause by it.
    pub(crate) open spec fn removed_step(&self, s1: Solver, i: int) -> bool {
        let last = self.nc() - 1;
        &&& s1.vars@.len() == self.vars@.len()
        &&& s1.nc() == last
        &&& forall|k: int| 0 <= k < last ==> #[trigger] s1.cl(k) == self.cl(handle_before(k, i, last))
        &&& forall|u: int|
            0 <= u < self.n() ==> {
                &&& (#[trigger] s1.assigned(u)) == self.assigned(u)
                &&& self.assigned(u) ==> {
                    &&& s1.val_of(u) == self.val_of(u)
                    &&& s1.level(u) == self.level(u)
                    &&& s1.pos(u) == self.pos(u)
                    &&& s1.cause(u) == cause_after(self.cause(u), i as usize, last as usize)
                }
            }
        &&& forall|u: int, t: int|
            0 <= u < self.n() && 0 <= t < 2 ==> fixed_list(
                self.wl(u, t),
                #[trigger] s1.wl(u, t),
                i as usize,
                last as usize,
            )
        &&& s1.history@ == self.history@
        &&& s1.assumption_history@ == self.assumption_history@
        &&& s1.base_clauses == self.base_clauses
        &&& s1.prop_q == self.prop_q
        &&& s1.unsat == self.unsat
        &&& s1.formula == self.formula
    }

    /// Removing a learnt clause that is nobody's cause keeps the invariant
    /// and how far the watched literals are settled.
    pub(crate) proof fn lemma_removed(&self, s1: Solver, i: int)
        requires
            self.inv(),
            self.base_clauses <= i < self.nc(),
            !self.is_reason(i),
            self.removed_step(s1, i),
        ensures
            s1.inv(),
            self.queue_ok() ==> s1.queue_ok(),
            forall|p: int| self.watched_upto(p) ==> s1.watched_upto(p),
    {
        let last = self.nc() - 1;
        let n = self.n();
        self.lemma_sizes();
        assert forall|x: Lit| x.var < n implies s1.is_true(x) == self.is_true(x) && s1.is_false(x)
            == self.is_false(x) by {
            assert(s1.assigned(x.var as int) == self.assigned(x.var as int));
        }
        assert(s1.clauses_ok()) by {
            assert forall|k: int| 0 <= k < s1.nc() implies clause_ok(#[trigger] s1.cl(k), s1.n()) by {
                assert(clause_ok(self.cl(handle_before(k, i, last)), n));
            }
        }
        assert(s1.trail_ok()) by {
            assert forall|j: int| 0 <= j < s1.trail().len() implies {
                &&& (#[trigger] s1.trail()[j]) < s1.n()
                &&& s1.assigned(s1.trail()[j] as int)
                &&& s1.pos(s1.trail()[j] as int) == j
            } by {
                assert(self.trail()[j] < n);
                assert(s1.assigned(self.trail()[j] as int) == self.assigned(self.trail()[j] as int));
            }
            assert forall|u: int| 0 <= u < s1.n() && #[trigger] s1.assigned(u) implies {
                &&& 0 <= s1.pos(u) < s1.trail().len()
                &&& s1.trail()[s1.pos(u)] == u
            } by {
                assert(self.assigned(u));
            }
        }
        assert(s1.levels_ok()) by {
            assert forall|a: int, b: int|
                0 <= a < s1.n() && 0 <= b < s1.n() && #[trigger] s1.assigned(a)
                    && #[trigger] s1.assigned(b) && s1.pos(a) <= s1.pos(b) implies s1.level(a)
                <= s1.level(b) by {
                assert(self.assigned(a) && self.assigned(b));
            }
            assert forall|k: int| 0 <= k < s1.decs().len() implies {
                &&& (#[trigger] s1.decs()[k]) < s1.n()
                &&& s1.assigned(s1.decs()[k] as int)
                &&& s1.level(s1.decs()[k] as int) == k + 1
                &&& s1.cause(s1.decs()[k] as int) is None
                &&& s1.pos(s1.decs()[k] as int) >= k
            } by {
                let d = self.decs()[k] as int;
                assert(self.assigned(d));
                assert(s1.assigned(d) == self.assigned(d));
            }
            assert forall|u: int| 0 <= u < s1.n() && #[trigger] s1.assigned(u) implies {
                &&& s1.level(u) <= s1.cur_level()
                &&& s1.level(u) >= 1 ==> s1.pos(s1.decs()[s1.level(u) - 1] as int) <= s1.pos(u)
                &&& s1.level(u) >= 1 && s1.cause(u) is None ==> s1.decs()[s1.level(u) - 1] == u
            } by {
                assert(self.assigned(u));
                if self.level(u) >= 1 {
                    let d = self.decs()[self.level(u) - 1] as int;
                    assert(self.assigned(d));
                    assert(s1.assigned(d) == self.assigned(d));
                }
            }
        }
        assert(s1.reasons_ok()) by {
            assert forall|u: int|
                0 <= u < s1.n() && #[trigger] s1.assigned(u) && s1.cause(u) is Some implies s1.reason_ok(
                u,
            ) by {
                assert(self.assigned(u));
                assert(self.cause(u) is Some);
                assert(self.reason_ok(u));
                let k0 = self.cause(u)->0 as int;
                let k1 = s1.cause(u)->0 as int;
                assert(k0 != i);
                assert(handle_before(k1, i, last) == k0);
                assert(s1.cl(k1) == self.cl(k0));
                assert(clause_ok(self.cl(k0), n));
                assert forall|j: int| 1 <= j < s1.cl(k1).len() implies s1.is_false(
                    #[trigger] s1.cl(k1)[j],
                ) && s1.pos(s1.cl(k1)[j].var as int) < s1.pos(u) by {
                    let y = self.cl(k0)[j];
                    assert(self.is_false(y));
                    assert(self.assigned(y.var as int));
                    assert(s1.assigned(y.var as int) == self.assigned(y.var as int));
                }
            }
        }
        assert(s1.watch_ok()) by {
            assert forall|u: int, t: int, k: int|
                0 <= u < s1.n() && 0 <= t < 2 && 0 <= k < s1.wl(u, t).len() implies {
                &&& (#[trigger] s1.wl(u, t)[k]) < s1.nc()
                &&& s1.watches(s1.wl(u, t)[k] as int, Lit { var: u as usize, val: t == 0 })
            } by {
                let e = s1.wl(u, t)[k];
                let l = Lit { var: u as usize, val: t == 0 };
                assert(fixed_list(self.wl(u, t), s1.wl(u, t), i as usize, last as usize));
                assert(s1.wl(u, t).contains(e));
                let e0 = handle_before(e as int, i, last);
                assert(self.wl(u, t).contains(e0 as usize));
                let j = choose|j: int| 0 <= j < self.wl(u, t).len() && self.wl(u, t)[j] == e0 as usize;
                assert(self.wl(u, t)[j] < self.nc());
                assert(self.watches(self.wl(u, t)[j] as int, l));
                assert(s1.cl(e as int) == self.cl(e0));
            }
            assert forall|u: int, t: int| 0 <= u < s1.n() && 0 <= t < 2 implies (#[trigger] s1.wl(
                u,
                t,
            )).no_duplicates() by {
                assert(fixed_list(self.wl(u, t), s1.wl(u, t), i as usize, last as usize));
            }
            assert forall|k: int, w: int| 0 <= k < s1.nc() && 0 <= w < 2 implies #[trigger] s1.listed(
                k,
                w,
            ) by {
                let k0 = handle_before(k, i, last);
                assert(s1.cl(k) == self.cl(k0));
                assert(clause_ok(self.cl(k0), n));
                assert(self.listed(k0, w));
                let y = self.cl(k0)[w];
                assert(fixed_list(
                    self.wl(y.var as int, y.slot()),
                    s1.wl(y.var as int, y.slot()),
                    i as usize,
                    last as usize,
                ));
            }
        }
        assert(s1.sound()) by {
            assert forall|k: int| 0 <= k < s1.nc() implies entails_clause(
                s1.formula@,
                #[trigger] s1.cl(k),
            ) by {
                assert(entails_clause(self.formula@, self.cl(handle_before(k, i, last))));
            }
            assert forall|u: int|
                0 <= u < s1.n() && #[trigger] s1.assigned(u) && s1.level(u) == 0 implies entails_lit(
                s1.formula@,
                s1.lit_of(u),
            ) by {
                assert(self.assigned(u));
            }
        }
        if !self.unsat {
            assert forall|m: Seq<bool>| #[trigger] s1.models_base(m) implies formula_holds(
                s1.formula@,
                m,
            ) by {
                assert(self.models_base(m)) by {
                    assert forall|k: int| 0 <= k < self.base_clauses implies clause_holds(
                        #[trigger] self.cl(k),
                        m,
                    ) by {
                        assert(s1.cl(k) == self.cl(handle_before(k, i, last)));
                        assert(clause_holds(s1.cl(k), m));
                    }
                    assert forall|u: int|
                        0 <= u < self.n() && #[trigger] self.assigned(u) && self.level(u)
                            == 0 implies m[u] == self.val_of(u) by {
                        assert(s1.assigned(u) == self.assigned(u));
                    }
                }
            }
        }
        if self.queue_ok() {
            assert forall|j: int| s1.prop_q <= j < s1.trail().len() implies s1.level(
                #[trigger] s1.trail()[j] as int,
            ) == s1.cur_level() by {
                assert(self.level(self.trail()[j] as int) == self.cur_level());
                assert(self.assigned(self.trail()[j] as int));
                assert(s1.assigned(self.trail()[j] as int) == self.assigned(self.trail()[j] as int));
            }
        }
        assert forall|p: int| self.watched_upto(p) implies s1.watched_upto(p) by {
            assert forall|k: int, w: int| 0 <= k < s1.nc() && 0 <= w < 2 implies #[trigger] s1.watch_sem(
                k,
                w,
                p,
            ) by {
                let k0 = handle_before(k, i, last);
                assert(self.watch_sem(k0, w, p));
                assert(s1.cl(k) == self.cl(k0));
                assert(clause_ok(self.cl(k0), n));
                let x = self.cl(k0)[w];
                let y = self.cl(k0)[1 - w];
                assert(s1.assigned(x.var as int) == self.assigned(x.var as int));
                assert(s1.assigned(y.var as int) == self.assigned(y.var as int));
            }
        }
    }

    /// `s1` is `self` with the watch lists of the literals in `done`
    /// brought up to date for the removal of clause `i`, and the others as
    /// they were.
    pub(crate) open spec fn lists_fixed(&self, s1: Solver, done: Set<Lit>, i: usize, last: usize) -> bool {
        &&& s1.vars@.len() == self.vars@.len()
        &&& forall|u: int| 0 <= u < self.n() ==> (#[trigger] s1.vars@[u]).value == self.vars@[u].value
        &&& forall|u: int, t: int|
            #![trigger s1.wl(u, t)]
            0 <= u < self.n() && 0 <= t < 2 ==> {
                &&& done.contains(Lit { var: u as usize, val: t == 0 }) ==> fixed_list(
                    self.wl(u, t),
                    s1.wl(u, t),
                    i,
                    last,
                )
                &&& !done.contains(Lit { var: u as usize, val: t == 0 }) ==> s1.wl(u, t) == self.wl(u, t)
            }
        &&& s1.clauses == self.clauses
        &&& s1.history == self.history
        &&& s1.assumption_history == self.assumption_history
        &&& s1.base_clauses == self.base_clauses
        &&& s1.prop_q == self.prop_q
        &&& s1.unsat == self.unsat
        &&& s1.formula == self.formula
    }

    /// With the list of one more literal brought up to date, the lists of
    /// `done` and of that literal are.
    pub(crate) proof fn lemma_fix_step(&self, sa: Solver, sb: Solver, done: Set<Lit>, l: Lit, i: usize, last: usize)
        requires
            self.lists_fixed(sa, done, i, last),
            !done.contains(l),
            l.var < self.n(),
            sa.list_step(sb, l.var as int, l.slot()),
            fixed_list(sa.wl(l.var as int, l.slot()), sb.wl(l.var as int, l.slot()), i, last),
        ensures
            self.lists_fixed(sb, done.insert(l), i, last),
    {
        self.lemma_sizes();
        assert forall|u: int| 0 <= u < self.n() implies (#[trigger] sb.vars@[u]).value == self.vars@[u].value by {
            assert(sa.vars@[u].value == self.vars@[u].value);
        }
        assert forall|u: int, t: int|
            #![trigger sb.wl(u, t)]
            0 <= u < self.n() && 0 <= t < 2 implies {
            &&& done.insert(l).contains(Lit { var: u as usize, val: t == 0 }) ==> fixed_list(
                self.wl(u, t),
                sb.wl(u, t),
                i,
                last,
            )
            &&& !done.insert(l).contains(Lit { var: u as usize, val: t == 0 }) ==> sb.wl(u, t) == self.wl(u, t)
        } by {
            let x = Lit { var: u as usize, val: t == 0 };
            assert(x.slot() == t);
            if u == l.var && t == l.slot() {
                assert(x == l);
                assert(sa.wl(u, t) == self.wl(u, t));
            } else {
                assert(x != l);
                assert(sb.wl(u, t) == sa.wl(u, t));
            }
        }
    }

    /// Gives the handle `to` to the cause of `v`, if that is `from`.
    pub(crate) fn recause(&mut self, v: usize, from: usize, to: usize)
        requires
            v < old(self).n(),
        ensures
            final(self).vars@.len() == old(self).vars@.len(),
            forall|u: int| 0 <= u < old(self).n() && u != v ==> #[trigger] final(self).vars@[u] == old(self).vars@[u],
            final(self).vars@[v as int].watchers == old(self).vars@[v as int].watchers,
            final(self).assigned(v as int) == old(self).assigned(v as int),
            old(self).assigned(v as int) ==> {
                &&& final(self).val_of(v as int) == old(self).val_of(v as int)
                &&& final(self).level(v as int) == old(self).level(v as int)
                &&& final(self).pos(v as int) == old(self).pos(v as int)
                &&& final(self).cause(v as int) == cause_after(old(self).cause(v as int), to, from)
            },
            final(self).clauses == old(self).clauses,
            final(self).history == old(self).history,
            final(self).assumption_history == old(self).assumption_history,
            final(self).base_clauses == old(self).base_clauses,
            final(self).prop_q == old(self).prop_q,
            final(self).unsat == old(self).unsat,
            final(self).formula == old(self).formula,
    {
        let hit = match &self.vars[v].value {
            Some(a) => match a.cause {
                Some(c) => c == from,
                None => false,
            },
            None => false,
        };
        if hit {
            match &mut self.vars[v].value {
                Some(a) => {
                    a.cause = Some(to);
                },
                None => {},
            }
        }
    }

    /// Removes the learnt clause `i`, which is nobody's cause, from the
    /// table. The last clause of the table takes its handle, and the watch
    /// lists and the cause that named that clause are rewritten.
    pub(crate) fn remove_clause(&mut self, i: usize)
        requires
            old(self).inv(),
            old(self).base_clauses <= i < old(self).nc(),
            !old(self).is_reason(i as int),
        ensures
            final(self).inv(),
            old(self).removed_step(*final(self), i as int),
            old(self).queue_ok() ==> final(self).queue_ok(),
            forall|p: int| old(self).watched_upto(p) ==> final(self).watched_upto(p),
    {
        let last = self.clauses.len() - 1;
        let ghost s0 = *self;
        proof {
            self.lemma_sizes();
            assert(clause_ok(self.cl(i as int), self.n()));
            assert(clause_ok(self.cl(last as int), self.n()));
            assert(s0.lists_fixed(*self, Set::empty(), i, last));
        }
        let a = self.clauses[i][0];
        let b = self.clauses[i][1];
        let ghost mut done: Set<Lit> = Set::empty();
        let ghost mut sp = *self;
        proof {
            assert(s0.wl(a.var as int, a.slot()).no_duplicates());
        }
        self.fix_list(a, i, last);
        proof {
            s0.lemma_fix_step(sp, *self, done, a, i, last);
            done = done.insert(a);
            sp = *self;
            assert(s0.wl(b.var as int, b.slot()).no_duplicates());
            assert(Lit { var: b.var, val: b.slot() == 0 } == b);
            assert(self.wl(b.var as int, b.slot()) == s0.wl(b.var as int, b.slot()));
        }
        self.fix_list(b, i, last);
        proof {
            s0.lemma_fix_step(sp, *self, done, b, i, last);
            done = done.insert(b);
            sp = *self;
        }
        if i != last {
            let c = self.clauses[last][0];
            let d = self.clauses[last][1];
            if c != a && c != b {
                proof {
                    assert(s0.wl(c.var as int, c.slot()).no_duplicates());
                    assert(Lit { var: c.var, val: c.slot() == 0 } == c);
                    assert(self.wl(c.var as int, c.slot()) == s0.wl(c.var as int, c.slot()));
                }
                self.fix_list(c, i, last);
                proof {
                    s0.lemma_fix_step(sp, *self, done, c, i, last);
                    done = done.insert(c);
                    sp = *self;
                }
            }
            if d != a && d != b {
                proof {
                    assert(s0.wl(d.var as int, d.slot()).no_duplicates());
                    assert(Lit { var: d.var, val: d.slot() == 0 } == d);
                    assert(d != c);
                    assert(self.wl(d.var as int, d.slot()) == s0.wl(d.var as int, d.slot()));
                }
                self.fix_list(d, i, last);
                proof {
                    s0.lemma_fix_step(sp, *self, done, d, i, last);
                    done = done.insert(d);
                    sp = *self;
                }
            }
            proof {
                assert(done.contains(c) && done.contains(d));
            }
            self.recause(c.var, last, i);
        }
        proof {
            assert(done.contains(a) && done.contains(b));
            assert(i != last ==> done.contains(s0.cl(last as int)[0]) && done.contains(s0.cl(last as int)[1]));
        }
        let ghost sq = *self;
        self.clauses.swap_remove(i);
        proof {
            s0.lemma_removed_step(sp, sq, *self, done, i as int);
            s0.lemma_removed(*self, i as int);
        }
    }

    /// Once the watch lists of the watched literals of clause `i` and of
    /// the last clause are up to date, every list is, and with the cause
    /// rewritten and the table shortened the removal is complete.
    pub(crate) proof fn lemma_removed_step(&self, sp: Solver, sq: Solver, s1: Solver, done: Set<Lit>, i: int)
        requires
            self.clauses_ok(),
            self.watch_ok(),
            self.reasons_ok(),
            0 <= i < self.nc(),
            self.lists_fixed(sp, done, i as usize, (self.nc() - 1) as usize),
            done.contains(self.cl(i)[0]),
            done.contains(self.cl(i)[1]),
            i != self.nc() - 1 ==> done.contains(self.cl(self.nc() - 1)[0]) && done.contains(
                self.cl(self.nc() - 1)[1],
            ),
            // the cause
            sq.vars@.len() == sp.vars@.len(),
            i == self.nc() - 1 ==> sq.vars == sp.vars,
            i != self.nc() - 1 ==> {
                let v = self.cl(self.nc() - 1)[0].var as int;
                &&& forall|u: int| 0 <= u < self.n() && u != v ==> #[trigger] sq.vars@[u] == sp.vars@[u]
                &&& sq.vars@[v].watchers == sp.vars@[v].watchers
                &&& sq.assigned(v) == sp.assigned(v)
                &&& sp.assigned(v) ==> {
                    &&& sq.val_of(v) == sp.val_of(v)
                    &&& sq.level(v) == sp.level(v)
                    &&& sq.pos(v) == sp.pos(v)
                    &&& sq.cause(v) == cause_after(sp.cause(v), i as usize, (self.nc() - 1) as usize)
                }
            },
            sq.clauses == self.clauses,
            sq.history == self.history,
            sq.assumption_history == self.assumption_history,
            sq.base_clauses == self.base_clauses,
            sq.prop_q == self.prop_q,
            sq.unsat == self.unsat,
            sq.formula == self.formula,
            // the table
            s1.vars == sq.vars,
            s1.clauses@ == sq.clauses@.update(i, sq.clauses@.last()).drop_last(),
            s1.history == sq.history,
            s1.assumption_history == sq.assumption_history,
            s1.base_clauses == sq.base_clauses,
            s1.prop_q == sq.prop_q,
            s1.unsat == sq.unsat,
            s1.formula == sq.formula,
        ensures
            self.removed_step(s1, i),
    {
        let last = self.nc() - 1;
        let n = self.n();
        self.lemma_sizes();
        assert(clause_ok(self.cl(i), n));
        assert(clause_ok(self.cl(last), n));
        assert forall|k: int| 0 <= k < last implies #[trigger] s1.cl(k) == self.cl(handle_before(k, i, last)) by {}
        assert forall|u: int| 0 <= u < n implies {
            &&& (#[trigger] s1.assigned(u)) == self.assigned(u)
            &&& self.assigned(u) ==> {
                &&& s1.val_of(u) == self.val_of(u)
                &&& s1.level(u) == self.level(u)
                &&& s1.pos(u) == self.pos(u)
                &&& s1.cause(u) == cause_after(self.cause(u), i as usize, last as usize)
            }
        } by {
            assert(sp.vars@[u].value == self.vars@[u].value);
            if self.assigned(u) && self.cause(u) == Some(last as usize) {
                assert(self.reason_ok(u));
                assert(self.cl(last)[0] == self.lit_of(u));
            }
        }
        assert forall|u: int, t: int| 0 <= u < n && 0 <= t < 2 implies fixed_list(
            self.wl(u, t),
            #[trigger] s1.wl(u, t),
            i as usize,
            last as usize,
        ) by {
            let x = Lit { var: u as usize, val: t == 0 };
            assert(sq.vars@[u].watchers == sp.vars@[u].watchers);
            assert(s1.wl(u, t) == sp.wl(u, t));
            if !done.contains(x) {
                let l0 = self.wl(u, t);
                assert(l0.no_duplicates());
                assert forall|y: usize| l0.contains(y) implies y != i && y != last by {
                    let j = choose|j: int| 0 <= j < l0.len() && l0[j] == y;
                    assert(self.watches(l0[j] as int, x));
                }
            }
        }
    }

    /// In the order in which learnt clauses are kept, `a` comes before `b`:
    /// the shorter clause first, and of two of one length the later one.
    pub(crate) open spec fn keeps_before(&self, a: int, b: int) -> bool {
        self.cl(a).len() < self.cl(b).len() || (self.cl(a).len() == self.cl(b).len() && a > b)
    }

    /// How many of the learnt clauses below handle `k` come before `h`.
    pub(crate) open spec fn rank_upto(&self, h: int, k: int) -> int
        decreases k,
    {
        if k <= self.base_clauses {
            0
        } else {
            self.rank_upto(h, k - 1) + if self.keeps_before(k - 1, h) { 1int } else { 0int }
        }
    }

    /// The place of the learnt clause `h` in the order of keeping.
    pub(crate) open spec fn rank(&self, h: int) -> int {
        self.rank_upto(h, self.nc())
    }

    /// The learnt clause `h` is beyond the first `target` in the order of
    /// keeping.
    pub(crate) open spec fn doomed(&self, h: int, target: int) -> bool {
        self.rank(h) >= target
    }

    /// The place of the learnt clause `h` in the order of keeping.
    pub(crate) fn rank_of(&self, h: usize) -> (r: usize)
        requires
            self.clauses_ok(),
            self.base_clauses <= h < self.nc(),
        ensures
            r == self.rank(h as int),
    {
        let len_h = self.clauses[h].len();
        let mut r: usize = 0;
        let mut k = self.base_clauses;
        while k < self.clauses.len()
            invariant
                self.base_clauses <= k <= self.nc(),
                h < self.nc(),
                len_h == self.cl(h as int).len(),
                r == self.rank_upto(h as int, k as int),
                r <= k - self.base_clauses,
            decreases self.nc() - k,
        {
            let lk = self.clauses[k].len();
            if lk < len_h || (lk == len_h && k > h) {
                r = r + 1;
            }
            k = k + 1;
        }
        r
    }

    /// `self` came from `s0` by removals of learnt clauses: the trail and
    /// the values are those of `s0`, and `origin` gives for each clause of
    /// the table the handle that it had in `s0`.
    pub(crate) open spec fn pruned_from(&self, s0: Solver, origin: Seq<int>) -> bool {
        &&& self.vars@.len() == s0.vars@.len()
        &&& self.history@ == s0.history@
        &&& self.assumption_history@ == s0.assumption_history@
        &&& self.base_clauses == s0.base_clauses
        &&& self.prop_q == s0.prop_q
        &&& self.unsat == s0.unsat
        &&& self.formula == s0.formula
        &&& forall|u: int|
            0 <= u < s0.n() ==> {
                &&& (#[trigger] self.assigned(u)) == s0.assigned(u)
                &&& s0.assigned(u) ==> {
                    &&& self.val_of(u) == s0.val_of(u)
                    &&& self.level(u) == s0.level(u)
                    &&& self.pos(u) == s0.pos(u)
                    &&& self.cause(u) is Some == s0.cause(u) is Some
                    &&& self.cause(u) matches Some(k) ==> k < origin.len() && origin[k as int] == s0.cause(u)->0
                }
            }
        &&& origin.len() == self.nc()
        &&& forall|k: int|
            0 <= k < origin.len() ==> 0 <= #[trigger] origin[k] < s0.nc() && self.cl(k) == s0.cl(origin[k])
        &&& forall|a: int, b: int|
            0 <= a < origin.len() && 0 <= b < origin.len() && a != b ==> #[trigger] origin[a] != #[trigger] origin[b]
    }

    /// What the reduction leaves of the table of `s0`: the inserted
    /// clauses under their handles, and of the learnt ones those that are
    /// somebody's cause or among the first `target` in the order of keeping.
    pub(crate) open spec fn survivors(&self, s0: Solver, origin: Seq<int>, target: int) -> bool {
        &&& self.pruned_from(s0, origin)
        &&& forall|k: int| 0 <= k < s0.base_clauses ==> #[trigger] origin[k] == k
        &&& forall|j: int|
            0 <= j < s0.nc() ==> (#[trigger] in_image(origin, j) <==> j < s0.base_clauses || s0.is_reason(j)
                || !s0.doomed(j, target))
    }

    /// One removal on the way from `s0`.
    pub(crate) proof fn lemma_pruned_step(&self, s0: Solver, origin: Seq<int>, next: Solver, h: int)
        requires
            self.pruned_from(s0, origin),
            self.reasons_ok(),
            0 <= h < self.nc(),
            !self.is_reason(h),
            self.removed_step(next, h),
        ensures
            next.pruned_from(s0, origin.update(h, origin.last()).drop_last()),
    {
        let last = self.nc() - 1;
        let o2 = origin.update(h, origin.last()).drop_last();
        self.lemma_sizes();
        assert forall|k: int| 0 <= k < o2.len() implies o2[k] == origin[handle_before(k, h, last)] by {}
        assert forall|u: int| 0 <= u < s0.n() implies {
            &&& (#[trigger] next.assigned(u)) == s0.assigned(u)
            &&& s0.assigned(u) ==> {
                &&& next.val_of(u) == s0.val_of(u)
                &&& next.level(u) == s0.level(u)
                &&& next.pos(u) == s0.pos(u)
                &&& next.cause(u) is Some == s0.cause(u) is Some
                &&& next.cause(u) matches Some(k) ==> k < o2.len() && o2[k as int] == s0.cause(u)->0
            }
        } by {
            assert(self.assigned(u) == s0.assigned(u));
            assert(next.assigned(u) == self.assigned(u));
            if s0.assigned(u) {
                assert(next.cause(u) == cause_after(self.cause(u), h as usize, last as usize));
                if self.cause(u) is Some {
                    assert(self.reason_ok(u));
                    let k = self.cause(u)->0 as int;
                    assert(0 <= k < self.nc());
                    assert(self.cause(u) == Some(k as usize));
                    assert(k != h);
                    assert(origin[k] == s0.cause(u)->0);
                    if k == last {
                        assert(next.cause(u) == Some(h as usize));
                        assert(o2[h] == origin[last]);
                    } else {
                        assert(next.cause(u) == Some(k as usize));
                        assert(o2[k] == origin[k]);
                    }
                } else {
                    assert(next.cause(u) is None);
                }
            }
        }
        assert forall|k: int| 0 <= k < o2.len() implies 0 <= #[trigger] o2[k] < s0.nc() && next.cl(k)
            == s0.cl(o2[k]) by {
            let k0 = handle_before(k, h, last);
            assert(next.cl(k) == self.cl(k0));
            assert(0 <= origin[k0] < s0.nc());
        }
        assert forall|a: int, b: int| 0 <= a < o2.len() && 0 <= b < o2.len() && a != b implies #[trigger] o2[a]
            != #[trigger] o2[b] by {
            let a0 = handle_before(a, h, last);
            let b0 = handle_before(b, h, last);
            assert(origin[a0] != origin[b0]);
        }
    }

    /// A clause is somebody's cause now exactly if it was in `s0`.
    pub(crate) proof fn lemma_reason_kept(&self, s0: Solver, origin: Seq<int>, h: int)
        requires
            self.pruned_from(s0, origin),
            self.reasons_ok(),
            0 <= h < self.nc(),
        ensures
            self.is_reason(h) == s0.is_reason(origin[h]),
    {
        self.lemma_sizes();
        s0.lemma_sizes();
        if self.is_reason(h) {
            let u = choose|u: int| 0 <= u < self.n() && #[trigger] self.assigned(u) && self.cause(u) == Some(h as usize);
            assert(self.assigned(u) == s0.assigned(u));
            assert(s0.assigned(u) && s0.cause(u) == Some(origin[h] as usize));
        }
        if s0.is_reason(origin[h]) {
            let u = choose|u: int|
                0 <= u < s0.n() && #[trigger] s0.assigned(u) && s0.cause(u) == Some(origin[h] as usize);
            assert(self.assigned(u) == s0.assigned(u));
            assert(self.reason_ok(u));
            let k = self.cause(u)->0 as int;
            assert(origin[k] == origin[h]);
            assert(k == h);
            assert(self.assigned(u) && self.cause(u) == Some(h as usize));
        }
    }

    /// The earlier handles that still have a clause, after the clause whose
    /// earlier handle was `origin[h]` is removed.
    pub(crate) proof fn lemma_image_drop(origin: Seq<int>, h: int)
        requires
            0 <= h < origin.len(),
            forall|a: int, b: int|
                0 <= a < origin.len() && 0 <= b < origin.len() && a != b ==> #[trigger] origin[a] != #[trigger] origin[b],
        ensures
            forall|j: int|
                #[trigger] in_image(origin.update(h, origin.last()).drop_last(), j) <==> in_image(origin, j) && j
                    != origin[h],
    {
        let last = origin.len() - 1;
        let o2 = origin.update(h, origin.last()).drop_last();
        assert forall|j: int| #[trigger] in_image(o2, j) <==> in_image(origin, j) && j != origin[h] by {
            if in_image(o2, j) {
                let k = choose|k: int| 0 <= k < o2.len() && #[trigger] o2[k] == j;
                let k0 = handle_before(k, h, last);
                assert(origin[k0] == j);
                assert(origin[k0] != origin[h]);
            }
            if in_image(origin, j) && j != origin[h] {
                let k0 = choose|k0: int| 0 <= k0 < origin.len() && #[trigger] origin[k0] == j;
                let k = if k0 == last { h } else { k0 };
                assert(o2[k] == j);
            }
        }
    }

    /// Reduces the database of learnt clauses.
    ///
    /// Nothing happens unless there are more learnt clauses than inserted
    /// ones. Then, with half the number of inserted clauses as the target,
    /// every learnt clause that is not among the first `target` in the order
    /// of keeping (shorter first, later first among equals) is removed,
    /// unless it is the cause of an assignment. The trail and the values
    /// stay as they are.
    pub(crate) fn prune(&mut self)
        requires
            old(self).searching(),
        ensures
            final(self).searching(),
            old(self).nc() - old(self).base_clauses <= old(self).base_clauses ==> *final(self) == *old(self),
            old(self).nc() - old(self).base_clauses > old(self).base_clauses ==> ({
                let target = (old(self).base_clauses / 2) as int;
                exists|origin: Seq<int>| #[trigger] final(self).survivors(*old(self), origin, target)
            }),
            final(self).n() == old(self).n(),
            final(self).formula == old(self).formula,
            final(self).unsat == old(self).unsat,
            final(self).history@ == old(self).history@,
            final(self).assumption_history@ == old(self).assumption_history@,
            forall|u: int|
                0 <= u < old(self).n() ==> (#[trigger] final(self).assigned(u)) == old(self).assigned(u) && (old(
                    self,
                ).assigned(u) ==> final(self).val_of(u) == old(self).val_of(u) && final(self).level(u) == old(
                    self,
                ).level(u) && final(self).pos(u) == old(self).pos(u)),
    {
        let base = self.base_clauses;
        let target = base / 2;
        if self.clauses.len() - base > base {
            let mut marks: Vec<bool> = Vec::new();
            let mut h = base;
            while h < self.clauses.len()
                invariant
                    self.clauses_ok(),
                    base == self.base_clauses,
                    target == base / 2,
                    base <= h <= self.nc(),
                    marks@.len() == h - base,
                    forall|j: int| base <= j < h ==> #[trigger] marks@[j - base] == self.doomed(j, target as int),
                decreases self.nc() - h,
            {
                let r = self.rank_of(h);
                marks.push(r >= target);
                h = h + 1;
            }
            let ghost mut origin: Seq<int> = Seq::new(self.clauses@.len(), |k: int| k);
            let mut h = self.clauses.len();
            proof {
                assert forall|j: int| 0 <= j < self.nc() implies #[trigger] in_image(origin, j) by {
                    assert(origin[j] == j);
                }
            }
            while h > base
                invariant
                    self.searching(),
                    self.pruned_from(*old(self), origin),
                    base == old(self).base_clauses,
                    target == base / 2,
                    base <= h <= self.nc() <= old(self).nc(),
                    marks@.len() == old(self).nc() - base,
                    forall|j: int|
                        base <= j < old(self).nc() ==> #[trigger] marks@[j - base] == old(self).doomed(
                            j,
                            target as int,
                        ),
                    forall|k: int| 0 <= k < h ==> #[trigger] origin[k] == k,
                    forall|j: int|
                        0 <= j < old(self).nc() ==> (#[trigger] in_image(origin, j) <==> j < h || old(self).is_reason(j)
                            || !old(self).doomed(j, target as int)),
                decreases h,
            {
                h = h - 1;
                let ghost prev = *self;
                let ghost o1 = origin;
                proof {
                    prev.lemma_reason_kept(*old(self), o1, h as int);
                    assert(o1[h as int] == h);
                    assert(marks@[h - base] == old(self).doomed(h as int, target as int));
                }
                if marks[h - base] && !self.reason_of_any(h) {
                    self.remove_clause(h);
                    proof {
                        prev.lemma_pruned_step(*old(self), o1, *self, h as int);
                        Self::lemma_image_drop(o1, h as int);
                        origin = o1.update(h as int, o1.last()).drop_last();
                        assert forall|k: int| 0 <= k < h implies #[trigger] origin[k] == k by {
                            assert(o1[k] == k);
                        }
                        assert forall|j: int| 0 <= j < old(self).nc() implies (#[trigger] in_image(origin, j)
                            <==> j < h || old(self).is_reason(j) || !old(self).doomed(j, target as int)) by {
                            assert(in_image(o1, j) <==> j < h + 1 || old(self).is_reason(j) || !old(self).doomed(
                                j,
                                target as int,
                            ));
                        }
                    }
                } else {
                    proof {
                        assert forall|j: int| 0 <= j < old(self).nc() implies (#[trigger] in_image(origin, j)
                            <==> j < h || old(self).is_reason(j) || !old(self).doomed(j, target as int)) by {
                            assert(in_image(o1, j) <==> j < h + 1 || old(self).is_reason(j) || !old(self).doomed(
                                j,
                                target as int,
                            ));
                        }
                    }
                }
            }
            proof {
                assert(self.survivors(*old(self), origin, target as int));
            }
        }
    }
}

} // verus!
