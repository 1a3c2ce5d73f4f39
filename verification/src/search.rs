//! The search: propagation, then a decision or, on a conflict, a backjump
//! and a learnt clause; and the measure by which it ends.

use crate::cnf::{
    clause_holds, entails_clause, entails_lit, formula_holds, least_model, lex_le, lit_holds, satisfiable,
};
use crate::lit::Lit;
use crate::solver::{clause_ok, Solver, Unsat};
use vstd::arithmetic::power::{lemma_pow_increases, lemma_pow_positive, pow};
use vstd::prelude::*;

verus! {

/// The weight of a trail entry of level `lvl` among `n` variables: one more
/// than all the entries of higher levels can weigh together.
pub(crate) open spec fn weight(n: int, lvl: int) -> int {
    pow(n + 1, (n - lvl) as nat)
}

/// A weight is at least 1 and at most that of level 0, and `n + 1` entries
/// of one level weigh as much as one of the level below.
pub(crate) proof fn lemma_weight(n: int, lvl: int)
    requires
        0 <= lvl <= n,
    ensures
        1 <= weight(n, lvl) <= pow(n + 1, n as nat),
        lvl < n ==> (n + 1) * weight(n, lvl + 1) == weight(n, lvl),
        pow(n + 1, (n + 1) as nat) == (n + 1) * pow(n + 1, n as nat),
{
    lemma_pow_positive(n + 1, (n - lvl) as nat);
    lemma_pow_increases((n + 1) as nat, (n - lvl) as nat, n as nat);
    reveal(pow);
}

/// The higher the level, the lower the weight.
pub(crate) proof fn lemma_weight_mono(n: int, a: int, b: int)
    requires
        0 <= a <= b <= n,
    ensures
        weight(n, b) <= weight(n, a),
{
    lemma_pow_increases((n + 1) as nat, (n - b) as nat, (n - a) as nat);
}

impl Solver {
    /// The weight of the first `k` trail entries.
    pub(crate) open spec fn mass(&self, k: int) -> int
        decreases k,
    {
        if k <= 0 {
            0
        } else {
            self.mass(k - 1) + weight(self.n(), self.level(self.trail()[k - 1] as int))
        }
    }

    /// The weight of the trail. Every step of the search raises it: an
    /// assignment adds an entry, and a backjump trades entries of higher
    /// levels for one of a lower level, which weighs more than all of them.
    pub(crate) open spec fn measure(&self) -> int {
        self.mass(self.trail().len() as int)
    }

    /// What the weight of the trail cannot exceed.
    pub(crate) open spec fn ceiling(&self) -> int {
        pow(self.n() + 1, (self.n() + 1) as nat)
    }

    /// The trail, the decision stack and every level are bounded by the
    /// number of variables.
    pub(crate) proof fn lemma_levels_bound(&self)
        requires
            self.trail_ok(),
            self.levels_ok(),
        ensures
            self.trail().len() <= self.n(),
            self.cur_level() <= self.n(),
            forall|i: int| 0 <= i < self.trail().len() ==> 0 <= self.level(#[trigger] self.trail()[i] as int) <= self.n(),
    {
        self.lemma_trail_bound();
        self.lemma_decs_bound();
        assert forall|i: int| 0 <= i < self.trail().len() implies 0 <= self.level(
            #[trigger] self.trail()[i] as int,
        ) <= self.n() by {
            assert(self.assigned(self.trail()[i] as int));
        }
    }

    /// The same entries with the same levels weigh the same.
    pub(crate) proof fn lemma_mass_frame(&self, s1: Solver, k: int)
        requires
            0 <= k <= self.trail().len(),
            k <= s1.trail().len(),
            s1.n() == self.n(),
            forall|i: int|
                0 <= i < k ==> #[trigger] s1.trail()[i] == self.trail()[i] && s1.level(s1.trail()[i] as int)
                    == self.level(self.trail()[i] as int),
        ensures
            s1.mass(k) == self.mass(k),
        decreases k,
    {
        if k > 0 {
            self.lemma_mass_frame(s1, k - 1);
            assert(s1.trail()[k - 1] == self.trail()[k - 1]);
        }
    }

    /// Bounds on the weight of the entries from `k` up to `k2`.
    pub(crate) proof fn lemma_mass_span(&self, k: int, k2: int, b: int)
        requires
            self.trail_ok(),
            self.levels_ok(),
            0 <= k <= k2 <= self.trail().len(),
            0 <= b <= self.n(),
            forall|i: int| k <= i < k2 ==> self.level(#[trigger] self.trail()[i] as int) >= b,
        ensures
            self.mass(k) + (k2 - k) <= self.mass(k2),
            self.mass(k2) <= self.mass(k) + (k2 - k) * weight(self.n(), b),
        decreases k2 - k,
    {
        if k < k2 {
            self.lemma_levels_bound();
            self.lemma_mass_span(k, k2 - 1, b);
            let lvl = self.level(self.trail()[k2 - 1] as int);
            lemma_weight(self.n(), lvl);
            lemma_weight_mono(self.n(), b, lvl);
            assert((k2 - k) * weight(self.n(), b) == (k2 - 1 - k) * weight(self.n(), b) + weight(
                self.n(),
                b,
            )) by (nonlinear_arith);
        } else {
            assert((k2 - k) * weight(self.n(), b) == 0) by (nonlinear_arith)
                requires
                    k2 - k == 0,
            ;
        }
    }

    /// The weight of the trail stays below the ceiling.
    pub(crate) proof fn lemma_measure_bound(&self)
        requires
            self.trail_ok(),
            self.levels_ok(),
        ensures
            0 <= self.measure() < self.ceiling(),
    {
        let n = self.n();
        let len = self.trail().len() as int;
        self.lemma_levels_bound();
        self.lemma_mass_span(0, len, 0);
        lemma_weight(n, 0);
        let w = weight(n, 0);
        assert(len * w <= n * w) by (nonlinear_arith)
            requires
                0 <= len <= n,
                w >= 1,
        ;
        assert(n * w < (n + 1) * w) by (nonlinear_arith)
            requires
                w >= 1,
        ;
    }

    /// A trail that grew weighs no less.
    pub(crate) proof fn lemma_measure_grow(&self, s1: Solver)
        requires
            self.trail_ok(),
            self.levels_ok(),
            s1.trail_ok(),
            s1.levels_ok(),
            self.grows_to(s1),
        ensures
            self.measure() <= s1.measure(),
    {
        let k = self.trail().len() as int;
        assert forall|i: int| 0 <= i < k implies #[trigger] s1.trail()[i] == self.trail()[i] && s1.level(
            s1.trail()[i] as int,
        ) == self.level(self.trail()[i] as int) by {
            assert(self.assigned(self.trail()[i] as int));
        }
        self.lemma_mass_frame(s1, k);
        s1.lemma_levels_bound();
        s1.lemma_mass_span(k, s1.trail().len() as int, 0);
    }

    /// One more entry weighs more.
    pub(crate) proof fn lemma_measure_push(&self, s1: Solver)
        requires
            self.trail_ok(),
            self.levels_ok(),
            s1.trail_ok(),
            s1.levels_ok(),
            s1.n() == self.n(),
            s1.trail().len() == self.trail().len() + 1,
            forall|i: int| 0 <= i < self.trail().len() ==> #[trigger] s1.trail()[i] == self.trail()[i],
            forall|u: int|
                0 <= u < self.n() && #[trigger] self.assigned(u) ==> s1.vars@[u].value == self.vars@[u].value,
        ensures
            self.measure() < s1.measure(),
    {
        let k = self.trail().len() as int;
        assert forall|i: int| 0 <= i < k implies #[trigger] s1.trail()[i] == self.trail()[i] && s1.level(
            s1.trail()[i] as int,
        ) == self.level(self.trail()[i] as int) by {
            assert(self.assigned(self.trail()[i] as int));
        }
        self.lemma_mass_frame(s1, k);
        s1.lemma_levels_bound();
        s1.lemma_mass_span(k, k + 1, 0);
    }

    /// After a backjump from `self` to the level `b`, which cut the trail
    /// at `cut`, and one assignment at level `b`, the trail weighs more than
    /// it did before the backjump.
    pub(crate) proof fn lemma_measure_jump(&self, s3: Solver, cut: int, b: int)
        requires
            self.trail_ok(),
            self.levels_ok(),
            s3.trail_ok(),
            s3.levels_ok(),
            s3.n() == self.n(),
            0 <= cut <= self.trail().len(),
            0 <= b,
            forall|i: int| cut <= i < self.trail().len() ==> self.level(#[trigger] self.trail()[i] as int) > b,
            s3.trail().len() == cut + 1,
            forall|i: int|
                0 <= i < cut ==> #[trigger] s3.trail()[i] == self.trail()[i] && s3.level(s3.trail()[i] as int)
                    == self.level(self.trail()[i] as int),
            s3.level(s3.trail()[cut] as int) == b,
        ensures
            self.measure() < s3.measure(),
    {
        let n = self.n();
        let len = self.trail().len() as int;
        self.lemma_levels_bound();
        s3.lemma_levels_bound();
        self.lemma_mass_frame(s3, cut);
        assert(s3.measure() == s3.mass(cut) + weight(n, b));
        if cut < len {
            assert(self.level(self.trail()[cut] as int) > b);
            assert(b + 1 <= n);
            self.lemma_mass_span(cut, len, b + 1);
            lemma_weight(n, b);
            lemma_weight(n, b + 1);
            let w = weight(n, b + 1);
            assert((len - cut) * w < (n + 1) * w) by (nonlinear_arith)
                requires
                    0 <= len - cut <= n,
                    w >= 1,
            ;
        } else {
            lemma_weight(n, b);
        }
    }

    /// `s1` is `self` after the levels above `level` were undone.
    pub(crate) open spec fn backed_to(&self, s1: Solver, level: int) -> bool {
        &&& s1.vars@.len() == self.vars@.len()
        &&& s1.clauses == self.clauses
        &&& s1.base_clauses == self.base_clauses
        &&& s1.unsat == self.unsat
        &&& s1.formula == self.formula
        &&& s1.cur_level() == level
        &&& s1.assumption_history@ == self.assumption_history@.take(level)
        &&& s1.trail().len() <= self.trail().len()
        &&& s1.trail() == self.trail().take(s1.trail().len() as int)
        &&& forall|u: int| 0 <= u < self.n() ==> (#[trigger] s1.vars@[u]).watchers == self.vars@[u].watchers
        &&& forall|u: int|
            0 <= u < self.n() ==> (#[trigger] s1.assigned(u) <==> self.assigned(u) && self.level(u) <= level)
        &&& forall|u: int| 0 <= u < self.n() && #[trigger] s1.assigned(u) ==> s1.vars@[u] == self.vars@[u]
        &&& forall|i: int|
            s1.trail().len() <= i < self.trail().len() ==> self.level(#[trigger] self.trail()[i] as int) > level
    }

    /// Undoes every decision level above `level`: the trail is cut back to
    /// the entries of levels up to `level`, which keep their values, and the
    /// propagation pointer is set to its end.
    pub(crate) fn unassign_to(&mut self, level: usize)
        requires
            old(self).inv(),
            old(self).watched_upto(old(self).level_start()),
            level < old(self).cur_level(),
        ensures
            final(self).searching(),
            final(self).ascending(),
            final(self).prop_q == final(self).trail().len(),
            final(self).trail().len() < old(self).trail().len(),
            old(self).backed_to(*final(self), level as int),
    {
        proof {
            assert(self.history@.take(self.history@.len() as int) == self.history@);
            assert(self.assumption_history@.take(self.assumption_history@.len() as int) == self.assumption_history@);
            self.lemma_decs_bound();
        }
        while self.assumption_history.len() > level
            invariant
                self.inv(),
                self.watched_upto(self.level_start()),
                level <= self.cur_level() <= old(self).cur_level(),
                self.cur_level() == old(self).cur_level() ==> *self == *old(self),
                self.cur_level() < old(self).cur_level() ==> self.searching() && self.prop_q == self.trail().len()
                    && self.trail().len() < old(self).trail().len(),
                old(self).backed_to(*self, self.cur_level()),
            decreases self.cur_level(),
        {
            let ghost s0 = *self;
            self.undo_assumption();
            proof {
                self.lemma_decs_bound();
                self.lemma_watched_mono(self.prop_q as int, self.level_start());
                let lvl = self.cur_level();
                assert(self.trail() == old(self).trail().take(self.trail().len() as int));
                assert(self.assumption_history@ == old(self).assumption_history@.take(lvl));
                assert forall|u: int| 0 <= u < old(self).n() implies (#[trigger] self.vars@[u]).watchers
                    == old(self).vars@[u].watchers by {
                    assert(s0.vars@[u].watchers == old(self).vars@[u].watchers);
                }
                assert forall|u: int| 0 <= u < old(self).n() implies (#[trigger] self.assigned(u)
                    <==> old(self).assigned(u) && old(self).level(u) <= lvl) by {
                    if s0.assigned(u) {
                        assert(s0.vars@[u] == old(self).vars@[u]);
                    }
                }
                assert forall|u: int| 0 <= u < old(self).n() && #[trigger] self.assigned(u) implies self.vars@[u]
                    == old(self).vars@[u] by {
                    assert(s0.assigned(u));
                    assert(s0.pos(u) < s0.level_start());
                    assert(self.vars@[u] == s0.vars@[u]);
                }
                assert forall|i: int| self.trail().len() <= i < old(self).trail().len() implies old(self).level(
                    #[trigger] old(self).trail()[i] as int,
                ) > lvl by {
                    if i < s0.trail().len() {
                        assert(s0.trail()[i] == old(self).trail()[i]);
                        assert(s0.assigned(s0.trail()[i] as int));
                        assert(s0.level(s0.trail()[i] as int) == s0.cur_level());
                    }
                }
            }
        }
        proof {
            self.lemma_trail_monotone();
        }
    }

    /// What a learnt clause must be, after the backjump, to be installed:
    /// it follows from the formula, its first literal is unassigned and the
    /// others are false, the second being of the current level.
    pub(crate) open spec fn learnable(&self, learnt: Seq<Lit>) -> bool {
        &&& learnt.len() >= 1
        &&& entails_clause(self.formula@, learnt)
        &&& forall|k: int| 0 <= k < learnt.len() ==> (#[trigger] learnt[k]).var < self.n()
        &&& forall|i: int, j: int| 0 <= i < j < learnt.len() ==> (#[trigger] learnt[i]).var != (#[trigger] learnt[j]).var
        &&& !self.assigned(learnt[0].var as int)
        &&& forall|k: int| 1 <= k < learnt.len() ==> self.is_false(#[trigger] learnt[k])
        &&& learnt.len() > 1 ==> self.cur_level() > 0 && self.level(learnt[1].var as int) == self.cur_level()
        &&& learnt.len() == 1 ==> self.cur_level() == 0
    }

    /// With the new clause attached and its first literal made true, the
    /// watched literals are settled as far as they were.
    pub(crate) proof fn lemma_learn_watched(&self, sa: Solver, s1: Solver, c: Seq<Lit>)
        requires
            self.grounded(),
            self.learnable(c),
            c.len() > 1,
            self.watched_upto(self.trail().len() as int),
            self.attach_step(sa, c),
            sa.assign_step(s1, c[0], Some(self.nc() as usize), false),
        ensures
            s1.watched_upto(self.trail().len() as int),
    {
        let p = self.trail().len() as int;
        let h = self.nc();
        let a = c[0];
        self.lemma_sizes();
        assert forall|k: int, w: int| 0 <= k < s1.nc() && 0 <= w < 2 implies #[trigger] s1.watch_sem(k, w, p) by {
            if k < h {
                assert(sa.clauses@[k] == self.clauses@[k]);
                assert(s1.cl(k) == self.cl(k));
                assert(clause_ok(self.cl(k), self.n()));
                assert(self.watch_sem(k, w, p));
                let x = self.cl(k)[w];
                let y = self.cl(k)[1 - w];
                if s1.is_false(x) && s1.pos(x.var as int) < p {
                    assert(x.var != a.var);
                    assert(s1.vars@[x.var as int] == sa.vars@[x.var as int]);
                    assert(sa.vars@[x.var as int].value == self.vars@[x.var as int].value);
                    assert(self.is_false(x));
                    assert(self.is_true(y));
                    assert(y.var != a.var);
                    assert(s1.vars@[y.var as int] == sa.vars@[y.var as int]);
                    assert(sa.vars@[y.var as int].value == self.vars@[y.var as int].value);
                }
            } else {
                assert(s1.cl(k) == c);
                let x = c[1];
                assert(self.is_false(x));
                assert(x.var != a.var);
                assert(s1.vars@[x.var as int] == sa.vars@[x.var as int]);
                assert(sa.vars@[x.var as int].value == self.vars@[x.var as int].value);
            }
        }
    }

    /// Installs a learnt clause after the backjump: a clause of two or more
    /// literals is attached and becomes the cause of its first literal, a
    /// single literal is put on the trail without one.
    pub(crate) fn learn(&mut self, learnt: Vec<Lit>)
        requires
            old(self).searching(),
            old(self).prop_q == old(self).trail().len(),
            old(self).learnable(learnt@),
        ensures
            final(self).searching(),
            final(self).trail() == old(self).trail().push(learnt@[0].var),
            final(self).is_true(learnt@[0]),
            final(self).level(learnt@[0].var as int) == old(self).cur_level(),
            old(self).lex_ok() ==> final(self).lex_ok(),
            final(self).n() == old(self).n(),
            final(self).assumption_history@ == old(self).assumption_history@,
            final(self).formula == old(self).formula,
            final(self).unsat == old(self).unsat,
            final(self).base_clauses == old(self).base_clauses,
            final(self).prop_q == old(self).prop_q,
            forall|u: int|
                0 <= u < old(self).n() && #[trigger] old(self).assigned(u) ==> final(self).vars@[u].value
                    == old(self).vars@[u].value,
            final(self).cause(learnt@[0].var as int) == if learnt@.len() > 1 {
                Some((final(self).nc() - 1) as usize)
            } else {
                None
            },
            final(self).nc() == old(self).nc() + if learnt@.len() > 1 { 1int } else { 0int },
            learnt@.len() > 1 ==> final(self).cl(final(self).nc() - 1) == learnt@,
            forall|k: int| 0 <= k < old(self).nc() ==> #[trigger] final(self).cl(k) == old(self).cl(k),
    {
        let a = learnt[0];
        let ghost c = learnt@;
        if learnt.len() > 1 {
            proof {
                assert(clause_ok(c, self.n()));
            }
            let h = self.attach(learnt);
            let ghost sa = *self;
            proof {
                old(self).lemma_attach(sa, c);
                assert(sa.vars@[a.var as int].value == old(self).vars@[a.var as int].value);
                assert(sa.cl(h as int) == c);
                assert forall|j: int| 1 <= j < sa.cl(h as int).len() implies sa.is_false(
                    #[trigger] sa.cl(h as int)[j],
                ) by {
                    assert(old(self).is_false(c[j]));
                }
            }
            self.enqueue_unchecked(a, Some(h));
            proof {
                sa.lemma_assign_inv(*self, a, Some(h), false);
                old(self).lemma_learn_watched(sa, *self, c);
                assert forall|u: int| 0 <= u < old(self).n() && #[trigger] old(self).assigned(u) implies self.vars@[u].value
                    == old(self).vars@[u].value by {
                    assert(sa.vars@[u].value == old(self).vars@[u].value);
                    assert(sa.assigned(u));
                }
                assert forall|u: int| 0 <= u < old(self).n() && u != a.var implies (#[trigger] self.assigned(u))
                    == old(self).assigned(u) by {
                    assert(sa.vars@[u].value == old(self).vars@[u].value);
                }
                if old(self).lex_ok() {
                    old(self).lemma_lex_learn(*self, c);
                }
            }
        } else {
            proof {
                assert(entails_lit(self.formula@, a)) by {
                    assert forall|m: Seq<bool>| #[trigger] formula_holds(self.formula@, m) implies lit_holds(
                        a,
                        m,
                    ) by {
                        assert(clause_holds(c, m));
                    }
                }
            }
            self.enqueue_unchecked(a, None);
            proof {
                old(self).lemma_assign_inv(*self, a, None, false);
                assert forall|u: int| 0 <= u < old(self).n() && #[trigger] old(self).assigned(u) implies self.vars@[u].value
                    == old(self).vars@[u].value by {}
                if old(self).lex_ok() {
                    old(self).lemma_lex_learn(*self, c);
                }
            }
        }
    }

    /// The lowest variable that has no value.
    pub(crate) fn pick(&self) -> (r: Option<usize>)
        ensures
            match r {
                Some(v) => v < self.n() && !self.assigned(v as int) && forall|u: int|
                    0 <= u < v ==> self.assigned(u),
                None => forall|u: int| 0 <= u < self.n() ==> self.assigned(u),
            },
    {
        let mut v: usize = 0;
        while v < self.vars.len()
            invariant
                v <= self.n(),
                forall|u: int| 0 <= u < v ==> self.assigned(u),
            decreases self.n() - v,
        {
            if self.vars[v].value.is_none() {
                return Some(v);
            }
            v = v + 1;
        }
        None
    }

    /// The values of the variables, `false` for one that has none.
    pub(crate) fn model(&self) -> (m: Vec<bool>)
        ensures
            m@.len() == self.n(),
            forall|v: int| 0 <= v < self.n() ==> m@[v] == (self.assigned(v) && self.val_of(v)),
    {
        let mut m: Vec<bool> = Vec::new();
        let mut v: usize = 0;
        while v < self.vars.len()
            invariant
                v <= self.n(),
                m@.len() == v,
                forall|u: int| 0 <= u < v ==> m@[u] == (self.assigned(u) && self.val_of(u)),
            decreases self.n() - v,
        {
            let b = match &self.vars[v].value {
                Some(a) => a.val,
                None => false,
            };
            m.push(b);
            v = v + 1;
        }
        m
    }

    /// When every variable has a value and propagation has come to rest,
    /// the values satisfy the formula.
    pub(crate) proof fn lemma_model(&self, m: Seq<bool>)
        requires
            self.inv(),
            !self.unsat,
            self.quiescent(),
            forall|u: int| 0 <= u < self.n() ==> self.assigned(u),
            m.len() == self.n(),
            forall|v: int| 0 <= v < self.n() ==> m[v] == (self.assigned(v) && self.val_of(v)),
        ensures
            formula_holds(self.formula@, m),
    {
        assert(self.models_base(m)) by {
            assert forall|c: int| 0 <= c < self.base_clauses implies clause_holds(#[trigger] self.cl(c), m) by {
                assert(clause_ok(self.cl(c), self.n()));
                assert(self.settled(c));
                let x = self.cl(c)[0];
                let y = self.cl(c)[1];
                assert(self.assigned(x.var as int) && self.assigned(y.var as int));
                if self.is_true(x) {
                    assert(lit_holds(x, m));
                } else {
                    assert(self.is_true(y));
                    assert(lit_holds(y, m));
                }
            }
        }
    }

    /// Opens a new decision level with `v`, the lowest variable without a
    /// value, set to false.
    pub(crate) fn decide(&mut self, v: usize)
        requires
            old(self).searching(),
            old(self).prop_q == old(self).trail().len(),
            v < old(self).n(),
            !old(self).assigned(v as int),
            forall|u: int| 0 <= u < v ==> old(self).assigned(u),
            old(self).lex_ok(),
        ensures
            final(self).searching(),
            final(self).lex_ok(),
            old(self).assign_step(*final(self), Lit { var: v, val: false }, None, true),
            final(self).n() == old(self).n(),
            final(self).formula == old(self).formula,
            final(self).unsat == old(self).unsat,
            final(self).ascending(),
            final(self).cur_level() == old(self).cur_level() + 1,
            final(self).trail() == old(self).trail().push(v),
            old(self).measure() < final(self).measure(),
    {
        let l = Lit { var: v, val: false };
        self.assumption_history.push(v);
        self.enqueue_unchecked(l, None);
        proof {
            assert(old(self).assign_step(*self, l, None, true));
            old(self).lemma_assign_inv(*self, l, None, true);
            assert forall|i: int| 0 <= i < old(self).trail().len() implies #[trigger] self.trail()[i] == old(
                self,
            ).trail()[i] by {}
            assert forall|u: int| 0 <= u < old(self).n() && #[trigger] old(self).assigned(u) implies self.vars@[u].value
                == old(self).vars@[u].value by {}
            old(self).lemma_measure_push(*self);
            self.lemma_trail_monotone();
            old(self).lemma_lex_decide(*self, v as int);
        }
    }

    /// After a conflict above level 0: returns to the level that the
    /// analysis named and installs the learnt clause, whose first literal
    /// becomes true there. When a clause was stored, the database of learnt
    /// clauses is reduced.
    pub(crate) fn recover(&mut self, err: Unsat)
        requires
            old(self).inv(),
            old(self).watched_upto(old(self).level_start()),
            old(self).conflict_ok(err),
            err.learnt@.len() > 0,
            old(self).lex_ok(),
        ensures
            final(self).searching(),
            final(self).lex_ok(),
            final(self).n() == old(self).n(),
            final(self).formula == old(self).formula,
            final(self).unsat == old(self).unsat,
            final(self).ascending(),
            final(self).cur_level() == err.max_assumption,
            old(self).measure() < final(self).measure(),
    {
        let level = err.max_assumption;
        let ghost c = err.learnt@;
        self.unassign_to(level);
        let ghost sb = *self;
        proof {
            old(self).lemma_lex_back(sb, level as int);
            assert(sb.learnable(c)) by {
                let a = c[0];
                assert(a.var < old(self).n() && old(self).is_false(a));
                assert forall|k: int| 1 <= k < c.len() implies sb.is_false(#[trigger] c[k]) by {
                    let u = c[k].var as int;
                    assert(old(self).is_false(c[k]));
                    assert(old(self).assigned(u));
                    assert(sb.assigned(u));
                    assert(sb.vars@[u] == old(self).vars@[u]);
                }
                if c.len() > 1 {
                    let u = c[1].var as int;
                    assert(sb.is_false(c[1]));
                    assert(sb.vars@[u] == old(self).vars@[u]);
                }
            }
        }
        let stored = err.learnt.len() > 1;
        self.learn(err.learnt);
        proof {
            let cut = sb.trail().len() as int;
            assert forall|i: int| 0 <= i < cut implies #[trigger] self.trail()[i] == old(self).trail()[i]
                && self.level(self.trail()[i] as int) == old(self).level(old(self).trail()[i] as int) by {
                assert(sb.trail()[i] == old(self).trail()[i]);
                let u = sb.trail()[i] as int;
                assert(sb.assigned(u));
                assert(sb.vars@[u] == old(self).vars@[u]);
            }
            old(self).lemma_measure_jump(*self, cut, level as int);
        }
        if stored {
            let ghost s3 = *self;
            self.prune();
            proof {
                assert forall|i: int| 0 <= i < s3.trail().len() implies #[trigger] self.trail()[i] == s3.trail()[i]
                    && self.level(self.trail()[i] as int) == s3.level(s3.trail()[i] as int) by {
                    let u = s3.trail()[i] as int;
                    assert(s3.assigned(u));
                    assert(self.assigned(u) == s3.assigned(u));
                }
                s3.lemma_mass_frame(*self, s3.trail().len() as int);
                s3.lemma_lex_frame(*self);
            }
        }
        proof {
            self.lemma_trail_monotone();
        }
    }

    /// Decides whether the formula can be satisfied.
    ///
    /// Propagation, a decision on the lowest unassigned variable (false
    /// first) and, on a conflict, a backjump with a learnt clause alternate
    /// until every variable has a value or a conflict arises at level 0.
    ///
    /// The result is a model exactly when the inserted clauses can be
    /// satisfied together. A model gives every variable a value and
    /// satisfies every clause that was inserted, as it was given; it is the
    /// first such assignment in the lexicographic order, false before true
    /// and variable 0 first. `Unsat` comes back with no clause in it.
    pub fn solve(self) -> (r: Result<Vec<bool>, Unsat>)
        requires
            self.wf(),
        ensures
            r is Ok <==> satisfiable(self.formula()),
            match r {
                Ok(m) => m@.len() == self.num_vars() && least_model(self.formula(), m@),
                Err(e) => e.learnt@.len() == 0 && e.max_assumption == 0,
            },
    {
        let ghost s0 = self;
        let mut s = self;
        proof {
            s0.lemma_view();
            s.lemma_idle_searching();
        }
        if s.unsat {
            return Err(Unsat { learnt: Vec::new(), max_assumption: 0 });
        }
        proof {
            s.lemma_lex_start();
        }
        loop
            invariant
                s.searching(),
                s.lex_ok(),
                !s.unsat,
                s.n() == s0.n(),
                s.formula == s0.formula,
                s0 == self,
                s0.formula() == s0.formula@,
                s0.num_vars() == s0.n(),
            decreases s.ceiling() - s.measure(),
        {
            let ghost head = s;
            proof {
                s.lemma_measure_bound();
            }
            let done = s.propagate();
            proof {
                s.lemma_lex_extend(head);
            }
            match done {
                Err(err) => {
                    if err.learnt.is_empty() || s.assumption_history.is_empty() {
                        return Err(err);
                    }
                    proof {
                        head.lemma_measure_grow(s);
                    }
                    s.recover(err);
                    proof {
                        s.lemma_measure_bound();
                    }
                },
                Ok(()) => {
                    match s.pick() {
                        Some(v) => {
                            proof {
                                head.lemma_measure_grow(s);
                            }
                            s.decide(v);
                            proof {
                                s.lemma_measure_bound();
                            }
                        },
                        None => {
                            let m = s.model();
                            proof {
                                s.lemma_model(m@);
                                assert forall|m2: Seq<bool>|
                                    m2.len() == m@.len() && #[trigger] formula_holds(s.formula@, m2) implies lex_le(
                                    m@,
                                    m2,
                                ) by {
                                    s.lemma_least(m@, m2);
                                }
                            }
                            return Ok(m);
                        },
                    }
                },
            }
        }
    }
}

} // verus!
