//! Unit propagation with two watched literals.
use vstd::prelude::*;

use crate::assignment::TrailReason;
use crate::clause::{lemma_swapped_contains, ClauseDB, ClauseIdx};
use crate::lit::Lit;
use crate::litvec::lit_slot;
use crate::solver::{clause_true, similar_clauses, Solver, Watch};
use crate::sound::{lemma_sound_assign, lemma_sound_clause, lemma_sound_similar};
use crate::trail::Trail;

verus! {

/// The outcome of unit propagation.
#[derive(Clone, Copy, PartialEq, Eq, Structural, Debug)]
pub enum PropagationResult {
    /// Every literal of this clause is false.
    Contradiction(ClauseIdx),
    /// Every literal on the trail has been propagated without conflict.
    Done,
}

/// `a + b`, capped at the largest `u64`.
pub open spec fn capped_add(a: u64, b: int) -> int {
    if a + b > u64::MAX { u64::MAX as int } else { a + b }
}

/// The clause at `s` needs no propagation under `t`: it has a true literal, or two
/// literals that are not false.
pub open spec fn settled(db: ClauseDB, t: Trail, s: int) -> bool {
    clause_true(db, t, s) || exists|j1: int, j2: int| 0 <= j1 < j2 < db.clause(s).lits.len()
        && #[trigger] t.value(Lit::from_code_spec(db.clause(s).lits[j1])) != Some(false)
        && #[trigger] t.value(Lit::from_code_spec(db.clause(s).lits[j2])) != Some(false)
}

/// The reason clause of every propagated literal from trail position `n0` on is
/// flagged as a reason.
pub(crate) open spec fn flagged_from(s: Solver, n0: int) -> bool {
    forall|p: int| #![trigger s.trail.elems()[p]] n0 <= p < s.trail.elems().len() && s.trail.elems()[p].reason is Propagated
        ==> s.clause_db.clause(s.trail.elems()[p].reason->cls.at()).reason()
}

/// The reason clause of every propagated literal from trail position `n0` on holds that
/// literal first, and its other literals are false.
pub(crate) open spec fn shaped_from(s: Solver, n0: int) -> bool {
    forall|p: int| #![trigger s.trail.elems()[p]] n0 <= p < s.trail.elems().len() && s.trail.elems()[p].reason is Propagated ==> {
        let c = s.clause_db.clause(s.trail.elems()[p].reason->cls.at()).lits;
        &&& c.len() >= 1
        &&& Lit::from_code_spec(c[0]) == s.trail.elems()[p].lit
        &&& forall|j: int| 1 <= j < c.len() ==> s.trail.holds(Lit::from_code_spec(c[j]))
            && #[trigger] s.trail.value(Lit::from_code_spec(c[j])) == Some(false)
    }
}

/// No reason flag of `a` is cleared in `b`.
pub open spec fn flags_grow(a: ClauseDB, b: ClauseDB) -> bool {
    &&& a.handles() == b.handles()
    &&& forall|s: int| #[trigger] a.handles().contains(s) && a.clause(s).reason() ==> b.clause(s).reason()
}

/// What a sweep over the arena found.
enum Sweep {
    /// Every clause is settled.
    Settled,
    /// Every literal of this clause is false.
    Conflict(ClauseIdx),
    /// Literal `k` of this clause is unassigned and its other literals are false.
    Unit(ClauseIdx, usize),
}

/// Every literal of the clause at `s` is false under `t`.
pub open spec fn clause_false(db: ClauseDB, t: Trail, s: int) -> bool {
    forall|j: int| 0 <= j < db.clause(s).lits.len() ==> #[trigger] t.value(Lit::from_code_spec(db.clause(s).lits[j])) == Some(false)
}

impl Solver {
    /// `self` is `old` with literals appended to the trail at the current level, and
    /// watches and literal order changed: what propagation may do.
    pub(crate) open spec fn extends(&self, old: Solver) -> bool {
        &&& self.formula == old.formula
        &&& self.input_handles == old.input_handles
        &&& self.trivially_unsat == old.trivially_unsat
        &&& self.trail.assign().len() == old.trail.assign().len()
        &&& self.trail.decisions() == old.trail.decisions()
        &&& self.trail.elems().len() >= old.trail.elems().len()
        &&& self.trail.elems().subrange(0, old.trail.elems().len() as int) == old.trail.elems()
        &&& self.trail.levels().subrange(0, old.trail.elems().len() as int) == old.trail.levels()
        &&& forall|p: int| old.trail.elems().len() <= p < self.trail.elems().len() ==> #[trigger] self.trail.levels()[p] == self.trail.level()
        &&& forall|p: int| old.trail.elems().len() <= p < self.trail.elems().len() ==> #[trigger] self.trail.elems()[p].reason is Propagated
        &&& forall|v: int| 0 <= v < old.trail.assign().len() && #[trigger] old.trail.assign()[v].is_some()
            ==> self.trail.assign()[v] == old.trail.assign()[v]
        &&& similar_clauses(old.clause_db, self.clause_db)
    }

    pub(crate) proof fn lemma_extends_refl(&self)
        ensures
            self.extends(*self),
    {
        assert(self.trail.elems().subrange(0, self.trail.elems().len() as int) =~= self.trail.elems());
        assert(self.trail.levels().subrange(0, self.trail.elems().len() as int) =~= self.trail.levels());
    }

    /// Changing only the watches, the counters and the order or reason flags of clauses
    /// is an extension.
    pub(crate) proof fn lemma_extends_db(a: Solver, b: Solver)
        requires
            b.trail == a.trail,
            b.formula == a.formula,
            b.input_handles == a.input_handles,
            b.trivially_unsat == a.trivially_unsat,
            similar_clauses(a.clause_db, b.clause_db),
        ensures
            b.extends(a),
    {
        a.lemma_extends_refl();
    }

    /// Assigning an unassigned literal without a decision is an extension.
    pub(crate) proof fn lemma_extends_assign(a: Solver, b: Solver, l: Lit)
        requires
            b.clause_db == a.clause_db,
            b.formula == a.formula,
            b.input_handles == a.input_handles,
            b.trivially_unsat == a.trivially_unsat,
            b.trail.assign().len() == a.trail.assign().len(),
            b.trail.decisions() == a.trail.decisions(),
            b.trail.elems() == a.trail.elems().push(b.trail.elems().last()),
            b.trail.levels() == a.trail.levels().push(b.trail.level()),
            b.trail.elems().last().reason is Propagated,
            forall|v: int| 0 <= v < a.trail.assign().len() && #[trigger] a.trail.assign()[v].is_some()
                ==> b.trail.assign()[v] == a.trail.assign()[v],
        ensures
            b.extends(a),
    {
        a.lemma_extends_refl();
        assert(b.trail.elems().subrange(0, a.trail.elems().len() as int) =~= a.trail.elems());
        assert(b.trail.levels().subrange(0, a.trail.elems().len() as int) =~= a.trail.levels());
    }

    /// Changing a clause whose first literal is not true, which is then no reason of a
    /// propagated literal, keeps the reason clauses in shape.
    pub(crate) proof fn lemma_shape_other(a: Solver, b: Solver, n0: int, h: int)
        requires
            a.inv(),
            shaped_from(a, n0),
            0 <= n0,
            b.trail == a.trail,
            a.clause_db.handles().contains(h),
            a.trail.value(Lit::from_code_spec(a.clause_db.clause(h).lits[0])) != Some(true),
            forall|s: int| #[trigger] a.clause_db.handles().contains(s) && s != h ==> b.clause_db.clause(s).lits == a.clause_db.clause(s).lits,
        ensures
            shaped_from(b, n0),
    {
        assert forall|p: int| #![trigger b.trail.elems()[p]] n0 <= p < b.trail.elems().len() && b.trail.elems()[p].reason is Propagated implies {
            let c = b.clause_db.clause(b.trail.elems()[p].reason->cls.at()).lits;
            &&& c.len() >= 1
            &&& Lit::from_code_spec(c[0]) == b.trail.elems()[p].lit
            &&& forall|j: int| 1 <= j < c.len() ==> b.trail.holds(Lit::from_code_spec(c[j]))
                && #[trigger] b.trail.value(Lit::from_code_spec(c[j])) == Some(false)
        } by {
            a.lemma_reason_valid(p);
            a.lemma_inv_basic();
            a.trail.lemma_elem(p);
            let s = a.trail.elems()[p].reason->cls.at();
            assert(a.clause_db.handles().contains(s));
            if s == h {
                assert(Lit::from_code_spec(a.clause_db.clause(h).lits[0]) == a.trail.elems()[p].lit);
            }
        }
    }

    /// A literal propagated through a clause that then holds it first and its other
    /// literals false, the other reason clauses unchanged, keeps the reason clauses in shape.
    pub(crate) proof fn lemma_shape_unit(a: Solver, b: Solver, n0: int, h: int, l: Lit)
        requires
            a.inv(),
            shaped_from(a, n0),
            0 <= n0,
            a.clause_db.handles().contains(h),
            a.trail.value(Lit::from_code_spec(a.clause_db.clause(h).lits[0])) != Some(true),
            forall|s: int| #[trigger] a.clause_db.handles().contains(s) && s != h ==> b.clause_db.clause(s).lits == a.clause_db.clause(s).lits,
            b.trail.elems().len() == a.trail.elems().len() + 1,
            forall|p: int| 0 <= p < a.trail.elems().len() ==> #[trigger] b.trail.elems()[p] == a.trail.elems()[p],
            b.trail.elems().last().lit == l,
            b.trail.elems().last().reason is Propagated,
            b.trail.elems().last().reason->cls.at() == h,
            b.trail.assign().len() == a.trail.assign().len(),
            forall|v: int| 0 <= v < a.trail.assign().len() && #[trigger] a.trail.assign()[v].is_some()
                ==> b.trail.assign()[v] == a.trail.assign()[v],
            b.clause_db.clause(h).lits.len() >= 1,
            Lit::from_code_spec(b.clause_db.clause(h).lits[0]) == l,
            forall|j: int| 1 <= j < b.clause_db.clause(h).lits.len() ==> a.trail.holds(Lit::from_code_spec(b.clause_db.clause(h).lits[j]))
                && #[trigger] a.trail.value(Lit::from_code_spec(b.clause_db.clause(h).lits[j])) == Some(false),
        ensures
            shaped_from(b, n0),
    {
        a.lemma_inv_basic();
        assert forall|m: Lit| a.trail.holds(m) && a.trail.value(m) == Some(false) implies
            b.trail.holds(m) && #[trigger] b.trail.value(m) == Some(false) by {
            assert(a.trail.assign()[m.var_id() as int].is_some());
        }
        assert forall|p: int| #![trigger b.trail.elems()[p]] n0 <= p < b.trail.elems().len() && b.trail.elems()[p].reason is Propagated implies {
            let c = b.clause_db.clause(b.trail.elems()[p].reason->cls.at()).lits;
            &&& c.len() >= 1
            &&& Lit::from_code_spec(c[0]) == b.trail.elems()[p].lit
            &&& forall|j: int| 1 <= j < c.len() ==> b.trail.holds(Lit::from_code_spec(c[j]))
                && #[trigger] b.trail.value(Lit::from_code_spec(c[j])) == Some(false)
        } by {
            if p < a.trail.elems().len() {
                assert(b.trail.elems()[p] == a.trail.elems()[p]);
                a.lemma_reason_valid(p);
                a.trail.lemma_elem(p);
                let s = a.trail.elems()[p].reason->cls.at();
                assert(a.clause_db.handles().contains(s));
                if s == h {
                    assert(Lit::from_code_spec(a.clause_db.clause(h).lits[0]) == a.trail.elems()[p].lit);
                }
                let c = a.clause_db.clause(s).lits;
                assert forall|j: int| 1 <= j < c.len() implies b.trail.holds(Lit::from_code_spec(c[j]))
                    && #[trigger] b.trail.value(Lit::from_code_spec(c[j])) == Some(false) by {
                    assert(a.trail.value(Lit::from_code_spec(c[j])) == Some(false));
                }
            } else {
                let c = b.clause_db.clause(h).lits;
                assert forall|j: int| 1 <= j < c.len() implies b.trail.holds(Lit::from_code_spec(c[j]))
                    && #[trigger] b.trail.value(Lit::from_code_spec(c[j])) == Some(false) by {
                    assert(a.trail.value(Lit::from_code_spec(c[j])) == Some(false));
                }
            }
        }
    }

    /// Setting reason flags on a fixed trail keeps the flagged reasons flagged.
    pub(crate) proof fn lemma_flags_step(a: Solver, b: Solver, n0: int)
        requires
            a.inv(),
            flagged_from(a, n0),
            b.trail == a.trail,
            flags_grow(a.clause_db, b.clause_db),
            0 <= n0,
        ensures
            flagged_from(b, n0),
    {
        assert forall|p: int| #![trigger b.trail.elems()[p]] n0 <= p < b.trail.elems().len() && b.trail.elems()[p].reason is Propagated
            implies b.clause_db.clause(b.trail.elems()[p].reason->cls.at()).reason() by {
            a.lemma_reason_valid(p);
        }
    }

    /// Appending a literal whose reason clause is flagged keeps the flagged reasons flagged.
    pub(crate) proof fn lemma_flags_assign(a: Solver, b: Solver, n0: int)
        requires
            a.inv(),
            flagged_from(a, n0),
            b.trail.elems().len() == a.trail.elems().len() + 1,
            forall|p: int| 0 <= p < a.trail.elems().len() ==> #[trigger] b.trail.elems()[p] == a.trail.elems()[p],
            b.trail.elems().last().reason is Propagated,
            b.clause_db.clause(b.trail.elems().last().reason->cls.at()).reason(),
            flags_grow(a.clause_db, b.clause_db),
            0 <= n0,
        ensures
            flagged_from(b, n0),
    {
        assert forall|p: int| #![trigger b.trail.elems()[p]] n0 <= p < b.trail.elems().len() && b.trail.elems()[p].reason is Propagated
            implies b.clause_db.clause(b.trail.elems()[p].reason->cls.at()).reason() by {
            if p < a.trail.elems().len() {
                assert(b.trail.elems()[p] == a.trail.elems()[p]);
                a.lemma_reason_valid(p);
            }
        }
    }

    /// Reasons flagged before a step and those flagged by the step together.
    pub(crate) proof fn lemma_flags_combine(a: Solver, b: Solver, n0: int)
        requires
            a.inv(),
            flagged_from(a, n0),
            flagged_from(b, a.trail.elems().len() as int),
            b.trail.elems().len() >= a.trail.elems().len(),
            forall|p: int| 0 <= p < a.trail.elems().len() ==> #[trigger] b.trail.elems()[p] == a.trail.elems()[p],
            flags_grow(a.clause_db, b.clause_db),
            0 <= n0,
        ensures
            flagged_from(b, n0),
    {
        assert forall|p: int| #![trigger b.trail.elems()[p]] n0 <= p < b.trail.elems().len() && b.trail.elems()[p].reason is Propagated
            implies b.clause_db.clause(b.trail.elems()[p].reason->cls.at()).reason() by {
            if p < a.trail.elems().len() {
                assert(b.trail.elems()[p] == a.trail.elems()[p]);
                a.lemma_reason_valid(p);
            }
        }
    }

    /// The assignments from trail position `n0` on have reasons flagged, which a longer
    /// start only weakens.
    pub(crate) proof fn lemma_flags_from_later(s: Solver, n0: int, n1: int)
        requires
            flagged_from(s, n0),
            n0 <= n1,
        ensures
            flagged_from(s, n1),
    {
    }

    pub(crate) proof fn lemma_extends_trans(a: Solver, b: Solver, c: Solver)
        requires
            b.extends(a),
            c.extends(b),
        ensures
            c.extends(a),
    {
        let n = a.trail.elems().len() as int;
        assert(c.trail.elems().subrange(0, n) =~= b.trail.elems().subrange(0, n));
        assert(c.trail.levels().subrange(0, n) =~= b.trail.levels().subrange(0, n));
        assert forall|p: int| n <= p < c.trail.elems().len() implies #[trigger] c.trail.levels()[p] == c.trail.level() by {
            if p < b.trail.elems().len() {
                assert(c.trail.levels().subrange(0, b.trail.elems().len() as int)[p] == b.trail.levels()[p]);
            }
        }
        assert forall|p: int| n <= p < c.trail.elems().len() implies #[trigger] c.trail.elems()[p].reason is Propagated by {
            if p < b.trail.elems().len() {
                assert(c.trail.elems().subrange(0, b.trail.elems().len() as int)[p] == b.trail.elems()[p]);
            }
        }
        assert forall|s: int| #[trigger] a.clause_db.handles().contains(s) implies
            c.clause_db.clause(s).lits.len() == a.clause_db.clause(s).lits.len()
            && c.clause_db.clause(s).glue == a.clause_db.clause(s).glue
            && c.clause_db.clause(s).garbage() == a.clause_db.clause(s).garbage()
            && forall|x: u32| c.clause_db.clause(s).lits.contains(x) <==> a.clause_db.clause(s).lits.contains(x) by {
            assert(b.clause_db.handles().contains(s));
        }
    }

    /// Propagates every literal of the trail from `unpropagated_lit_pos` on: each clause
    /// watching its negation gets a new watch, forces its other watched literal, or is
    /// Propagates the trail with the watched literals, then checks that every clause is
    /// settled. A clause that the watches missed is propagated or reported all the same,
    /// so that `Done` means that no clause is unit or false.
    pub(crate) fn propagate(&mut self) -> (r: PropagationResult)
        requires
            old(self).inv(),
            old(self).sound(),
        ensures
            final(self).inv(),
            final(self).sound(),
            final(self).extends(*old(self)),
            r matches PropagationResult::Contradiction(h) ==> final(self).clause_db.valid(h)
                && clause_false(final(self).clause_db, final(self).trail, h.at()),
            r is Done ==> final(self).unpropagated_lit_pos == final(self).trail.elems().len(),
            r is Done ==> forall|s: int| #[trigger] final(self).clause_db.handles().contains(s) ==>
                settled(final(self).clause_db, final(self).trail, s),
            final(self).stats.propagations == capped_add(old(self).stats.propagations,
                final(self).trail.elems().len() - old(self).trail.elems().len()),
            (r is Done) ==> final(self).stats.contradictions == old(self).stats.contradictions,
            !(r is Done) ==> final(self).stats.contradictions == capped_add(old(self).stats.contradictions, 1),
            flagged_from(*final(self), old(self).trail.elems().len() as int),
            flags_grow(old(self).clause_db, final(self).clause_db),
            shaped_from(*final(self), old(self).trail.elems().len() as int),
    {
        proof {
            self.lemma_extends_refl();
            self.lemma_inv_basic();
        }
        loop
            invariant
                self.inv(),
                self.sound(),
                self.extends(*old(self)),
                self.stats.propagations == capped_add(old(self).stats.propagations,
                    self.trail.elems().len() - old(self).trail.elems().len()),
                self.stats.contradictions == old(self).stats.contradictions,
                flagged_from(*self, old(self).trail.elems().len() as int),
                flags_grow(old(self).clause_db, self.clause_db),
                shaped_from(*self, old(self).trail.elems().len() as int),
            decreases old(self).n() - self.trail.elems().len(),
        {
            let ghost s0 = *self;
            let res = self.propagate_watches(Ghost(old(self).trail.elems().len() as int));
            proof {
                Solver::lemma_extends_trans(*old(self), s0, *self);
                assert forall|q: int| 0 <= q < s0.trail.elems().len() implies #[trigger] self.trail.elems()[q] == s0.trail.elems()[q] by {
                    assert(self.trail.elems().subrange(0, s0.trail.elems().len() as int)[q] == self.trail.elems()[q]);
                }
                Solver::lemma_flags_combine(s0, *self, old(self).trail.elems().len() as int);
                assert(flags_grow(old(self).clause_db, self.clause_db));
                self.lemma_inv_basic();
                self.trail.lemma_len_bound();
            }
            match res {
                PropagationResult::Contradiction(h) => {
                    return PropagationResult::Contradiction(h);
                },
                PropagationResult::Done => {},
            }
            match self.sweep() {
                Sweep::Settled => {
                    return PropagationResult::Done;
                },
                Sweep::Conflict(h) => {
                    let ghost s1 = *self;
                    if self.stats.contradictions < u64::MAX {
                        self.stats.contradictions = self.stats.contradictions + 1;
                    }
                    if self.stats.contradiction_since_last_garbage_collections < u64::MAX {
                        self.stats.contradiction_since_last_garbage_collections = self.stats.contradiction_since_last_garbage_collections + 1;
                    }
                    proof {
                        s1.lemma_inv_stats(self.stats);
                        Solver::lemma_extends_db(s1, *self);
                        Solver::lemma_extends_trans(*old(self), s1, *self);
                    }
                    return PropagationResult::Contradiction(h);
                },
                Sweep::Unit(h, k) => {
                    let ghost s1 = *self;
                    proof {
                        self.lemma_clause_lits(h);
                    }
                    let l = self.clause_db.lit(h, k);
                    proof {
                        self.lemma_lit_ok(l);
                    }
                    self.trail.assign_lit(l, TrailReason::Propagated { cls: h });
                    proof {
                        s1.lemma_inv_assign(self.trail, crate::trail::TrailElement { lit: l, reason: TrailReason::Propagated { cls: h } });
                        assert(*self == s1.with_trail(self.trail));
                        let just = s1.clause_db.clause(h.at()).lits;
                        lemma_sound_clause(s1.formula@, s1.clause_db, s1.trail, s1.trivially_unsat, h.at());
                        assert forall|j: int| 0 <= j < just.len() && #[trigger] Lit::from_code_spec(just[j]) != l implies
                            1 <= Lit::from_code_spec(just[j]).var_id() && s1.trail.holds(Lit::from_code_spec(just[j]))
                            && s1.trail.value(Lit::from_code_spec(just[j])) == Some(false) by {
                            assert(s1.code_ok(just[j]));
                            Lit::lemma_from_code_code(just[j]);
                            assert(j != k);
                        }
                        assert forall|p: int| 0 <= p < s1.trail.elems().len() implies #[trigger] self.trail.elems()[p] == s1.trail.elems()[p] by {}
                        lemma_sound_assign(s1.formula@, s1.clause_db, s1.trail, self.trail, s1.trivially_unsat, l, just);
                        Solver::lemma_extends_assign(s1, *self, l);
                    }
                    let ghost s2 = *self;
                    self.clause_db.set_is_reason(h, true);
                    proof {
                        s2.lemma_inv_basic();
                        s2.lemma_inv_same_clauses(self.clause_db);
                        assert(*self == s2.with_db(self.clause_db));
                        lemma_sound_similar(s2.formula@, s2.clause_db, self.clause_db, s2.trail, s2.trivially_unsat);
                        Solver::lemma_extends_db(s2, *self);
                        assert(flags_grow(s1.clause_db, self.clause_db));
                        assert forall|q: int| 0 <= q < s1.trail.elems().len() implies #[trigger] self.trail.elems()[q] == s1.trail.elems()[q] by {}
                        Solver::lemma_flags_assign(s1, *self, old(self).trail.elems().len() as int);
                        assert(flags_grow(old(self).clause_db, self.clause_db));
                    }
                    let ghost s4 = *self;
                    self.clause_db.swap_lits(h, 0, k);
                    proof {
                        s4.lemma_inv_basic();
                        lemma_swapped_contains(s4.clause_db.clause(h.at()), 0, k as int);
                        assert forall|s: int| #[trigger] s4.clause_db.handles().contains(s) implies
                            self.clause_db.clause(s).lits.len() == s4.clause_db.clause(s).lits.len()
                            && self.clause_db.clause(s).glue == s4.clause_db.clause(s).glue
                            && self.clause_db.clause(s).garbage() == s4.clause_db.clause(s).garbage()
                            && forall|x: u32| self.clause_db.clause(s).lits.contains(x) <==> s4.clause_db.clause(s).lits.contains(x) by {
                        }
                        s4.lemma_inv_similar_clauses(self.clause_db);
                        assert(*self == s4.with_db(self.clause_db));
                        lemma_sound_similar(s4.formula@, s4.clause_db, self.clause_db, s4.trail, s4.trivially_unsat);
                        Solver::lemma_extends_db(s4, *self);
                        Solver::lemma_extends_trans(s1, s4, *self);
                        assert(flags_grow(s4.clause_db, self.clause_db));
                        Solver::lemma_flags_step(s4, *self, old(self).trail.elems().len() as int);
                        let c1l = s1.clause_db.clause(h.at()).lits;
                        let nl = self.clause_db.clause(h.at()).lits;
                        assert(s4.clause_db.clause(h.at()).lits == c1l);
                        assert(nl == c1l.update(0, c1l[k as int]).update(k as int, c1l[0]));
                        assert(Lit::from_code_spec(nl[0]) == l);
                        assert(s1.trail.value(Lit::from_code_spec(c1l[0])) != Some(true)) by {
                            if k != 0 {
                                assert(s1.trail.value(Lit::from_code_spec(c1l[0])) == Some(false));
                            }
                        }
                        assert forall|j: int| 1 <= j < nl.len() implies s1.trail.holds(Lit::from_code_spec(nl[j]))
                            && #[trigger] s1.trail.value(Lit::from_code_spec(nl[j])) == Some(false) by {
                            assert(s1.code_ok(c1l[0]));
                            assert(s1.code_ok(c1l[j]));
                            Lit::lemma_from_code_code(c1l[j]);
                            Lit::lemma_from_code_code(c1l[0]);
                            if j == k as int {
                                assert(nl[j] == c1l[0]);
                            } else {
                                assert(nl[j] == c1l[j]);
                            }
                        }
                        assert forall|s: int| #[trigger] s1.clause_db.handles().contains(s) && s != h.at() implies
                            self.clause_db.clause(s).lits == s1.clause_db.clause(s).lits by {
                            assert(s4.clause_db.clause(s).lits == s1.clause_db.clause(s).lits);
                        }
                        assert forall|v: int| 0 <= v < s1.trail.assign().len() && #[trigger] s1.trail.assign()[v].is_some()
                            implies self.trail.assign()[v] == s1.trail.assign()[v] by {}
                        assert forall|q: int| 0 <= q < s1.trail.elems().len() implies #[trigger] self.trail.elems()[q] == s1.trail.elems()[q] by {}
                        Solver::lemma_shape_unit(s1, *self, old(self).trail.elems().len() as int, h.at(), l);
                    }
                    let ghost s3 = *self;
                    if self.stats.propagations < u64::MAX {
                        self.stats.propagations = self.stats.propagations + 1;
                    }
                    proof {
                        s3.lemma_inv_stats(self.stats);
                        Solver::lemma_extends_db(s3, *self);
                        Solver::lemma_extends_trans(s1, s2, s3);
                        Solver::lemma_extends_trans(s1, s3, *self);
                        Solver::lemma_extends_trans(*old(self), s1, *self);
                        assert(self.trail.elems().len() == s1.trail.elems().len() + 1);
                        assert(s1.trail.elems().len() >= s0.trail.elems().len());
                        self.lemma_inv_basic();
                        self.trail.lemma_len_bound();
                    }
                },
            }
        }
    }

    /// reported as a conflict.
    fn propagate_watches(&mut self, n0: Ghost<int>) -> (r: PropagationResult)
        requires
            old(self).inv(),
            old(self).sound(),
            shaped_from(*old(self), n0@),
            0 <= n0@,
        ensures
            final(self).inv(),
            final(self).sound(),
            final(self).extends(*old(self)),
            r matches PropagationResult::Contradiction(h) ==> final(self).clause_db.valid(h)
                && clause_false(final(self).clause_db, final(self).trail, h.at()),
            r is Done ==> final(self).unpropagated_lit_pos == final(self).trail.elems().len(),
            final(self).stats.propagations == capped_add(old(self).stats.propagations,
                final(self).trail.elems().len() - old(self).trail.elems().len()),
            (r is Done) ==> final(self).stats.contradictions == old(self).stats.contradictions,
            !(r is Done) ==> final(self).stats.contradictions == capped_add(old(self).stats.contradictions, 1),
            flagged_from(*final(self), old(self).trail.elems().len() as int),
            flags_grow(old(self).clause_db, final(self).clause_db),
            shaped_from(*final(self), n0@),
    {
        proof {
            self.lemma_extends_refl();
            self.lemma_inv_basic();
        }
        let mut trail_pos = self.unpropagated_lit_pos;
        while trail_pos < self.trail.assigned_vars()
            invariant
                self.inv(),
                self.sound(),
                self.extends(*old(self)),
                trail_pos <= self.trail.elems().len(),
                self.stats.propagations == capped_add(old(self).stats.propagations,
                    self.trail.elems().len() - old(self).trail.elems().len()),
                self.stats.contradictions == old(self).stats.contradictions,
                flagged_from(*self, old(self).trail.elems().len() as int),
                flags_grow(old(self).clause_db, self.clause_db),
                shaped_from(*self, n0@),
                0 <= n0@,
            decreases old(self).n() - trail_pos,
        {
            proof {
                self.lemma_inv_basic();
                self.trail.lemma_len_bound();
                self.trail.lemma_elem(trail_pos as int);
            }
            let lit = self.trail.trail()[trail_pos].lit;
            let ghost before = *self;
            let res = self.propagate_lit(lit, n0);
            proof {
                Solver::lemma_extends_trans(*old(self), before, *self);
                assert(before.trail.elems().len() >= old(self).trail.elems().len());
                assert forall|q: int| 0 <= q < before.trail.elems().len() implies #[trigger] self.trail.elems()[q] == before.trail.elems()[q] by {
                    assert(self.trail.elems().subrange(0, before.trail.elems().len() as int)[q] == self.trail.elems()[q]);
                }
                Solver::lemma_flags_combine(before, *self, old(self).trail.elems().len() as int);
                assert(flags_grow(old(self).clause_db, self.clause_db));
            }
            match res {
                Some(h) => {
                    return PropagationResult::Contradiction(h);
                },
                None => {},
            }
            trail_pos = trail_pos + 1;
        }
        let ghost before = *self;
        self.unpropagated_lit_pos = trail_pos;
        proof {
            reveal(Solver::inv);
            assert forall|k: int| #![trigger self.formula@[k]] 0 <= k < self.formula@.len() implies self.input_ok(k) by {
                assert(before.input_ok(k));
            }
        }
        PropagationResult::Done
    }

    /// Checks every clause of the arena; returns the first that is not settled.
    fn sweep(&self) -> (r: Sweep)
        requires
            self.inv(),
        ensures
            r is Settled ==> forall|s: int| #[trigger] self.clause_db.handles().contains(s) ==> settled(self.clause_db, self.trail, s),
            r matches Sweep::Conflict(h) ==> self.clause_db.valid(h) && clause_false(self.clause_db, self.trail, h.at()),
            r matches Sweep::Unit(h, k) ==> self.clause_db.valid(h) && k < self.clause_db.clause(h.at()).lits.len()
                && self.trail.value(Lit::from_code_spec(self.clause_db.clause(h.at()).lits[k as int])).is_none()
                && forall|j: int| 0 <= j < self.clause_db.clause(h.at()).lits.len() && j != k ==>
                    #[trigger] self.trail.value(Lit::from_code_spec(self.clause_db.clause(h.at()).lits[j])) == Some(false),
    {
        proof {
            self.lemma_inv_basic();
        }
        let hs = self.clause_db.iter();
        let mut i: usize = 0;
        while i < hs.len()
            invariant
                self.inv(),
                self.clause_db.wf(),
                self.trail.wf(),
                self.watches@.len() == 2 * self.n(),
                hs@.len() == self.clause_db.handles().len(),
                forall|k: int| 0 <= k < hs@.len() ==> #[trigger] hs@[k].at() == self.clause_db.handles()[k],
                i <= hs@.len(),
                forall|k: int| 0 <= k < i ==> settled(self.clause_db, self.trail, #[trigger] self.clause_db.handles()[k]),
            decreases hs@.len() - i,
        {
            let h = hs[i];
            proof {
                assert(self.clause_db.handles()[i as int] == h.at());
                self.lemma_clause_lits(h);
            }
            let len = self.clause_db.clause_len(h);
            let ghost cl = self.clause_db.clause(h.at()).lits;
            let mut sat = false;
            let mut nonfalse: usize = 0;
            let mut idx: usize = 0;
            let ghost mut first: int = 0;
            let mut j: usize = 0;
            while j < len && !sat && nonfalse < 2
                invariant
                    self.inv(),
                    self.clause_db.wf(),
                    self.trail.wf(),
                    self.watches@.len() == 2 * self.n(),
                    self.clause_db.valid(h),
                    cl == self.clause_db.clause(h.at()).lits,
                    len == cl.len(),
                    forall|q: int| 0 <= q < len ==> self.code_ok(#[trigger] cl[q]),
                    j <= len,
                    nonfalse <= 2,
                    sat ==> exists|q: int| 0 <= q < j && #[trigger] self.trail.value(Lit::from_code_spec(cl[q])) == Some(true),
                    !sat ==> forall|q: int| 0 <= q < j && q != idx && q != first ==> #[trigger] self.trail.value(Lit::from_code_spec(cl[q])) == Some(false),
                    !sat && nonfalse == 0 ==> forall|q: int| 0 <= q < j ==> #[trigger] self.trail.value(Lit::from_code_spec(cl[q])) == Some(false),
                    nonfalse >= 1 ==> idx < j && self.trail.value(Lit::from_code_spec(cl[idx as int])) != Some(false),
                    !sat && nonfalse == 1 ==> first == idx,
                    !sat && nonfalse == 1 ==> self.trail.value(Lit::from_code_spec(cl[idx as int])).is_none(),
                    nonfalse == 2 ==> 0 <= first < idx && self.trail.value(Lit::from_code_spec(cl[first])) != Some(false),
                decreases len - j,
            {
                let l = self.clause_db.lit(h, j);
                proof {
                    self.lemma_lit_ok(l);
                }
                if self.trail.is_lit_satisfied(l) {
                    sat = true;
                } else if !self.trail.is_lit_unsatisfied(l) {
                    if nonfalse == 0 {
                        proof {
                            first = j as int;
                        }
                    }
                    nonfalse = nonfalse + 1;
                    idx = j;
                }
                j = j + 1;
            }
            if sat || nonfalse >= 2 {
                proof {
                    if !sat {
                        assert(self.trail.value(Lit::from_code_spec(cl[first])) != Some(false));
                        assert(self.trail.value(Lit::from_code_spec(cl[idx as int])) != Some(false));
                    }
                }
                i = i + 1;
            } else if nonfalse == 0 {
                return Sweep::Conflict(h);
            } else {
                return Sweep::Unit(h, idx);
            }
        }
        proof {
            assert forall|s: int| #[trigger] self.clause_db.handles().contains(s) implies settled(self.clause_db, self.trail, s) by {
                let k = choose|k: int| 0 <= k < self.clause_db.handles().len() && self.clause_db.handles()[k] == s;
            }
        }
        Sweep::Settled
    }

    /// Visits the clauses watching the negation of `lit`, which is true. Returns a clause
    /// whose literals are all false, if one is met.
    fn propagate_lit(&mut self, lit: Lit, n0: Ghost<int>) -> (r: Option<ClauseIdx>)
        requires
            old(self).inv(),
            old(self).sound(),
            shaped_from(*old(self), n0@),
            0 <= n0@,
            old(self).trail.holds(lit),
            old(self).trail.value(lit) == Some(true),
        ensures
            final(self).inv(),
            final(self).sound(),
            final(self).extends(*old(self)),
            r matches Some(h) ==> final(self).clause_db.valid(h)
                && clause_false(final(self).clause_db, final(self).trail, h.at()),
            final(self).stats.propagations == capped_add(old(self).stats.propagations,
                final(self).trail.elems().len() - old(self).trail.elems().len()),
            (r is None) ==> final(self).stats.contradictions == old(self).stats.contradictions,
            !(r is None) ==> final(self).stats.contradictions == capped_add(old(self).stats.contradictions, 1),
            flagged_from(*final(self), old(self).trail.elems().len() as int),
            flags_grow(old(self).clause_db, final(self).clause_db),
            shaped_from(*final(self), n0@),
    {
        proof {
            self.lemma_extends_refl();
            self.lemma_inv_basic();
        }
        let neg = lit.neg();
        proof {
            assert(self.trail.num_vars() >= 1);
            assert(lit.var_id() <= self.n());
            assert(neg.code() == 2 * neg.var_id() + if neg.positive() { 0int } else { 1 });
            assert(self.watches.holds(neg));
        }
        let ws = self.watches.replace(neg, Vec::new());
        proof {
            let w0 = old(self).watches;
            assert forall|i: int, j: int| #![trigger self.watches@[i]@[j]] 0 <= i < self.watches@.len() && 0 <= j < self.watches@[i]@.len()
                implies old(self).clause_db.valid(self.watches@[i]@[j].clause) by {
                assert(self.watches@.len() == old(self).watches@.len());
                if i != lit_slot(neg) {
                    assert(self.watches@[i] == old(self).watches@[i]);
                    old(self).lemma_watch_valid(i, j);
                }
            }
            assert forall|j: int| 0 <= j < ws@.len() implies old(self).clause_db.valid(#[trigger] ws@[j].clause) by {
                old(self).lemma_watch_valid(lit_slot(neg), j);
            }
            old(self).lemma_inv_watches(self.watches);
            assert(*self == old(self).with_watches(self.watches));
        }
        let mut kept: Vec<Watch> = Vec::new();
        let mut conflict: Option<ClauseIdx> = None;
        let mut j: usize = 0;
        while j < ws.len()
            invariant
                self.inv(),
                self.sound(),
                self.extends(*old(self)),
                self.stats.propagations == capped_add(old(self).stats.propagations,
                    self.trail.elems().len() - old(self).trail.elems().len()),
                conflict is None ==> self.stats.contradictions == old(self).stats.contradictions,
                conflict is Some ==> self.stats.contradictions == capped_add(old(self).stats.contradictions, 1),
                flagged_from(*self, old(self).trail.elems().len() as int),
                flags_grow(old(self).clause_db, self.clause_db),
                shaped_from(*self, n0@),
                0 <= n0@,
                self.trail.holds(neg),
                self.trail.value(neg) == Some(false),
                self.watches.holds(neg),
                forall|i: int| 0 <= i < ws@.len() ==> self.clause_db.valid(#[trigger] ws@[i].clause),
                forall|i: int| 0 <= i < kept@.len() ==> self.clause_db.valid(#[trigger] kept@[i].clause),
                conflict matches Some(h) ==> self.clause_db.valid(h) && clause_false(self.clause_db, self.trail, h.at()),
                j <= ws@.len(),
            decreases ws@.len() - j,
        {
            let w = ws[j];
            j = j + 1;
            if conflict.is_some() {
                kept.push(w);
                continue;
            }
            let ghost start = *self;
            let h = w.clause;
            proof {
                self.lemma_clause_lits(h);
                self.lemma_inv_basic();
            }
            let c0 = self.clause_db.lit(h, 0);
            let c1 = self.clause_db.lit(h, 1);
            let lit_idx: usize = if c0 == neg { 0 } else { 1 };
            let watched = if lit_idx == 0 { c0 } else { c1 };
            if watched != neg {
                kept.push(w);
                continue;
            }
            let other_idx: usize = 1 - lit_idx;
            let other = if lit_idx == 0 { c1 } else { c0 };
            proof {
                self.lemma_lit_ok(other);
            }
            if self.trail.is_lit_satisfied(other) {
                kept.push(w);
                continue;
            }
            let len = self.clause_db.clause_len(h);
            let mut k: usize = 2;
            while k < len && self.trail.is_lit_unsatisfied(self.clause_db.lit(h, k))
                invariant
                    *self == start,
                    self.inv(),
                    self.clause_db.wf(),
                    self.trail.wf(),
                    self.clause_db.valid(h),
                    len == self.clause_db.clause(h.at()).lits.len(),
                    2 <= k <= len,
                    forall|i: int| 2 <= i < k ==> #[trigger] self.trail.value(Lit::from_code_spec(self.clause_db.clause(h.at()).lits[i])) == Some(false),
                    forall|i: int| 0 <= i < len ==> self.code_ok(#[trigger] self.clause_db.clause(h.at()).lits[i]),
                decreases len - k,
            {
                k = k + 1;
            }
            if k < len {
                let cand = self.clause_db.lit(h, k);
                proof {
                    self.lemma_lit_ok(cand);
                }
                let ghost s1 = *self;
                self.watches.push_at(cand, w);
                proof {
                    s1.lemma_inv_basic();
                    assert forall|a: int, b: int| #![trigger self.watches@[a]@[b]] 0 <= a < self.watches@.len() && 0 <= b < self.watches@[a]@.len()
                        implies s1.clause_db.valid(self.watches@[a]@[b].clause) by {
                        if a == lit_slot(cand) && b == self.watches@[a]@.len() - 1 {
                        } else {
                            s1.lemma_watch_valid(a, b);
                        }
                    }
                    s1.lemma_inv_watches(self.watches);
                    assert(*self == s1.with_watches(self.watches));
                }
                let ghost s2 = *self;
                self.clause_db.swap_lits(h, lit_idx, k);
                proof {
                    s2.lemma_inv_basic();
                    lemma_swapped_contains(s2.clause_db.clause(h.at()), lit_idx as int, k as int);
                    assert forall|s: int| #[trigger] s2.clause_db.handles().contains(s) implies
                        self.clause_db.clause(s).lits.len() == s2.clause_db.clause(s).lits.len()
                        && self.clause_db.clause(s).glue == s2.clause_db.clause(s).glue
                        && self.clause_db.clause(s).garbage() == s2.clause_db.clause(s).garbage()
                        && forall|x: u32| self.clause_db.clause(s).lits.contains(x) <==> s2.clause_db.clause(s).lits.contains(x) by {
                    }
                    s2.lemma_inv_similar_clauses(self.clause_db);
                    assert(*self == s2.with_db(self.clause_db));
                    lemma_sound_similar(s2.formula@, s2.clause_db, self.clause_db, s2.trail, s2.trivially_unsat);
                    assert(flags_grow(s2.clause_db, self.clause_db));
                    Solver::lemma_flags_step(s2, *self, old(self).trail.elems().len() as int);
                    assert(flags_grow(old(self).clause_db, self.clause_db));
                    assert(s2.clause_db == start.clause_db);
                    assert(Lit::from_code_spec(s2.clause_db.clause(h.at()).lits[0]) == c0);
                    assert(s2.trail.value(c0) != Some(true));
                    Solver::lemma_shape_other(s2, *self, n0@, h.at());
                    Solver::lemma_extends_db(start, s2);
                    Solver::lemma_extends_db(s2, *self);
                    Solver::lemma_extends_trans(start, s2, *self);
                    Solver::lemma_extends_trans(*old(self), start, *self);
                }
            } else if self.trail.is_lit_unassigned(other) {
                let ghost s1 = *self;
                self.trail.assign_lit(other, TrailReason::Propagated { cls: h });
                proof {
                    s1.lemma_inv_basic();
                    let just = s1.clause_db.clause(h.at()).lits;
                    lemma_sound_clause(s1.formula@, s1.clause_db, s1.trail, s1.trivially_unsat, h.at());
                    assert(Lit::from_code_spec(just[other_idx as int]) == other);
                    assert forall|j: int| 0 <= j < just.len() && #[trigger] Lit::from_code_spec(just[j]) != other implies
                        1 <= Lit::from_code_spec(just[j]).var_id() && s1.trail.holds(Lit::from_code_spec(just[j]))
                        && s1.trail.value(Lit::from_code_spec(just[j])) == Some(false) by {
                        assert(s1.code_ok(just[j]));
                        Lit::lemma_from_code_code(just[j]);
                        if j == lit_idx as int {
                            assert(Lit::from_code_spec(just[j]) == neg);
                        }
                    }
                    lemma_sound_assign(s1.formula@, s1.clause_db, s1.trail, self.trail, s1.trivially_unsat, other, just);
                    s1.lemma_inv_assign(self.trail, crate::trail::TrailElement { lit: other, reason: TrailReason::Propagated { cls: h } });
                    assert(*self == s1.with_trail(self.trail));
                }
                let ghost s2 = *self;
                self.clause_db.set_is_reason(h, true);
                proof {
                    s2.lemma_inv_basic();
                    s2.lemma_inv_same_clauses(self.clause_db);
                    assert(*self == s2.with_db(self.clause_db));
                    lemma_sound_similar(s2.formula@, s2.clause_db, self.clause_db, s2.trail, s2.trivially_unsat);
                }
                let ghost s3 = *self;
                self.clause_db.swap_lits(h, 0, other_idx);
                proof {
                    s3.lemma_inv_basic();
                    lemma_swapped_contains(s3.clause_db.clause(h.at()), 0, other_idx as int);
                    s3.lemma_inv_similar_clauses(self.clause_db);
                    assert(*self == s3.with_db(self.clause_db));
                    lemma_sound_similar(s3.formula@, s3.clause_db, self.clause_db, s3.trail, s3.trivially_unsat);
                    assert(flags_grow(s1.clause_db, s3.clause_db));
                    assert forall|q: int| 0 <= q < s1.trail.elems().len() implies #[trigger] s3.trail.elems()[q] == s1.trail.elems()[q] by {}
                    Solver::lemma_flags_assign(s1, s3, old(self).trail.elems().len() as int);
                    assert(flags_grow(s3.clause_db, self.clause_db));
                    Solver::lemma_flags_step(s3, *self, old(self).trail.elems().len() as int);
                    assert(flags_grow(old(self).clause_db, self.clause_db));
                    let c1l = s1.clause_db.clause(h.at()).lits;
                    assert(Lit::from_code_spec(c1l[0]) == c0);
                    assert(s1.trail.value(c0) != Some(true));
                    assert(s3.clause_db.clause(h.at()).lits == c1l);
                    let nl = self.clause_db.clause(h.at()).lits;
                    assert(nl == c1l.update(0, c1l[other_idx as int]).update(other_idx as int, c1l[0]));
                    assert(Lit::from_code_spec(nl[0]) == other);
                    assert forall|j: int| 1 <= j < nl.len() implies s1.trail.holds(Lit::from_code_spec(nl[j]))
                        && #[trigger] s1.trail.value(Lit::from_code_spec(nl[j])) == Some(false) by {
                        assert(s1.code_ok(c1l[0]));
                        assert(s1.code_ok(c1l[j]));
                        Lit::lemma_from_code_code(c1l[j]);
                        Lit::lemma_from_code_code(c1l[0]);
                        if j == other_idx as int {
                            assert(nl[j] == c1l[0]);
                            assert(Lit::from_code_spec(c1l[0]) == neg);
                        } else if j == lit_idx as int {
                            assert(nl[j] == c1l[j]);
                            assert(Lit::from_code_spec(c1l[j]) == neg);
                        } else {
                            assert(nl[j] == c1l[j]);
                        }
                    }
                    assert forall|s: int| #[trigger] s1.clause_db.handles().contains(s) && s != h.at() implies
                        self.clause_db.clause(s).lits == s1.clause_db.clause(s).lits by {
                        assert(s3.clause_db.clause(s).lits == s1.clause_db.clause(s).lits);
                    }
                    assert forall|v: int| 0 <= v < s1.trail.assign().len() && #[trigger] s1.trail.assign()[v].is_some()
                        implies self.trail.assign()[v] == s1.trail.assign()[v] by {}
                    assert forall|q: int| 0 <= q < s1.trail.elems().len() implies #[trigger] self.trail.elems()[q] == s1.trail.elems()[q] by {}
                    Solver::lemma_shape_unit(s1, *self, n0@, h.at(), other);
                    Solver::lemma_extends_assign(s1, s2, other);
                    assert forall|s: int| #[trigger] s2.clause_db.handles().contains(s) implies
                        s3.clause_db.clause(s).lits.len() == s2.clause_db.clause(s).lits.len()
                        && s3.clause_db.clause(s).glue == s2.clause_db.clause(s).glue
                        && s3.clause_db.clause(s).garbage() == s2.clause_db.clause(s).garbage()
                        && forall|x: u32| s3.clause_db.clause(s).lits.contains(x) <==> s2.clause_db.clause(s).lits.contains(x) by {
                    }
                    Solver::lemma_extends_db(s2, s3);
                    Solver::lemma_extends_db(s3, *self);
                    Solver::lemma_extends_trans(s1, s2, s3);
                    Solver::lemma_extends_trans(s1, s3, *self);
                }
                let ghost s5 = *self;
                if self.stats.propagations < u64::MAX {
                    self.stats.propagations = self.stats.propagations + 1;
                }
                proof {
                    s5.lemma_inv_stats(self.stats);
                    Solver::lemma_extends_db(s5, *self);
                    Solver::lemma_extends_trans(start, s5, *self);
                    Solver::lemma_extends_trans(*old(self), start, *self);
                }
                kept.push(w);
            } else {
                proof {
                    let cv = self.clause_db.clause(h.at());
                    assert forall|i: int| 0 <= i < cv.lits.len() implies #[trigger] self.trail.value(Lit::from_code_spec(cv.lits[i])) == Some(false) by {
                        if i == lit_idx as int {
                            Lit::lemma_from_code_spec(neg);
                        } else if i == other_idx as int {
                            Lit::lemma_from_code_spec(other);
                        }
                    }
                }
                conflict = Some(h);
                let ghost s5 = *self;
                if self.stats.contradictions < u64::MAX {
                    self.stats.contradictions = self.stats.contradictions + 1;
                }
                if self.stats.contradiction_since_last_garbage_collections < u64::MAX {
                    self.stats.contradiction_since_last_garbage_collections = self.stats.contradiction_since_last_garbage_collections + 1;
                }
                proof {
                    s5.lemma_inv_stats(self.stats);
                    Solver::lemma_extends_db(s5, *self);
                    Solver::lemma_extends_trans(start, s5, *self);
                    Solver::lemma_extends_trans(*old(self), start, *self);
                }
                kept.push(w);
            }
        }
        let ghost s4 = *self;
        self.watches.set(neg, kept);
        proof {
            s4.lemma_inv_basic();
            assert forall|a: int, b: int| #![trigger self.watches@[a]@[b]] 0 <= a < self.watches@.len() && 0 <= b < self.watches@[a]@.len()
                implies s4.clause_db.valid(self.watches@[a]@[b].clause) by {
                if a != lit_slot(neg) {
                    s4.lemma_watch_valid(a, b);
                }
            }
            s4.lemma_inv_watches(self.watches);
            assert(*self == s4.with_watches(self.watches));
            Solver::lemma_extends_db(s4, *self);
            Solver::lemma_extends_trans(*old(self), s4, *self);
        }
        conflict
    }
}

} // verus!
