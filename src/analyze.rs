//! Conflict analysis: learning the first-UIP clause and backjumping.
use vstd::prelude::*;

use crate::assignment::TrailReason;
use crate::clause::{ClauseDB, ClauseIdx};
use crate::lit::{Lit, Var};
use crate::litvec::lit_slot;
use crate::solver::{AnalyzeState, Solver, Watch};
use crate::propagate::clause_false;
use crate::sound::{
    codes_false, codes_set, decisions_clause, implies_codes, implies_set, lemma_codes_set, lemma_conflict_decisions,
    lemma_conflict_level_zero, lemma_resolve, lemma_sound_assign, lemma_sound_clause, lemma_sound_insert, lemma_sound_similar,
    models, neg_code, sat_codes, sat_lit,
};
use crate::trail::Trail;
use crate::varvec::VarVec;

verus! {

/// The outcome of conflict analysis.
#[derive(Clone, Copy, PartialEq, Eq, Structural, Debug)]
pub enum AnalyzeResult {
    /// The conflict holds at decision level zero: the formula is unsatisfiable.
    Unsat,
    /// A clause was learned and the search backjumped.
    Done,
}

/// The literals of `db` are over the variables of `t`, and the reasons on `t` are clauses of `db`.
pub open spec fn fits(db: ClauseDB, t: Trail) -> bool {
    &&& db.wf()
    &&& t.wf()
    &&& forall|s: int, j: int| #![trigger db.clause(s).lits[j]]
        db.handles().contains(s) && 0 <= j < db.clause(s).lits.len() ==> db.clause(s).lits[j] / 2 <= t.num_vars()
    &&& forall|p: int| #![trigger t.elems()[p]]
        0 <= p < t.elems().len() && t.elems()[p].reason is Propagated ==> db.valid(t.elems()[p].reason->cls)
}

/// `t` is `s` cut before position `c`, followed by a level lower than the one at `c`.
pub open spec fn backjumped(s: Seq<int>, t: Seq<int>) -> bool {
    exists|c: int, x: int| 0 <= c < s.len() && 0 <= x < s[c] && t == s.subrange(0, c).push(x)
}

/// The clause with codes `c`, learned from a conflict on trail `t` and asserting `l` at
/// level `lvl`: `l` comes first, and every other literal was false on `t` at `lvl` or below.
pub open spec fn asserting(t: Trail, c: Seq<u32>, l: Lit, lvl: int) -> bool {
    &&& c.len() >= 2
    &&& Lit::from_code_spec(c[0]) == l
    &&& forall|j: int| 1 <= j < c.len() ==> t.holds(#[trigger] Lit::from_code_spec(c[j]))
        && t.value(Lit::from_code_spec(c[j])) == Some(false) && t.level_of(Lit::from_code_spec(c[j])) <= lvl
}

/// The literal codes of the clause `c`.
pub open spec fn lits_codes(c: Seq<Lit>) -> Seq<u32> {
    Seq::new(c.len(), |k: int| c[k].code() as u32)
}

/// The learned clause `c`, before the backjump to level `lvl`: all its literals are
/// false, the first one alone at the conflict level, the others at `lvl` or below.
pub open spec fn learned_ok(t: Trail, c: Seq<Lit>, lvl: int) -> bool {
    &&& c.len() >= 1
    &&& lvl < t.level()
    &&& t.holds(c[0]) && t.value(c[0]) == Some(false) && t.level_of(c[0]) == t.level()
    &&& forall|k: int| 1 <= k < c.len() ==> t.holds(#[trigger] c[k]) && t.value(c[k]) == Some(false) && t.level_of(c[k]) <= lvl
}

impl AnalyzeState {
    /// The literals gathered so far for the learned clause are false, below the conflict
    /// level `cur`, over distinct variables, all marked as seen.
    pub(crate) open spec fn ok(&self, t: Trail, cur: int) -> bool {
        &&& self.seen@.len() == t.num_vars() + 1
        &&& self.resolved@.len() == t.num_vars() + 1
        &&& self.levels_seen@.len() == cur + 1
        &&& forall|v: int| #![trigger self.seen@[v]] 1 <= v <= t.num_vars() && self.seen@[v] && t.assign()[v].is_some()
            && t.assign()[v].unwrap().decision_level < cur ==> exists|i: int| 0 <= i < self.new_clause@.len()
            && #[trigger] self.new_clause@[i].var_id() == v
        &&& forall|i: int| #![trigger self.new_clause@[i]] 0 <= i < self.new_clause@.len() ==> {
            let l = self.new_clause@[i];
            &&& 1 <= l.var_id() <= t.num_vars()
            &&& t.holds(l)
            &&& t.value(l) == Some(false)
            &&& t.level_of(l) < cur
            &&& self.seen@[l.var_id() as int]
        }
        &&& forall|i: int, j: int| 0 <= i < j < self.new_clause@.len()
            ==> #[trigger] self.new_clause@[i].var_id() != #[trigger] self.new_clause@[j].var_id()
        &&& self.levels_in_clause@.len() <= self.new_clause@.len() + if self.levels_seen@[cur] { 1int } else { 0 }
        &&& forall|k: int| 0 <= k < self.levels_in_clause@.len() ==> #[trigger] self.levels_in_clause@[k] <= cur
    }

    /// Clears the state for a conflict at level `cur` with `n` variables.
    fn reset(&mut self, n: usize, cur: u32)
        requires
            1 <= n <= crate::lit::MAX_VAR,
            cur <= n,
        ensures
            final(self).seen@.len() == n + 1,
            forall|v: int| 0 <= v <= n ==> !#[trigger] final(self).seen@[v],
            final(self).resolved@.len() == n + 1,
            forall|v: int| 0 <= v <= n ==> !#[trigger] final(self).resolved@[v],
            final(self).levels_seen@.len() == cur + 1,
            forall|l: int| 0 <= l <= cur ==> !#[trigger] final(self).levels_seen@[l],
            final(self).new_clause@.len() == 0,
            final(self).levels_in_clause@.len() == 0,
            final(self).open == 0,
    {
        let mut seen: VarVec<bool> = VarVec::new();
        seen.expand(Var::from_id(n as u32), false);
        self.seen = seen;
        let mut resolved: VarVec<bool> = VarVec::new();
        resolved.expand(Var::from_id(n as u32), false);
        self.resolved = resolved;
        let mut levels: Vec<bool> = Vec::new();
        let total: usize = cur as usize + 1;
        while levels.len() < total
            invariant
                total == cur + 1,
                levels@.len() <= total,
                forall|l: int| 0 <= l < levels@.len() ==> !#[trigger] levels@[l],
            decreases total - levels@.len(),
        {
            levels.push(false);
        }
        self.levels_seen = levels;
        self.new_clause = Vec::new();
        self.levels_in_clause = Vec::new();
        self.open = 0;
    }

    /// Takes literal `m` of a reason clause into account: a false literal below the
    /// conflict level joins the learned clause, one at the conflict level is left open.
    /// Returns `false` if `m` is not false, which a correct trail rules out.
    fn analyze_literal(&mut self, m: Lit, t: &Trail, cur: u32) -> (r: bool)
        requires
            old(self).ok(*t, cur as int),
            t.wf(),
            t.level() == cur,
            1 <= m.var_id() <= t.num_vars(),
        ensures
            r ==> final(self).ok(*t, cur as int) && final(self).seen@[m.var_id() as int],
            r ==> forall|v: int| 0 <= v < old(self).seen@.len() && #[trigger] old(self).seen@[v] ==> final(self).seen@[v],
            r ==> final(self).resolved == old(self).resolved,
            r ==> final(self).new_clause@ == old(self).new_clause@ || final(self).new_clause@ == old(self).new_clause@.push(m),
            r ==> t.holds(m) && t.value(m) == Some(false) && !final(self).resolved@[m.var_id() as int]
                && (t.level_of(m) < cur ==> final(self).new_clause@.contains(m))
                && (t.level_of(m) >= cur ==> t.level_of(m) == cur),
            r == (t.holds(m) && t.value(m) == Some(false) && t.level_of(m) <= cur && !old(self).resolved@[m.var_id() as int]
                && (old(self).seen@[m.var_id() as int] || t.level_of(m) < cur || old(self).open < u32::MAX)),
            !old(self).seen@[m.var_id() as int] && r ==> {
                &&& (t.level_of(m) < cur ==> final(self).new_clause@ == old(self).new_clause@.push(m) && final(self).open == old(self).open)
                &&& (t.level_of(m) == cur ==> final(self).new_clause@ == old(self).new_clause@ && final(self).open == old(self).open + 1)
            },
            old(self).seen@[m.var_id() as int] && r ==> final(self).new_clause@ == old(self).new_clause@ && final(self).open == old(self).open,
    {
        let v = m.var();
        if *self.resolved.get(v) {
            return false;
        }
        if !t.is_lit_unsatisfied(m) {
            return false;
        }
        let lvl = match t.get_decision_level(m) {
            Some(l) => l,
            None => {
                return false;
            },
        };
        if lvl > cur {
            return false;
        }
        if *self.seen.get(v) {
            proof {
                if t.level_of(m) < cur {
                    let i = choose|i: int| 0 <= i < self.new_clause@.len() && #[trigger] self.new_clause@[i].var_id() == m.var_id();
                    let l = self.new_clause@[i];
                    assert(t.value(l) == Some(false));
                    assert(l.positive() == m.positive());
                    l.lemma_code_injective(m);
                    assert(l.code() == 2 * l.var_id() + if l.positive() { 0int } else { 1 });
                    assert(m.code() == 2 * m.var_id() + if m.positive() { 0int } else { 1 });
                    assert(self.new_clause@.contains(m));
                }
            }
            return true;
        }
        let ghost nc0 = self.new_clause@;
        if lvl < cur {
            self.new_clause.push(m);
        } else {
            if self.open == u32::MAX {
                return false;
            }
            self.open = self.open + 1;
        }
        if !self.levels_seen[lvl as usize] {
            self.levels_seen.set(lvl as usize, true);
            self.levels_in_clause.push(lvl);
        }
        self.seen.set(v, true);
        proof {
            let nc = self.new_clause@;
            assert forall|i: int| #![trigger nc[i]] 0 <= i < nc.len() implies {
                let l = nc[i];
                &&& 1 <= l.var_id() <= t.num_vars()
                &&& t.holds(l)
                &&& t.value(l) == Some(false)
                &&& t.level_of(l) < cur
                &&& self.seen@[l.var_id() as int]
            } by {
                if i < nc0.len() {
                    assert(nc[i] == nc0[i]);
                    assert(old(self).new_clause@[i] == nc0[i]);
                }
            }
            assert forall|i: int, j: int| 0 <= i < j < nc.len() implies #[trigger] nc[i].var_id() != #[trigger] nc[j].var_id() by {
                assert(old(self).new_clause@ == nc0);
                if j == nc0.len() {
                    assert(old(self).seen@[nc0[i].var_id() as int]);
                } else {
                    assert(nc[i] == nc0[i] && nc[j] == nc0[j]);
                }
            }
            assert forall|w: int| #![trigger self.seen@[w]] 1 <= w <= t.num_vars() && self.seen@[w] && t.assign()[w].is_some()
                && t.assign()[w].unwrap().decision_level < cur implies exists|i: int| 0 <= i < nc.len()
                && #[trigger] nc[i].var_id() == w by {
                if w == m.var_id() {
                    assert(nc[nc.len() - 1] == m);
                } else {
                    assert(old(self).seen@[w]);
                    let i = choose|i: int| 0 <= i < nc0.len() && #[trigger] nc0[i].var_id() == w;
                    assert(nc[i] == nc0[i]);
                }
            }
            if lvl < cur {
                assert(nc[nc.len() - 1] == m);
                assert(nc.contains(m));
            }
        }
        true
    }

    /// The literals of `w` are false and gathered: those below the conflict level `cur`
    /// are in the learned clause, those at `cur` are seen and not yet resolved.
    pub(crate) open spec fn covers(&self, t: Trail, cur: int, w: Set<Lit>) -> bool {
        forall|l: Lit| #[trigger] w.contains(l) ==> t.holds(l) && 1 <= l.var_id() && t.value(l) == Some(false)
            && ((t.level_of(l) < cur && self.new_clause@.contains(l))
                || (t.level_of(l) == cur && self.seen@[l.var_id() as int] && !self.resolved@[l.var_id() as int]))
    }

    /// Learns the first-UIP clause of the conflict on clause `conflict` at level `cur`:
    /// gathers in `new_clause` the literals below `cur` and returns the UIP with its
    /// trail position. The clause of the negated UIP and the gathered literals follows
    /// from the formula `f`, by resolution of the conflict clause with reason clauses.
    /// Returns `None` if the trail contradicts what analysis relies on.
    fn learn(&mut self, t: &Trail, db: &ClauseDB, conflict: ClauseIdx, cur: u32, f: Ghost<Seq<Seq<Lit>>>) -> (r: Option<(Lit, usize)>)
        requires
            fits(*db, *t),
            db.valid(conflict),
            t.level() == cur,
            cur >= 1,
            forall|s: int| #[trigger] db.handles().contains(s) ==> implies_codes(f@, db.clause(s).lits),
        ensures
            r matches Some((u, p)) ==> {
                &&& final(self).ok(*t, cur as int)
                &&& 0 <= p < t.elems().len()
                &&& t.elems()[p as int].lit == u
                &&& t.level_at(p as int) == cur
                &&& forall|i: int| 0 <= i < final(self).new_clause@.len() ==> #[trigger] final(self).new_clause@[i].var_id() != u.var_id()
                &&& forall|a: spec_fn(nat) -> bool| #[trigger] models(a, f@) ==> !sat_lit(a, u)
                    || exists|i: int| 0 <= i < final(self).new_clause@.len() && #[trigger] sat_lit(a, final(self).new_clause@[i])
            },
    {
        proof {
            db.lemma_valid(conflict);
            assert(db.clause(conflict.at()).lits[0] / 2 <= t.num_vars());
            t.lemma_len_bound();
        }
        let n = t.total_vars();
        self.reset(n, cur);
        let mut trail_pos: usize = t.assigned_vars();
        let mut reason: ClauseIdx = conflict;
        let mut skip: Option<Lit> = None;
        let mut result: Option<(Lit, usize)> = None;
        let ghost mut w0: Set<Lit> = Set::empty();
        let ghost mut w: Set<Lit> = Set::empty();
        proof {
            assert(w0.union(codes_set(db.clause(conflict.at()).lits)) =~= codes_set(db.clause(conflict.at()).lits));
            lemma_codes_set(f@, db.clause(conflict.at()).lits);
        }
        while result.is_none()
            invariant
                fits(*db, *t),
                t.level() == cur,
                cur >= 1,
                n == t.num_vars(),
                self.ok(*t, cur as int),
                trail_pos <= t.elems().len(),
                forall|s: int| #[trigger] db.handles().contains(s) ==> implies_codes(f@, db.clause(s).lits),
                result.is_none() ==> db.valid(reason),
                result.is_none() ==> self.covers(*t, cur as int, w0),
                result.is_none() ==> implies_set(f@, w0.union(match skip {
                    Some(y) => codes_set(db.clause(reason.at()).lits).remove(y),
                    None => codes_set(db.clause(reason.at()).lits),
                })),
                result matches Some((u, p)) ==> {
                    &&& 0 <= p < t.elems().len()
                    &&& t.elems()[p as int].lit == u
                    &&& t.level_at(p as int) == cur
                    &&& self.covers(*t, cur as int, w)
                    &&& implies_set(f@, w)
                    &&& forall|l: Lit| #[trigger] w.contains(l) && t.level_of(l) == cur ==> l.var_id() == u.var_id()
                },
            decreases trail_pos + if result.is_none() { 1int } else { 0 },
        {
            let len = db.clause_len(reason);
            proof {
                db.lemma_valid(reason);
            }
            let ghost rc = db.clause(reason.at()).lits;
            let ghost mut wk = w0;
            let mut k: usize = 0;
            while k < len
                invariant
                    fits(*db, *t),
                    db.valid(reason),
                    rc == db.clause(reason.at()).lits,
                    len == rc.len(),
                    t.level() == cur,
                    self.ok(*t, cur as int),
                    k <= len,
                    self.covers(*t, cur as int, wk),
                    wk == w0.union(Set::new(|l: Lit| exists|j: int| 0 <= j < k && #[trigger] Lit::from_code_spec(rc[j]) == l && skip != Some(l))),
                decreases len - k,
            {
                let m = db.lit(reason, k);
                proof {
                    db.lemma_valid(reason);
                    assert(db.clause(reason.at()).lits[k as int] / 2 <= t.num_vars());
                    assert(2 <= db.clause(reason.at()).lits[k as int]);
                    Lit::lemma_from_code_code(rc[k as int]);
                }
                let ghost before = *self;
                if skip != Some(m) {
                    if !self.analyze_literal(m, t, cur) {
                        return None;
                    }
                    proof {
                        assert forall|l: Lit| #[trigger] wk.insert(m).contains(l) implies t.holds(l) && 1 <= l.var_id() && t.value(l) == Some(false)
                            && ((t.level_of(l) < cur && self.new_clause@.contains(l))
                                || (t.level_of(l) == cur && self.seen@[l.var_id() as int] && !self.resolved@[l.var_id() as int])) by {
                            if l != m {
                                assert(before.covers(*t, cur as int, wk));
                                if t.level_of(l) < cur {
                                    let i = choose|i: int| 0 <= i < before.new_clause@.len() && before.new_clause@[i] == l;
                                    assert(self.new_clause@[i] == l);
                                } else {
                                    assert(before.seen@[l.var_id() as int]);
                                }
                            }
                        }
                        wk = wk.insert(m);
                    }
                }
                proof {
                    assert(wk =~= w0.union(Set::new(|l: Lit| exists|j: int| 0 <= j < k + 1 && #[trigger] Lit::from_code_spec(rc[j]) == l && skip != Some(l)))) by {
                        assert(Lit::from_code_spec(rc[k as int]) == m);
                    }
                }
                k = k + 1;
            }
            proof {
                let rs = match skip {
                    Some(y) => codes_set(rc).remove(y),
                    None => codes_set(rc),
                };
                assert(wk =~= w0.union(rs));
                w = wk;
            }
            let mut found: Option<Lit> = None;
            let ghost tp0 = trail_pos;
            while found.is_none()
                invariant
                    t.wf(),
                    t.level() == cur,
                    self.ok(*t, cur as int),
                    trail_pos <= tp0,
                    tp0 <= t.elems().len(),
                    found matches Some(l) ==> trail_pos < tp0 && t.elems()[trail_pos as int].lit == l
                        && t.level_at(trail_pos as int) == cur && self.seen@[l.var_id() as int]
                        && !self.resolved@[l.var_id() as int],
                decreases trail_pos + if found.is_none() { 1int } else { 0 },
            {
                if trail_pos == 0 {
                    return None;
                }
                trail_pos = trail_pos - 1;
                let e = t.trail()[trail_pos];
                proof {
                    t.lemma_elem(trail_pos as int);
                }
                let v = e.lit.var();
                if *self.seen.get(v) && !*self.resolved.get(v) {
                    match t.get_decision_level(e.lit) {
                        Some(l) => {
                            if l == cur {
                                found = Some(e.lit);
                            }
                        },
                        None => {},
                    }
                }
            }
            let uip = match found {
                Some(l) => l,
                None => {
                    return None;
                },
            };
            proof {
                t.lemma_elem(trail_pos as int);
            }
            if self.open == 1 {
                if !self.only_open_at(t, cur, trail_pos) {
                    return None;
                }
                proof {
                    assert forall|l: Lit| #[trigger] w.contains(l) && t.level_of(l) == cur implies l.var_id() == uip.var_id() by {
                        let q = t.lemma_assigned(l.var_id() as int);
                        t.lemma_elem(q);
                        t.lemma_decision((cur - 1) as int);
                        if q < t.decisions()[cur - 1] {
                            t.lemma_levels(q, (cur - 1) as int);
                        }
                    }
                }
                result = Some((uip, trail_pos));
            } else if self.open == 0 {
                return None;
            } else {
                self.open = self.open - 1;
                match t.get_reason_cls(uip) {
                    Some(c) => {
                        proof {
                            assert(t.elems()[trail_pos as int].reason == (TrailReason::Propagated { cls: c }));
                            assert(db.valid(c));
                            assert forall|l: Lit| #[trigger] w.contains(l) && l.var_id() == uip.var_id() implies l.positive() != uip.positive() by {
                            }
                            lemma_resolve(f@, w, db.clause(c.at()).lits, uip);
                        }
                        let ghost before = *self;
                        self.resolved.set(uip.var(), true);
                        proof {
                            let w1 = w.filter(|l: Lit| l.var_id() != uip.var_id());
                            assert forall|l: Lit| #[trigger] w1.contains(l) implies t.holds(l) && 1 <= l.var_id() && t.value(l) == Some(false)
                                && ((t.level_of(l) < cur && self.new_clause@.contains(l))
                                    || (t.level_of(l) == cur && self.seen@[l.var_id() as int] && !self.resolved@[l.var_id() as int])) by {
                                assert(w.contains(l));
                            }
                            w0 = w1;
                            assert(w1.union(codes_set(db.clause(c.at()).lits).remove(uip))
                                == w.filter(|l: Lit| l.var_id() != uip.var_id()).union(codes_set(db.clause(c.at()).lits).remove(uip)));
                        }
                        reason = c;
                        skip = Some(uip);
                    },
                    None => {
                        return None;
                    },
                }
            }
        }
        proof {
            let (u, p) = result.unwrap();
            t.lemma_elem(p as int);
            assert forall|i: int| 0 <= i < self.new_clause@.len() implies #[trigger] self.new_clause@[i].var_id() != u.var_id() by {
                let l = self.new_clause@[i];
                assert(t.level_of(l) < cur);
            }
            assert forall|a: spec_fn(nat) -> bool| #[trigger] models(a, f@) implies !sat_lit(a, u)
                || exists|i: int| 0 <= i < self.new_clause@.len() && #[trigger] sat_lit(a, self.new_clause@[i]) by {
                let l = choose|l: Lit| w.contains(l) && #[trigger] sat_lit(a, l);
                if t.level_of(l) < cur {
                    let i = choose|i: int| 0 <= i < self.new_clause@.len() && self.new_clause@[i] == l;
                    assert(sat_lit(a, self.new_clause@[i]));
                } else {
                    assert(l.var_id() == u.var_id());
                }
            }
        }
        result
    }

    /// Whether the literal at position `upos` is the only one of the conflict level `cur`
    /// that is seen and not resolved.
    fn only_open_at(&self, t: &Trail, cur: u32, upos: usize) -> (r: bool)
        requires
            t.wf(),
            t.level() == cur,
            cur >= 1,
            self.seen@.len() == t.num_vars() + 1,
            self.resolved@.len() == t.num_vars() + 1,
        ensures
            r ==> forall|q: int| #![trigger t.elems()[q]] t.decisions()[cur - 1] <= q < t.elems().len() && q != upos
                && self.seen@[t.var_at(q)] ==> self.resolved@[t.var_at(q)],
    {
        proof {
            t.lemma_decision((cur - 1) as int);
        }
        let start = match t.decision_pos(cur - 1) {
            Some(s) => s,
            None => {
                return false;
            },
        };
        let len = t.assigned_vars();
        let mut q: usize = start;
        while q < len
            invariant
                t.wf(),
                start == t.decisions()[cur - 1],
                len == t.elems().len(),
                start <= q <= len,
                self.seen@.len() == t.num_vars() + 1,
                self.resolved@.len() == t.num_vars() + 1,
                forall|x: int| #![trigger t.elems()[x]] start <= x < q && x != upos && self.seen@[t.var_at(x)] ==> self.resolved@[t.var_at(x)],
            decreases len - q,
        {
            let v = t.trail()[q].lit.var();
            proof {
                t.lemma_elem(q as int);
            }
            if q != upos && *self.seen.get(v) && !*self.resolved.get(v) {
                return false;
            }
            q = q + 1;
        }
        true
    }
}

impl Solver {
    /// What analysis keeps: the formula, and the set of variables.
    pub(crate) open spec fn frame(&self, old: Solver) -> bool {
        &&& self.formula == old.formula
        &&& self.input_handles == old.input_handles
        &&& self.trivially_unsat == old.trivially_unsat
        &&& self.trail.assign().len() == old.trail.assign().len()
    }

    /// Backjumps to level `lvl`, below the current one, and makes `l` true there without
    /// a reason clause. `l` must be the negation of a literal above level `lvl`.
    fn backjump_assert(&mut self, lvl: u32, l: Lit, pos: usize, just: Ghost<Seq<u32>>)
        requires
            old(self).inv(),
            old(self).sound(),
            lvl < old(self).trail.level(),
            0 <= pos < old(self).trail.elems().len(),
            old(self).trail.level_at(pos as int) > lvl,
            l.var_id() == old(self).trail.var_at(pos as int),
            implies_codes(old(self).formula@, just@),
            exists|j: int| 0 <= j < just@.len() && Lit::from_code_spec(just@[j]) == l,
            forall|j: int| 0 <= j < just@.len() && #[trigger] Lit::from_code_spec(just@[j]) != l ==>
                1 <= Lit::from_code_spec(just@[j]).var_id() && old(self).trail.holds(Lit::from_code_spec(just@[j]))
                && old(self).trail.value(Lit::from_code_spec(just@[j])) == Some(false)
                && old(self).trail.level_of(Lit::from_code_spec(just@[j])) <= lvl,
        ensures
            final(self).inv(),
            final(self).sound(),
            final(self).trail.elems().len() >= 1,
            final(self).trail.elems().last() == (crate::trail::TrailElement { lit: l, reason: TrailReason::Axiom }),
            final(self).trail.level() == lvl,
            final(self).trail.elems().drop_last() == old(self).trail.elems().subrange(0, old(self).trail.decisions()[lvl as int] as int),
            final(self).unpropagated_lit_pos < final(self).trail.elems().len(),
            final(self).frame(*old(self)),
            backjumped(old(self).trail.levels(), final(self).trail.levels()),
    {
        proof {
            old(self).lemma_inv_basic();
            old(self).trail.lemma_elem(pos as int);
        }
        let cut = self.backtrack_to(lvl);
        let ghost s1 = *self;
        proof {
            s1.lemma_inv_basic();
            let t0 = old(self).trail;
            t0.lemma_decision(lvl as int);
            if (pos as int) < cut {
                t0.lemma_levels(pos as int, lvl as int);
            }
            t0.lemma_levels(cut as int, lvl as int);
            assert(self.trail.value(l).is_none());
        }
        self.trail.assign_lit(l, TrailReason::Axiom);
        proof {
            s1.lemma_inv_assign(self.trail, crate::trail::TrailElement { lit: l, reason: TrailReason::Axiom });
            assert(*self == s1.with_trail(self.trail));
            assert forall|j: int| 0 <= j < just@.len() && #[trigger] Lit::from_code_spec(just@[j]) != l implies
                1 <= Lit::from_code_spec(just@[j]).var_id() && s1.trail.holds(Lit::from_code_spec(just@[j]))
                && s1.trail.value(Lit::from_code_spec(just@[j])) == Some(false) by {
                let m = Lit::from_code_spec(just@[j]);
                assert(s1.trail.assign()[m.var_id() as int] == old(self).trail.assign()[m.var_id() as int]);
            }
            assert forall|p: int| 0 <= p < s1.trail.elems().len() implies #[trigger] self.trail.elems()[p] == s1.trail.elems()[p] by {}
            lemma_sound_assign(s1.formula@, s1.clause_db, s1.trail, self.trail, s1.trivially_unsat, l, just@);
            let t0 = old(self).trail;
            assert(s1.trail.levels() =~= t0.levels().subrange(0, cut as int));
            assert(self.trail.levels() == t0.levels().subrange(0, cut as int).push(lvl as int));
            assert(0 <= cut < t0.levels().len() && 0 <= lvl < t0.levels()[cut as int]);
        }
    }

    /// Analyzes the conflict on clause `conflict`: at level zero the formula is
    /// unsatisfiable; otherwise the first-UIP clause is learned, the search backjumps to
    /// the second highest level of that clause, and the negated UIP is asserted there.
    pub(crate) fn analyze_contradiction(&mut self, conflict: ClauseIdx) -> (r: AnalyzeResult)
        requires
            old(self).inv(),
            old(self).sound(),
            old(self).clause_db.valid(conflict),
            clause_false(old(self).clause_db, old(self).trail, conflict.at()),
        ensures
            final(self).inv(),
            final(self).sound(),
            r == AnalyzeResult::Unsat ==> forall|a: spec_fn(nat) -> bool| !#[trigger] models(a, old(self).formula@),
            r == AnalyzeResult::Unsat ==> *final(self) == *old(self),
            r == AnalyzeResult::Done ==> {
                let e = final(self).trail.elems().last();
                &&& final(self).trail.elems().len() >= 1
                &&& final(self).trail.level() < old(self).trail.level()
                &&& old(self).trail.holds(e.lit) && old(self).trail.value(e.lit) == Some(false)
                &&& old(self).trail.level_of(e.lit) == old(self).trail.level()
                &&& e.reason is Axiom || e.reason is Propagated
                &&& e.reason is Propagated ==> final(self).clause_db.valid(e.reason->cls)
                    && final(self).clause_db.clause(e.reason->cls.at()).reason()
                    && asserting(old(self).trail, final(self).clause_db.clause(e.reason->cls.at()).lits, e.lit, final(self).trail.level())
                    && old(self).trail.level_of(Lit::from_code_spec(final(self).clause_db.clause(e.reason->cls.at()).lits[1]))
                        == final(self).trail.level()
                &&& final(self).trail.elems().drop_last()
                    == old(self).trail.elems().subrange(0, old(self).trail.decisions()[final(self).trail.level()] as int)
                &&& final(self).unpropagated_lit_pos < final(self).trail.elems().len()
            },
            final(self).frame(*old(self)),
            (r == AnalyzeResult::Unsat) == (old(self).trail.level() == 0),
            r == AnalyzeResult::Done ==> backjumped(old(self).trail.levels(), final(self).trail.levels()),
    {
        proof {
            self.lemma_inv_basic();
            self.lemma_inv_fits();
            self.trail.lemma_len_bound();
        }
        let cur = self.trail.current_decision_level();
        let ghost cl = old(self).clause_db.clause(conflict.at()).lits;
        proof {
            old(self).lemma_clause_lits(conflict);
            lemma_sound_clause(old(self).formula@, old(self).clause_db, old(self).trail, old(self).trivially_unsat, conflict.at());
            assert(codes_false(old(self).trail, cl));
        }
        if cur == 0 {
            proof {
                lemma_conflict_level_zero(old(self).formula@, old(self).clause_db, old(self).trail, old(self).trivially_unsat, cl);
            }
            return AnalyzeResult::Unsat;
        }
        proof {
            assert forall|s: int| #[trigger] self.clause_db.handles().contains(s) implies implies_codes(self.formula@, self.clause_db.clause(s).lits) by {
                lemma_sound_clause(old(self).formula@, old(self).clause_db, old(self).trail, old(self).trivially_unsat, s);
            }
        }
        let mut st = AnalyzeState::new();
        std::mem::swap(&mut self.analyze_state, &mut st);
        let res = st.learn(&self.trail, &self.clause_db, conflict, cur, Ghost(self.formula@));
        match res {
            // The trail broke an assumption of the analysis: backtrack chronologically,
            // asserting the negation of the last decision one level below.
            None => {
                std::mem::swap(&mut self.analyze_state, &mut st);
                proof {
                    old(self).lemma_inv_analyze_state(self.analyze_state);
                    assert(*self == (Solver { analyze_state: self.analyze_state, ..*old(self) }));
                    old(self).trail.lemma_decision((cur - 1) as int);
                }
                let pos = self.trail.decision_pos(cur - 1);
                match pos {
                    Some(pos) => {
                        let d = self.trail.trail()[pos].lit;
                        proof {
                            self.trail.lemma_elem(pos as int);
                            self.trail.lemma_levels(pos as int, (cur - 1) as int);
                        }
                        let nd = d.neg();
                        let ghost just = decisions_clause(old(self).trail);
                        proof {
                            let t0 = old(self).trail;
                            lemma_conflict_decisions(old(self).formula@, old(self).clause_db, t0, old(self).trivially_unsat, cl);
                            let k = (cur - 1) as int;
                            Lit::lemma_from_code_code(just[k]);
                            d.lemma_code_injective(d);
                            nd.lemma_code_injective(Lit::from_code_spec(just[k]));
                            assert(Lit::from_code_spec(just[k]) == nd);
                            assert forall|j: int| 0 <= j < just.len() && #[trigger] Lit::from_code_spec(just[j]) != nd implies
                                1 <= Lit::from_code_spec(just[j]).var_id() && t0.holds(Lit::from_code_spec(just[j]))
                                && t0.value(Lit::from_code_spec(just[j])) == Some(false)
                                && t0.level_of(Lit::from_code_spec(just[j])) <= k by {
                                t0.lemma_decision(j);
                                let dj = t0.elems()[t0.decisions()[j] as int].lit;
                                t0.lemma_elem(t0.decisions()[j] as int);
                                t0.lemma_len_bound();
                                Lit::lemma_from_code_code(just[j]);
                                if j != k {
                                    t0.lemma_decisions_increasing(j, j + 1);
                                    t0.lemma_levels(t0.decisions()[j] as int, j + 1);
                                    t0.lemma_levels(t0.decisions()[j] as int, j);
                                }
                            }
                        }
                        self.backjump_assert(cur - 1, nd, pos, Ghost(just));
                        proof {
                            let t0 = old(self).trail;
                            t0.lemma_elem(pos as int);
                            t0.lemma_levels(pos as int, (cur - 1) as int);
                            assert(t0.value(d) == Some(true));
                            assert(t0.value(nd) == Some(false));
                            assert(t0.level_of(nd) == t0.level_at(pos as int));
                            assert(t0.level_at(pos as int) == cur);
                        }
                    },
                    None => {
                        proof {
                            assert(false);
                        }
                    },
                }
                AnalyzeResult::Done
            },
            Some((uip, upos)) => {
                proof {
                    self.trail.lemma_elem(upos as int);
                }
                let mut bj: u32 = 0;
                let mut bj_idx: usize = 0;
                let mut i: usize = 0;
                while i < st.new_clause.len()
                    invariant
                        st.ok(self.trail, cur as int),
                        self.trail.wf(),
                        self.trail.level() == cur,
                        i <= st.new_clause@.len(),
                        bj < cur,
                        st.new_clause@.len() > 0 ==> bj_idx < st.new_clause@.len(),
                        forall|k: int| 0 <= k < i ==> self.trail.level_of(#[trigger] st.new_clause@[k]) <= bj,
                        i > 0 ==> self.trail.level_of(st.new_clause@[bj_idx as int]) == bj,
                    decreases st.new_clause@.len() - i,
                {
                    let l = st.new_clause[i];
                    proof {
                        assert(st.new_clause@[i as int] == l);
                    }
                    match self.trail.get_decision_level(l) {
                        Some(lv) => {
                            if i == 0 || lv > bj {
                                bj = lv;
                                bj_idx = i;
                            }
                        },
                        None => {},
                    }
                    i = i + 1;
                }
                let neg_uip = uip.neg();
                let mut learned: Vec<Lit> = Vec::new();
                learned.push(neg_uip);
                let mut i: usize = 0;
                while i < st.new_clause.len()
                    invariant
                        st.ok(self.trail, cur as int),
                        i <= st.new_clause@.len(),
                        learned@.len() == i + 1,
                        learned@[0] == neg_uip,
                        forall|k: int| 0 <= k < i ==> #[trigger] learned@[k + 1] == st.new_clause@[k],
                    decreases st.new_clause@.len() - i,
                {
                    learned.push(st.new_clause[i]);
                    i = i + 1;
                }
                proof {
                    self.trail.lemma_elem(upos as int);
                    assert forall|k: int| 0 <= k < learned@.len() implies 1 <= #[trigger] learned@[k].var_id() <= self.n() by {
                        if k > 0 {
                            assert(learned@[(k - 1) + 1] == st.new_clause@[k - 1]);
                        }
                    }
                    assert forall|k: int| 1 <= k < learned@.len() implies self.trail.holds(#[trigger] learned@[k])
                        && self.trail.value(learned@[k]) == Some(false) && self.trail.level_of(learned@[k]) <= bj by {
                        assert(learned@[(k - 1) + 1] == st.new_clause@[k - 1]);
                    }
                    assert(learned_ok(self.trail, learned@, bj as int));
                    let f = self.formula@;
                    assert forall|a: spec_fn(nat) -> bool| #[trigger] models(a, f) implies sat_codes(a, lits_codes(learned@)) by {
                        if !sat_lit(a, uip) {
                            Lit::lemma_from_code_spec(neg_uip);
                            assert(sat_lit(a, Lit::from_code_spec(lits_codes(learned@)[0])));
                        } else {
                            let i = choose|i: int| 0 <= i < st.new_clause@.len() && #[trigger] sat_lit(a, st.new_clause@[i]);
                            assert(learned@[i + 1] == st.new_clause@[i]);
                            Lit::lemma_from_code_spec(learned@[i + 1]);
                            assert(sat_lit(a, Lit::from_code_spec(lits_codes(learned@)[i + 1])));
                        }
                    }
                }
                if learned.len() >= 2 {
                    let ghost l0 = learned@;
                    let a = learned[1];
                    let b = learned[bj_idx + 1];
                    learned.set(1, b);
                    learned.set(bj_idx + 1, a);
                    proof {
                        assert forall|k: int| 0 <= k < learned@.len() implies 1 <= #[trigger] learned@[k].var_id() <= self.n() by {
                            if k == 1 {
                                assert(learned@[k] == l0[bj_idx + 1] || learned@[k] == l0[1]);
                            } else if k == bj_idx + 1 {
                                assert(learned@[k] == l0[1]);
                            } else {
                                assert(learned@[k] == l0[k]);
                            }
                        }
                        assert forall|k: int| 1 <= k < learned@.len() implies self.trail.holds(#[trigger] learned@[k])
                            && self.trail.value(learned@[k]) == Some(false) && self.trail.level_of(learned@[k]) <= bj by {
                            if k == 1 {
                                assert(learned@[k] == l0[bj_idx + 1]);
                            } else if k == bj_idx + 1 {
                                assert(learned@[k] == l0[1]);
                            } else {
                                assert(learned@[k] == l0[k]);
                            }
                        }
                        assert(learned@[0] == l0[0]);
                        assert(l0[bj_idx + 1] == st.new_clause@[bj_idx as int]);
                        assert(learned@[1] == st.new_clause@[bj_idx as int]);
                        assert(self.trail.level_of(learned@[1]) == bj);
                        assert(learned_ok(self.trail, learned@, bj as int));
                        let f = self.formula@;
                        assert forall|a: spec_fn(nat) -> bool| #[trigger] models(a, f) implies sat_codes(a, lits_codes(learned@)) by {
                            assert(sat_codes(a, lits_codes(l0)));
                            let j = choose|j: int| 0 <= j < lits_codes(l0).len() && #[trigger] sat_lit(a, Lit::from_code_spec(lits_codes(l0)[j]));
                            let k = if j == 1 { bj_idx + 1 } else if j == bj_idx + 1 { 1 } else { j };
                            assert(learned@[k] == l0[j]);
                            assert(lits_codes(learned@)[k] == lits_codes(l0)[j]);
                            assert(sat_lit(a, Lit::from_code_spec(lits_codes(learned@)[k])));
                        }
                    }
                }
                let glue = st.levels_in_clause.len();
                proof {
                    let nc = st.new_clause@;
                    let vs = Seq::new(nc.len(), |k: int| nc[k].var_id() as int);
                    assert forall|k: int| 0 <= k < vs.len() implies 1 <= #[trigger] vs[k] <= self.n() by {
                        assert(nc[k] == nc[k]);
                    }
                    assert(vs.no_duplicates()) by {
                        assert forall|p: int, q: int| 0 <= p < vs.len() && 0 <= q < vs.len() && p != q implies vs[p] != vs[q] by {
                            if p < q {
                                assert(nc[p].var_id() != nc[q].var_id());
                            } else {
                                assert(nc[q].var_id() != nc[p].var_id());
                            }
                        }
                    }
                    crate::trail::lemma_distinct_bound(vs, self.n() as int);
                }
                std::mem::swap(&mut self.analyze_state, &mut st);
                proof {
                    old(self).lemma_inv_analyze_state(self.analyze_state);
                    assert(*self == (Solver { analyze_state: self.analyze_state, ..*old(self) }));
                }
                let ghost lg = learned@;
                self.learn_and_assert(learned, neg_uip, bj, glue, upos);
                proof {
                    let e = self.trail.elems().last();
                    assert(learned_ok(old(self).trail, lg, bj as int));
                    if e.reason is Propagated {
                        let c = self.clause_db.clause(e.reason->cls.at()).lits;
                        assert(c == lits_codes(lg));
                        Lit::lemma_from_code_spec(neg_uip);
                        Lit::lemma_from_code_spec(lg[1]);
                        assert(Lit::from_code_spec(c[1]) == lg[1]);
                        assert forall|j: int| 1 <= j < c.len() implies old(self).trail.holds(#[trigger] Lit::from_code_spec(c[j]))
                            && old(self).trail.value(Lit::from_code_spec(c[j])) == Some(false)
                            && old(self).trail.level_of(Lit::from_code_spec(c[j])) <= self.trail.level() by {
                            Lit::lemma_from_code_spec(lg[j]);
                            assert(lg[j] == lg[j]);
                        }
                    }
                }
                AnalyzeResult::Done
            },
        }
    }

    /// Backjumps to level `lvl` and asserts `learned[0]`, the negated UIP: through the
    /// learned clause, stored in the arena and watched by its first two literals, or
    /// without a reason when the clause is a unit or does not fit in the arena.
    fn learn_and_assert(&mut self, learned: Vec<Lit>, neg_uip: Lit, lvl: u32, glue: usize, upos: usize)
        requires
            old(self).inv(),
            lvl < old(self).trail.level(),
            0 <= upos < old(self).trail.elems().len(),
            old(self).trail.level_at(upos as int) > lvl,
            neg_uip.var_id() == old(self).trail.var_at(upos as int),
            learned@[0] == neg_uip,
            learned_ok(old(self).trail, learned@, lvl as int),
            forall|k: int| 0 <= k < learned@.len() ==> 1 <= #[trigger] learned@[k].var_id() <= old(self).n(),
            glue <= old(self).n() + 1,
            old(self).sound(),
            implies_codes(old(self).formula@, lits_codes(learned@)),
        ensures
            final(self).inv(),
            final(self).sound(),
            final(self).frame(*old(self)),
            backjumped(old(self).trail.levels(), final(self).trail.levels()),
            final(self).trail.elems().len() >= 1,
            final(self).trail.elems().last().lit == neg_uip,
            final(self).trail.level() == lvl,
            final(self).trail.elems().drop_last() == old(self).trail.elems().subrange(0, old(self).trail.decisions()[lvl as int] as int),
            final(self).unpropagated_lit_pos < final(self).trail.elems().len(),
            learned@.len() >= 2 && old(self).clause_db.size() + crate::clause::HEADER_WORDS + learned@.len() <= crate::clause::MAX_ARENA ==> {
                let r = final(self).trail.elems().last().reason;
                &&& r is Propagated
                &&& final(self).clause_db.valid(r->cls)
                &&& final(self).clause_db.handles() == old(self).clause_db.handles().push(r->cls.at())
                &&& final(self).clause_db.clause(r->cls.at()).lits == lits_codes(learned@)
                &&& final(self).clause_db.clause(r->cls.at()).glue == glue
                &&& final(self).clause_db.clause(r->cls.at()).reason()
                &&& exists|i: int| 0 <= i < final(self).watches@[crate::litvec::lit_slot(learned@[0])]@.len()
                    && #[trigger] final(self).watches@[crate::litvec::lit_slot(learned@[0])]@[i].clause == r->cls
                &&& exists|i: int| 0 <= i < final(self).watches@[crate::litvec::lit_slot(learned@[1])]@.len()
                    && #[trigger] final(self).watches@[crate::litvec::lit_slot(learned@[1])]@[i].clause == r->cls
            },
            learned@.len() < 2 || old(self).clause_db.size() + crate::clause::HEADER_WORDS + learned@.len() > crate::clause::MAX_ARENA ==>
                final(self).trail.elems().last().reason == TrailReason::Axiom,
    {
        proof {
            old(self).lemma_inv_basic();
            old(self).trail.lemma_len_bound();
        }
        if learned.len() == 1 || !self.clause_db.has_room(learned.len()) {
            let ghost just = lits_codes(learned@);
            proof {
                assert(Lit::from_code_spec(just[0]) == neg_uip) by {
                    Lit::lemma_from_code_spec(neg_uip);
                }
                assert forall|j: int| 0 <= j < just.len() && #[trigger] Lit::from_code_spec(just[j]) != neg_uip implies
                    1 <= Lit::from_code_spec(just[j]).var_id() && old(self).trail.holds(Lit::from_code_spec(just[j]))
                    && old(self).trail.value(Lit::from_code_spec(just[j])) == Some(false)
                    && old(self).trail.level_of(Lit::from_code_spec(just[j])) <= lvl by {
                    Lit::lemma_from_code_spec(learned@[j]);
                    assert(learned@[j] == learned@[j]);
                }
            }
            self.backjump_assert(lvl, neg_uip, upos, Ghost(just));
            return;
        }
        proof {
            old(self).trail.lemma_elem(upos as int);
        }
        let cut = self.backtrack_to(lvl);
        let ghost s1 = *self;
        proof {
            s1.lemma_inv_basic();
            let t0 = old(self).trail;
            t0.lemma_decision(lvl as int);
            if (upos as int) < cut {
                t0.lemma_levels(upos as int, lvl as int);
            }
            t0.lemma_levels(cut as int, lvl as int);
            assert(self.trail.value(neg_uip).is_none());
        }
        let h = self.clause_db.insert_clause(&learned, glue as u32);
        proof {
            assert forall|j: int| 0 <= j < self.clause_db.clause(h.at()).lits.len() implies
                #[trigger] self.clause_db.clause(h.at()).lits[j] / 2 <= s1.n() by {
                assert(1 <= learned@[j].var_id() <= old(self).n());
                assert(self.clause_db.clause(h.at()).lits[j] == learned@[j].code());
            }
            s1.lemma_inv_insert(self.clause_db, h);
            assert(*self == s1.with_db(self.clause_db));
            assert(self.clause_db.clause(h.at()).lits =~= lits_codes(learned@));
            lemma_sound_insert(s1.formula@, s1.clause_db, self.clause_db, s1.trail, s1.trivially_unsat, h.at());
        }
        let ghost s2 = *self;
        proof {
            assert(1 <= learned@[0].var_id() <= old(self).n());
            assert(1 <= learned@[1].var_id() <= old(self).n());
            s2.lemma_inv_basic();
        }
        self.watches.push_at(learned[0], Watch { clause: h });
        self.watches.push_at(learned[1], Watch { clause: h });
        proof {
            s2.lemma_inv_basic();
            assert(self.clause_db.handles()[self.clause_db.handles().len() - 1] == h.at());
            assert forall|a: int, b: int| #![trigger self.watches@[a]@[b]] 0 <= a < self.watches@.len() && 0 <= b < self.watches@[a]@.len()
                implies s2.clause_db.valid(self.watches@[a]@[b].clause) by {
                if (a == lit_slot(learned@[0]) || a == lit_slot(learned@[1])) && b >= s2.watches@[a]@.len() {
                } else {
                    s2.lemma_watch_valid(a, b);
                }
            }
            s2.lemma_inv_watches(self.watches);
            assert(*self == s2.with_watches(self.watches));
        }
        let ghost s3 = *self;
        self.trail.assign_lit(neg_uip, TrailReason::Propagated { cls: h });
        proof {
            s3.lemma_inv_basic();
            s3.lemma_inv_assign(self.trail, crate::trail::TrailElement { lit: neg_uip, reason: TrailReason::Propagated { cls: h } });
            assert(*self == s3.with_trail(self.trail));
            let just = lits_codes(learned@);
            Lit::lemma_from_code_spec(neg_uip);
            assert(Lit::from_code_spec(just[0]) == neg_uip);
            assert forall|j: int| 0 <= j < just.len() && #[trigger] Lit::from_code_spec(just[j]) != neg_uip implies
                1 <= Lit::from_code_spec(just[j]).var_id() && s3.trail.holds(Lit::from_code_spec(just[j]))
                && s3.trail.value(Lit::from_code_spec(just[j])) == Some(false) by {
                Lit::lemma_from_code_spec(learned@[j]);
                let m = learned@[j];
                assert(old(self).trail.level_of(m) <= lvl);
                assert(s1.trail.assign()[m.var_id() as int] == old(self).trail.assign()[m.var_id() as int]);
            }
            assert forall|p: int| 0 <= p < s3.trail.elems().len() implies #[trigger] self.trail.elems()[p] == s3.trail.elems()[p] by {}
            lemma_sound_assign(s3.formula@, s3.clause_db, s3.trail, self.trail, s3.trivially_unsat, neg_uip, just);
        }
        let ghost s4 = *self;
        self.clause_db.set_is_reason(h, true);
        proof {
            s4.lemma_inv_basic();
            s4.lemma_inv_same_clauses(self.clause_db);
            assert(*self == s4.with_db(self.clause_db));
            lemma_sound_similar(s4.formula@, s4.clause_db, self.clause_db, s4.trail, s4.trivially_unsat);
            assert(self.clause_db.handles()[self.clause_db.handles().len() - 1] == h.at());
            let w0 = s2.watches@[lit_slot(learned@[0])]@;
            let w1 = s2.watches@[lit_slot(learned@[1])]@;
            if lit_slot(learned@[0]) == lit_slot(learned@[1]) {
                assert(self.watches@[lit_slot(learned@[0])]@[w0.len() as int].clause == h);
                assert(self.watches@[lit_slot(learned@[1])]@[w0.len() as int + 1].clause == h);
            } else {
                assert(self.watches@[lit_slot(learned@[0])]@[w0.len() as int].clause == h);
                assert(self.watches@[lit_slot(learned@[1])]@[w1.len() as int].clause == h);
            }
            let t0 = old(self).trail;
            assert(s1.trail.levels() =~= t0.levels().subrange(0, cut as int));
            assert(self.trail.levels() == t0.levels().subrange(0, cut as int).push(lvl as int));
            assert(0 <= cut < t0.levels().len() && 0 <= lvl < t0.levels()[cut as int]);
        }
    }
}

} // verus!
