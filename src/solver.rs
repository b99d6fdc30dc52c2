//! The solver's state, clause ingestion and the search loop.
use vstd::prelude::*;
use vstd::string::StringSliceAdditionalSpecFns;

use crate::assignment::TrailReason;
use crate::clause::{ClauseDB, ClauseIdx, HEADER_WORDS, MAX_ARENA};
use crate::lit::{int_code, Lit, Var, MAX_VAR};
use crate::litvec::{lit_slot, LitVec};
use crate::normalize::{dimacs_lits, lemma_is_normal_form, normal_form, normal_forms, normalise_clause, same_lits, strictly_sorted, tautology};
use crate::analyze::AnalyzeResult;
use crate::dimacs::{literals_ok, Dimacs, ParseError};
use crate::propagate::{clause_false, PropagationResult};
use crate::rank::{lemma_rank_backjump, lemma_rank_bound, lemma_rank_extend, rank, rank_limit};
use crate::sound::{
    decisions_clause, implies_codes, lemma_conflict_decisions, lemma_conflict_level_zero, lemma_sound_assign, lemma_sound_clause,
    lemma_sound_db, lemma_sound_decide, lemma_sound_formula_push, lemma_sound_insert, lemma_sound_similar,
    lemma_sound_trail_prefix, lemma_sound_unsat, lemma_sound_set_unsat, lemma_false_lit, models, sat_clause, sat_codes, sat_lit, sound_parts, codes_false,
};
use crate::trail::Trail;
use crate::varvec::VarVec;

verus! {

/// An entry of a watch list: the clause watches the list's literal.
#[derive(Clone, Copy, PartialEq, Eq, Structural, Debug)]
pub struct Watch {
    pub clause: ClauseIdx,
}

/// Counters kept during the search.
#[derive(Clone, Copy, Debug)]
pub struct Stats {
    pub contradictions: u64,
    pub propagations: u64,
    pub contradiction_since_last_garbage_collections: u64,
}

impl Stats {
    pub fn new() -> (r: Stats)
        ensures
            r.contradictions == 0 && r.propagations == 0 && r.contradiction_since_last_garbage_collections == 0,
    {
        Stats { contradictions: 0, propagations: 0, contradiction_since_last_garbage_collections: 0 }
    }
}

/// Limits that steer the search.
#[derive(Clone, Copy, Debug)]
pub struct Limits {
    /// After how many conflicts the learned clauses are reduced.
    pub garbage_collection_conflicts: u64,
}

/// Conflicts between two reductions of the learned clauses, at first.
pub const INITIAL_GC_CONFLICTS: u64 = 3000;

impl Limits {
    pub fn new() -> (r: Limits)
        ensures
            r.garbage_collection_conflicts == INITIAL_GC_CONFLICTS,
    {
        Limits { garbage_collection_conflicts: INITIAL_GC_CONFLICTS }
    }
}

/// Scratch space of conflict analysis, reset for every conflict.
pub struct AnalyzeState {
    /// Variables met during the analysis.
    pub(crate) seen: VarVec<bool>,
    /// Variables of the conflict level already resolved away.
    pub(crate) resolved: VarVec<bool>,
    /// The learned clause under construction.
    pub(crate) new_clause: Vec<Lit>,
    /// Variables of the conflict level that were met and not yet resolved.
    pub(crate) open: u32,
    /// Decision levels met so far.
    pub(crate) levels_seen: Vec<bool>,
    /// The distinct decision levels of the learned clause.
    pub(crate) levels_in_clause: Vec<u32>,
}

impl AnalyzeState {
    pub fn new() -> (r: AnalyzeState) {
        AnalyzeState {
            seen: VarVec::new(),
            resolved: VarVec::new(),
            new_clause: Vec::new(),
            open: 0,
            levels_seen: Vec::new(),
            levels_in_clause: Vec::new(),
        }
    }
}

/// A CDCL solver for formulas in conjunctive normal form.
pub struct Solver {
    pub(crate) clause_db: ClauseDB,
    /// For each literal, the clauses that watch it.
    pub(crate) watches: LitVec<Vec<Watch>>,
    pub(crate) trail: Trail,
    /// Where on the trail unit propagation resumes.
    pub(crate) unpropagated_lit_pos: usize,
    /// An empty clause or contradicting unit clauses were added.
    pub(crate) trivially_unsat: bool,
    pub(crate) stats: Stats,
    pub(crate) analyze_state: AnalyzeState,
    pub(crate) limits: Limits,
    /// The normalized clauses that were added, tautologies left out.
    pub(crate) formula: Ghost<Seq<Seq<Lit>>>,
    /// For each clause of `formula` with two literals or more, its handle in the arena.
    pub(crate) input_handles: Ghost<Seq<int>>,
}

/// Some literal of `f` is known to `t` and true under it.
pub open spec fn lits_true(t: Trail, f: Seq<Lit>) -> bool {
    exists|j: int| 0 <= j < f.len() && t.holds(f[j]) && #[trigger] t.value(f[j]) == Some(true)
}

/// Some literal of the clause at `s` is true under `t`.
pub open spec fn clause_true(db: ClauseDB, t: Trail, s: int) -> bool {
    exists|j: int| 0 <= j < db.clause(s).lits.len() && #[trigger] t.value(Lit::from_code_spec(db.clause(s).lits[j])) == Some(true)
}

/// `codes` holds the codes of exactly the literals of `f`.
pub open spec fn lits_match(codes: Seq<u32>, f: Seq<Lit>) -> bool {
    forall|c: u32| codes.contains(c) <==> exists|j: int| 0 <= j < f.len() && #[trigger] f[j].code() == c
}

/// Two arenas hold the same clauses, up to the order of literals within a clause and
/// the reason flag.
pub open spec fn similar_clauses(a: ClauseDB, b: ClauseDB) -> bool {
    &&& a.handles() == b.handles()
    &&& a.size() == b.size()
    &&& forall|s: int| #[trigger] a.handles().contains(s) ==> b.clause(s).lits.len() == a.clause(s).lits.len()
        && b.clause(s).glue == a.clause(s).glue && b.clause(s).garbage() == a.clause(s).garbage()
        && forall|c: u32| b.clause(s).lits.contains(c) <==> a.clause(s).lits.contains(c)
}

/// Two arenas hold the same clauses, up to flags.
pub open spec fn same_clauses(a: ClauseDB, b: ClauseDB) -> bool {
    &&& a.handles() == b.handles()
    &&& a.size() == b.size()
    &&& forall|s: int| #[trigger] a.handles().contains(s) ==> b.clause(s).lits == a.clause(s).lits
        && b.clause(s).glue == a.clause(s).glue && b.clause(s).garbage() == a.clause(s).garbage()
}

/// A satisfying assignment, read from the solver's trail.
pub struct Model<'a> {
    assignment: &'a Trail,
}

/// What an unsatisfiable result carries: nothing beyond the verdict.
#[derive(Debug)]
pub struct Proof;

/// The verdict of [`Solver::solve`].
pub enum Result<'a> {
    Sat(Model<'a>),
    Unsat(Proof),
}

impl<'a> Model<'a> {
    /// Number of variables the model assigns.
    pub closed spec fn num_vars(&self) -> nat {
        self.assignment.num_vars()
    }

    /// The value of `l` in the model.
    pub closed spec fn value(&self, l: Lit) -> Option<bool> {
        if self.assignment.holds(l) { self.assignment.value(l) } else { None }
    }

    pub closed spec fn wf(&self) -> bool {
        self.assignment.wf()
    }

    /// Some literal of `c` is true in the model.
    pub open spec fn satisfies_clause(&self, c: Seq<Lit>) -> bool {
        exists|j: int| 0 <= j < c.len() && #[trigger] self.value(c[j]) == Some(true)
    }

    /// Every clause of `f` holds a literal that is true in the model.
    pub open spec fn satisfies(&self, f: Seq<Seq<Lit>>) -> bool {
        forall|k: int| 0 <= k < f.len() ==> self.satisfies_clause(#[trigger] f[k])
    }

    proof fn lemma_satisfies(&self, f: Seq<Seq<Lit>>)
        requires
            forall|k: int| 0 <= k < f.len() ==> lits_true(*self.assignment, #[trigger] f[k]),
        ensures
            self.satisfies(f),
    {
        assert forall|k: int| 0 <= k < f.len() implies self.satisfies_clause(#[trigger] f[k]) by {
            assert(lits_true(*self.assignment, f[k]));
            let j = choose|j: int| 0 <= j < f[k].len() && self.assignment.holds(f[k][j])
                && #[trigger] self.assignment.value(f[k][j]) == Some(true);
            assert(self.value(f[k][j]) == Some(true));
        }
    }

    /// Whether the literal written as the DIMACS integer `l` is true in the model.
    pub fn lit(&self, l: i32) -> (r: bool)
        requires
            self.wf(),
            l != 0,
            -(self.num_vars() as int) <= l <= self.num_vars(),
        ensures
            r == (self.value(Lit::from_code_spec(int_code(l as int) as u32)) == Some(true)),
    {
        proof {
            self.assignment.lemma_len_bound();
        }
        let x = Lit::new(l);
        proof {
            Lit::lemma_from_code_spec(x);
        }
        self.assignment.is_lit_satisfied(x)
    }

    /// The model as DIMACS integers: `i` or `-i` for each variable `i` from 1 on.
    pub fn as_vec(&self) -> (r: Vec<i32>)
        requires
            self.wf(),
        ensures
            r@.len() == self.num_vars(),
            forall|i: int| 0 <= i < r@.len() ==> {
                let v = i + 1;
                let pos = self.value(Lit::from_code_spec(int_code(v) as u32)) == Some(true);
                #[trigger] r@[i] == if pos { v } else { -v }
            },
    {
        proof {
            self.assignment.lemma_len_bound();
        }
        let n = self.assignment.total_vars();
        let mut r: Vec<i32> = Vec::new();
        let mut i: usize = 1;
        while i <= n
            invariant
                n == self.num_vars(),
                n <= MAX_VAR,
                1 <= i <= n + 1,
                r@.len() == i - 1,
                forall|k: int| 0 <= k < r@.len() ==> {
                    let v = k + 1;
                    let pos = self.value(Lit::from_code_spec(int_code(v) as u32)) == Some(true);
                    #[trigger] r@[k] == if pos { v } else { -v }
                },
            decreases n + 1 - i,
        {
            let v = i as i32;
            let x = Lit::new(v);
            proof {
                Lit::lemma_from_code_spec(x);
            }
            if self.assignment.is_lit_satisfied(x) {
                r.push(v);
            } else {
                r.push(-v);
            }
            i = i + 1;
        }
        r
    }
}

impl<'a> Result<'a> {
    /// The proof token of an unsatisfiable result.
    pub fn unwrap_unsat(self) -> (r: Proof)
        requires
            self is Unsat,
    {
        match self {
            Result::Unsat(p) => p,
            Result::Sat(_) => vstd::pervasive::unreached(),
        }
    }

    pub fn is_sat(&self) -> (r: bool)
        ensures
            r == (self is Sat),
    {
        match self {
            Result::Sat(_) => true,
            Result::Unsat(_) => false,
        }
    }

    pub fn is_unsat(&self) -> (r: bool)
        ensures
            r == (self is Unsat),
    {
        match self {
            Result::Sat(_) => false,
            Result::Unsat(_) => true,
        }
    }

    /// The model of a satisfiable result.
    pub fn unwrap_sat(self) -> (r: Model<'a>)
        requires
            self is Sat,
        ensures
            self == Result::Sat(r),
    {
        match self {
            Result::Sat(m) => m,
            Result::Unsat(_) => vstd::pervasive::unreached(),
        }
    }
}

impl Solver {
    /// Number of variables.
    pub(crate) open spec fn n(&self) -> nat {
        self.trail.num_vars()
    }

    /// `c` is the code of a literal over a known variable.
    pub(crate) open spec fn code_ok(&self, c: u32) -> bool {
        2 <= c && c / 2 <= self.n()
    }

    #[verifier::opaque]
    pub(crate) open spec fn inv(&self) -> bool {
        &&& self.clause_db.wf()
        &&& self.trail.wf()
        &&& self.watches@.len() == 2 * self.n()
        &&& forall|s: int, j: int| #![trigger self.clause_db.clause(s).lits[j]]
            self.clause_db.handles().contains(s) && 0 <= j < self.clause_db.clause(s).lits.len()
                ==> self.clause_db.clause(s).lits[j] / 2 <= self.n()
        &&& forall|i: int, j: int| #![trigger self.watches@[i]@[j]]
            0 <= i < self.watches@.len() && 0 <= j < self.watches@[i]@.len()
                ==> self.clause_db.valid(self.watches@[i]@[j].clause)
        &&& forall|p: int| #![trigger self.trail.elems()[p]]
            0 <= p < self.trail.elems().len() && self.trail.elems()[p].reason is Propagated
                ==> self.clause_db.valid(self.trail.elems()[p].reason->cls)
        &&& self.unpropagated_lit_pos <= self.trail.elems().len()
        &&& self.input_handles@.len() == self.formula@.len()
        &&& forall|k: int| #![trigger self.formula@[k]] 0 <= k < self.formula@.len() ==> self.input_ok(k)
        &&& forall|s: int| #[trigger] self.clause_db.handles().contains(s)
            ==> !self.clause_db.clause(s).garbage()
    }

    /// Clause `k` of the formula is held by the solver: in the arena, or as a literal
    /// that is true at level zero.
    pub(crate) open spec fn input_ok(&self, k: int) -> bool {
        let f = self.formula@[k];
        &&& strictly_sorted(f)
        &&& !tautology(f)
        &&& f.len() == 0 ==> self.trivially_unsat
        &&& f.len() >= 2 ==> {
            let s = self.input_handles@[k];
            &&& self.clause_db.handles().contains(s)
            &&& self.clause_db.clause(s).glue == 0
            &&& lits_match(self.clause_db.clause(s).lits, f)
        }
        &&& f.len() == 1 ==> self.trivially_unsat || (self.trail.holds(f[0]) && self.trail.value(f[0]) == Some(true)
            && self.trail.level_of(f[0]) == 0)
    }

    /// What the invariant says of the parts of the solver.
    pub(crate) proof fn lemma_inv_basic(&self)
        requires
            self.inv(),
        ensures
            self.clause_db.wf(),
            self.trail.wf(),
            self.watches@.len() == 2 * self.n(),
            self.unpropagated_lit_pos <= self.trail.elems().len(),
    {
        reveal(Solver::inv);
    }

    /// No clause of the arena is marked as garbage.
    pub(crate) proof fn lemma_no_garbage(&self)
        requires
            self.inv(),
        ensures
            forall|s: int| #[trigger] self.clause_db.handles().contains(s) ==> !self.clause_db.clause(s).garbage(),
    {
        reveal(Solver::inv);
    }

    /// Every watch names a clause of the arena.
    pub(crate) proof fn lemma_watch_valid(&self, i: int, j: int)
        requires
            self.inv(),
            0 <= i < self.watches@.len(),
            0 <= j < self.watches@[i]@.len(),
        ensures
            self.clause_db.valid(self.watches@[i]@[j].clause),
    {
        reveal(Solver::inv);
    }

    /// Every reason on the trail names a clause of the arena.
    pub(crate) proof fn lemma_reason_valid(&self, p: int)
        requires
            self.inv(),
            0 <= p < self.trail.elems().len(),
            self.trail.elems()[p].reason is Propagated,
        ensures
            self.clause_db.valid(self.trail.elems()[p].reason->cls),
    {
        reveal(Solver::inv);
    }

    /// The literals of clause `h` are over known variables.
    pub(crate) proof fn lemma_clause_lits(&self, h: ClauseIdx)
        requires
            self.inv(),
            self.clause_db.valid(h),
        ensures
            self.n() >= 1,
            self.clause_db.clause(h.at()).lits.len() >= 2,
            forall|j: int| 0 <= j < self.clause_db.clause(h.at()).lits.len() ==> self.code_ok(#[trigger] self.clause_db.clause(h.at()).lits[j]),
    {
        reveal(Solver::inv);
        self.clause_db.lemma_valid(h);
        assert(self.clause_db.clause(h.at()).lits[0] / 2 <= self.n());
    }

    /// A literal over a known variable has a slot in the trail and in the watch lists.
    pub(crate) proof fn lemma_lit_ok(&self, l: Lit)
        requires
            self.inv(),
            self.code_ok(l.code() as u32),
            l.code() <= u32::MAX,
        ensures
            self.trail.holds(l),
            self.watches.holds(l),
    {
        reveal(Solver::inv);
    }

    /// Words used in the clause arena.
    pub closed spec fn arena_size(&self) -> nat {
        self.clause_db.size()
    }

    /// The current decision level.
    pub closed spec fn decision_level(&self) -> int {
        self.trail.level()
    }

    /// The decision level of the assigned literal `l`.
    pub closed spec fn lit_level(&self, l: Lit) -> int {
        self.trail.level_of(l)
    }

    /// The handles of the clauses of the arena, in order.
    pub closed spec fn arena_handles(&self) -> Seq<int> {
        self.clause_db.handles()
    }

    /// The literal codes of the clause at `s`.
    pub closed spec fn clause_lits(&self, s: int) -> Seq<u32> {
        self.clause_db.clause(s).lits
    }

    /// The glue of the clause at `s`.
    pub closed spec fn clause_glue(&self, s: int) -> u32 {
        self.clause_db.clause(s).glue
    }

    /// The watch list of `l`.
    pub closed spec fn watch_list(&self, l: Lit) -> Seq<Watch> {
        self.watches@[lit_slot(l)]@
    }

    /// The limits that steer the search.
    pub closed spec fn limits_spec(&self) -> Limits {
        self.limits
    }

    /// Replaces the limits that steer the search.
    pub fn set_limits(&mut self, limits: Limits)
        requires
            old(self).wf(),
        ensures
            final(self).wf(),
            final(self).limits_spec() == limits,
            final(self).formula() == old(self).formula(),
            final(self).num_vars() == old(self).num_vars(),
    {
        let ghost s0 = *self;
        self.limits = limits;
        proof {
            s0.lemma_inv_limits(limits);
            assert(*self == (Solver { limits, ..s0 }));
        }
    }

    /// The counters kept by the solver.
    pub closed spec fn counters(&self) -> Stats {
        self.stats
    }

    /// The counters of the search.
    pub fn stats(&self) -> (r: &Stats)
        ensures
            *r == self.counters(),
    {
        &self.stats
    }

    /// Number of variables the solver knows of.
    pub closed spec fn num_vars(&self) -> nat {
        self.trail.num_vars()
    }

    /// The same solver, with another arena.
    pub(crate) open spec fn with_db(&self, db: ClauseDB) -> Solver {
        Solver { clause_db: db, ..*self }
    }

    /// Changing flags other than the garbage flag keeps the invariant.
    pub(crate) proof fn lemma_inv_same_clauses(&self, db: ClauseDB)
        requires
            self.inv(),
            db.wf(),
            same_clauses(self.clause_db, db),
        ensures
            self.with_db(db).inv(),
    {
        assert forall|s: int| #[trigger] self.clause_db.handles().contains(s) implies
            forall|c: u32| db.clause(s).lits.contains(c) <==> self.clause_db.clause(s).lits.contains(c) by {
            assert(db.clause(s).lits == self.clause_db.clause(s).lits);
        }
        self.lemma_inv_similar_clauses(db);
    }

    /// Reordering the literals of clauses, or changing their reason flag, keeps the invariant.
    pub(crate) proof fn lemma_inv_similar_clauses(&self, db: ClauseDB)
        requires
            self.inv(),
            db.wf(),
            similar_clauses(self.clause_db, db),
        ensures
            self.with_db(db).inv(),
    {
        reveal(Solver::inv);
        let t = self.with_db(db);
        assert forall|k: int| #![trigger t.formula@[k]] 0 <= k < t.formula@.len() implies t.input_ok(k) by {
            assert(self.input_ok(k));
            if self.formula@[k].len() >= 2 {
                assert(self.clause_db.handles().contains(self.input_handles@[k]));
            }
        }
        assert forall|s: int, j: int| #![trigger t.clause_db.clause(s).lits[j]]
            t.clause_db.handles().contains(s) && 0 <= j < t.clause_db.clause(s).lits.len()
                implies t.clause_db.clause(s).lits[j] / 2 <= t.n() by {
            assert(self.clause_db.handles().contains(s));
            let c = t.clause_db.clause(s).lits[j];
            assert(t.clause_db.clause(s).lits.contains(c));
            assert(self.clause_db.clause(s).lits.contains(c));
            let j2 = choose|j2: int| 0 <= j2 < self.clause_db.clause(s).lits.len() && self.clause_db.clause(s).lits[j2] == c;
            assert(self.clause_db.clause(s).lits[j2] / 2 <= self.n());
        }
        assert forall|s: int| #[trigger] t.clause_db.handles().contains(s)
            implies !t.clause_db.clause(s).garbage() by {
            assert(self.clause_db.handles().contains(s));
        }
    }

    /// The same solver, with other watch lists.
    pub(crate) open spec fn with_watches(&self, w: LitVec<Vec<Watch>>) -> Solver {
        Solver { watches: w, ..*self }
    }

    /// Watch lists of the right size whose entries all name clauses of the arena keep the invariant.
    pub(crate) proof fn lemma_inv_watches(&self, w: LitVec<Vec<Watch>>)
        requires
            self.inv(),
            w@.len() == self.watches@.len(),
            forall|i: int, j: int| #![trigger w@[i]@[j]] 0 <= i < w@.len() && 0 <= j < w@[i]@.len()
                ==> self.clause_db.valid(w@[i]@[j].clause),
        ensures
            self.with_watches(w).inv(),
    {
        reveal(Solver::inv);
        let t = self.with_watches(w);
        assert forall|k: int| #![trigger t.formula@[k]] 0 <= k < t.formula@.len() implies t.input_ok(k) by {
            assert(self.input_ok(k));
        }
    }

    /// Adding a clause over known variables to the arena keeps the invariant.
    pub(crate) proof fn lemma_inv_insert(&self, db: ClauseDB, h: ClauseIdx)
        requires
            self.inv(),
            db.wf(),
            db.handles() == self.clause_db.handles().push(h.at()),
            forall|s: int| #[trigger] self.clause_db.handles().contains(s) ==> db.clause(s) == self.clause_db.clause(s),
            forall|j: int| 0 <= j < db.clause(h.at()).lits.len() ==> #[trigger] db.clause(h.at()).lits[j] / 2 <= self.n(),
            !db.clause(h.at()).garbage(),
        ensures
            self.with_db(db).inv(),
    {
        reveal(Solver::inv);
        let t = self.with_db(db);
        assert forall|s: int| #[trigger] self.clause_db.handles().contains(s) implies db.handles().contains(s) by {
            let q = choose|q: int| 0 <= q < self.clause_db.handles().len() && self.clause_db.handles()[q] == s;
            assert(db.handles()[q] == s);
        }
        assert forall|s: int| #[trigger] db.handles().contains(s) implies self.clause_db.handles().contains(s) || s == h.at() by {
            let q = choose|q: int| 0 <= q < db.handles().len() && db.handles()[q] == s;
            if q < self.clause_db.handles().len() {
                assert(self.clause_db.handles()[q] == s);
            }
        }
        assert forall|k: int| #![trigger t.formula@[k]] 0 <= k < t.formula@.len() implies t.input_ok(k) by {
            assert(self.input_ok(k));
            if self.formula@[k].len() >= 2 {
                assert(self.clause_db.handles().contains(self.input_handles@[k]));
            }
        }
        assert forall|s: int, j: int| #![trigger t.clause_db.clause(s).lits[j]]
            t.clause_db.handles().contains(s) && 0 <= j < t.clause_db.clause(s).lits.len()
                implies t.clause_db.clause(s).lits[j] / 2 <= t.n() by {
            if s != h.at() {
                assert(self.clause_db.clause(s).lits[j] / 2 <= self.n());
            }
        }
        assert forall|i: int, j: int| #![trigger t.watches@[i]@[j]]
            0 <= i < t.watches@.len() && 0 <= j < t.watches@[i]@.len()
                implies t.clause_db.valid(t.watches@[i]@[j].clause) by {
            assert(self.clause_db.valid(self.watches@[i]@[j].clause));
        }
        assert forall|p: int| #![trigger t.trail.elems()[p]]
            0 <= p < t.trail.elems().len() && t.trail.elems()[p].reason is Propagated
                implies t.clause_db.valid(t.trail.elems()[p].reason->cls) by {
            assert(self.clause_db.valid(self.trail.elems()[p].reason->cls));
        }
        assert forall|s: int| #[trigger] t.clause_db.handles().contains(s)
            implies !t.clause_db.clause(s).garbage() by {
            if s != h.at() {
                assert(self.clause_db.handles().contains(s));
            }
        }
    }

    /// The scratch space of conflict analysis plays no part in the invariant.
    pub(crate) proof fn lemma_inv_analyze_state(&self, st: AnalyzeState)
        requires
            self.inv(),
        ensures
            (Solver { analyze_state: st, ..*self }).inv(),
    {
        reveal(Solver::inv);
        let t = Solver { analyze_state: st, ..*self };
        assert forall|k: int| #![trigger t.formula@[k]] 0 <= k < t.formula@.len() implies t.input_ok(k) by {
            assert(self.input_ok(k));
        }
    }

    /// The arena and the trail agree as conflict analysis needs.
    pub(crate) proof fn lemma_inv_fits(&self)
        requires
            self.inv(),
        ensures
            crate::analyze::fits(self.clause_db, self.trail),
    {
        reveal(Solver::inv);
    }

    /// The counters play no part in the invariant.
    pub(crate) proof fn lemma_inv_stats(&self, st: Stats)
        requires
            self.inv(),
        ensures
            (Solver { stats: st, ..*self }).inv(),
    {
        reveal(Solver::inv);
        let t = Solver { stats: st, ..*self };
        assert forall|k: int| #![trigger t.formula@[k]] 0 <= k < t.formula@.len() implies t.input_ok(k) by {
            assert(self.input_ok(k));
        }
    }

    /// The limits play no part in the invariant.
    pub(crate) proof fn lemma_inv_limits(&self, l: Limits)
        requires
            self.inv(),
        ensures
            (Solver { limits: l, ..*self }).inv(),
    {
        reveal(Solver::inv);
        let t = Solver { limits: l, ..*self };
        assert forall|k: int| #![trigger t.formula@[k]] 0 <= k < t.formula@.len() implies t.input_ok(k) by {
            assert(self.input_ok(k));
        }
    }

    /// The same solver, with another trail.
    pub(crate) open spec fn with_trail(&self, t: Trail) -> Solver {
        Solver { trail: t, ..*self }
    }

    /// Assigning an unassigned literal, with a reason in the arena, keeps the invariant.
    pub(crate) proof fn lemma_inv_assign(&self, t: Trail, e: crate::trail::TrailElement)
        requires
            self.inv(),
            t.wf(),
            t.elems() == self.trail.elems().push(e),
            t.assign().len() == self.trail.assign().len(),
            forall|v: int| 0 <= v < self.trail.assign().len() && #[trigger] self.trail.assign()[v].is_some()
                ==> t.assign()[v] == self.trail.assign()[v],
            e.reason is Propagated ==> self.clause_db.valid(e.reason->cls),
        ensures
            self.with_trail(t).inv(),
    {
        reveal(Solver::inv);
        let u = self.with_trail(t);
        assert forall|k: int| #![trigger u.formula@[k]] 0 <= k < u.formula@.len() implies u.input_ok(k) by {
            assert(self.input_ok(k));
            if self.formula@[k].len() == 1 && !self.trivially_unsat {
                let l = self.formula@[k][0];
                assert(t.assign()[l.var_id() as int] == self.trail.assign()[l.var_id() as int]);
            }
            if self.formula@[k].len() >= 2 {
                assert(self.clause_db.handles().contains(self.input_handles@[k]));
            }
        }
        assert forall|p: int| #![trigger t.elems()[p]]
            0 <= p < t.elems().len() && t.elems()[p].reason is Propagated
                implies self.clause_db.valid(t.elems()[p].reason->cls) by {
            if p < self.trail.elems().len() {
                assert(t.elems()[p] == self.trail.elems()[p]);
                assert(self.trail.elems()[p] == self.trail.elems()[p]);
            }
        }
        assert forall|s: int, j: int| #![trigger u.clause_db.clause(s).lits[j]]
            u.clause_db.handles().contains(s) && 0 <= j < u.clause_db.clause(s).lits.len()
                implies u.clause_db.clause(s).lits[j] / 2 <= u.n() by {
            assert(self.clause_db.clause(s).lits[j] / 2 <= self.n());
        }
    }

    /// Backtracking the trail keeps the invariant.
    pub(crate) proof fn lemma_inv_after_backtrack(mid: &Solver, new: &Solver, lvl: u32)
        requires
            mid.inv(),
            new.trail.wf(),
            *new == (Solver { trail: new.trail, unpropagated_lit_pos: new.unpropagated_lit_pos, ..*mid }),
            new.unpropagated_lit_pos <= new.trail.elems().len(),
            new.trail.assign().len() == mid.trail.assign().len(),
            forall|v: int| 0 <= v < mid.trail.assign().len() && #[trigger] new.trail.assign()[v] != mid.trail.assign()[v] ==>
                new.trail.assign()[v].is_none() && mid.trail.assign()[v].is_some()
                && mid.trail.assign()[v].unwrap().decision_level > lvl,
            new.trail.elems().len() <= mid.trail.elems().len(),
            new.trail.elems() == mid.trail.elems().subrange(0, new.trail.elems().len() as int),
        ensures
            new.inv(),
    {
        reveal(Solver::inv);
        assert forall|k: int| #![trigger new.formula@[k]] 0 <= k < new.formula@.len() implies new.input_ok(k) by {
            assert(mid.input_ok(k));
            if new.formula@[k].len() == 1 && !new.trivially_unsat {
                let l = new.formula@[k][0];
                assert(mid.trail.assign()[l.var_id() as int] == new.trail.assign()[l.var_id() as int]);
            }
        }
        assert forall|q: int| #![trigger new.trail.elems()[q]]
            0 <= q < new.trail.elems().len() && new.trail.elems()[q].reason is Propagated
                implies new.clause_db.valid(new.trail.elems()[q].reason->cls) by {
            assert(new.trail.elems()[q] == mid.trail.elems()[q]);
        }
    }

    /// Undoes the assignments above level `lvl`, and clears the reason flag of the
    /// clauses that stop being reasons. Returns the trail position where the
    /// propagation resumes.
    pub(crate) fn backtrack_to(&mut self, lvl: u32) -> (cut: usize)
        requires
            old(self).inv(),
        ensures
            final(self).inv(),
            old(self).sound() ==> final(self).sound(),
            final(self).stats == old(self).stats,
            final(self).limits == old(self).limits,
            same_clauses(old(self).clause_db, final(self).clause_db),
            final(self).watches == old(self).watches,
            final(self).formula == old(self).formula,
            final(self).input_handles == old(self).input_handles,
            final(self).trivially_unsat == old(self).trivially_unsat,
            final(self).trail.assign().len() == old(self).trail.assign().len(),
            forall|v: int| 0 <= v < old(self).trail.assign().len() && #[trigger] final(self).trail.assign()[v] != old(self).trail.assign()[v] ==>
                final(self).trail.assign()[v].is_none() && old(self).trail.assign()[v].is_some()
                && old(self).trail.assign()[v].unwrap().decision_level > lvl,
            lvl >= old(self).trail.level() ==> final(self).trail == old(self).trail,
            lvl < old(self).trail.level() ==> {
                &&& cut == old(self).trail.decisions()[lvl as int]
                &&& final(self).trail.elems() == old(self).trail.elems().subrange(0, cut as int)
                &&& final(self).trail.decisions() == old(self).trail.decisions().subrange(0, lvl as int)
                &&& forall|p: int| #![trigger old(self).trail.elems()[p]] 0 <= p < cut ==>
                    final(self).trail.assign()[old(self).trail.var_at(p)] == old(self).trail.assign()[old(self).trail.var_at(p)]
                &&& forall|p: int| #![trigger old(self).trail.elems()[p]] cut <= p < old(self).trail.elems().len() ==>
                    final(self).trail.assign()[old(self).trail.var_at(p)].is_none()
                &&& final(self).unpropagated_lit_pos <= cut
            },
    {
        proof {
            old(self).lemma_inv_basic();
        }
        let len = self.trail.assigned_vars();
        let start = match self.trail.decision_pos(lvl) {
            Some(c) => c,
            None => len,
        };
        let mut p: usize = start;
        while p < len
            invariant
                old(self).inv(),
                self.trail == old(self).trail,
                *self == old(self).with_db(self.clause_db),
                self.clause_db.wf(),
                same_clauses(old(self).clause_db, self.clause_db),
                len == self.trail.elems().len(),
            decreases len - p,
        {
            match self.trail.get(p) {
                Some(e) => {
                    match e.reason {
                        TrailReason::Propagated { cls } => {
                            proof {
                                assert(self.trail.elems()[p as int] == e);
                                old(self).lemma_reason_valid(p as int);
                                assert(self.clause_db.handles() == old(self).clause_db.handles());
                            }
                            let ghost before = self.clause_db;
                            self.clause_db.set_is_reason(cls, false);
                            proof {
                                assert forall|s: int| #[trigger] old(self).clause_db.handles().contains(s) implies
                                    self.clause_db.clause(s).lits == old(self).clause_db.clause(s).lits
                                    && self.clause_db.clause(s).glue == old(self).clause_db.clause(s).glue
                                    && self.clause_db.clause(s).garbage() == old(self).clause_db.clause(s).garbage() by {
                                    assert(before.handles().contains(s));
                                }
                            }
                        },
                        _ => {},
                    }
                },
                None => {},
            }
            p = p + 1;
        }
        proof {
            old(self).lemma_inv_same_clauses(self.clause_db);
        }
        let ghost mid = *self;
        proof {
            mid.lemma_inv_basic();
        }
        let cut = self.trail.backtrack(lvl);
        if cut < self.unpropagated_lit_pos {
            self.unpropagated_lit_pos = cut;
        }
        proof {
            if lvl < mid.trail.level() {
                assert(self.trail.elems() == mid.trail.elems().subrange(0, cut as int));
            } else {
                assert(self.trail.elems() =~= mid.trail.elems().subrange(0, self.trail.elems().len() as int));
            }
        }
        proof {
            Solver::lemma_inv_after_backtrack(&mid, self, lvl);
            if old(self).sound() {
                assert forall|s: int| #[trigger] old(self).clause_db.handles().contains(s) implies
                    forall|c: u32| #[trigger] old(self).clause_db.clause(s).lits.contains(c) ==> mid.clause_db.clause(s).lits.contains(c) by {
                    assert(mid.clause_db.clause(s).lits == old(self).clause_db.clause(s).lits);
                }
                lemma_sound_similar(old(self).formula@, old(self).clause_db, mid.clause_db, old(self).trail, old(self).trivially_unsat);
                mid.lemma_inv_basic();
                self.lemma_inv_basic();
                if lvl < mid.trail.level() {
                    assert forall|p: int| 0 <= p < self.trail.elems().len() implies #[trigger] self.trail.elems()[p].lit == mid.trail.elems()[p].lit
                        && self.trail.level_at(p) == mid.trail.level_at(p) by {
                        assert(self.trail.elems()[p] == mid.trail.elems()[p]);
                    }
                }
                lemma_sound_trail_prefix(mid.formula@, mid.clause_db, mid.trail, self.trail, mid.trivially_unsat);
            }
        }
        cut
    }

    /// Whether a clause of `n` literals still fits in the clause arena.
    pub fn has_room_for(&self, n: usize) -> (r: bool)
        ensures
            r == self.has_room(n as nat),
    {
        self.clause_db.has_room(n)
    }

    /// A clause of `n` literals still fits in the clause arena.
    pub closed spec fn has_room(&self, n: nat) -> bool {
        self.clause_db.size() + HEADER_WORDS + n <= MAX_ARENA
    }

    /// The normalized clauses added so far, tautologies left out.
    pub closed spec fn formula(&self) -> Seq<Seq<Lit>> {
        self.formula@
    }

    /// An empty clause, or a unit clause that contradicts an earlier one, was added.
    pub closed spec fn is_trivially_unsat(&self) -> bool {
        self.trivially_unsat
    }

    /// The value of `l` under the current assignment; `None` if unassigned or unknown.
    pub closed spec fn lit_value(&self, l: Lit) -> Option<bool> {
        if self.trail.holds(l) { self.trail.value(l) } else { None }
    }

    /// Adds a normalized clause: see [`Solver::add_clause`].
    fn add_normalized(&mut self, lits: Vec<Lit>)
        requires
            old(self).inv(),
            old(self).sound(),
            strictly_sorted(lits@),
            !tautology(lits@),
            old(self).clause_db.size() + HEADER_WORDS + lits@.len() <= MAX_ARENA,
        ensures
            final(self).inv(),
            final(self).sound(),
            final(self).stats == old(self).stats,
            final(self).formula@ == old(self).formula@.push(lits@),
            final(self).clause_db.size() <= old(self).clause_db.size() + HEADER_WORDS + lits@.len(),
            final(self).trivially_unsat == (old(self).trivially_unsat || lits@.len() == 0 || (lits@.len() == 1
                && final(self).lit_value(lits@[0]) == Some(false))),
            final(self).trail.level() == 0,
            lits@.len() == 0 ==> final(self).n() == old(self).n(),
            lits@.len() > 0 ==> final(self).n() == if old(self).n() >= lits@.last().var_id() { old(self).n() } else { lits@.last().var_id() },
            lits@.len() == 1 && !final(self).trivially_unsat ==> final(self).lit_value(lits@[0]) == Some(true)
                && final(self).trail.level_of(lits@[0]) == 0,
            lits@.len() >= 2 ==> {
                let h = final(self).clause_db.handles().last();
                &&& final(self).clause_db.handles() == old(self).clause_db.handles().push(h)
                &&& final(self).clause_db.clause(h).lits == crate::analyze::lits_codes(lits@)
                &&& final(self).clause_db.clause(h).glue == 0
                &&& final(self).watches@[crate::litvec::lit_slot(lits@[0])]@.last().clause.at() == h
                &&& final(self).watches@[crate::litvec::lit_slot(lits@[1])]@.last().clause.at() == h
            },
    {
        self.backtrack_to(0);
        let ghost s0 = *self;
        proof {
            s0.lemma_inv_basic();
        }
        let n = lits.len();
        if n == 0 {
            self.trivially_unsat = true;
            proof {
                self.formula@ = self.formula@.push(lits@);
                self.input_handles@ = self.input_handles@.push(-1);
                reveal(Solver::inv);
                assert forall|k: int| #![trigger self.formula@[k]] 0 <= k < self.formula@.len() implies self.input_ok(k) by {
                    if k < s0.formula@.len() {
                        assert(s0.input_ok(k));
                        assert(self.formula@[k] == s0.formula@[k]);
                    }
                }
                lemma_sound_formula_push(s0.formula@, lits@, s0.clause_db, s0.trail, s0.trivially_unsat);
                assert forall|a: spec_fn(nat) -> bool| !#[trigger] models(a, self.formula@) by {
                    if models(a, self.formula@) {
                        assert(sat_clause(a, lits@));
                    }
                }
                lemma_sound_set_unsat(self.formula@, s0.clause_db, s0.trail, s0.trivially_unsat);
            }
            return;
        }
        let last = lits[n - 1];
        let maxv = last.var();
        proof {
            assert forall|j: int| 0 <= j < n implies #[trigger] lits@[j].var_id() <= maxv.id() by {
                if j < n - 1 {
                    assert(lits@[j].code() < lits@[n - 1].code());
                }
            }
        }
        self.trail.expand(maxv);
        self.watches.expand_empty(Lit::from_var(maxv, false));
        let ghost s1 = *self;
        let ghost f1 = s0.formula@.push(lits@);
        proof {
            lemma_sound_formula_push(s0.formula@, lits@, s0.clause_db, s0.trail, s0.trivially_unsat);
            assert forall|p: int| 0 <= p < s1.trail.elems().len() implies #[trigger] s1.trail.elems()[p].lit == s0.trail.elems()[p].lit
                && s1.trail.level_at(p) == s0.trail.level_at(p) by {
                s0.trail.lemma_elem(p);
            }
            lemma_sound_trail_prefix(f1, s0.clause_db, s0.trail, s1.trail, s0.trivially_unsat);
        }
        if n == 1 {
            let l = lits[0];
            let var_id = l.var().get();
            assert(1 <= var_id);
            if self.trail.is_lit_unsatisfied(l) {
                self.trivially_unsat = true;
            } else if self.trail.is_lit_unassigned(l) {
                self.trail.assign_lit(l, TrailReason::Axiom);
            }
            proof {
                self.formula@ = self.formula@.push(lits@);
                self.input_handles@ = self.input_handles@.push(-1);
                assert(self.formula@ == f1);
                let l = lits@[0];
                if self.trivially_unsat && !s0.trivially_unsat {
                    assert forall|a: spec_fn(nat) -> bool| !#[trigger] models(a, f1) by {
                        if models(a, f1) {
                            assert(sat_clause(a, lits@));
                            assert(sat_lit(a, l));
                            lemma_false_lit(f1, s0.clause_db, s1.trail, s0.trivially_unsat, a, l);
                        }
                    }
                    lemma_sound_set_unsat(f1, s0.clause_db, s1.trail, s0.trivially_unsat);
                } else if self.trail != s1.trail {
                    let just = seq![l.code() as u32];
                    Lit::lemma_from_code_spec(l);
                    assert(Lit::from_code_spec(just[0]) == l);
                    assert forall|a: spec_fn(nat) -> bool| #[trigger] models(a, f1) implies sat_codes(a, just) by {
                        assert(sat_clause(a, lits@));
                        assert(sat_lit(a, Lit::from_code_spec(just[0])));
                    }
                    lemma_sound_assign(f1, s0.clause_db, s1.trail, self.trail, s0.trivially_unsat, l, just);
                }
            }
        } else {
            let h = self.clause_db.insert_clause(&lits, 0);
            let code0 = lits[0].get();
            assert(self.watches.holds(lits@[0]) && code0 >= 2);
            self.watches.push_at(lits[0], Watch { clause: h });
            let ghost wm = self.watches@;
            assert(lit_slot(lits@[0]) < wm.len());
            self.watches.push_at(lits[1], Watch { clause: h });
            proof {
                assert(lits@[0].code() < lits@[1].code());
                assert(lit_slot(lits@[0]) != lit_slot(lits@[1]));
                assert(self.watches@[lit_slot(lits@[0])] == wm[lit_slot(lits@[0])]);
            }
            proof {
                self.formula@ = self.formula@.push(lits@);
                self.input_handles@ = self.input_handles@.push(h.at());
                assert(self.formula@ == f1);
                let cl = self.clause_db.clause(h.at()).lits;
                assert forall|a: spec_fn(nat) -> bool| #[trigger] models(a, f1) implies sat_codes(a, cl) by {
                    assert(sat_clause(a, lits@));
                    let j = choose|j: int| 0 <= j < lits@.len() && #[trigger] sat_lit(a, lits@[j]);
                    assert(cl[j] == lits@[j].code());
                    Lit::lemma_from_code_spec(lits@[j]);
                    assert(sat_lit(a, Lit::from_code_spec(cl[j])));
                }
                lemma_sound_insert(f1, s0.clause_db, self.clause_db, s1.trail, s0.trivially_unsat, h.at());
                assert(lits@[0].code() < lits@[1].code());
                assert(cl =~= crate::analyze::lits_codes(lits@));
                assert(self.clause_db.handles().last() == h.at());
            }
        }
        proof {
            reveal(Solver::inv);
            let k0 = s0.formula@.len() as int;
            assert(s0.trail.level() == 0);
            if n >= 2 {
                assert(self.clause_db.handles()[self.clause_db.handles().len() - 1] == self.input_handles@[k0]);
            }
            assert forall|s: int| #[trigger] s0.clause_db.handles().contains(s) implies self.clause_db.handles().contains(s)
                && self.clause_db.clause(s) == s0.clause_db.clause(s) by {
                if n >= 2 {
                    let q = choose|q: int| 0 <= q < s0.clause_db.handles().len() && s0.clause_db.handles()[q] == s;
                    assert(self.clause_db.handles()[q] == s);
                }
            }
            assert forall|s: int| #[trigger] self.clause_db.handles().contains(s) implies
                s0.clause_db.handles().contains(s) || (n >= 2 && s == self.input_handles@[k0]) by {
                if n >= 2 {
                    let q = choose|q: int| 0 <= q < self.clause_db.handles().len() && self.clause_db.handles()[q] == s;
                    if q < s0.clause_db.handles().len() {
                        assert(s0.clause_db.handles()[q] == s);
                    }
                }
            }
            assert forall|s: int, j: int| #![trigger self.clause_db.clause(s).lits[j]]
                self.clause_db.handles().contains(s) && 0 <= j < self.clause_db.clause(s).lits.len()
                    implies self.clause_db.clause(s).lits[j] / 2 <= self.n() by {
                if s0.clause_db.handles().contains(s) {
                    assert(s0.clause_db.clause(s).lits[j] / 2 <= s0.n());
                } else {
                    assert(self.clause_db.clause(s).lits[j] == lits@[j].code());
                }
            }
            assert forall|i: int, j: int| #![trigger self.watches@[i]@[j]]
                0 <= i < self.watches@.len() && 0 <= j < self.watches@[i]@.len()
                    implies self.clause_db.valid(self.watches@[i]@[j].clause) by {
                if n >= 2 && (i == lit_slot(lits@[0]) || i == lit_slot(lits@[1])) && j == self.watches@[i]@.len() - 1 {
                    assert(self.clause_db.handles().contains(self.input_handles@[k0]));
                } else if i < s0.watches@.len() {
                    if n >= 2 && i == lit_slot(lits@[0]) && i == lit_slot(lits@[1]) {
                        assert(false);
                    }
                    assert(s0.clause_db.valid(s0.watches@[i]@[j].clause));
                } else {
                    assert(s1.watches@[i]@.len() == 0);
                }
            }
            assert forall|p: int| #![trigger self.trail.elems()[p]]
                0 <= p < self.trail.elems().len() && self.trail.elems()[p].reason is Propagated
                    implies self.clause_db.valid(self.trail.elems()[p].reason->cls) by {
                assert(self.trail.elems()[p] == s0.trail.elems()[p]);
                assert(s0.clause_db.valid(s0.trail.elems()[p].reason->cls));
            }
            assert forall|v: int| #![trigger s0.trail.assign()[v]] 0 <= v < s0.trail.assign().len() && s0.trail.assign()[v].is_some()
                implies self.trail.assign()[v] == s0.trail.assign()[v] by {
                assert(s1.trail.assign()[v] == s0.trail.assign()[v]);
            }
            assert(self.trail.level() == 0);
            if n == 1 && !self.trivially_unsat {
                let l = lits@[0];
                if s1.trail.value(l) == Some(true) {
                    s1.trail.lemma_assigned(l.var_id() as int);
                    assert(self.trail.assign()[l.var_id() as int] == s1.trail.assign()[l.var_id() as int]);
                }
                assert(self.trail.value(l) == Some(true) && self.trail.level_of(l) == 0);
            }
            assert forall|k: int| #![trigger self.formula@[k]] 0 <= k < self.formula@.len() implies self.input_ok(k) by {
                if k < k0 {
                    assert(s0.input_ok(k));
                    assert(self.formula@[k] == s0.formula@[k]);
                    if s0.formula@[k].len() >= 2 {
                        assert(s0.clause_db.handles().contains(s0.input_handles@[k]));
                    }
                    if s0.formula@[k].len() == 1 && !self.trivially_unsat {
                        let l = s0.formula@[k][0];
                        assert(self.trail.assign()[l.var_id() as int] == s0.trail.assign()[l.var_id() as int]);
                    }
                } else {
                    if n >= 2 {
                        let cl = self.clause_db.clause(self.input_handles@[k0]).lits;
                        assert forall|c: u32| cl.contains(c) <==> exists|j: int| 0 <= j < lits@.len() && #[trigger] lits@[j].code() == c by {
                            if cl.contains(c) {
                                let j = choose|j: int| 0 <= j < cl.len() && cl[j] == c;
                                assert(lits@[j].code() == c);
                            }
                            if exists|j: int| 0 <= j < lits@.len() && #[trigger] lits@[j].code() == c {
                                let j = choose|j: int| 0 <= j < lits@.len() && #[trigger] lits@[j].code() == c;
                                assert(cl[j] == c);
                            }
                        }
                    }
                }
            }
            assert forall|s: int| #[trigger] self.clause_db.handles().contains(s)
                implies !self.clause_db.clause(s).garbage() by {
                if s0.clause_db.handles().contains(s) {
                    assert(s0.clause_db.handles().contains(s));
                }
            }
        }
    }

    /// A solver holding the clauses of a DIMACS text, in order.
    pub fn from_dimacs(input: &str) -> (r: std::result::Result<Solver, ParseError>)
        ensures
            r matches Ok(s) ==> s.counters() == (Stats { contradictions: 0, propagations: 0, contradiction_since_last_garbage_collections: 0 }),
            r matches Ok(s) ==> s.wf() && crate::dimacs::parse_spec(input.spec_bytes()) is Ok
                && s.formula() == normal_forms(crate::dimacs::parse_spec(input.spec_bytes())->Ok_0),
            r matches Err(e) ==> e == ParseError::FormulaTooLarge
                || crate::dimacs::parse_spec(input.spec_bytes()) == Err::<Seq<Seq<int>>, ParseError>(e),
            r matches Err(e) && e == ParseError::FormulaTooLarge ==> crate::dimacs::parse_spec(input.spec_bytes()) is Ok
                && crate::dimacs::dimacs_words(crate::dimacs::parse_spec(input.spec_bytes())->Ok_0) > MAX_ARENA,
    {
        let mut clauses = match Dimacs::parse(input) {
            Ok(c) => c,
            Err(e) => {
                return Err(e);
            },
        };
        let mut solver = Solver::new();
        let mut i: usize = 0;
        let ghost parsed = crate::dimacs::clause_ints(clauses@);
        proof {
            assert(parsed.subrange(0, 0) =~= Seq::<Seq<int>>::empty());
        }
        while i < clauses.len()
            invariant
                solver.wf(),
                solver.counters() == (Stats { contradictions: 0, propagations: 0, contradiction_since_last_garbage_collections: 0 }),
                crate::dimacs::parse_spec(input.spec_bytes()) == Ok::<Seq<Seq<int>>, ParseError>(parsed),
                clauses@.len() == parsed.len(),
                forall|x: int| i <= x < clauses@.len() ==> crate::dimacs::ints(#[trigger] clauses@[x]@) == parsed[x],
                solver.formula() == normal_forms(parsed.subrange(0, i as int)),
                solver.arena_size() <= crate::dimacs::dimacs_words(parsed.subrange(0, i as int)),
                literals_ok(clauses@),
                i <= clauses@.len(),
            decreases clauses@.len() - i,
        {
            let mut c: Vec<i32> = Vec::new();
            let ghost before = clauses@;
            std::mem::swap(&mut clauses[i], &mut c);
            proof {
                assert(c@ == before[i as int]@);
                assert forall|x: int, y: int| 0 <= x < clauses@.len() && 0 <= y < clauses@[x]@.len() implies
                    #[trigger] clauses@[x]@[y] != 0 && -(MAX_VAR as int) <= clauses@[x]@[y] <= MAX_VAR by {
                    if x != i {
                        assert(clauses@[x] == before[x]);
                    }
                }
                assert forall|y: int| 0 <= y < c@.len() implies #[trigger] c@[y] != 0 && -(MAX_VAR as int) <= c@[y] <= MAX_VAR by {
                    assert(before[i as int]@[y] == c@[y]);
                }
            }
            if !solver.has_room_for(c.len()) {
                proof {
                    let p1 = parsed.subrange(0, i + 1);
                    assert(p1.drop_last() =~= parsed.subrange(0, i as int));
                    assert(p1.last() == parsed[i as int]);
                    assert(crate::dimacs::ints(c@).len() == c@.len());
                    crate::dimacs::lemma_words_prefix(parsed, i + 1);
                }
                return Err(ParseError::FormulaTooLarge);
            }
            let ghost f0 = solver.formula();
            solver.add_clause(c);
            proof {
                let ci = parsed[i as int];
                assert(crate::dimacs::ints(c@) == ci);
                let dl = dimacs_lits(ci);
                assert(dl =~= Seq::new(c@.len(), |k: int| Lit::from_code_spec(int_code(c@[k] as int) as u32)));
                let p1 = parsed.subrange(0, i + 1);
                assert(p1.drop_last() =~= parsed.subrange(0, i as int));
                assert(p1.last() == ci);
                assert(ci.len() == c@.len());
                if !tautology(dl) {
                    lemma_is_normal_form(solver.formula().last(), dl);
                    assert(solver.formula() =~= f0.push(normal_form(dl)));
                }
                assert forall|x: int| i + 1 <= x < clauses@.len() implies crate::dimacs::ints(#[trigger] clauses@[x]@) == parsed[x] by {
                    assert(clauses@[x] == before[x]);
                }
            }
            i = i + 1;
        }
        proof {
            assert(parsed.subrange(0, parsed.len() as int) =~= parsed);
        }
        Ok(solver)
    }

    /// Adds a clause, given as non-zero DIMACS integers. Tautologies are dropped; the
    /// empty clause makes the formula trivially unsatisfiable; a unit clause assigns its
    /// literal at level zero, or makes the formula trivially unsatisfiable if that
    /// literal is false there; longer clauses go into the arena, watched by their first
    /// two literals.
    pub fn add_clause(&mut self, cls: Vec<i32>)
        requires
            old(self).wf(),
            forall|i: int| 0 <= i < cls@.len() ==> #[trigger] cls@[i] != 0 && -(MAX_VAR as int) <= cls@[i] <= MAX_VAR,
            old(self).has_room(cls@.len() as nat)
                || tautology(Seq::new(cls@.len(), |i: int| Lit::from_code_spec(int_code(cls@[i] as int) as u32))),
        ensures
            final(self).wf(),
            final(self).counters() == old(self).counters(),
            final(self).arena_size() <= old(self).arena_size() + HEADER_WORDS + cls@.len(),
            tautology(Seq::new(cls@.len(), |i: int| Lit::from_code_spec(int_code(cls@[i] as int) as u32))) ==> *final(self) == *old(self),
            !tautology(Seq::new(cls@.len(), |i: int| Lit::from_code_spec(int_code(cls@[i] as int) as u32))) ==> {
                &&& final(self).formula().len() == old(self).formula().len() + 1
                &&& final(self).formula().subrange(0, old(self).formula().len() as int) == old(self).formula()
                &&& strictly_sorted(final(self).formula().last())
                &&& same_lits(final(self).formula().last(), Seq::new(cls@.len(), |i: int| Lit::from_code_spec(int_code(cls@[i] as int) as u32)))
                &&& final(self).is_trivially_unsat() == (old(self).is_trivially_unsat() || cls@.len() == 0
                    || final(self).formula().last().len() == 0 || (final(self).formula().last().len() == 1
                    && final(self).lit_value(final(self).formula().last()[0]) == Some(false)))
                &&& final(self).decision_level() == 0
                &&& final(self).formula().last().len() == 0 ==> final(self).num_vars() == old(self).num_vars()
                &&& final(self).formula().last().len() > 0 ==> final(self).num_vars() == if old(self).num_vars()
                    >= final(self).formula().last().last().var_id() { old(self).num_vars() } else { final(self).formula().last().last().var_id() }
                &&& final(self).formula().last().len() == 1 && !final(self).is_trivially_unsat() ==>
                    final(self).lit_value(final(self).formula().last()[0]) == Some(true)
                    && final(self).lit_level(final(self).formula().last()[0]) == 0
                &&& final(self).formula().last().len() >= 2 ==> {
                    let c = final(self).formula().last();
                    let h = final(self).arena_handles().last();
                    &&& final(self).arena_handles() == old(self).arena_handles().push(h)
                    &&& final(self).clause_lits(h) == crate::analyze::lits_codes(c)
                    &&& final(self).clause_glue(h) == 0
                    &&& final(self).watch_list(c[0]).last().clause.at() == h
                    &&& final(self).watch_list(c[1]).last().clause.at() == h
                }
            },
    {
        let mut lits: Vec<Lit> = Vec::new();
        let mut i: usize = 0;
        while i < cls.len()
            invariant
                i <= cls@.len(),
                lits@.len() == i,
                forall|k: int| 0 <= k < cls@.len() ==> #[trigger] cls@[k] != 0 && -(MAX_VAR as int) <= cls@[k] <= MAX_VAR,
                forall|k: int| 0 <= k < i ==> #[trigger] lits@[k] == Lit::from_code_spec(int_code(cls@[k] as int) as u32),
            decreases cls@.len() - i,
        {
            let l = Lit::new(cls[i]);
            proof {
                Lit::lemma_from_code_spec(l);
            }
            lits.push(l);
            i = i + 1;
        }
        let ghost input = lits@;
        proof {
            assert(input =~= Seq::new(cls@.len(), |i: int| Lit::from_code_spec(int_code(cls@[i] as int) as u32)));
        }
        if normalise_clause(&mut lits) {
            return;
        }
        proof {
            crate::normalize::lemma_tautology_same_lits(lits@, input);
            crate::normalize::lemma_sorted_len(lits@, input);
        }
        self.add_normalized(lits);
    }

    /// With every variable assigned, finds a clause of the arena none of whose literals
    /// is true, which then has all its literals false.
    fn check_assignment(&self) -> (r: Option<ClauseIdx>)
        requires
            self.inv(),
            forall|v: int| 1 <= v < self.trail.assign().len() ==> (#[trigger] self.trail.assign()[v]).is_some(),
        ensures
            r matches Some(h) ==> self.clause_db.valid(h) && clause_false(self.clause_db, self.trail, h.at()),
            r is None ==> forall|s: int| #[trigger] self.clause_db.handles().contains(s) ==> clause_true(self.clause_db, self.trail, s),
    {
        proof {
            self.lemma_inv_basic();
        }
        let hs = self.clause_db.iter();
        let mut i: usize = 0;
        while i < hs.len()
            invariant
                self.inv(),
                self.clause_db.wf(),
                forall|v: int| 1 <= v < self.trail.assign().len() ==> (#[trigger] self.trail.assign()[v]).is_some(),
                hs@.len() == self.clause_db.handles().len(),
                forall|k: int| 0 <= k < hs@.len() ==> #[trigger] hs@[k].at() == self.clause_db.handles()[k],
                i <= hs@.len(),
                forall|k: int| 0 <= k < i ==> clause_true(self.clause_db, self.trail, #[trigger] self.clause_db.handles()[k]),
            decreases hs@.len() - i,
        {
            let h = hs[i];
            proof {
                assert(self.clause_db.handles()[i as int] == h.at());
                assert(self.clause_db.valid(h));
                self.lemma_clause_lits(h);
            }
            let c = self.clause_db.get(h);
            if !self.trail.is_clause_satisfied(&c) {
                proof {
                    let cv = self.clause_db.clause(h.at());
                    assert forall|j: int| 0 <= j < cv.lits.len() implies
                        #[trigger] self.trail.value(Lit::from_code_spec(cv.lits[j])) == Some(false) by {
                        assert(self.code_ok(cv.lits[j]));
                        let l = Lit::from_code_spec(cv.lits[j]);
                        assert(self.trail.assign()[l.var_id() as int].is_some()) by {
                            crate::lit::Lit::lemma_from_code_code(cv.lits[j]);
                        }
                    }
                }
                return Some(h);
            }
            proof {
                let cv = self.clause_db.clause(h.at());
                assert(c.view() == cv);
                let j = choose|j: int| 0 <= j < c.view().lits.len()
                    && crate::assignment::lit_value(self.trail.assign(), #[trigger] Lit::from_code_spec(c.view().lits[j])) == Some(true);
                assert(self.trail.value(Lit::from_code_spec(cv.lits[j])) == Some(true));
                assert(self.clause_db.handles()[i as int] == h.at());
                assert(clause_true(self.clause_db, self.trail, h.at()));
            }
            i = i + 1;
        }
        proof {
            assert forall|s: int| #[trigger] self.clause_db.handles().contains(s) implies clause_true(self.clause_db, self.trail, s) by {
                let k = choose|k: int| 0 <= k < self.clause_db.handles().len() && self.clause_db.handles()[k] == s;
            }
        }
        None
    }

    /// When every clause of the arena has a true literal, so does every clause of the formula.
    proof fn lemma_formula_satisfied(&self)
        requires
            self.inv(),
            !self.trivially_unsat,
            forall|s: int| #[trigger] self.clause_db.handles().contains(s) ==> clause_true(self.clause_db, self.trail, s),
        ensures
            forall|k: int| 0 <= k < self.formula@.len() ==> lits_true(self.trail, #[trigger] self.formula@[k]),
    {
        reveal(Solver::inv);
        assert forall|k: int| 0 <= k < self.formula@.len() implies lits_true(self.trail, #[trigger] self.formula@[k]) by {
            let f = self.formula@[k];
            assert(self.input_ok(k));
            if f.len() == 1 {
                assert(self.trail.holds(f[0]) && self.trail.value(f[0]) == Some(true));
                assert(0 <= 0 < self.formula@[k].len() && self.trail.holds(self.formula@[k][0])
                    && self.trail.value(self.formula@[k][0]) == Some(true));
            } else if f.len() >= 2 {
                let s = self.input_handles@[k];
                assert(clause_true(self.clause_db, self.trail, s));
                let cv = self.clause_db.clause(s);
                let j = choose|j: int| 0 <= j < cv.lits.len() && #[trigger] self.trail.value(Lit::from_code_spec(cv.lits[j])) == Some(true);
                let c = cv.lits[j];
                assert(cv.lits.contains(c));
                let i = choose|i: int| 0 <= i < f.len() && #[trigger] f[i].code() == c;
                Lit::lemma_from_code_spec(f[i]);
                assert(Lit::from_code_spec(c) == f[i]);
                self.clause_db.lemma_handle(s);
                self.lemma_clause_lits(ClauseIdx::from_at(s));
                assert(self.code_ok(cv.lits[j]));
                assert(self.trail.holds(f[i]));
                assert(0 <= i < self.formula@[k].len() && self.trail.holds(self.formula@[k][i])
                    && self.trail.value(self.formula@[k][i]) == Some(true));
            }
        }
    }

    /// Decides the search: CDCL until every variable is assigned without conflict (the
    /// formula is satisfiable, and the trail is a model), or until a conflict at level
    /// zero (it is not).
    pub fn solve(&mut self) -> (r: Result<'_>)
        requires
            old(self).wf(),
        ensures
            old(self).is_trivially_unsat() ==> r is Unsat && *final(self) == *old(self),
            r matches Result::Sat(m) ==> m.wf() && m.satisfies(old(self).formula()) && m.num_vars() == old(self).num_vars(),
            r is Unsat ==> forall|a: spec_fn(nat) -> bool| !#[trigger] models(a, old(self).formula()),
    {
        if self.trivially_unsat {
            proof {
                lemma_sound_unsat(self.formula@, self.clause_db, self.trail, self.trivially_unsat);
            }
            return Result::Unsat(Proof);
        }
        proof {
            self.lemma_inv_basic();
        }
        let ghost n = self.n();
        loop
            invariant
                self.inv(),
                self.sound(),
                self.formula == old(self).formula,
                !self.trivially_unsat,
                !old(self).trivially_unsat,
                self.n() == n,
                n == old(self).n(),
            decreases rank_limit(n) - rank(n, self.trail.levels()),
        {
            proof {
                self.lemma_inv_basic();
                self.trail.lemma_levels_bounded();
                lemma_rank_bound(n, self.trail.levels());
            }
            let ghost l0 = self.trail.levels();
            let res = self.propagate();
            let ghost l1 = self.trail.levels();
            proof {
                self.lemma_inv_basic();
                self.trail.lemma_levels_bounded();
                assert(l1 =~= l0 + l1.subrange(l0.len() as int, l1.len() as int));
                lemma_rank_extend(n, l0, l1.subrange(l0.len() as int, l1.len() as int));
            }
            let conflict = match res {
                PropagationResult::Contradiction(c) => c,
                PropagationResult::Done => {
                    self.maybe_collect_garbage();
                    let ghost l2 = self.trail.levels();
                    proof {
                        self.lemma_inv_basic();
                    }
                    match self.trail.find_unassigned_variable() {
                        Some(v) => {
                            self.decide(v);
                            proof {
                                self.lemma_inv_basic();
                                self.trail.lemma_levels_bounded();
                                assert(self.trail.levels() =~= l1 + seq![self.trail.level()]);
                                lemma_rank_extend(n, l1, seq![self.trail.level()]);
                                assert(rank(n, self.trail.levels()) > rank(n, l1));
                                assert(rank(n, l1) >= rank(n, l0));
                                lemma_rank_bound(n, self.trail.levels());
                            }
                            continue;
                        },
                        None => {
                            match self.check_assignment() {
                                Some(c) => c,
                                None => {
                                    let m = Model { assignment: &self.trail };
                                    proof {
                                        self.lemma_formula_satisfied();
                                        let f = old(self).formula();
                                        m.lemma_satisfies(f);
                                    }
                                    assert(m.wf());
                                    assert(m.satisfies(old(self).formula()));
                                    return Result::Sat(m);
                                },
                            }
                        },
                    }
                },
            };
            if self.analyze_contradiction(conflict) == AnalyzeResult::Unsat {
                return Result::Unsat(Proof);
            }
            proof {
                self.lemma_inv_basic();
                self.trail.lemma_levels_bounded();
                let (c, x) = choose|c: int, x: int| 0 <= c < l1.len() && 0 <= x < l1[c] && self.trail.levels() == l1.subrange(0, c).push(x);
                lemma_rank_backjump(n, l1, c, x);
                lemma_rank_bound(n, self.trail.levels());
            }
        }
    }

    /// Makes variable `v` true as a new decision.
    fn decide(&mut self, v: Var)
        requires
            old(self).inv(),
            old(self).sound(),
            1 <= v.id() < old(self).trail.assign().len(),
            old(self).trail.assign()[v.id() as int].is_none(),
        ensures
            final(self).inv(),
            final(self).sound(),
            final(self).formula == old(self).formula,
            final(self).trivially_unsat == old(self).trivially_unsat,
            final(self).n() == old(self).n(),
            final(self).trail.levels() == old(self).trail.levels().push(final(self).trail.level()),
    {
        proof {
            self.lemma_inv_basic();
        }
        let l = Lit::from_var(v, true);
        self.trail.assign_lit(l, TrailReason::Decision);
        proof {
            old(self).lemma_inv_assign(self.trail, crate::trail::TrailElement { lit: l, reason: TrailReason::Decision });
            assert(*self == old(self).with_trail(self.trail));
            assert forall|p: int| 0 <= p < old(self).trail.elems().len() implies #[trigger] self.trail.elems()[p] == old(self).trail.elems()[p] by {}
            lemma_sound_decide(old(self).formula@, old(self).clause_db, old(self).trail, self.trail, old(self).trivially_unsat);
        }
    }

    /// The arena and the trail follow from the formula.
    pub(crate) open spec fn sound(&self) -> bool {
        sound_parts(self.formula@, self.clause_db, self.trail, self.trivially_unsat)
    }

    /// The solver's internal invariant holds, and what it derived follows from the formula.
    pub closed spec fn wf(&self) -> bool {
        self.inv() && self.sound()
    }

    pub fn new() -> (r: Solver)
        ensures
            r.wf(),
            r.num_vars() == 0,
            r.arena_size() == 0,
            r.counters() == (Stats { contradictions: 0, propagations: 0, contradiction_since_last_garbage_collections: 0 }),
            r.formula() == Seq::<Seq<Lit>>::empty(),
            !r.is_trivially_unsat(),
    {
        let r = Solver {
            clause_db: ClauseDB::new(),
            watches: LitVec::new(),
            trail: Trail::new(),
            unpropagated_lit_pos: 0,
            trivially_unsat: false,
            stats: Stats::new(),
            analyze_state: AnalyzeState::new(),
            limits: Limits::new(),
            formula: Ghost(Seq::empty()),
            input_handles: Ghost(Seq::empty()),
        };
        proof {
            reveal(Solver::inv);
            reveal(sound_parts);
        }
        r
    }
}

} // verus!
