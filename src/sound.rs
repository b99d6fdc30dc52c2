//! What a verdict of unsatisfiability rests on: every clause of the arena follows from
//! the formula, and every literal on the trail follows from the formula and the
//! decisions up to its level.
use vstd::prelude::*;

use crate::clause::ClauseDB;
use crate::lit::Lit;
use crate::trail::Trail;

verus! {

/// The assignment `a`, a truth value per variable id, makes `l` true.
pub open spec fn sat_lit(a: spec_fn(nat) -> bool, l: Lit) -> bool {
    a(l.var_id()) == l.positive()
}

/// `a` makes some literal of `c` true.
pub open spec fn sat_clause(a: spec_fn(nat) -> bool, c: Seq<Lit>) -> bool {
    exists|j: int| 0 <= j < c.len() && #[trigger] sat_lit(a, c[j])
}

/// `a` satisfies every clause of `f`.
pub open spec fn models(a: spec_fn(nat) -> bool, f: Seq<Seq<Lit>>) -> bool {
    forall|k: int| 0 <= k < f.len() ==> #[trigger] sat_clause(a, f[k])
}

/// `a` makes some literal of the clause with literal codes `c` true.
pub open spec fn sat_codes(a: spec_fn(nat) -> bool, c: Seq<u32>) -> bool {
    exists|j: int| 0 <= j < c.len() && #[trigger] sat_lit(a, Lit::from_code_spec(c[j]))
}

/// Every model of `f` satisfies the clause with literal codes `c`.
pub open spec fn implies_codes(f: Seq<Seq<Lit>>, c: Seq<u32>) -> bool {
    forall|a: spec_fn(nat) -> bool| #[trigger] models(a, f) ==> sat_codes(a, c)
}

/// `a` makes true the decisions of the first `k` levels of `t`.
pub open spec fn agrees(a: spec_fn(nat) -> bool, t: Trail, k: int) -> bool {
    forall|i: int| 0 <= i < k ==> #[trigger] sat_lit(a, t.elems()[t.decisions()[i] as int].lit)
}

/// Every clause of `db` follows from `f`; every literal of `t` follows from `f` and the
/// decisions up to its level; and a formula flagged unsatisfiable has no model.
#[verifier::opaque]
pub open spec fn sound_parts(f: Seq<Seq<Lit>>, db: ClauseDB, t: Trail, unsat: bool) -> bool {
    &&& forall|s: int| #[trigger] db.handles().contains(s) ==> implies_codes(f, db.clause(s).lits)
    &&& forall|p: int, a: spec_fn(nat) -> bool| #![trigger t.elems()[p], models(a, f)]
        0 <= p < t.elems().len() && models(a, f) && agrees(a, t, t.level_at(p)) ==> sat_lit(a, t.elems()[p].lit)
    &&& unsat ==> forall|a: spec_fn(nat) -> bool| !#[trigger] models(a, f)
}

/// Agreeing with more decisions implies agreeing with fewer.
pub proof fn lemma_agrees_prefix(a: spec_fn(nat) -> bool, t: Trail, k: int, j: int)
    requires
        agrees(a, t, k),
        j <= k,
    ensures
        agrees(a, t, j),
{
}

/// A literal that is false on a sound trail is false in every model of the formula that
/// agrees with the decisions of the trail.
pub proof fn lemma_false_lit(f: Seq<Seq<Lit>>, db: ClauseDB, t: Trail, u: bool, a: spec_fn(nat) -> bool, m: Lit)
    requires
        sound_parts(f, db, t, u),
        t.wf(),
        models(a, f),
        agrees(a, t, t.level()),
        1 <= m.var_id(),
        t.holds(m),
        t.value(m) == Some(false),
    ensures
        !sat_lit(a, m),
{
    reveal(sound_parts);
    let p = t.lemma_assigned(m.var_id() as int);
    t.lemma_elem(p);
    lemma_agrees_prefix(a, t, t.level(), t.level_at(p));
    assert(sat_lit(a, t.elems()[p].lit));
}

/// Extending a sound trail by a literal that a clause following from the formula forces,
/// its other literals being false, keeps the trail sound.
pub proof fn lemma_sound_assign(f: Seq<Seq<Lit>>, db: ClauseDB, t: Trail, t2: Trail, u: bool, l: Lit, just: Seq<u32>)
    requires
        sound_parts(f, db, t, u),
        t.wf(),
        t2.wf(),
        implies_codes(f, just),
        t2.elems().len() == t.elems().len() + 1,
        t2.elems().last().lit == l,
        forall|p: int| 0 <= p < t.elems().len() ==> #[trigger] t2.elems()[p] == t.elems()[p],
        t2.decisions() == t.decisions(),
        t2.levels() == t.levels().push(t2.level()),
        exists|j: int| 0 <= j < just.len() && Lit::from_code_spec(just[j]) == l,
        forall|j: int| 0 <= j < just.len() && #[trigger] Lit::from_code_spec(just[j]) != l ==>
            1 <= Lit::from_code_spec(just[j]).var_id() && t.holds(Lit::from_code_spec(just[j]))
            && t.value(Lit::from_code_spec(just[j])) == Some(false),
    ensures
        sound_parts(f, db, t2, u),
{
    reveal(sound_parts);
    let n = t.elems().len() as int;
    assert forall|i: int| 0 <= i < t.decisions().len() implies #[trigger] t.decisions()[i] < n by {
        t.lemma_decision(i);
    }
    assert forall|a: spec_fn(nat) -> bool, k: int| 0 <= k <= t.level() implies (agrees(a, t2, k) <==> #[trigger] agrees(a, t, k)) by {
        assert forall|i: int| 0 <= i < k implies t2.elems()[t2.decisions()[i] as int] == t.elems()[t.decisions()[i] as int] by {
            assert(t.decisions()[i] < n);
        }
    }
    assert forall|p: int, a: spec_fn(nat) -> bool| #![trigger t2.elems()[p], models(a, f)]
        0 <= p < t2.elems().len() && models(a, f) && agrees(a, t2, t2.level_at(p)) implies sat_lit(a, t2.elems()[p].lit) by {
        assert(t2.levels()[p] == t2.level_at(p));
        if p < n {
            assert(t.levels()[p] == t.level_at(p));
            t.lemma_elem(p);
            assert(agrees(a, t, t.level_at(p)));
        } else {
            assert(agrees(a, t, t.level()));
            assert(sat_codes(a, just));
            let j = choose|j: int| 0 <= j < just.len() && #[trigger] sat_lit(a, Lit::from_code_spec(just[j]));
            if Lit::from_code_spec(just[j]) != l {
                lemma_false_lit(f, db, t, u, a, Lit::from_code_spec(just[j]));
            }
        }
    }
}

/// Adding a decision keeps the trail sound.
pub proof fn lemma_sound_decide(f: Seq<Seq<Lit>>, db: ClauseDB, t: Trail, t2: Trail, u: bool)
    requires
        sound_parts(f, db, t, u),
        t.wf(),
        t2.elems().len() == t.elems().len() + 1,
        forall|p: int| 0 <= p < t.elems().len() ==> #[trigger] t2.elems()[p] == t.elems()[p],
        t2.decisions() == t.decisions().push(t.elems().len() as usize),
        t2.levels() == t.levels().push(t2.level()),
    ensures
        sound_parts(f, db, t2, u),
{
    reveal(sound_parts);
    let n = t.elems().len() as int;
    assert forall|i: int| 0 <= i < t.decisions().len() implies #[trigger] t.decisions()[i] < n by {
        t.lemma_decision(i);
    }
    assert forall|p: int, a: spec_fn(nat) -> bool| #![trigger t2.elems()[p], models(a, f)]
        0 <= p < t2.elems().len() && models(a, f) && agrees(a, t2, t2.level_at(p)) implies sat_lit(a, t2.elems()[p].lit) by {
        assert(t2.levels()[p] == t2.level_at(p));
        if p < n {
            assert(t.levels()[p] == t.level_at(p));
            t.lemma_elem(p);
            assert(t2.levels()[p] == t.levels()[p]);
            assert forall|i: int| 0 <= i < t.level_at(p) implies #[trigger] sat_lit(a, t.elems()[t.decisions()[i] as int].lit) by {
                assert(t.decisions()[i] < n);
                assert(t2.decisions()[i] == t.decisions()[i]);
                assert(sat_lit(a, t2.elems()[t2.decisions()[i] as int].lit));
            }
            assert(agrees(a, t, t.level_at(p)));
            assert(sat_lit(a, t.elems()[p].lit));
        } else {
            let k = t.decisions().len() as int;
            t.lemma_len_bound();
            assert(p == n);
            assert(t2.level_at(p) == k + 1);
            assert(t2.decisions()[k] == n);
            assert(sat_lit(a, t2.elems()[t2.decisions()[k] as int].lit));
        }
    }
}

/// Keeping a prefix of the trail, with its levels and decisions, keeps it sound; so does
/// any change of the trail that keeps its literals, levels and decisions.
pub proof fn lemma_sound_trail_prefix(f: Seq<Seq<Lit>>, db: ClauseDB, t: Trail, t2: Trail, u: bool)
    requires
        sound_parts(f, db, t, u),
        t2.wf(),
        t2.elems().len() <= t.elems().len(),
        forall|p: int| 0 <= p < t2.elems().len() ==> #[trigger] t2.elems()[p].lit == t.elems()[p].lit
            && t2.level_at(p) == t.level_at(p),
        t2.decisions().len() <= t.decisions().len(),
        forall|i: int| 0 <= i < t2.decisions().len() ==> #[trigger] t2.decisions()[i] == t.decisions()[i],
    ensures
        sound_parts(f, db, t2, u),
{
    reveal(sound_parts);
    assert forall|p: int, a: spec_fn(nat) -> bool| #![trigger t2.elems()[p], models(a, f)]
        0 <= p < t2.elems().len() && models(a, f) && agrees(a, t2, t2.level_at(p)) implies sat_lit(a, t2.elems()[p].lit) by {
        t2.lemma_elem(p);
        assert forall|i: int| 0 <= i < t.level_at(p) implies #[trigger] sat_lit(a, t.elems()[t.decisions()[i] as int].lit) by {
            t2.lemma_decision(i);
            assert(sat_lit(a, t2.elems()[t2.decisions()[i] as int].lit));
        }
        assert(t.elems()[p] == t.elems()[p]);
    }
}

/// Replacing the arena by one whose every clause has the literals of a clause of the
/// old one keeps the state sound.
pub proof fn lemma_sound_db(f: Seq<Seq<Lit>>, db: ClauseDB, db2: ClauseDB, t: Trail, u: bool)
    requires
        sound_parts(f, db, t, u),
        forall|s: int| #[trigger] db2.handles().contains(s) ==> exists|o: int| db.handles().contains(o)
            && forall|c: u32| #[trigger] db.clause(o).lits.contains(c) ==> db2.clause(s).lits.contains(c),
    ensures
        sound_parts(f, db2, t, u),
{
    reveal(sound_parts);
    assert forall|s: int| #[trigger] db2.handles().contains(s) implies implies_codes(f, db2.clause(s).lits) by {
        let o = choose|o: int| db.handles().contains(o)
            && forall|c: u32| #[trigger] db.clause(o).lits.contains(c) ==> db2.clause(s).lits.contains(c);
        assert forall|a: spec_fn(nat) -> bool| #[trigger] models(a, f) implies sat_codes(a, db2.clause(s).lits) by {
            assert(implies_codes(f, db.clause(o).lits));
            assert(sat_codes(a, db.clause(o).lits));
            let j = choose|j: int| 0 <= j < db.clause(o).lits.len() && #[trigger] sat_lit(a, Lit::from_code_spec(db.clause(o).lits[j]));
            let c = db.clause(o).lits[j];
            assert(db.clause(o).lits.contains(c));
            assert(db2.clause(s).lits.contains(c));
            let j2 = choose|j2: int| 0 <= j2 < db2.clause(s).lits.len() && db2.clause(s).lits[j2] == c;
            assert(sat_lit(a, Lit::from_code_spec(db2.clause(s).lits[j2])));
        }
    }
}

/// Adding to the arena a clause that follows from the formula keeps the state sound.
pub proof fn lemma_sound_insert(f: Seq<Seq<Lit>>, db: ClauseDB, db2: ClauseDB, t: Trail, u: bool, h: int)
    requires
        sound_parts(f, db, t, u),
        db2.handles() == db.handles().push(h),
        forall|s: int| #[trigger] db.handles().contains(s) ==> db2.clause(s) == db.clause(s),
        implies_codes(f, db2.clause(h).lits),
    ensures
        sound_parts(f, db2, t, u),
{
    reveal(sound_parts);
    assert forall|s: int| #[trigger] db2.handles().contains(s) implies implies_codes(f, db2.clause(s).lits) by {
        let q = choose|q: int| 0 <= q < db2.handles().len() && db2.handles()[q] == s;
        if q < db.handles().len() {
            assert(db.handles()[q] == s);
            assert(db.handles().contains(s));
        }
    }
}

/// A larger formula has fewer models, so what followed from the old one still follows.
pub proof fn lemma_sound_formula_push(f: Seq<Seq<Lit>>, c: Seq<Lit>, db: ClauseDB, t: Trail, u: bool)
    requires
        sound_parts(f, db, t, u),
    ensures
        sound_parts(f.push(c), db, t, u),
        forall|a: spec_fn(nat) -> bool| #[trigger] models(a, f.push(c)) ==> models(a, f) && sat_clause(a, c),
{
    reveal(sound_parts);
    let g = f.push(c);
    assert forall|a: spec_fn(nat) -> bool| #[trigger] models(a, g) implies models(a, f) && sat_clause(a, c) by {
        assert forall|k: int| 0 <= k < f.len() implies #[trigger] sat_clause(a, f[k]) by {
            assert(g[k] == f[k]);
            assert(sat_clause(a, g[k]));
        }
        assert(g[f.len() as int] == c);
        assert(sat_clause(a, g[f.len() as int]));
    }
}

/// All literals of the clause with codes `c` over known variables are false on `t`.
pub open spec fn codes_false(t: Trail, c: Seq<u32>) -> bool {
    forall|j: int| 0 <= j < c.len() ==> 2 <= #[trigger] c[j] && c[j] / 2 <= t.num_vars()
        && t.value(Lit::from_code_spec(c[j])) == Some(false)
}

/// A clause following from the formula that is false on a sound trail is false in every
/// model agreeing with the trail's decisions, so there is no such model.
pub proof fn lemma_conflict_no_model(f: Seq<Seq<Lit>>, db: ClauseDB, t: Trail, u: bool, c: Seq<u32>, a: spec_fn(nat) -> bool)
    requires
        sound_parts(f, db, t, u),
        t.wf(),
        implies_codes(f, c),
        codes_false(t, c),
        models(a, f),
    ensures
        !agrees(a, t, t.level()),
{
    if agrees(a, t, t.level()) {
        assert(sat_codes(a, c));
        let j = choose|j: int| 0 <= j < c.len() && #[trigger] sat_lit(a, Lit::from_code_spec(c[j]));
        let m = Lit::from_code_spec(c[j]);
        Lit::lemma_from_code_code(c[j]);
        t.lemma_len_bound();
        lemma_false_lit(f, db, t, u, a, m);
    }
}

/// The code of the negation of `l`.
pub open spec fn neg_code(l: Lit) -> u32 {
    if l.positive() { (l.code() + 1) as u32 } else { (l.code() - 1) as u32 }
}

/// The clause of the negated decisions of `t`.
pub open spec fn decisions_clause(t: Trail) -> Seq<u32> {
    Seq::new(t.level() as nat, |i: int| neg_code(t.elems()[t.decisions()[i] as int].lit))
}

/// A conflict on a sound trail shows that the decisions cannot all hold together.
pub proof fn lemma_conflict_decisions(f: Seq<Seq<Lit>>, db: ClauseDB, t: Trail, u: bool, c: Seq<u32>)
    requires
        sound_parts(f, db, t, u),
        t.wf(),
        implies_codes(f, c),
        codes_false(t, c),
    ensures
        implies_codes(f, decisions_clause(t)),
{
    let dc = decisions_clause(t);
    assert forall|a: spec_fn(nat) -> bool| #[trigger] models(a, f) implies sat_codes(a, dc) by {
        lemma_conflict_no_model(f, db, t, u, c, a);
        let i = choose|i: int| 0 <= i < t.level() && !#[trigger] sat_lit(a, t.elems()[t.decisions()[i] as int].lit);
        t.lemma_decision(i);
        let d = t.elems()[t.decisions()[i] as int].lit;
        t.lemma_elem(t.decisions()[i] as int);
        t.lemma_len_bound();
        Lit::lemma_from_code_code(neg_code(d));
        assert(sat_lit(a, Lit::from_code_spec(dc[i])));
    }
}

/// At level zero, a conflict on a clause following from the formula leaves it no model.
pub proof fn lemma_conflict_level_zero(f: Seq<Seq<Lit>>, db: ClauseDB, t: Trail, u: bool, c: Seq<u32>)
    requires
        sound_parts(f, db, t, u),
        t.wf(),
        t.level() == 0,
        implies_codes(f, c),
        codes_false(t, c),
    ensures
        forall|a: spec_fn(nat) -> bool| !#[trigger] models(a, f),
{
    assert forall|a: spec_fn(nat) -> bool| !#[trigger] models(a, f) by {
        if models(a, f) {
            lemma_conflict_no_model(f, db, t, u, c, a);
        }
    }
}

/// Reordering the literals of clauses, or changing their flags, keeps the state sound.
pub proof fn lemma_sound_similar(f: Seq<Seq<Lit>>, db: ClauseDB, db2: ClauseDB, t: Trail, u: bool)
    requires
        sound_parts(f, db, t, u),
        db2.handles() == db.handles(),
        forall|s: int| #[trigger] db.handles().contains(s) ==>
            forall|c: u32| #[trigger] db.clause(s).lits.contains(c) ==> db2.clause(s).lits.contains(c),
    ensures
        sound_parts(f, db2, t, u),
{
    assert forall|s: int| #[trigger] db2.handles().contains(s) implies exists|o: int| db.handles().contains(o)
        && forall|c: u32| #[trigger] db.clause(o).lits.contains(c) ==> db2.clause(s).lits.contains(c) by {
        assert(db.handles().contains(s));
    }
    lemma_sound_db(f, db, db2, t, u);
}

/// Every clause of the arena of a sound state follows from the formula.
pub proof fn lemma_sound_clause(f: Seq<Seq<Lit>>, db: ClauseDB, t: Trail, u: bool, s: int)
    requires
        sound_parts(f, db, t, u),
        db.handles().contains(s),
    ensures
        implies_codes(f, db.clause(s).lits),
{
    reveal(sound_parts);
}

/// A sound state flagged unsatisfiable has no model.
pub proof fn lemma_sound_unsat(f: Seq<Seq<Lit>>, db: ClauseDB, t: Trail, u: bool)
    requires
        sound_parts(f, db, t, u),
        u,
    ensures
        forall|a: spec_fn(nat) -> bool| !#[trigger] models(a, f),
{
    reveal(sound_parts);
}

/// A formula without models may be flagged unsatisfiable.
pub proof fn lemma_sound_set_unsat(f: Seq<Seq<Lit>>, db: ClauseDB, t: Trail, u: bool)
    requires
        sound_parts(f, db, t, u),
        forall|a: spec_fn(nat) -> bool| !#[trigger] models(a, f),
    ensures
        sound_parts(f, db, t, true),
{
    reveal(sound_parts);
}

/// Every model of `f` makes some literal of the set `w` true.
pub open spec fn implies_set(f: Seq<Seq<Lit>>, w: Set<Lit>) -> bool {
    forall|a: spec_fn(nat) -> bool| #[trigger] models(a, f) ==> exists|l: Lit| w.contains(l) && #[trigger] sat_lit(a, l)
}

/// The literals of the clause with codes `c`.
pub open spec fn codes_set(c: Seq<u32>) -> Set<Lit> {
    Set::new(|l: Lit| exists|j: int| 0 <= j < c.len() && #[trigger] Lit::from_code_spec(c[j]) == l)
}

/// Resolution: from a clause `w` and a reason `r` of the literal `y`, whose negation is
/// the only literal of `w` over `y`'s variable, follows the clause of the other literals.
pub proof fn lemma_resolve(f: Seq<Seq<Lit>>, w: Set<Lit>, r: Seq<u32>, y: Lit)
    requires
        implies_set(f, w),
        implies_codes(f, r),
        forall|l: Lit| #[trigger] w.contains(l) && l.var_id() == y.var_id() ==> l.positive() != y.positive(),
    ensures
        implies_set(f, w.filter(|l: Lit| l.var_id() != y.var_id()).union(codes_set(r).remove(y))),
{
    let w2 = w.filter(|l: Lit| l.var_id() != y.var_id()).union(codes_set(r).remove(y));
    assert forall|a: spec_fn(nat) -> bool| #[trigger] models(a, f) implies exists|l: Lit| w2.contains(l) && #[trigger] sat_lit(a, l) by {
        let l = choose|l: Lit| w.contains(l) && #[trigger] sat_lit(a, l);
        if l.var_id() != y.var_id() {
            assert(w2.contains(l));
        } else {
            assert(!sat_lit(a, y));
            assert(sat_codes(a, r));
            let j = choose|j: int| 0 <= j < r.len() && #[trigger] sat_lit(a, Lit::from_code_spec(r[j]));
            let m = Lit::from_code_spec(r[j]);
            assert(codes_set(r).contains(m));
            assert(m != y);
            assert(w2.contains(m));
        }
    }
}

/// A clause that follows from the formula, as a set of literals.
pub proof fn lemma_codes_set(f: Seq<Seq<Lit>>, r: Seq<u32>)
    requires
        implies_codes(f, r),
    ensures
        implies_set(f, codes_set(r)),
{
    assert forall|a: spec_fn(nat) -> bool| #[trigger] models(a, f) implies exists|l: Lit| codes_set(r).contains(l) && #[trigger] sat_lit(a, l) by {
        assert(sat_codes(a, r));
        let j = choose|j: int| 0 <= j < r.len() && #[trigger] sat_lit(a, Lit::from_code_spec(r[j]));
        assert(codes_set(r).contains(Lit::from_code_spec(r[j])));
    }
}

} // verus!
