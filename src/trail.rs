//! The trail: assigned literals in order, split into decision levels.
use vstd::prelude::*;
use vstd::set_lib::*;

use crate::assignment::{lit_value, AssignData, Assignment, TrailReason};
use crate::clause::{Clause, ClauseIdx};
use crate::lit::{Lit, Var, MAX_VAR};

verus! {

/// A literal on the trail, with the reason it became true.
#[derive(Clone, Copy, PartialEq, Eq, Structural, Debug)]
pub struct TrailElement {
    pub lit: Lit,
    pub reason: TrailReason,
}

/// The literals made true so far, in order, with the positions where decisions began.
pub struct Trail {
    trail: Vec<TrailElement>,
    /// `decision_positions[l - 1]` is the position of the decision that opened level `l`.
    decision_positions: Vec<usize>,
    assignment: Assignment,
}

/// A sequence of distinct variable ids in `1..=n` has at most `n` entries.
pub proof fn lemma_distinct_bound(vars: Seq<int>, n: int)
    requires
        n >= 0,
        vars.no_duplicates(),
        forall|i: int| 0 <= i < vars.len() ==> 1 <= #[trigger] vars[i] <= n,
    ensures
        vars.len() <= n,
{
    let range = set_int_range(1, n + 1);
    lemma_int_range(1, n + 1);
    vars.unique_seq_to_set();
    assert(vars.to_set().subset_of(range)) by {
        assert forall|x: int| vars.to_set().contains(x) implies range.contains(x) by {
            let i = choose|i: int| 0 <= i < vars.len() && vars[i] == x;
        }
    }
    lemma_len_subset(vars.to_set(), range);
}

impl Trail {
    pub closed spec fn elems(&self) -> Seq<TrailElement> {
        self.trail@
    }

    pub closed spec fn decisions(&self) -> Seq<usize> {
        self.decision_positions@
    }

    /// The assignment, indexed by variable id.
    pub closed spec fn assign(&self) -> Seq<Option<AssignData>> {
        self.assignment@
    }

    pub open spec fn num_vars(&self) -> nat {
        if self.assign().len() == 0 { 0 } else { (self.assign().len() - 1) as nat }
    }

    /// `l`'s variable is known to the trail.
    pub open spec fn holds(&self, l: Lit) -> bool {
        l.var_id() < self.assign().len()
    }

    pub open spec fn value(&self, l: Lit) -> Option<bool> {
        lit_value(self.assign(), l)
    }

    /// The variable of the literal at position `i`.
    pub open spec fn var_at(&self, i: int) -> int {
        self.elems()[i].lit.var_id() as int
    }

    /// The decision level of the literal at position `i`.
    pub open spec fn level_at(&self, i: int) -> int {
        self.assign()[self.var_at(i)].unwrap().decision_level as int
    }

    /// The level of a known, assigned literal.
    pub open spec fn level_of(&self, l: Lit) -> int {
        self.assign()[l.var_id() as int].unwrap().decision_level as int
    }

    /// The decision levels of the trail's literals, in order.
    pub open spec fn levels(&self) -> Seq<int> {
        Seq::new(self.elems().len(), |i: int| self.level_at(i))
    }

    pub open spec fn level(&self) -> int {
        self.decisions().len() as int
    }

    pub open spec fn vars(&self) -> Seq<int> {
        Seq::new(self.elems().len(), |i: int| self.var_at(i))
    }

    #[verifier::opaque]
    pub open spec fn wf(&self) -> bool {
        &&& self.assign().len() <= MAX_VAR + 1
        &&& self.elems().len() <= self.num_vars()
        &&& forall|i: int| #![trigger self.elems()[i]] 0 <= i < self.elems().len() ==> {
            &&& 1 <= self.var_at(i) < self.assign().len()
            &&& self.assign()[self.var_at(i)].is_some()
            &&& self.assign()[self.var_at(i)].unwrap().status == self.elems()[i].lit.positive()
            &&& self.assign()[self.var_at(i)].unwrap().reason == self.elems()[i].reason
            &&& self.level_at(i) <= self.level()
        }
        &&& forall|v: int| #![trigger self.assign()[v]] 1 <= v < self.assign().len() && self.assign()[v].is_some()
            ==> exists|p: int| 0 <= p < self.elems().len() && self.var_at(p) == v
        &&& forall|i: int, j: int| #![trigger self.var_at(i), self.var_at(j)]
            0 <= i < j < self.elems().len() ==> self.var_at(i) != self.var_at(j)
        &&& forall|k: int| #![trigger self.decisions()[k]] 0 <= k < self.decisions().len() ==> {
            &&& self.decisions()[k] < self.elems().len()
            &&& self.elems()[self.decisions()[k] as int].reason == TrailReason::Decision
            &&& k + 1 < self.decisions().len() ==> self.decisions()[k] < self.decisions()[k + 1]
        }
        &&& forall|i: int, k: int| #![trigger self.level_at(i), self.decisions()[k]]
            0 <= i < self.elems().len() && 0 <= k < self.decisions().len() ==> {
            &&& (self.decisions()[k] <= i ==> self.level_at(i) >= k + 1)
            &&& (i < self.decisions()[k] ==> self.level_at(i) <= k)
        }
    }

    pub fn new() -> (r: Trail)
        ensures
            r.wf(),
            r.elems() == Seq::<TrailElement>::empty(),
            r.decisions() == Seq::<usize>::empty(),
            r.assign() == Seq::<Option<AssignData>>::empty(),
    {
        proof {
            reveal(Trail::wf);
        }
        Trail { trail: Vec::new(), decision_positions: Vec::new(), assignment: Assignment::new() }
    }

    /// Makes room for variable `var`; new variables are unassigned.
    pub fn expand(&mut self, var: Var)
        requires
            old(self).wf(),
        ensures
            final(self).wf(),
            final(self).elems() == old(self).elems(),
            final(self).decisions() == old(self).decisions(),
            final(self).assign().len() == if old(self).assign().len() > var.id() { old(self).assign().len() } else { var.id() + 1 },
            forall|i: int| 0 <= i < old(self).assign().len() ==> final(self).assign()[i] == old(self).assign()[i],
            forall|i: int| old(self).assign().len() <= i < final(self).assign().len() ==> final(self).assign()[i].is_none(),
    {
        proof {
            reveal(Trail::wf);
        }
        self.assignment.expand(var);
        proof {
            assert forall|i: int| #![trigger self.elems()[i]] 0 <= i < self.elems().len() implies self.level_at(i) == old(self).level_at(i) by {}
        }
    }

    /// Number of literals on the trail.
    pub fn assigned_vars(&self) -> (r: usize)
        ensures
            r == self.elems().len(),
    {
        self.trail.len()
    }

    /// The number of decisions on the trail.
    pub fn current_decision_level(&self) -> (r: u32)
        requires
            self.wf(),
        ensures
            r == self.level(),
    {
        proof {
            reveal(Trail::wf);
        }
        proof {
            if self.decisions().len() > 0 {
                assert(self.decisions()[self.decisions().len() - 1] < self.elems().len());
                self.lemma_decisions_bound();
            }
        }
        self.decision_positions.len() as u32
    }

    /// The trail holds at most one literal per variable.
    pub proof fn lemma_len_bound(&self)
        requires
            self.wf(),
        ensures
            self.elems().len() <= self.num_vars(),
            self.decisions().len() <= self.elems().len(),
            self.num_vars() <= MAX_VAR,
    {
        reveal(Trail::wf);
        self.lemma_decisions_bound();
    }

    /// The levels of the trail are bounded as the ranking of trails needs.
    pub proof fn lemma_levels_bounded(&self)
        requires
            self.wf(),
        ensures
            crate::rank::bounded(self.num_vars(), self.levels()),
            self.level() <= self.elems().len(),
    {
        reveal(Trail::wf);
        self.lemma_len_bound();
        assert forall|i: int| 0 <= i < self.levels().len() implies 0 <= #[trigger] self.levels()[i] <= self.num_vars() by {
            assert(self.elems()[i] == self.elems()[i]);
        }
    }

    /// Decisions lie on the trail.
    pub proof fn lemma_decision(&self, k: int)
        requires
            self.wf(),
            0 <= k < self.decisions().len(),
        ensures
            self.decisions()[k] < self.elems().len(),
            self.elems()[self.decisions()[k] as int].reason == TrailReason::Decision,
    {
        reveal(Trail::wf);
    }

    /// What the trail says of the literal at position `p`.
    pub proof fn lemma_elem(&self, p: int)
        requires
            self.wf(),
            0 <= p < self.elems().len(),
        ensures
            1 <= self.var_at(p) < self.assign().len(),
            self.holds(self.elems()[p].lit),
            self.value(self.elems()[p].lit) == Some(true),
            0 <= self.level_at(p) <= self.level(),
            self.assign()[self.var_at(p)].unwrap().reason == self.elems()[p].reason,
    {
        reveal(Trail::wf);
        assert(self.elems()[p] == self.elems()[p]);
    }

    /// An assigned variable sits on the trail, at a level no higher than the current one.
    pub proof fn lemma_assigned(&self, v: int) -> (p: int)
        requires
            self.wf(),
            1 <= v < self.assign().len(),
            self.assign()[v].is_some(),
        ensures
            0 <= p < self.elems().len(),
            self.var_at(p) == v,
            self.assign()[v].unwrap().decision_level <= self.level(),
    {
        reveal(Trail::wf);
        let p = choose|p: int| 0 <= p < self.elems().len() && self.var_at(p) == v;
        assert(self.elems()[p] == self.elems()[p]);
        p
    }

    /// The level of position `i` against the position of decision `k`.
    pub proof fn lemma_levels(&self, i: int, k: int)
        requires
            self.wf(),
            0 <= i < self.elems().len(),
            0 <= k < self.decisions().len(),
        ensures
            self.decisions()[k] <= i ==> self.level_at(i) >= k + 1,
            i < self.decisions()[k] ==> self.level_at(i) <= k,
    {
        reveal(Trail::wf);
        assert(self.level_at(i) == self.level_at(i));
        assert(self.decisions()[k] == self.decisions()[k]);
    }

    proof fn lemma_decisions_bound(&self)
        requires
            self.wf(),
        ensures
            self.decisions().len() <= self.elems().len(),
        decreases self.decisions().len(),
    {
        reveal(Trail::wf);
        let d = self.decisions();
        if d.len() > 0 {
            assert forall|k: int| 0 <= k < d.len() implies #[trigger] d[k] >= k by {
                self.lemma_decision_at_least(k);
            }
            assert(d[d.len() - 1] < self.elems().len());
        }
    }

    proof fn lemma_decision_at_least(&self, k: int)
        requires
            self.wf(),
            0 <= k < self.decisions().len(),
        ensures
            self.decisions()[k] >= k,
        decreases k,
    {
        reveal(Trail::wf);
        if k > 0 {
            self.lemma_decision_at_least(k - 1);
            assert(self.decisions()[k - 1] < self.decisions()[k]);
        }
    }

    /// Number of known variables.
    pub fn total_vars(&self) -> (r: usize)
        ensures
            r == self.num_vars(),
    {
        self.assignment.len()
    }

    /// The element at position `idx`, if there is one.
    pub fn get(&self, idx: usize) -> (r: Option<TrailElement>)
        ensures
            idx < self.elems().len() ==> r == Some(self.elems()[idx as int]),
            idx >= self.elems().len() ==> r.is_none(),
    {
        if idx < self.trail.len() {
            Some(self.trail[idx])
        } else {
            None
        }
    }

    /// The elements of the trail, in order.
    pub fn trail(&self) -> (r: &[TrailElement])
        ensures
            r@ == self.elems(),
    {
        self.trail.as_slice()
    }

    pub fn get_lit_assignment(&self, lit: Lit) -> (r: Option<bool>)
        requires
            self.holds(lit),
        ensures
            r == self.value(lit),
    {
        self.assignment.get(lit)
    }

    /// The position of the decision that opened level `k + 1`, if there is one.
    pub fn decision_pos(&self, k: u32) -> (r: Option<usize>)
        ensures
            k < self.decisions().len() ==> r == Some(self.decisions()[k as int]),
            k >= self.decisions().len() ==> r.is_none(),
    {
        if (k as usize) < self.decision_positions.len() {
            Some(self.decision_positions[k as usize])
        } else {
            None
        }
    }

    /// The position of the last decision, if any.
    pub fn last_decision_pos(&self) -> (r: Option<usize>)
        ensures
            self.decisions().len() == 0 ==> r.is_none(),
            self.decisions().len() > 0 ==> r == Some(self.decisions().last()),
    {
        let n = self.decision_positions.len();
        if n == 0 {
            None
        } else {
            Some(self.decision_positions[n - 1])
        }
    }

    pub fn assignment_complete(&self) -> (r: bool)
        ensures
            r == (self.elems().len() == self.num_vars()),
    {
        self.trail.len() == self.assignment.len()
    }

    pub fn is_lit_assigned(&self, lit: Lit) -> (r: bool)
        requires
            self.holds(lit),
        ensures
            r == self.value(lit).is_some(),
    {
        self.assignment.is_lit_assigned(lit)
    }

    pub fn is_lit_unassigned(&self, lit: Lit) -> (r: bool)
        requires
            self.holds(lit),
        ensures
            r == self.value(lit).is_none(),
    {
        self.assignment.is_lit_unassigned(lit)
    }

    pub fn is_lit_satisfied(&self, lit: Lit) -> (r: bool)
        requires
            self.holds(lit),
        ensures
            r == (self.value(lit) == Some(true)),
    {
        self.assignment.is_lit_satisified(lit)
    }

    pub fn is_lit_unsatisfied(&self, lit: Lit) -> (r: bool)
        requires
            self.holds(lit),
        ensures
            r == (self.value(lit) == Some(false)),
    {
        self.assignment.is_lit_unsatisfied(lit)
    }

    /// The first unassigned variable, if any.
    pub fn find_unassigned_variable(&self) -> (r: Option<Var>)
        requires
            self.wf(),
        ensures
            r.is_none() ==> forall|v: int| 1 <= v < self.assign().len() ==> (#[trigger] self.assign()[v]).is_some(),
            r.is_some() ==> 1 <= r.unwrap().id() < self.assign().len() && self.assign()[r.unwrap().id() as int].is_none(),
    {
        proof {
            reveal(Trail::wf);
        }
        self.assignment.find_unassigned_variable()
    }

    /// The decision level of `lit`, if it is assigned.
    pub fn get_decision_level(&self, lit: Lit) -> (r: Option<u32>)
        requires
            self.holds(lit),
        ensures
            r.is_some() == self.value(lit).is_some(),
            r.is_some() ==> r.unwrap() == self.level_of(lit),
    {
        match self.assignment.get_data(lit) {
            Some(d) => Some(d.decision_level),
            None => None,
        }
    }

    /// The reason clause of `lit`, if it was propagated.
    pub fn get_reason_cls(&self, lit: Lit) -> (r: Option<ClauseIdx>)
        requires
            self.holds(lit),
        ensures
            r.is_some() <==> (self.assign()[lit.var_id() as int].is_some()
                && self.assign()[lit.var_id() as int].unwrap().reason is Propagated),
            r.is_some() ==> self.assign()[lit.var_id() as int].unwrap().reason == (TrailReason::Propagated { cls: r.unwrap() }),
    {
        match self.assignment.get_data(lit) {
            Some(d) => match d.reason {
                TrailReason::Propagated { cls } => Some(cls),
                _ => None,
            },
            None => None,
        }
    }

    /// Makes `lit` true for `reason`; a decision opens a new level.
    pub fn assign_lit(&mut self, lit: Lit, reason: TrailReason)
        requires
            old(self).wf(),
            old(self).holds(lit),
            old(self).value(lit).is_none(),
        ensures
            final(self).wf(),
            final(self).elems() == old(self).elems().push(TrailElement { lit, reason }),
            final(self).decisions() == if reason == TrailReason::Decision {
                old(self).decisions().push(old(self).elems().len() as usize)
            } else {
                old(self).decisions()
            },
            final(self).assign() == old(self).assign().update(
                lit.var_id() as int,
                Some(AssignData { status: lit.positive(), decision_level: final(self).level() as u32, reason }),
            ),
            final(self).level() == old(self).level() + if reason == TrailReason::Decision { 1int } else { 0 },
            forall|p: int| 0 <= p < old(self).elems().len() ==> #[trigger] final(self).level_at(p) == old(self).level_at(p),
            final(self).level_at(old(self).elems().len() as int) == final(self).level(),
            final(self).levels() == old(self).levels().push(final(self).level()),
    {
        proof {
            reveal(Trail::wf);
        }
        let v = lit.var();
        let var_id = v.get();
        proof {
            let n = old(self).elems().len();
            assert forall|i: int| 0 <= i < n implies old(self).var_at(i) != lit.var_id() by {
                assert(old(self).elems()[i] == old(self).elems()[i]);
            }
            let vs = old(self).vars().push(lit.var_id() as int);
            assert forall|i: int| 0 <= i < vs.len() implies 1 <= #[trigger] vs[i] <= old(self).num_vars() by {
                if i < n {
                    assert(old(self).elems()[i] == old(self).elems()[i]);
                }
            }
            assert(vs.no_duplicates());
            lemma_distinct_bound(vs, old(self).num_vars() as int);
            old(self).lemma_decisions_bound();
        }
        self.trail.push(TrailElement { lit, reason });
        if reason == TrailReason::Decision {
            self.decision_positions.push(self.trail.len() - 1);
        }
        let decision_level = self.decision_positions.len() as u32;
        self.assignment.assign_lit(lit, decision_level, reason);
        proof {
            Trail::lemma_push_wf(self, old(self), lit, reason);
            assert(self.levels() =~= old(self).levels().push(self.level()));
        }
    }

    /// Undoes every assignment above decision level `lvl`, so that the literals of level
    /// `lvl` are the last ones left on the trail. Returns the trail position from which
    /// propagation has to resume.
    pub fn backtrack(&mut self, lvl: u32) -> (r: usize)
        requires
            old(self).wf(),
        ensures
            final(self).wf(),
            r <= old(self).elems().len(),
            final(self).assign().len() == old(self).assign().len(),
            forall|v: int| 0 <= v < old(self).assign().len() && #[trigger] final(self).assign()[v] != old(self).assign()[v] ==>
                final(self).assign()[v].is_none() && old(self).assign()[v].is_some()
                && old(self).assign()[v].unwrap().decision_level > lvl,
            lvl >= old(self).level() ==> *final(self) == *old(self) && r == old(self).elems().len(),
            lvl < old(self).level() ==> {
                &&& r == old(self).decisions()[lvl as int]
                &&& final(self).elems() == old(self).elems().subrange(0, r as int)
                &&& final(self).decisions() == old(self).decisions().subrange(0, lvl as int)
                &&& forall|p: int| #![trigger old(self).elems()[p]] 0 <= p < r ==>
                    final(self).assign()[old(self).var_at(p)] == old(self).assign()[old(self).var_at(p)]
                &&& forall|p: int| #![trigger old(self).elems()[p]] r <= p < old(self).elems().len() ==>
                    final(self).assign()[old(self).var_at(p)].is_none()
            },
    {
        proof {
            reveal(Trail::wf);
        }
        if lvl as usize >= self.decision_positions.len() {
            return self.trail.len();
        }
        let cut = self.decision_positions[lvl as usize];
        let mut i: usize = cut;
        while i < self.trail.len()
            invariant
                old(self).wf(),
                self.trail == old(self).trail,
                self.decision_positions == old(self).decision_positions,
                cut == old(self).decisions()[lvl as int],
                lvl < old(self).decisions().len(),
                cut <= i <= self.elems().len(),
                self.assign().len() == old(self).assign().len(),
                forall|v: int| 0 <= v < self.assign().len() && #[trigger] self.assign()[v] != old(self).assign()[v] ==>
                    self.assign()[v].is_none() && old(self).assign()[v].is_some()
                    && old(self).assign()[v].unwrap().decision_level > lvl,
                forall|p: int| #![trigger old(self).elems()[p]] 0 <= p < cut ==>
                    self.assign()[old(self).var_at(p)] == old(self).assign()[old(self).var_at(p)],
                forall|p: int| #![trigger old(self).elems()[p]] cut <= p < i ==> self.assign()[old(self).var_at(p)].is_none(),
            decreases self.elems().len() - i,
        {
            let e = self.trail[i];
            proof {
                reveal(Trail::wf);
                assert(old(self).elems()[i as int] == e);
                assert forall|p: int| #![trigger old(self).elems()[p]] 0 <= p < cut implies old(self).var_at(p) != e.lit.var_id() by {}
                assert(old(self).decisions()[lvl as int] <= i);
                old(self).lemma_levels(i as int, lvl as int);
            }
            self.assignment.unassign_lit(e.lit);
            i = i + 1;
        }
        self.trail.truncate(cut);
        self.decision_positions.truncate(lvl as usize);
        proof {
            assert forall|p: int| #![trigger old(self).elems()[p]] cut <= p < old(self).elems().len()
                implies self.assign()[old(self).var_at(p)].is_none() by {}
            Trail::lemma_truncate_wf(self, old(self), cut as int, lvl as int);
        }
        cut
    }

    proof fn lemma_truncate_wf(new: &Trail, old: &Trail, cut: int, lvl: int)
        requires
            old.wf(),
            0 <= lvl < old.decisions().len(),
            cut == old.decisions()[lvl],
            new.elems() == old.elems().subrange(0, cut),
            new.decisions() == old.decisions().subrange(0, lvl),
            new.assign().len() == old.assign().len(),
            forall|p: int| #![trigger old.elems()[p]] 0 <= p < cut ==>
                new.assign()[old.var_at(p)] == old.assign()[old.var_at(p)],
            forall|p: int| #![trigger old.elems()[p]] cut <= p < old.elems().len() ==> new.assign()[old.var_at(p)].is_none(),
            forall|v: int| 0 <= v < old.assign().len() && #[trigger] new.assign()[v] != old.assign()[v] ==> new.assign()[v].is_none(),
        ensures
            new.wf(),
    {
        reveal(Trail::wf);
        assert forall|v: int| #![trigger new.assign()[v]] 1 <= v < new.assign().len() && new.assign()[v].is_some()
            implies exists|p: int| 0 <= p < new.elems().len() && new.var_at(p) == v by {
            assert(old.assign()[v] == new.assign()[v]);
            let p = choose|p: int| 0 <= p < old.elems().len() && old.var_at(p) == v;
            assert(old.elems()[p] == old.elems()[p]);
            if p >= cut {
                assert(new.assign()[old.var_at(p)].is_none());
            }
            assert(new.elems()[p] == old.elems()[p]);
            assert(0 <= p < new.elems().len() && new.var_at(p) == v);
        }
        assert forall|p: int| #![trigger new.elems()[p]] 0 <= p < new.elems().len() implies new.level_at(p) == old.level_at(p) && new.level_at(p) <= lvl by {
            assert(old.elems()[p] == new.elems()[p]);
        }
        assert forall|p: int, q: int| 0 <= p < q < new.elems().len() implies new.var_at(p) != new.var_at(q) by {
            assert(old.elems()[p] == new.elems()[p]);
            assert(old.elems()[q] == new.elems()[q]);
        }
        assert forall|p: int, k: int| 0 <= p < new.elems().len() && 0 <= k < new.decisions().len() implies {
            &&& (new.decisions()[k] <= p ==> new.level_at(p) >= k + 1)
            &&& (p < new.decisions()[k] ==> new.level_at(p) <= k)
        } by {
            assert(old.elems()[p] == new.elems()[p]);
            assert(old.decisions()[k] == new.decisions()[k]);
        }
        assert forall|k: int| #![trigger new.decisions()[k]] 0 <= k < new.decisions().len() implies {
            &&& new.decisions()[k] < new.elems().len()
            &&& new.elems()[new.decisions()[k] as int].reason == TrailReason::Decision
            &&& k + 1 < new.decisions().len() ==> new.decisions()[k] < new.decisions()[k + 1]
        } by {
            assert(old.decisions()[k] == new.decisions()[k]);
            assert(old.decisions()[k] < old.decisions()[lvl]) by {
                old.lemma_decisions_increasing(k, lvl);
            }
            if k + 1 < new.decisions().len() {
                assert(old.decisions()[k + 1] == new.decisions()[k + 1]);
            }
        }
    }

    pub proof fn lemma_decisions_increasing(&self, k: int, m: int)
        requires
            self.wf(),
            0 <= k < m < self.decisions().len(),
        ensures
            self.decisions()[k] < self.decisions()[m],
        decreases m - k,
    {
        reveal(Trail::wf);
        if m > k + 1 {
            self.lemma_decisions_increasing(k, m - 1);
            assert(self.decisions()[m - 1] < self.decisions()[m]);
        }
    }

    /// Removes the last decision and everything assigned after it; returns that decision.
    pub fn pop_decision(&mut self) -> (r: Option<TrailElement>)
        requires
            old(self).wf(),
        ensures
            final(self).wf(),
            old(self).level() == 0 ==> r.is_none() && *final(self) == *old(self),
            old(self).level() > 0 ==> {
                let pos = old(self).decisions().last() as int;
                &&& r == Some(old(self).elems()[pos])
                &&& r.unwrap().reason == TrailReason::Decision
                &&& final(self).elems() == old(self).elems().subrange(0, pos)
                &&& final(self).level() == old(self).level() - 1
                &&& forall|p: int| #![trigger old(self).elems()[p]] pos <= p < old(self).elems().len() ==>
                    final(self).assign()[old(self).var_at(p)].is_none()
                &&& forall|p: int| #![trigger old(self).elems()[p]] 0 <= p < pos ==>
                    final(self).assign()[old(self).var_at(p)] == old(self).assign()[old(self).var_at(p)]
            },
            forall|v: int| 0 <= v < old(self).assign().len() && #[trigger] final(self).assign()[v] != old(self).assign()[v] ==>
                final(self).assign()[v].is_none(),
            final(self).assign().len() == old(self).assign().len(),
    {
        proof {
            reveal(Trail::wf);
        }
        let n = self.decision_positions.len();
        if n == 0 {
            return None;
        }
        let pos = self.decision_positions[n - 1];
        let elem = self.trail[pos];
        self.backtrack((n - 1) as u32);
        Some(elem)
    }

    /// Replaces the reason clause of the propagated literal at position `i`.
    pub fn set_reason_at(&mut self, i: usize, cls: ClauseIdx)
        requires
            old(self).wf(),
            i < old(self).elems().len(),
            old(self).elems()[i as int].reason is Propagated,
        ensures
            final(self).wf(),
            final(self).elems() == old(self).elems().update(
                i as int,
                TrailElement { lit: old(self).elems()[i as int].lit, reason: TrailReason::Propagated { cls } },
            ),
            final(self).decisions() == old(self).decisions(),
            forall|p: int| #![trigger old(self).elems()[p]] 0 <= p < old(self).elems().len() ==>
                final(self).level_at(p) == old(self).level_at(p)
                && final(self).value(old(self).elems()[p].lit) == old(self).value(old(self).elems()[p].lit),
            final(self).assign().len() == old(self).assign().len(),
            forall|v: int| 0 <= v < old(self).assign().len() ==> (#[trigger] final(self).assign()[v]).is_some() == old(self).assign()[v].is_some()
                && (final(self).assign()[v].is_some() ==> final(self).assign()[v].unwrap().status == old(self).assign()[v].unwrap().status
                    && final(self).assign()[v].unwrap().decision_level == old(self).assign()[v].unwrap().decision_level),
    {
        proof {
            reveal(Trail::wf);
        }
        let e = self.trail[i];
        let reason = TrailReason::Propagated { cls };
        proof {
            assert(old(self).elems()[i as int] == e);
        }
        self.trail.set(i, TrailElement { lit: e.lit, reason });
        self.assignment.set_reason(e.lit, reason);
        proof {
            Trail::lemma_set_reason_wf(self, old(self), i as int, cls);
        }
    }

    /// Whether no literal of `clause` is assigned.
    pub fn is_clause_all_unassigned(&self, clause: &Clause) -> (r: bool)
        requires
            clause.wf(),
            forall|j: int| 0 <= j < clause.view().lits.len() ==> clause.view().lits[j] / 2 < self.assign().len(),
        ensures
            r == forall|j: int| 0 <= j < clause.view().lits.len() ==> lit_value(self.assign(), #[trigger] Lit::from_code_spec(clause.view().lits[j])).is_none(),
    {
        let lits = clause.lits();
        let mut j: usize = 0;
        while j < lits.len()
            invariant
                lits@.len() == clause.view().lits.len(),
                forall|i: int| 0 <= i < lits@.len() ==> #[trigger] lits@[i].code() == clause.view().lits[i],
                forall|i: int| 0 <= i < clause.view().lits.len() ==> clause.view().lits[i] / 2 < self.assign().len(),
                j <= lits@.len(),
                forall|i: int| 0 <= i < j ==> lit_value(self.assign(), #[trigger] Lit::from_code_spec(clause.view().lits[i])).is_none(),
            decreases lits@.len() - j,
        {
            let l = lits[j];
            proof {
                Lit::lemma_from_code_spec(l);
            }
            if self.is_lit_assigned(l) {
                return false;
            }
            j = j + 1;
        }
        true
    }

    /// Whether some literal of `clause` is true.
    pub fn is_clause_satisfied(&self, clause: &Clause) -> (r: bool)
        requires
            clause.wf(),
            forall|j: int| 0 <= j < clause.view().lits.len() ==> clause.view().lits[j] / 2 < self.assign().len(),
        ensures
            r == exists|j: int| 0 <= j < clause.view().lits.len() && lit_value(self.assign(), #[trigger] Lit::from_code_spec(clause.view().lits[j])) == Some(true),
    {
        proof {
            reveal(Trail::wf);
        }
        let lits = clause.lits();
        let mut j: usize = 0;
        while j < lits.len()
            invariant
                lits@.len() == clause.view().lits.len(),
                forall|i: int| 0 <= i < lits@.len() ==> #[trigger] lits@[i].code() == clause.view().lits[i],
                forall|i: int| 0 <= i < clause.view().lits.len() ==> clause.view().lits[i] / 2 < self.assign().len(),
                j <= lits@.len(),
                forall|i: int| 0 <= i < j ==> lit_value(self.assign(), #[trigger] Lit::from_code_spec(clause.view().lits[i])) != Some(true),
            decreases lits@.len() - j,
        {
            let l = lits[j];
            proof {
                Lit::lemma_from_code_spec(l);
            }
            if self.is_lit_satisfied(l) {
                return true;
            }
            j = j + 1;
        }
        false
    }

    #[verifier::rlimit(100)]
    proof fn lemma_set_reason_wf(new: &Trail, old: &Trail, i: int, cls: ClauseIdx)
        requires
            old.wf(),
            0 <= i < old.elems().len(),
            old.elems()[i].reason is Propagated,
            new.elems() == old.elems().update(
                i,
                TrailElement { lit: old.elems()[i].lit, reason: TrailReason::Propagated { cls } },
            ),
            new.decisions() == old.decisions(),
            new.assign() == old.assign().update(
                old.elems()[i].lit.var_id() as int,
                Some(AssignData { reason: TrailReason::Propagated { cls }, ..old.assign()[old.elems()[i].lit.var_id() as int].unwrap() }),
            ),
        ensures
            new.wf(),
            forall|p: int| #![trigger old.elems()[p]] 0 <= p < old.elems().len() ==>
                new.level_at(p) == old.level_at(p)
                && new.value(old.elems()[p].lit) == old.value(old.elems()[p].lit),
    {
        reveal(Trail::wf);
        assert forall|v: int| #![trigger new.assign()[v]] 1 <= v < new.assign().len() && new.assign()[v].is_some()
            implies exists|p: int| 0 <= p < new.elems().len() && new.var_at(p) == v by {
            assert(old.assign()[v].is_some());
            let p = choose|p: int| 0 <= p < old.elems().len() && old.var_at(p) == v;
            assert(new.elems()[p].lit == old.elems()[p].lit);
            assert(0 <= p < new.elems().len() && new.var_at(p) == v);
        }
        let n = old.elems().len();

        assert forall|p: int| #![trigger old.elems()[p]] 0 <= p < n implies
            new.level_at(p) == old.level_at(p)
            && new.value(old.elems()[p].lit) == old.value(old.elems()[p].lit)
            && new.elems()[p].lit == old.elems()[p].lit by {
            assert(new.elems()[p].lit == old.elems()[p].lit);
        }
        assert forall|p: int| #![trigger new.elems()[p]] 0 <= p < new.elems().len() implies {
            &&& 1 <= new.var_at(p) < new.assign().len()
            &&& new.assign()[new.var_at(p)].is_some()
            &&& new.assign()[new.var_at(p)].unwrap().status == new.elems()[p].lit.positive()
            &&& new.assign()[new.var_at(p)].unwrap().reason == new.elems()[p].reason
            &&& new.level_at(p) <= new.level()
        } by {
            assert(old.elems()[p] == old.elems()[p]);
            if p != i {
                assert(old.var_at(p) != old.var_at(i));
            }
        }
        assert forall|p: int, q: int| 0 <= p < q < new.elems().len() implies new.var_at(p) != new.var_at(q) by {
            assert(old.elems()[p] == old.elems()[p]);
            assert(old.elems()[q] == old.elems()[q]);
        }
        assert forall|p: int, k: int| 0 <= p < new.elems().len() && 0 <= k < new.decisions().len() implies {
            &&& (new.decisions()[k] <= p ==> new.level_at(p) >= k + 1)
            &&& (p < new.decisions()[k] ==> new.level_at(p) <= k)
        } by {
            assert(old.elems()[p] == old.elems()[p]);
        }
        assert forall|k: int| #![trigger new.decisions()[k]] 0 <= k < new.decisions().len() implies {
            &&& new.decisions()[k] < new.elems().len()
            &&& new.elems()[new.decisions()[k] as int].reason == TrailReason::Decision
            &&& k + 1 < new.decisions().len() ==> new.decisions()[k] < new.decisions()[k + 1]
        } by {
            assert(old.decisions()[k] == old.decisions()[k]);
        }
    }

    #[verifier::rlimit(100)]
    proof fn lemma_push_wf(new: &Trail, old: &Trail, lit: Lit, reason: TrailReason)
        requires
            old.wf(),
            old.holds(lit),
            old.value(lit).is_none(),
            1 <= lit.var_id(),
            old.elems().len() < old.num_vars(),
            old.decisions().len() <= old.elems().len(),
            new.elems() == old.elems().push(TrailElement { lit, reason }),
            new.decisions() == if reason == TrailReason::Decision {
                old.decisions().push(old.elems().len() as usize)
            } else {
                old.decisions()
            },
            new.assign() == old.assign().update(
                lit.var_id() as int,
                Some(AssignData { status: lit.positive(), decision_level: new.level() as u32, reason }),
            ),
        ensures
            new.wf(),
            forall|p: int| 0 <= p < old.elems().len() ==> #[trigger] new.level_at(p) == old.level_at(p),
            new.level_at(old.elems().len() as int) == new.level(),
    {
        reveal(Trail::wf);
        assert forall|v: int| #![trigger new.assign()[v]] 1 <= v < new.assign().len() && new.assign()[v].is_some()
            implies exists|p: int| 0 <= p < new.elems().len() && new.var_at(p) == v by {
            let n = old.elems().len() as int;
            if v == lit.var_id() {
                assert(new.elems()[n] == TrailElement { lit, reason });
                assert(new.var_at(n) == v);
            } else {
                assert(old.assign()[v].is_some());
                let p = choose|p: int| 0 <= p < old.elems().len() && old.var_at(p) == v;
                assert(new.elems()[p] == old.elems()[p]);
                assert(new.var_at(p) == v);
            }
        }
        let n = old.elems().len() as int;
        assert forall|i: int| 0 <= i < n implies #[trigger] new.level_at(i) == old.level_at(i) by {
            assert(old.elems()[i] == old.elems()[i]);
            assert(new.elems()[i] == old.elems()[i]);
        }
        assert(new.elems()[n] == TrailElement { lit, reason });
        assert(new.level_at(n) == new.level());
        assert forall|i: int| #![trigger new.elems()[i]] 0 <= i < new.elems().len() implies {
            &&& 1 <= new.var_at(i) < new.assign().len()
            &&& new.assign()[new.var_at(i)].is_some()
            &&& new.assign()[new.var_at(i)].unwrap().status == new.elems()[i].lit.positive()
            &&& new.assign()[new.var_at(i)].unwrap().reason == new.elems()[i].reason
            &&& new.level_at(i) <= new.level()
        } by {
            if i < n {
                assert(old.elems()[i] == old.elems()[i]);
            }
        }
        assert forall|i: int, j: int| 0 <= i < j < new.elems().len() implies new.var_at(i) != new.var_at(j) by {
            assert(old.elems()[i] == old.elems()[i]);
            if j < n {
                assert(old.elems()[j] == old.elems()[j]);
            }
        }
        assert forall|i: int, k: int| 0 <= i < new.elems().len() && 0 <= k < new.decisions().len() implies {
            &&& (new.decisions()[k] <= i ==> new.level_at(i) >= k + 1)
            &&& (i < new.decisions()[k] ==> new.level_at(i) <= k)
        } by {
            if i < n && k < old.decisions().len() {
                assert(old.elems()[i] == old.elems()[i]);
                assert(old.decisions()[k] == old.decisions()[k]);
            } else if i < n {
                assert(old.elems()[i] == old.elems()[i]);
            }
        }
        assert forall|k: int| #![trigger new.decisions()[k]] 0 <= k < new.decisions().len() implies {
            &&& new.decisions()[k] < new.elems().len()
            &&& new.elems()[new.decisions()[k] as int].reason == TrailReason::Decision
            &&& k + 1 < new.decisions().len() ==> new.decisions()[k] < new.decisions()[k + 1]
        } by {
            if k < old.decisions().len() {
                assert(old.decisions()[k] == old.decisions()[k]);
            }
        }
    }
}

} // verus!
