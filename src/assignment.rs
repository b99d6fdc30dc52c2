//! The value, decision level and reason of every variable.
use vstd::prelude::*;

use crate::clause::ClauseIdx;
use crate::lit::{Lit, Var};
use crate::varvec::VarVec;

verus! {

/// Why a literal is on the trail.
#[derive(Clone, Copy, PartialEq, Eq, Structural, Debug)]
pub enum TrailReason {
    /// The literal was decided.
    Decision,
    /// The literal was forced by unit propagation through the clause `cls`.
    Propagated { cls: ClauseIdx },
    /// The literal holds without a reason clause. At level zero: a unit clause of the
    /// input or a learned unit. Above level zero it is asserted after a conflict whose
    /// learned clause is not stored (the arena is full) or could not be derived; the
    /// literal still follows from the formula and the decisions below its level, which
    /// is what the soundness invariant of the solver records.
    Axiom,
}

/// The value of an assigned variable, the decision level it was assigned at, and why.
#[derive(Clone, Copy, PartialEq, Eq, Structural, Debug)]
pub struct AssignData {
    pub status: bool,
    pub decision_level: u32,
    pub reason: TrailReason,
}

/// The value of every known variable, or none if it is unassigned.
pub struct Assignment {
    assignment: VarVec<Option<AssignData>>,
}

impl View for Assignment {
    type V = Seq<Option<AssignData>>;

    closed spec fn view(&self) -> Seq<Option<AssignData>> {
        self.assignment@
    }
}

/// The truth value of `l` under `a`, if its variable is assigned.
pub open spec fn lit_value(a: Seq<Option<AssignData>>, l: Lit) -> Option<bool> {
    match a[l.var_id() as int] {
        Some(d) => Some(d.status == l.positive()),
        None => None,
    }
}

impl Assignment {
    pub open spec fn num_vars(&self) -> nat {
        if self@.len() == 0 { 0 } else { (self@.len() - 1) as nat }
    }

    pub open spec fn wf(&self) -> bool {
        self@.len() <= crate::lit::MAX_VAR + 1
    }

    /// `l`'s variable is known to this assignment.
    pub open spec fn holds(&self, l: Lit) -> bool {
        l.var_id() < self@.len()
    }

    pub open spec fn value(&self, l: Lit) -> Option<bool> {
        lit_value(self@, l)
    }

    pub fn new() -> (r: Assignment)
        ensures
            r.wf(),
            r@ == Seq::<Option<AssignData>>::empty(),
    {
        Assignment { assignment: VarVec::new() }
    }

    /// Makes room for variable `v`; new variables are unassigned.
    pub fn expand(&mut self, v: Var)
        requires
            old(self).wf(),
        ensures
            final(self).wf(),
            final(self)@.len() == if old(self)@.len() > v.id() { old(self)@.len() } else { v.id() + 1 },
            forall|i: int| 0 <= i < old(self)@.len() ==> final(self)@[i] == old(self)@[i],
            forall|i: int| old(self)@.len() <= i < final(self)@.len() ==> final(self)@[i].is_none(),
    {
        self.assignment.expand(v, None);
    }

    /// The truth value of `lit`, or `None` if it is unassigned.
    pub fn get(&self, lit: Lit) -> (r: Option<bool>)
        requires
            self.holds(lit),
        ensures
            r == self.value(lit),
    {
        match self.assignment.get(lit.var()) {
            Some(d) => Some(d.status == lit.is_pos()),
            None => None,
        }
    }

    pub fn is_lit_satisified(&self, lit: Lit) -> (r: bool)
        requires
            self.holds(lit),
        ensures
            r == (self.value(lit) == Some(true)),
    {
        match self.assignment.get(lit.var()) {
            Some(d) => d.status == lit.is_pos(),
            None => false,
        }
    }

    pub fn is_lit_assigned(&self, lit: Lit) -> (r: bool)
        requires
            self.holds(lit),
        ensures
            r == self.value(lit).is_some(),
    {
        self.assignment.get(lit.var()).is_some()
    }

    pub fn is_lit_unassigned(&self, lit: Lit) -> (r: bool)
        requires
            self.holds(lit),
        ensures
            r == self.value(lit).is_none(),
    {
        self.assignment.get(lit.var()).is_none()
    }

    pub fn is_lit_unsatisfied(&self, lit: Lit) -> (r: bool)
        requires
            self.holds(lit),
        ensures
            r == (self.value(lit) == Some(false)),
    {
        match self.assignment.get(lit.var()) {
            Some(d) => d.status != lit.is_pos(),
            None => false,
        }
    }

    /// Whether some literal of `cls` is true.
    pub fn is_clause_satisified(&self, cls: &Vec<Lit>) -> (r: bool)
        requires
            forall|j: int| 0 <= j < cls@.len() ==> self.holds(#[trigger] cls@[j]),
        ensures
            r == exists|j: int| 0 <= j < cls@.len() && self.value(#[trigger] cls@[j]) == Some(true),
    {
        let mut j: usize = 0;
        while j < cls.len()
            invariant
                j <= cls@.len(),
                forall|i: int| 0 <= i < cls@.len() ==> self.holds(#[trigger] cls@[i]),
                forall|i: int| 0 <= i < j ==> self.value(#[trigger] cls@[i]) != Some(true),
            decreases cls@.len() - j,
        {
            if self.is_lit_satisified(cls[j]) {
                return true;
            }
            j = j + 1;
        }
        false
    }

    /// Makes `lit` true, at the given decision level and for the given reason.
    pub fn assign_lit(&mut self, lit: Lit, decision_level: u32, reason: TrailReason)
        requires
            old(self).holds(lit),
        ensures
            final(self)@ == old(self)@.update(
                lit.var_id() as int,
                Some(AssignData { status: lit.positive(), decision_level, reason }),
            ),
    {
        self.assignment.set(lit.var(), Some(AssignData { status: lit.is_pos(), decision_level, reason }));
    }

    /// Makes `lit`'s variable unassigned.
    pub fn unassign_lit(&mut self, lit: Lit)
        requires
            old(self).holds(lit),
        ensures
            final(self)@ == old(self)@.update(lit.var_id() as int, None),
    {
        self.assignment.set(lit.var(), None);
    }

    /// Replaces the reason recorded for `lit`'s variable, which must be assigned.
    pub fn set_reason(&mut self, lit: Lit, reason: TrailReason)
        requires
            old(self).holds(lit),
            old(self)@[lit.var_id() as int].is_some(),
        ensures
            final(self)@ == old(self)@.update(
                lit.var_id() as int,
                Some(AssignData { reason, ..old(self)@[lit.var_id() as int].unwrap() }),
            ),
    {
        let d = *self.assignment.get(lit.var());
        match d {
            Some(d) => self.assignment.set(lit.var(), Some(AssignData { reason, ..d })),
            None => {},
        }
    }

    /// Number of known variables.
    pub fn len(&self) -> (r: usize)
        ensures
            r == self.num_vars(),
    {
        self.assignment.len()
    }

    /// The first unassigned variable, by id; `None` if every variable is assigned.
    pub fn find_unassigned_variable(&self) -> (r: Option<Var>)
        requires
            self.wf(),
        ensures
            r.is_none() ==> forall|v: int| 1 <= v < self@.len() ==> (#[trigger] self@[v]).is_some(),
            r.is_some() ==> 1 <= r.unwrap().id() < self@.len() && self@[r.unwrap().id() as int].is_none()
                && forall|v: int| 1 <= v < r.unwrap().id() ==> (#[trigger] self@[v]).is_some(),
    {
        let n = self.assignment.len();
        let mut i: usize = 1;
        while i <= n
            invariant
                self.wf(),
                n == self.num_vars(),
                1 <= i <= n + 1,
                forall|v: int| 1 <= v < i ==> (#[trigger] self@[v]).is_some(),
            decreases n + 1 - i,
        {
            let v = Var::from_id(i as u32);
            if self.assignment.get(v).is_none() {
                return Some(v);
            }
            i = i + 1;
        }
        None
    }

    /// What is recorded for `lit`'s variable, if it is assigned.
    pub fn get_data(&self, lit: Lit) -> (r: Option<AssignData>)
        requires
            self.holds(lit),
        ensures
            r == self@[lit.var_id() as int],
    {
        *self.assignment.get(lit.var())
    }
}

} // verus!
