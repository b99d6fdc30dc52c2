//! A dense vector indexed by variable.
use vstd::prelude::*;

use crate::lit::{Var, MAX_VAR};

verus! {

/// A vector indexed by [`Var`]. Slot zero is never used, since variable ids start at one.
#[derive(Debug)]
pub struct VarVec<T> {
    data: Vec<T>,
}

impl<T> View for VarVec<T> {
    type V = Seq<T>;

    closed spec fn view(&self) -> Seq<T> {
        self.data@
    }
}

impl<T> VarVec<T> {
    /// The slots fit the range of variable ids.
    pub open spec fn wf(&self) -> bool {
        self@.len() <= MAX_VAR + 1
    }

    /// Number of variables held: the slots minus the unused slot zero.
    pub open spec fn num_vars(&self) -> nat {
        if self@.len() == 0 { 0 } else { (self@.len() - 1) as nat }
    }

    /// `v` names a slot of this vector.
    pub open spec fn holds(&self, v: Var) -> bool {
        v.id() < self@.len()
    }

    pub fn new() -> (r: Self)
        ensures
            r@ == Seq::<T>::empty(),
    {
        VarVec { data: Vec::new() }
    }

    pub fn with_capacity(capacity: usize) -> (r: Self)
        ensures
            r@ == Seq::<T>::empty(),
    {
        VarVec { data: Vec::with_capacity(capacity) }
    }

    /// Number of variables that have a slot.
    pub fn len(&self) -> (r: usize)
        ensures
            r == self.num_vars(),
    {
        if self.data.len() == 0 {
            0
        } else {
            self.data.len() - 1
        }
    }

    pub fn get(&self, v: Var) -> (r: &T)
        requires
            self.holds(v),
        ensures
            *r == self@[v.id() as int],
    {
        &self.data[v.get() as usize]
    }

    pub fn set(&mut self, v: Var, val: T)
        requires
            old(self).holds(v),
        ensures
            final(self)@ == old(self)@.update(v.id() as int, val),
    {
        let i = v.get() as usize;
        self.data.set(i, val);
    }
}

impl<T: Copy> VarVec<T> {
    /// Resizes so that `v` has a slot; new slots hold `val`.
    pub fn expand(&mut self, v: Var, val: T)
        ensures
            old(self).wf() ==> final(self).wf(),
            final(self)@.len() == if old(self)@.len() > v.id() { old(self)@.len() } else { v.id() + 1 },
            forall|i: int| 0 <= i < old(self)@.len() ==> final(self)@[i] == old(self)@[i],
            forall|i: int| old(self)@.len() <= i < final(self)@.len() ==> final(self)@[i] == val,
    {
        let len = v.get() as usize + 1;
        while self.data.len() < len
            invariant
                len == v.id() + 1,
                self.data@.len() <= len || self.data@.len() == old(self)@.len(),
                self.data@.len() >= old(self)@.len(),
                old(self)@.len() > v.id() ==> self.data@ == old(self)@,
                forall|i: int| 0 <= i < old(self)@.len() ==> self.data@[i] == old(self)@[i],
                forall|i: int| old(self)@.len() <= i < self.data@.len() ==> self.data@[i] == val,
            decreases len - self.data@.len(),
        {
            self.data.push(val);
        }
    }

    /// Each variable with its value, in order of id.
    pub fn iter_with_var(&self) -> (r: Vec<(Var, T)>)
        requires
            self.wf(),
        ensures
            r@.len() == self.num_vars(),
            forall|i: int| 0 <= i < r@.len() ==> r@[i].0.id() == i + 1 && r@[i].1 == self@[i + 1],
    {
        let mut r: Vec<(Var, T)> = Vec::new();
        assert(self@ == self.data@);
        let mut i: usize = 1;
        while i < self.data.len()
            invariant
                1 <= i,
                i <= self.data@.len() || (self.data@.len() == 0 && i == 1),
                self@ == self.data@,
                self.wf(),
                r@.len() == i - 1,
                forall|k: int| 0 <= k < r@.len() ==> r@[k].0.id() == k + 1 && r@[k].1 == self@[k + 1],
            decreases self.data@.len() - i,
        {
            r.push((Var::from_id(i as u32), self.data[i]));
            i = i + 1;
        }
        r
    }
}

} // verus!
