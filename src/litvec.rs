//! A dense vector indexed by literal.
use vstd::prelude::*;

use crate::lit::{Lit, MAX_VAR};
use crate::util;

verus! {

/// The slot of literal `l`: both literals of a variable are adjacent, `v` before `-v`.
pub open spec fn lit_slot(l: Lit) -> int {
    l.code() - 2
}

/// The slot of a literal in a [`LitVec`].
pub fn lit_to_idx(lit: Lit) -> (r: usize)
    ensures
        r == lit_slot(lit),
        r <= 2 * MAX_VAR - 1,
{
    (lit.get() - 2) as usize
}

/// A vector indexed by [`Lit`].
#[derive(Debug)]
pub struct LitVec<T> {
    data: Vec<T>,
}

impl<T> View for LitVec<T> {
    type V = Seq<T>;

    closed spec fn view(&self) -> Seq<T> {
        self.data@
    }
}

impl<T> LitVec<T> {
    /// `l` has a slot in this vector.
    pub open spec fn holds(&self, l: Lit) -> bool {
        lit_slot(l) < self@.len()
    }

    pub fn new() -> (r: Self)
        ensures
            r@ == Seq::<T>::empty(),
    {
        LitVec { data: Vec::new() }
    }

    pub fn len(&self) -> (r: usize)
        ensures
            r == self@.len(),
    {
        self.data.len()
    }

    pub fn get(&self, l: Lit) -> (r: &T)
        requires
            self.holds(l),
        ensures
            *r == self@[lit_slot(l)],
    {
        &self.data[lit_to_idx(l)]
    }

    pub fn set(&mut self, l: Lit, val: T)
        requires
            old(self).holds(l),
        ensures
            final(self)@ == old(self)@.update(lit_slot(l), val),
    {
        let i = lit_to_idx(l);
        self.data.set(i, val);
    }

    /// Puts `val` in the slot of `l` and hands back what was there.
    pub fn replace(&mut self, l: Lit, val: T) -> (r: T)
        requires
            old(self).holds(l),
        ensures
            r == old(self)@[lit_slot(l)],
            final(self)@ == old(self)@.update(lit_slot(l), val),
    {
        let i = lit_to_idx(l);
        let mut v = val;
        std::mem::swap(&mut self.data[i], &mut v);
        v
    }

    /// Puts `val` in slot `i` and hands back what was there.
    pub fn replace_slot(&mut self, i: usize, val: T) -> (r: T)
        requires
            i < old(self)@.len(),
        ensures
            r == old(self)@[i as int],
            final(self)@ == old(self)@.update(i as int, val),
    {
        let mut v = val;
        std::mem::swap(&mut self.data[i], &mut v);
        v
    }

    /// The slot of `l`, and access to every other slot.
    pub fn remaining(&mut self, l: Lit) -> (r: Option<(&mut T, Remaining<'_, T>)>)
        ensures
            r.is_none() <==> !old(self).holds(l),
            r.is_some() ==> {
                let (value, rest) = r.unwrap();
                &&& *value == old(self)@[lit_slot(l)]
                &&& rest.inner().wf()
                &&& rest.inner().used() == lit_slot(l)
                &&& rest.inner().len() == old(self)@.len()
                &&& forall|j: int| 0 <= j < old(self)@.len() && j != lit_slot(l) ==> rest.inner().at(j) == old(self)@[j]
            },
    {
        match util::remaining(self.data.as_mut_slice(), lit_to_idx(l)) {
            Some((value, rest)) => Some((value, Remaining { rest })),
            None => None,
        }
    }
}

impl<T: Copy> LitVec<T> {
    /// Resizes so that `l` has a slot; new slots hold `val`.
    pub fn expand(&mut self, l: Lit, val: T)
        ensures
            final(self)@.len() == if old(self)@.len() > lit_slot(l) { old(self)@.len() as int } else { lit_slot(l) + 1 },
            forall|i: int| 0 <= i < old(self)@.len() ==> final(self)@[i] == old(self)@[i],
            forall|i: int| old(self)@.len() <= i < final(self)@.len() ==> final(self)@[i] == val,
    {
        let len = lit_to_idx(l) + 1;
        while self.data.len() < len
            invariant
                len == lit_slot(l) + 1,
                self.data@.len() <= len || self.data@.len() == old(self)@.len(),
                self.data@.len() >= old(self)@.len(),
                old(self)@.len() > lit_slot(l) ==> self.data@ == old(self)@,
                forall|i: int| 0 <= i < old(self)@.len() ==> self.data@[i] == old(self)@[i],
                forall|i: int| old(self)@.len() <= i < self.data@.len() ==> self.data@[i] == val,
            decreases len - self.data@.len(),
        {
            self.data.push(val);
        }
    }
}

impl<X> LitVec<Vec<X>> {
    /// Resizes so that `l` has a slot; new slots hold empty lists.
    pub fn expand_empty(&mut self, l: Lit)
        ensures
            final(self)@.len() == if old(self)@.len() > lit_slot(l) { old(self)@.len() as int } else { lit_slot(l) + 1 },
            forall|i: int| 0 <= i < old(self)@.len() ==> final(self)@[i] == old(self)@[i],
            forall|i: int| old(self)@.len() <= i < final(self)@.len() ==> final(self)@[i]@.len() == 0,
    {
        let len = lit_to_idx(l) + 1;
        while self.data.len() < len
            invariant
                len == lit_slot(l) + 1,
                self.data@.len() <= len || self.data@.len() == old(self)@.len(),
                self.data@.len() >= old(self)@.len(),
                old(self)@.len() > lit_slot(l) ==> self.data@ == old(self)@,
                forall|i: int| 0 <= i < old(self)@.len() ==> self.data@[i] == old(self)@[i],
                forall|i: int| old(self)@.len() <= i < self.data@.len() ==> self.data@[i]@.len() == 0,
            decreases len - self.data@.len(),
        {
            self.data.push(Vec::new());
        }
    }

    /// Appends `x` to the list of `l`.
    pub fn push_at(&mut self, l: Lit, x: X)
        requires
            old(self).holds(l),
        ensures
            final(self)@.len() == old(self)@.len(),
            final(self)@[lit_slot(l)]@ == old(self)@[lit_slot(l)]@.push(x),
            forall|i: int| 0 <= i < old(self)@.len() && i != lit_slot(l) ==> final(self)@[i] == old(self)@[i],
    {
        let i = lit_to_idx(l);
        let mut list: Vec<X> = Vec::new();
        std::mem::swap(&mut self.data[i], &mut list);
        list.push(x);
        self.data.set(i, list);
    }
}

/// Access to the slots of every literal but one, while that one is lent out.
pub struct Remaining<'a, T> {
    rest: util::Remaining<'a, T>,
}

impl<'a, T> Remaining<'a, T> {
    pub closed spec fn inner(&self) -> util::Remaining<'a, T> {
        self.rest
    }

    /// The value of `l`, unless `l` is the lent literal or has no slot.
    pub fn get(&self, l: Lit) -> (r: Option<&T>)
        requires
            self.inner().wf(),
        ensures
            r.is_none() <==> (lit_slot(l) == self.inner().used() || lit_slot(l) >= self.inner().len()),
            r.is_some() ==> *r.unwrap() == self.inner().at(lit_slot(l)),
    {
        self.rest.get(lit_to_idx(l))
    }

    /// Mutable access to the value of `l`, unless `l` is the lent literal or has no slot.
    pub fn get_mut(&mut self, l: Lit) -> (r: Option<&mut T>)
        requires
            old(self).inner().wf(),
        ensures
            r.is_none() <==> (lit_slot(l) == old(self).inner().used() || lit_slot(l) >= old(self).inner().len()),
            r.is_some() ==> *r.unwrap() == old(self).inner().at(lit_slot(l)),
    {
        self.rest.get_mut(lit_to_idx(l))
    }
}

} // verus!
