//! Split borrows of a slice: one slot lent out, the others reachable.
use vstd::prelude::*;

verus! {

/// Access to every slot of a slice but one, while that one is lent out elsewhere.
pub struct Remaining<'a, T> {
    used_index: usize,
    before: &'a mut [T],
    after: &'a mut [T],
}

impl<'a, T> Remaining<'a, T> {
    /// The position of the slot that is lent out.
    pub closed spec fn used(&self) -> nat {
        self.used_index as nat
    }

    /// The length of the whole slice, lent slot included.
    pub closed spec fn len(&self) -> nat {
        (self.before@.len() + 1 + self.after@.len()) as nat
    }

    /// The value in slot `i`, for `i` other than the lent slot.
    pub closed spec fn at(&self, i: int) -> T {
        if i < self.used_index { self.before@[i] } else { self.after@[i - self.used_index - 1] }
    }

    pub closed spec fn wf(&self) -> bool {
        self.before@.len() == self.used_index
    }

    /// The value in slot `i`, unless `i` is out of bounds or the lent slot.
    pub fn get(&self, i: usize) -> (r: Option<&T>)
        requires
            self.wf(),
        ensures
            r.is_none() <==> (i == self.used() || i >= self.len()),
            r.is_some() ==> *r.unwrap() == self.at(i as int),
    {
        if i < self.before.len() {
            Some(&self.before[i])
        } else if i > self.before.len() && i - self.before.len() - 1 < self.after.len() {
            Some(&self.after[i - self.before.len() - 1])
        } else {
            None
        }
    }

    /// Mutable access to slot `i`, unless `i` is out of bounds or the lent slot.
    pub fn get_mut(&mut self, i: usize) -> (r: Option<&mut T>)
        requires
            old(self).wf(),
        ensures
            r.is_none() <==> (i == old(self).used() || i >= old(self).len()),
            r.is_some() ==> *r.unwrap() == old(self).at(i as int),
    {
        let n = self.before.len();
        if i < n {
            Some(&mut self.before[i])
        } else if i > n && i - n - 1 < self.after.len() {
            Some(&mut self.after[i - n - 1])
        } else {
            None
        }
    }
}

/// Lends out slot `i` of `slice` together with access to every other slot.
pub fn remaining<T>(slice: &mut [T], i: usize) -> (r: Option<(&mut T, Remaining<'_, T>)>)
    ensures
        r.is_none() <==> i >= old(slice)@.len(),
        r.is_some() ==> {
            let (value, rest) = r.unwrap();
            &&& *value == old(slice)@[i as int]
            &&& rest.wf()
            &&& rest.used() == i
            &&& rest.len() == old(slice)@.len()
            &&& forall|j: int| 0 <= j < old(slice)@.len() && j != i ==> rest.at(j) == old(slice)@[j]
        },
{
    if i >= slice.len() {
        return None;
    }
    let (before, rest) = slice.split_at_mut(i);
    let (one, after) = rest.split_at_mut(1);
    match one.first_mut() {
        Some(value) => Some((value, Remaining { used_index: i, before, after })),
        None => None,
    }
}

} // verus!
