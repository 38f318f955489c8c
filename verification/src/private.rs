//! The exclusive borrow through which a rewritten declaration reaches its slot.

use vstd::prelude::*;

verus! {

/// An exclusive borrow of a slot, held for the length of one call.
pub struct Ptr<'a, T> {
    pub target: &'a mut T,
}

impl<'a, T> Ptr<'a, T> {
    /// Takes the borrow: the slot is read and written through the result until it is dropped.
    pub fn new(ptr: &'a mut T) -> (r: Ptr<'a, T>)
        ensures
            *r.target == *old(ptr),
            *final(r.target) == *final(ptr),
    {
        Ptr { target: ptr }
    }

    /// Hands the borrow out, for the lifetime it was taken with.
    pub fn as_mut(self) -> (r: &'a mut T)
        ensures
            *r == *old(self.target),
            *final(r) == *final(self.target),
    {
        self.target
    }
}

} // verus!
