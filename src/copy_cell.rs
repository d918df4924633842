//! A cell for values that are copied out whole: it hands out no references, so it needs no
//! register and never refuses.

use vstd::prelude::*;

verus! {

/// A value that is read by copy and replaced whole.
pub struct CopyCell<T: Copy> {
    value: T,
}

impl<T: Copy> CopyCell<T> {
    pub closed spec fn value(&self) -> T {
        self.value
    }

    /// A cell holding `value`.
    pub fn new(value: T) -> (r: Self)
        ensures
            r.value() == value,
    {
        CopyCell { value }
    }

    /// A copy of the value.
    pub fn get(&self) -> (r: T)
        ensures
            r == self.value(),
    {
        self.value
    }

    /// Replaces the value.
    pub fn set(&mut self, value: T)
        ensures
            final(self).value() == value,
    {
        self.value = value;
    }
}

} // verus!
