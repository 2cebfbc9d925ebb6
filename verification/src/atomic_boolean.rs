//! A boolean cell with `get` and `set`.
//!
//! The cell is plain data: whoever shares it between threads holds it
//! behind a lock.

use vstd::prelude::*;

verus! {

/// A boolean value that can be read and overwritten.
#[derive(Debug)]
pub struct AtomicBoolean {
    value: bool,
}

impl View for AtomicBoolean {
    type V = bool;

    /// The value held.
    closed spec fn view(&self) -> bool {
        self.value
    }
}

impl AtomicBoolean {
    /// A cell that holds `val`.
    pub fn new(val: bool) -> (cell: AtomicBoolean)
        ensures
            cell@ == val,
    {
        AtomicBoolean { value: val }
    }

    /// The value held.
    pub fn get(&self) -> (val: bool)
        ensures
            val == self@,
    {
        self.value
    }

    /// Overwrites the value held.
    pub fn set(&mut self, val: bool)
        ensures
            final(self)@ == val,
    {
        self.value = val;
    }
}

} // verus!
