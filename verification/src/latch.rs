//! A cell that hands out access to the value it holds.
//!
//! The value is held directly: reads go through `lock` and its guard,
//! writes through `lock_mut`, and Rust's borrow rules keep the two apart.

use vstd::prelude::*;

verus! {

/// Holds a value and hands out access to it.
#[derive(Debug)]
pub struct Latch<T> {
    data: T,
}

/// Read access to the value of a `Latch`.
#[derive(Debug)]
pub struct LatchGuard<'a, T> {
    latch: &'a Latch<T>,
}

impl<T> Latch<T> {
    /// The value held.
    pub closed spec fn value(&self) -> T {
        self.data
    }

    /// A latch that holds `data`.
    pub fn new(data: T) -> (r: Latch<T>)
        ensures
            r.value() == data,
    {
        Latch { data }
    }

    /// Read access to the value.
    pub fn lock(&self) -> (r: LatchGuard<'_, T>)
        ensures
            r.value() == self.value(),
    {
        LatchGuard { latch: self }
    }

    /// Write access to the value.
    pub fn lock_mut(&mut self) -> (r: &mut T)
        ensures
            *r == old(self).value(),
            final(self).value() == *final(r),
    {
        &mut self.data
    }

    /// The value, taken out of the latch.
    pub fn into_inner(self) -> (r: T)
        ensures
            r == self.value(),
    {
        self.data
    }
}

impl<'a, T> LatchGuard<'a, T> {
    /// The value of the latch.
    pub closed spec fn value(&self) -> T {
        self.latch.data
    }

    /// The value of the latch.
    pub fn get(&self) -> (r: &T)
        ensures
            *r == self.value(),
    {
        &self.latch.data
    }
}

} // verus!
