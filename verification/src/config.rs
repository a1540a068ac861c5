//! The integer parameters of an action tree.

use vstd::prelude::*;
use crate::Street;

verus! {

/// The parameters of an action tree that its shape depends on: the street
/// the tree starts on, the pot before the first action and the effective
/// stack. The bet sizing rules are given separately (see `sizing`).
#[derive(Clone, Copy, Debug)]
pub struct TreeParams {
    pub initial_street: Street,
    pub starting_pot: i32,
    pub effective_stack: i32,
}

/// Parameters for which every amount that a tree can reach fits in an `i32`
/// and every decision node has something to bet.
pub open spec fn params_ok(c: TreeParams) -> bool {
    &&& 1 <= c.effective_stack
    &&& 2 * c.effective_stack <= i32::MAX
    &&& c.starting_pot + 2 * c.effective_stack <= i32::MAX
}

impl TreeParams {
    /// Whether `params_ok` holds.
    pub fn is_valid(&self) -> (r: bool)
        ensures
            r == params_ok(*self),
    {
        1 <= self.effective_stack && self.effective_stack <= i32::MAX / 2 && self.starting_pot
            <= i32::MAX - 2 * self.effective_stack
    }
}

} // verus!
