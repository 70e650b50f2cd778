//! Atomic automaton states and the source of fresh ones.
//!
//! A state is an opaque `u32` identifier. The allocator hands out strictly
//! increasing identifiers, so every state minted during one compilation is
//! distinct from every earlier one; regex compilation threads one allocator
//! through all its recursive calls.

use vstd::prelude::*;

verus! {

pub type State = u32;

/// Monotonic source of fresh state identifiers.
pub struct StateAllocator {
    next: u32,
}

impl StateAllocator {
    /// The identifier the next call of `new_state` will return.
    pub closed spec fn counter(&self) -> u32 {
        self.next
    }

    pub fn new() -> (r: StateAllocator)
        ensures
            r.counter() == 0,
    {
        StateAllocator { next: 0 }
    }

    /// Mint a state never returned before by this allocator.
    pub fn new_state(&mut self) -> (r: State)
        requires
            old(self).counter() < u32::MAX,
        ensures
            r == old(self).counter(),
            final(self).counter() == old(self).counter() + 1,
    {
        let r = self.next;
        self.next = self.next + 1;
        r
    }
}

} // verus!
