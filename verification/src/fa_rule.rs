//! A single labelled transition `(from, symbol, to)` over a state universe.
//!
//! The rule type is generic in the state type: finite automata use atomic
//! `u32` states, and the determinised automaton produced by the subset
//! construction uses canonical vectors of atomic states.

use vstd::prelude::*;

verus! {

#[derive(Clone, Copy)]
pub struct FARule<T> {
    pub state: T,
    pub character: char,
    pub next_state: T,
}

impl<T> FARule<T> {
    pub fn new(arg: (T, char, T)) -> (r: FARule<T>)
        ensures
            r.state == arg.0,
            r.character == arg.1,
            r.next_state == arg.2,
    {
        let (state, character, next_state) = arg;
        FARule { state, character, next_state }
    }

    pub fn character(&self) -> (r: char)
        ensures
            r == self.character,
    {
        self.character
    }

    pub fn follow(&self) -> (r: &T)
        ensures
            *r == self.next_state,
    {
        &self.next_state
    }
}

impl FARule<u32> {
    /// The rule matches the pair `(state, character)`.
    pub open spec fn spec_applies(self, state: u32, character: char) -> bool {
        self.state == state && self.character == character
    }

    pub fn is_applied_to(&self, state: u32, character: char) -> (r: bool)
        ensures
            r == self.spec_applies(state, character),
    {
        self.state == state && self.character == character
    }
}

impl FARule<Vec<u32>> {
    /// The composite-state rule matches the pair `(state, character)`;
    /// composite states are compared by their contents.
    pub open spec fn spec_applies_composite(self, state: Seq<u32>, character: char) -> bool {
        self.state@ == state && self.character == character
    }

    pub fn is_applied_to(&self, state: &Vec<u32>, character: char) -> (r: bool)
        ensures
            r == self.spec_applies_composite(state@, character),
    {
        self.character == character && crate::sets::vec_u32_eq(&self.state, state)
    }
}

} // verus!
