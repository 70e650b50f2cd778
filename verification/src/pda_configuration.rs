//! Push-down automaton rules and configurations.
//!
//! A configuration is a snapshot `(state, stack)`. A rule applies when the
//! state, the stack's top symbol and the read character all match; following
//! it pops one symbol and pushes its listed symbols so that the first listed
//! symbol ends up on top.

use vstd::prelude::*;
use crate::stack::Stack;
use crate::sets::copy_vec;

verus! {

#[derive(Debug)]
pub struct PDAConfiguration {
    pub state: u32,
    pub stack: Stack,
}

impl PDAConfiguration {
    pub fn new(state: u32, stack: Stack) -> (r: PDAConfiguration)
        ensures
            r.state == state,
            r.stack@ == stack@,
    {
        PDAConfiguration { state, stack }
    }
}

impl Clone for PDAConfiguration {
    fn clone(&self) -> (r: PDAConfiguration)
        ensures
            r.state == self.state,
            r.stack@ == self.stack@,
    {
        PDAConfiguration { state: self.state, stack: self.stack.clone() }
    }
}

impl PartialEq for PDAConfiguration {
    fn eq(&self, other: &PDAConfiguration) -> (r: bool)
        ensures
            r == (self.state == other.state && self.stack@ == other.stack@),
    {
        self.state == other.state && self.stack == other.stack
    }
}

impl vstd::std_specs::cmp::PartialEqSpecImpl for PDAConfiguration {
    open spec fn obeys_eq_spec() -> bool {
        true
    }

    open spec fn eq_spec(&self, other: &PDAConfiguration) -> bool {
        self.state == other.state && self.stack@ == other.stack@
    }
}

/// The rule matches a configuration in `state` whose stack starts with
/// `stack`, reading `character`.
pub open spec fn pda_applies(r: PDARule, state: u32, stack: Seq<char>, character: char) -> bool {
    r.state == state && stack.len() > 0 && stack[0] == r.pop_character && r.character == character
}

/// The stack after following `r`: pop one symbol, push the rule's symbols
/// with the first on top.
pub open spec fn pda_next_stack(r: PDARule, stack: Seq<char>) -> Seq<char> {
    if stack.len() > 0 {
        r.push_characters@ + stack.drop_first()
    } else {
        r.push_characters@ + stack
    }
}

#[derive(Debug)]
pub struct PDARule {
    pub state: u32,
    pub character: char,
    pub next_state: u32,
    pub pop_character: char,
    pub push_characters: Vec<char>,
}

impl PDARule {
    pub fn new(
        state: u32,
        character: char,
        next_state: u32,
        pop_character: char,
        push_characters: Vec<char>,
    ) -> (r: PDARule)
        ensures
            r.state == state,
            r.character == character,
            r.next_state == next_state,
            r.pop_character == pop_character,
            r.push_characters@ == push_characters@,
    {
        PDARule { state, character, next_state, pop_character, push_characters }
    }

    pub fn is_applied_to(&self, configuration: PDAConfiguration, character: char) -> (r: bool)
        ensures
            r == pda_applies(*self, configuration.state, configuration.stack@, character),
    {
        self.state == configuration.state && (match configuration.stack.top() {
            Some(c) => *c == self.pop_character,
            None => false,
        }) && self.character == character
    }

    pub fn follow(&self, configuration: PDAConfiguration) -> (r: PDAConfiguration)
        ensures
            r.state == self.next_state,
            r.stack@ == pda_next_stack(*self, configuration.stack@),
    {
        let next_state = self.next_state;
        let stack = self.next_stack(configuration);
        PDAConfiguration::new(next_state, stack)
    }

    pub fn next_stack(&self, configuration: PDAConfiguration) -> (r: Stack)
        ensures
            r@ == pda_next_stack(*self, configuration.stack@),
    {
        let mut stack = configuration.stack.pop();
        let ghost popped = stack@;
        let mut i: usize = self.push_characters.len();
        while i > 0
            invariant
                i <= self.push_characters@.len(),
                stack@ == self.push_characters@.skip(i as int) + popped,
            decreases i,
        {
            i -= 1;
            stack = stack.push(self.push_characters[i]);
            proof {
                assert(stack@ =~= self.push_characters@.skip(i as int) + popped);
            }
        }
        proof {
            assert(self.push_characters@.skip(0) =~= self.push_characters@);
            assert(self.push_characters@.skip(self.push_characters@.len() as int) =~= Seq::<
                char,
            >::empty());
            assert(self.push_characters@.skip(self.push_characters@.len() as int) + popped
                =~= popped);
        }
        stack
    }
}

} // verus!
