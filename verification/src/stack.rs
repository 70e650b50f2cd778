//! A persistent character stack: `push` and `pop` return new stacks and the
//! receiver is never changed. Used by the push-down automaton configurations.

use vstd::prelude::*;

verus! {

/// Immutable stack of symbols; the head of the view is the top.
#[derive(Debug)]
pub struct Stack {
    contents: Vec<char>,
}

impl View for Stack {
    type V = Seq<char>;

    closed spec fn view(&self) -> Seq<char> {
        self.contents@
    }
}

impl Stack {
    pub fn new(args: Vec<char>) -> (r: Stack)
        ensures
            r@ == args@,
    {
        Stack { contents: args }
    }

    /// A new stack with `c` on top of everything the receiver holds.
    pub fn push(&self, c: char) -> (r: Stack)
        ensures
            r@ == seq![c] + self@,
    {
        let mut v = self.contents.clone();
        v.insert(0, c);
        let r = Stack::new(v);
        proof {
            assert(r@ =~= seq![c] + self@);
        }
        r
    }

    /// A new stack without the top symbol; popping an empty stack yields an
    /// empty stack.
    pub fn pop(&self) -> (r: Stack)
        ensures
            self@.len() > 0 ==> r@ == self@.drop_first(),
            self@.len() == 0 ==> r@ == self@,
    {
        let mut v = self.contents.clone();
        if v.len() > 0 {
            v.remove(0);
        }
        let r = Stack::new(v);
        proof {
            if self@.len() > 0 {
                assert(r@ =~= self@.drop_first());
            }
        }
        r
    }

    pub fn top(&self) -> (r: Option<&char>)
        ensures
            self@.len() > 0 ==> (r matches Some(c) && *c == self@[0]),
            self@.len() == 0 ==> r is None,
    {
        if self.contents.len() > 0 {
            Some(&self.contents[0])
        } else {
            None
        }
    }
}

impl Clone for Stack {
    fn clone(&self) -> (r: Stack)
        ensures
            r@ == self@,
    {
        Stack { contents: self.contents.clone() }
    }
}

impl PartialEq for Stack {
    fn eq(&self, other: &Stack) -> (r: bool)
        ensures
            r == (self@ == other@),
    {
        let mut i: usize = 0;
        if self.contents.len() != other.contents.len() {
            proof {
                assert(self@.len() != other@.len());
            }
            return false;
        }
        while i < self.contents.len()
            invariant
                i <= self.contents.len(),
                self.contents.len() == other.contents.len(),
                forall|j: int| 0 <= j < i ==> self.contents@[j] == other.contents@[j],
            decreases self.contents.len() - i,
        {
            if self.contents[i] != other.contents[i] {
                return false;
            }
            i += 1;
        }
        proof {
            assert(self@ =~= other@);
        }
        true
    }
}

impl vstd::std_specs::cmp::PartialEqSpecImpl for Stack {
    open spec fn obeys_eq_spec() -> bool {
        true
    }

    open spec fn eq_spec(&self, other: &Stack) -> bool {
        self@ == other@
    }
}

} // verus!
