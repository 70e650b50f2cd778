//! Deterministic finite automata over atomic states.
//!
//! A rulebook is a sequence of transitions; stepping from a state on a
//! character follows the first rule that matches. A rulebook meant to be
//! deterministic has at most one rule per `(state, character)` pair, and then
//! the first match is the only match (`lemma_dfa_step_deterministic`).

use vstd::prelude::*;
use crate::fa_rule::FARule;
use crate::sets::copy_vec;
use vstd::string::StrSliceExecFns;

verus! {

/// The first rule at index `i` or later that matches `(s, c)`.
pub open spec fn first_match_from(rules: Seq<FARule<u32>>, s: u32, c: char, i: int) -> Option<
    FARule<u32>,
>
    decreases rules.len() - i,
{
    if !(0 <= i < rules.len()) {
        None
    } else if rules[i].spec_applies(s, c) {
        Some(rules[i])
    } else {
        first_match_from(rules, s, c, i + 1)
    }
}

/// The first rule of the book that matches `(s, c)`.
pub open spec fn first_match(rules: Seq<FARule<u32>>, s: u32, c: char) -> Option<FARule<u32>> {
    first_match_from(rules, s, c, 0)
}

/// The state a deterministic automaton moves to from `s` on `c`, if any rule
/// matches.
pub open spec fn dfa_step(rules: Seq<FARule<u32>>, s: u32, c: char) -> Option<u32> {
    match first_match(rules, s, c) {
        Some(r) => Some(r.next_state),
        None => None,
    }
}

/// The state reached from `s` after reading the whole of `w`; `None` as soon
/// as some character has no matching rule.
pub open spec fn dfa_run(rules: Seq<FARule<u32>>, s: u32, w: Seq<char>) -> Option<u32>
    decreases w.len(),
{
    if w.len() == 0 {
        Some(s)
    } else {
        match dfa_step(rules, s, w[0]) {
            Some(s2) => dfa_run(rules, s2, w.drop_first()),
            None => None,
        }
    }
}

/// No two distinct rules of the book match the same `(state, character)`
/// pair: for every pair there is at most one applicable rule.
pub open spec fn deterministic(rules: Seq<FARule<u32>>) -> bool {
    forall|i: int, j: int|
        0 <= i < rules.len() && 0 <= j < rules.len() && rules[i].state == rules[j].state
            && rules[i].character == rules[j].character ==> i == j
}

/// In a deterministic rulebook, every rule that applies to `(s, c)` is the
/// rule that stepping follows: for a covered pair there is exactly one
/// applicable rule, and `dfa_step` takes it.
pub proof fn lemma_dfa_step_deterministic(rules: Seq<FARule<u32>>, s: u32, c: char, i: int)
    requires
        deterministic(rules),
        0 <= i < rules.len(),
        rules[i].spec_applies(s, c),
    ensures
        first_match(rules, s, c) == Some(rules[i]),
        dfa_step(rules, s, c) == Some(rules[i].next_state),
{
    lemma_first_match_unique(rules, s, c, i, 0);
}

proof fn lemma_first_match_unique(rules: Seq<FARule<u32>>, s: u32, c: char, i: int, j: int)
    requires
        deterministic(rules),
        0 <= j <= i < rules.len(),
        rules[i].spec_applies(s, c),
    ensures
        first_match_from(rules, s, c, j) == Some(rules[i]),
    decreases rules.len() - j,
{
    if rules[j].spec_applies(s, c) {
        assert(j == i);
    } else {
        assert(j != i);
        lemma_first_match_unique(rules, s, c, i, j + 1);
    }
}

/// A rulebook for a deterministic automaton.
pub struct DFARulebook {
    pub rules: Vec<FARule<u32>>,
}

impl DFARulebook {
    pub fn new(rules: Vec<FARule<u32>>) -> (r: DFARulebook)
        ensures
            r.rules@ == rules@,
    {
        DFARulebook { rules }
    }

    pub fn build(args: Vec<(u32, char, u32)>) -> (r: DFARulebook)
        ensures
            r.rules@.len() == args@.len(),
            forall|i: int|
                0 <= i < args@.len() ==> r.rules@[i] == (FARule {
                    state: args@[i].0,
                    character: args@[i].1,
                    next_state: args@[i].2,
                }),
    {
        let mut rules: Vec<FARule<u32>> = Vec::new();
        let mut i: usize = 0;
        while i < args.len()
            invariant
                i <= args.len(),
                rules@.len() == i,
                forall|j: int|
                    0 <= j < i ==> rules@[j] == (FARule {
                        state: args@[j].0,
                        character: args@[j].1,
                        next_state: args@[j].2,
                    }),
            decreases args.len() - i,
        {
            rules.push(FARule::new(args[i]));
            i += 1;
        }
        DFARulebook { rules }
    }

    pub fn rule_for(&self, state: u32, character: char) -> (r: &FARule<u32>)
        requires
            first_match(self.rules@, state, character).is_some(),
        ensures
            Some(*r) == first_match(self.rules@, state, character),
    {
        let mut i: usize = 0;
        while i < self.rules.len()
            invariant
                i <= self.rules@.len(),
                first_match(self.rules@, state, character) == first_match_from(
                    self.rules@,
                    state,
                    character,
                    i as int,
                ),
                first_match(self.rules@, state, character).is_some(),
            decreases self.rules@.len() - i,
        {
            if self.rules[i].is_applied_to(state, character) {
                return &self.rules[i];
            }
            i += 1;
        }
        proof {
            assert(first_match_from(self.rules@, state, character, self.rules@.len() as int)
                is None);
            assert(false);
        }
        unreached()
    }

    pub fn next_state(&self, state: u32, character: char) -> (r: u32)
        requires
            dfa_step(self.rules@, state, character).is_some(),
        ensures
            Some(r) == dfa_step(self.rules@, state, character),
    {
        *self.rule_for(state, character).follow()
    }
}

impl Clone for DFARulebook {
    fn clone(&self) -> (r: DFARulebook)
        ensures
            r.rules@ == self.rules@,
    {
        DFARulebook { rules: copy_vec(&self.rules) }
    }
}

/// A running automaton: the mutable shell the design spins up for one input.
struct DFA {
    current_state: u32,
    accept_states: Vec<u32>,
    rulebook: DFARulebook,
}

impl DFA {
    fn is_accept(&self) -> (r: bool)
        ensures
            r == self.accept_states@.contains(self.current_state),
    {
        crate::sets::vec_contains(&self.accept_states, self.current_state)
    }

    fn read_character(&mut self, character: char)
        requires
            dfa_step(old(self).rulebook.rules@, old(self).current_state, character).is_some(),
        ensures
            final(self).rulebook == old(self).rulebook,
            final(self).accept_states == old(self).accept_states,
            Some(final(self).current_state) == dfa_step(
                old(self).rulebook.rules@,
                old(self).current_state,
                character,
            ),
    {
        self.current_state = self.rulebook.next_state(self.current_state, character);
    }

    fn read_string(&mut self, string: &str)
        requires
            dfa_run(old(self).rulebook.rules@, old(self).current_state, string@).is_some(),
        ensures
            final(self).rulebook == old(self).rulebook,
            final(self).accept_states == old(self).accept_states,
            Some(final(self).current_state) == dfa_run(
                old(self).rulebook.rules@,
                old(self).current_state,
                string@,
            ),
    {
        let ghost w = string@;
        let ghost s0 = self.current_state;
        let n = string.unicode_len();
        let mut i: usize = 0;
        proof {
            assert(w.skip(0) =~= w);
        }
        while i < n
            invariant
                i <= n,
                n == w.len(),
                w == string@,
                self.rulebook == old(self).rulebook,
                self.accept_states == old(self).accept_states,
                dfa_run(self.rulebook.rules@, s0, w) == dfa_run(
                    self.rulebook.rules@,
                    self.current_state,
                    w.skip(i as int),
                ),
                dfa_run(self.rulebook.rules@, s0, w).is_some(),
            decreases n - i,
        {
            let c = string.get_char(i);
            proof {
                assert(w.skip(i as int).len() > 0);
                assert(w.skip(i as int)[0] == w[i as int]);
            }
            self.read_character(c);
            proof {
                assert(w.skip(i as int).drop_first() =~= w.skip(i + 1));
            }
            i += 1;
        }
        proof {
            assert(w.skip(w.len() as int) =~= Seq::<char>::empty());
        }
    }
}

/// The acceptance decision the design makes for `w`: run from the start state
/// and test membership in the accept states. `false` also covers a run that
/// gets stuck, though `is_accept` itself demands a run that does not.
pub open spec fn dfa_design_accepts(d: DFADesign, w: Seq<char>) -> bool {
    match dfa_run(d.rulebook.rules@, d.current_state, w) {
        Some(s) => d.accept_states@.contains(s),
        None => false,
    }
}

/// An immutable automaton description: start state, accept states, rulebook.
pub struct DFADesign {
    pub current_state: u32,
    pub accept_states: Vec<u32>,
    pub rulebook: DFARulebook,
}

impl DFADesign {
    pub fn new(arg: (u32, Vec<u32>, DFARulebook)) -> (r: DFADesign)
        ensures
            r.current_state == arg.0,
            r.accept_states@ == arg.1@,
            r.rulebook.rules@ == arg.2.rules@,
    {
        let (current_state, accept_states, rulebook) = arg;
        DFADesign { current_state, accept_states, rulebook }
    }

    fn to_dfa(&self) -> (r: DFA)
        ensures
            r.current_state == self.current_state,
            r.accept_states@ == self.accept_states@,
            r.rulebook.rules@ == self.rulebook.rules@,
    {
        DFA {
            current_state: self.current_state,
            accept_states: copy_vec(&self.accept_states),
            rulebook: self.rulebook.clone(),
        }
    }

    /// Whether the automaton accepts `string`. The run must not get stuck:
    /// every `(state, character)` pair it reaches must be covered by a rule.
    pub fn is_accept(&self, string: &str) -> (r: bool)
        requires
            dfa_run(self.rulebook.rules@, self.current_state, string@).is_some(),
        ensures
            r == dfa_design_accepts(*self, string@),
    {
        let mut dfa = self.to_dfa();
        dfa.read_string(string);
        dfa.is_accept()
    }
}

} // verus!
