//! A deterministic push-down automaton's rulebook: stepping a configuration
//! follows the first rule that applies to it.

use vstd::prelude::*;
use crate::pda_configuration::{PDAConfiguration, PDARule, pda_applies, pda_next_stack};
use crate::sets::copy_vec;

verus! {

/// The first rule at index `i` or later that applies.
pub open spec fn pda_first_match_from(
    rules: Seq<PDARule>,
    state: u32,
    stack: Seq<char>,
    c: char,
    i: int,
) -> Option<PDARule>
    decreases rules.len() - i,
{
    if !(0 <= i < rules.len()) {
        None
    } else if pda_applies(rules[i], state, stack, c) {
        Some(rules[i])
    } else {
        pda_first_match_from(rules, state, stack, c, i + 1)
    }
}

pub open spec fn pda_first_match(
    rules: Seq<PDARule>,
    state: u32,
    stack: Seq<char>,
    c: char,
) -> Option<PDARule> {
    pda_first_match_from(rules, state, stack, c, 0)
}

pub struct DPDARulebook {
    pub rules: Vec<PDARule>,
}

impl DPDARulebook {
    pub fn build(args: Vec<(u32, char, u32, char, Vec<char>)>) -> (r: DPDARulebook)
        ensures
            r.rules@.len() == args@.len(),
            forall|i: int|
                0 <= i < args@.len() ==> {
                    let rule = #[trigger] r.rules@[i];
                    &&& rule.state == args@[i].0
                    &&& rule.character == args@[i].1
                    &&& rule.next_state == args@[i].2
                    &&& rule.pop_character == args@[i].3
                    &&& rule.push_characters@ == args@[i].4@
                },
    {
        let mut rules: Vec<PDARule> = Vec::new();
        let mut i: usize = 0;
        while i < args.len()
            invariant
                i <= args@.len(),
                rules@.len() == i,
                forall|j: int|
                    0 <= j < i ==> {
                        let rule = #[trigger] rules@[j];
                        &&& rule.state == args@[j].0
                        &&& rule.character == args@[j].1
                        &&& rule.next_state == args@[j].2
                        &&& rule.pop_character == args@[j].3
                        &&& rule.push_characters@ == args@[j].4@
                    },
            decreases args.len() - i,
        {
            let t = &args[i];
            rules.push(PDARule::new(t.0, t.1, t.2, t.3, copy_vec(&t.4)));
            i += 1;
        }
        DPDARulebook { rules }
    }

    /// Step the configuration by the first applicable rule; some rule must
    /// apply, else the automaton is stuck.
    pub fn next_configuration(&self, configuration: PDAConfiguration, character: char) -> (r:
        PDAConfiguration)
        requires
            pda_first_match(
                self.rules@,
                configuration.state,
                configuration.stack@,
                character,
            ).is_some(),
        ensures
            ({
                let rule = pda_first_match(
                    self.rules@,
                    configuration.state,
                    configuration.stack@,
                    character,
                ).unwrap();
                &&& r.state == rule.next_state
                &&& r.stack@ == pda_next_stack(rule, configuration.stack@)
            }),
    {
        match self.rule_for(configuration.clone(), character) {
            Some(rule) => rule.follow(configuration),
            None => unreached(),
        }
    }

    pub fn rule_for(&self, configuration: PDAConfiguration, character: char) -> (r: Option<
        &PDARule,
    >)
        ensures
            ({
                let m = pda_first_match(
                    self.rules@,
                    configuration.state,
                    configuration.stack@,
                    character,
                );
                match r {
                    Some(rule) => m == Some(*rule),
                    None => m is None,
                }
            }),
    {
        let mut i: usize = 0;
        while i < self.rules.len()
            invariant
                i <= self.rules@.len(),
                pda_first_match(
                    self.rules@,
                    configuration.state,
                    configuration.stack@,
                    character,
                ) == pda_first_match_from(
                    self.rules@,
                    configuration.state,
                    configuration.stack@,
                    character,
                    i as int,
                ),
            decreases self.rules@.len() - i,
        {
            if self.rules[i].is_applied_to(configuration.clone(), character) {
                return Some(&self.rules[i]);
            }
            i += 1;
        }
        None
    }
}

} // verus!
