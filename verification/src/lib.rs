//! Classical automata (DFA, NFA with free moves, a deterministic push-down
//! configuration machine), a regular-expression engine compiled to NFAs by
//! Thompson's construction, and a small imperative language given small-step
//! and big-step semantics.

pub mod dfa;
pub mod dfa_from_nfa;
pub mod dpda;
pub mod expression;
pub mod fa_rule;
pub mod machine;
pub mod nfa;
pub mod pattern;
pub mod pattern_parser;
pub mod pda_configuration;
pub mod sets;
pub mod stack;
pub mod state;
pub mod statement;
pub mod text;
