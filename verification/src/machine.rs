//! The reduction machine: a statement and an environment, advanced one
//! small step at a time until the statement is irreducible.

use vstd::prelude::*;
use crate::expression::Environment;
use crate::statement::{Statement, stm_step};

verus! {

#[derive(Debug)]
pub struct Machine {
    pub statement: Statement,
    pub environment: Environment,
}

impl Machine {
    /// Replace statement and environment by the result of one small step.
    pub fn step(&mut self)
        requires
            stm_step(old(self).statement@, old(self).environment@).is_some(),
        ensures
            ({
                let p = stm_step(old(self).statement@, old(self).environment@).unwrap();
                final(self).statement@ == p.0 && final(self).environment@ == p.1
            }),
    {
        let (new_statement, new_env) = self.statement.reduce(&mut self.environment);
        self.statement = new_statement;
        self.environment = new_env;
    }
}

} // verus!
