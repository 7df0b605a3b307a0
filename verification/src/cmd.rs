//! Classifying a command line as a meta command or a statement.
use vstd::prelude::*;
use std::str::FromStr;
use crate::statements::{meta_parses_as, statement_parses_as, MetaCmdRes, StatementType};

verus! {

#[derive(Debug)]
pub enum CLIcommand {
    Meta(MetaCmdRes),
    Statement(StatementType),
}

impl CLIcommand {
    /// A meta command when `s` parses as one, else a statement when it parses
    /// as one, else an error.
    pub fn parse(s: &str) -> (r: Result<CLIcommand, ()>)
        ensures
            (exists|m: MetaCmdRes| meta_parses_as(s@, Ok(m))) ==> (r matches Ok(CLIcommand::Meta(m))
                && meta_parses_as(s@, Ok(m))),
            !(exists|m: MetaCmdRes| meta_parses_as(s@, Ok(m))) ==> match r {
                Ok(CLIcommand::Statement(st)) => statement_parses_as(s@, Ok(st)),
                Ok(CLIcommand::Meta(_)) => false,
                Err(_) => exists|e| statement_parses_as(s@, Err(e)),
            },
    {
        if let Ok(meta) = MetaCmdRes::parse(s) {
            return Ok(CLIcommand::Meta(meta));
        }
        if let Ok(statement_type) = StatementType::parse(s) {
            return Ok(CLIcommand::Statement(statement_type));
        }
        Err(())
    }
}

impl FromStr for CLIcommand {
    type Err = ();

    fn from_str(s: &str) -> (r: Result<Self, Self::Err>)
        ensures
            (exists|m: MetaCmdRes| meta_parses_as(s@, Ok(m))) ==> (r matches Ok(CLIcommand::Meta(m))
                && meta_parses_as(s@, Ok(m))),
            !(exists|m: MetaCmdRes| meta_parses_as(s@, Ok(m))) ==> match r {
                Ok(CLIcommand::Statement(st)) => statement_parses_as(s@, Ok(st)),
                Ok(CLIcommand::Meta(_)) => false,
                Err(_) => exists|e| statement_parses_as(s@, Err(e)),
            },
    {
        CLIcommand::parse(s)
    }
}

} // verus!
