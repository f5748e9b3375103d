use vstd::prelude::*;

pub mod parse;
pub mod roll;

verus! {

/// A parsed dice expression: `count` dice with `sides` sides each, and a
/// signed modifier added once to the aggregate total.
#[derive(Debug, Clone, Copy, PartialEq, Eq, Structural)]
pub struct DiceExpression {
    pub count: u32,
    pub sides: u32,
    pub modifier: i32,
}

impl DiceExpression {
    /// A well-formed expression rolls at least one die with at least one side.
    pub open spec fn wf(&self) -> bool {
        self.count >= 1 && self.sides >= 1
    }
}

use crate::parse::Command;
use crate::parse::ParseError;
use crate::parse::lemma_parse_wf;
use crate::parse::parse_command;
use crate::parse::spec_parse_command;
use crate::roll::RollReport;
use crate::roll::report_matches;
use crate::roll::run_expression;

/// What one input line asks the command loop to do.
#[derive(Debug, Clone, PartialEq, Eq)]
pub enum Response {
    /// The line was a dice expression; it was rolled with this outcome.
    Rolled(RollReport),
    /// The line asked for the usage text.
    Help,
    /// The line asked to end the session.
    Quit,
    /// The line parsed as nothing recognizable; the loop goes on.
    BadInput(ParseError),
}

/// Process one input line: classify it, and when it is a dice expression,
/// roll it. Reserved words and parse errors perform no roll; the caller does
/// the printing and, on `Quit`, ends the session.
pub fn process_user_input(line: &[u8]) -> (r: Response)
    ensures
        match r {
            Response::Rolled(rep) => spec_parse_command(line@) matches Ok(Command::Roll(e))
                && report_matches(e, rep),
            Response::Help => spec_parse_command(line@) == Ok::<Command, ParseError>(Command::Help),
            Response::Quit => spec_parse_command(line@) == Ok::<Command, ParseError>(Command::Quit),
            Response::BadInput(p) => spec_parse_command(line@) == Err::<Command, ParseError>(p),
        },
{
    match parse_command(line) {
        Ok(Command::Roll(e)) => {
            proof {
                lemma_parse_wf(line@);
            }
            Response::Rolled(run_expression(&e))
        },
        Ok(Command::Help) => Response::Help,
        Ok(Command::Quit) => Response::Quit,
        Err(p) => Response::BadInput(p),
    }
}

} // verus!
