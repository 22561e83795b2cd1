//! Errors of the synthesis pipeline.
use vstd::prelude::*;

verus! {

/// Why a netlist line was rejected.
#[derive(Debug, Clone, Copy, PartialEq, Eq, Structural)]
pub enum ParseError {
    /// The line holds a number of variables other than 2, 3, 4 or 5.
    Arity,
    /// A variable's number is too large to be a wire id.
    Token,
}

/// Why a stage of the pipeline gave up.
#[derive(Debug, Clone, Copy, PartialEq, Eq, Structural)]
pub enum SynthesisError {
    /// The netlist text is malformed.
    Parse(ParseError),
    /// A schedule fixed point made no progress while gates were still
    /// unassigned: the netlist has a combinational cycle.
    Cycle,
    /// A size limit was exceeded.
    ResourceExhausted,
}

impl ParseError {
    /// A short description for diagnostics.
    pub fn message(&self) -> (s: &'static str)
        ensures
            s@ == match *self {
                ParseError::Arity => "unsupported number of variables on a line"@,
                ParseError::Token => "variable number out of range"@,
            },
    {
        match self {
            ParseError::Arity => "unsupported number of variables on a line",
            ParseError::Token => "variable number out of range",
        }
    }
}

impl SynthesisError {
    /// A short description for diagnostics.
    pub fn message(&self) -> (s: &'static str)
        ensures
            s@ == match *self {
                SynthesisError::Parse(e) => e.message_text(),
                SynthesisError::Cycle => "combinational cycle in the netlist"@,
                SynthesisError::ResourceExhausted => "size limit exceeded"@,
            },
    {
        match self {
            SynthesisError::Parse(e) => e.message(),
            SynthesisError::Cycle => "combinational cycle in the netlist",
            SynthesisError::ResourceExhausted => "size limit exceeded",
        }
    }
}

impl ParseError {
    /// The text that `message` returns.
    pub open spec fn message_text(&self) -> Seq<char> {
        match *self {
            ParseError::Arity => "unsupported number of variables on a line"@,
            ParseError::Token => "variable number out of range"@,
        }
    }
}

} // verus!
