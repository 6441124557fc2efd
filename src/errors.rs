//! Why source text was rejected.
use vstd::prelude::*;
use crate::costs::ExecutionCost;

verus! {

/// A parse failure. Where a payload is carried, it is the offending text.
#[derive(Debug, PartialEq, Eq)]
pub enum ParseErrors {
    /// The source is too long for 32-bit line and column numbers.
    ProgramTooLarge,
    /// A literal was directly followed by something that does not close it.
    SeparatorExpected(Vec<u8>),
    /// No token matches here; the payload is the rest of the source.
    FailedParsingRemainder(Vec<u8>),
    IllegalVariableName(Vec<u8>),
    FailedParsingIntValue(Vec<u8>),
    FailedParsingPrincipal(Vec<u8>),
    FailedParsingField(Vec<u8>),
    FailedParsingHexValue(Vec<u8>),
    FailedParsingBuffer(Vec<u8>),
    ClosingParenthesisUnexpected,
    ClosingParenthesisExpected,
    ClosingTupleLiteralUnexpected,
    ClosingTupleLiteralExpected,
    CommaSeparatorUnexpected,
    ColonSeparatorUnexpected,
    /// Lists and tuples nest deeper than the passes accept.
    ExpressionStackDepthTooDeep,
    /// Definitions refer to each other in a cycle; the names caught in it.
    CircularReference(Vec<Vec<u8>>),
    /// Charging for the parse would overflow the cost total.
    CostOverflow,
    /// Charging for the parse passed the budget: the new total and the limit.
    CostBalanceExceeded(ExecutionCost, ExecutionCost),
}

impl ParseErrors {
    /// The offending text an error carries; empty for those that carry none.
    pub open spec fn text(&self) -> Seq<u8> {
        match self {
            ParseErrors::SeparatorExpected(x) => x@,
            ParseErrors::FailedParsingRemainder(x) => x@,
            ParseErrors::IllegalVariableName(x) => x@,
            ParseErrors::FailedParsingIntValue(x) => x@,
            ParseErrors::FailedParsingPrincipal(x) => x@,
            ParseErrors::FailedParsingField(x) => x@,
            ParseErrors::FailedParsingHexValue(x) => x@,
            ParseErrors::FailedParsingBuffer(x) => x@,
            _ => Seq::empty(),
        }
    }
}

} // verus!
