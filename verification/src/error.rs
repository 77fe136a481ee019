//! The closed set of parse failures. Every failure of the parser is a value
//! of this taxonomy, returned through `Result`: the core never panics, logs
//! or terminates.

use vstd::prelude::*;
use crate::token::{Token, TokenV};

verus! {

/// Mathematical value of a parse error.
pub enum ErrorV {
    /// A token was found where the program grammar required end of input.
    ExpectedEndOfInput(TokenV),
    /// Input ran out where an expression was expected.
    UnexpectedEndOfInput,
    /// Integer literal text does not fit a 32-bit signed integer.
    IntegerParseError,
    /// A token that can start no expression.
    IllegalToken(TokenV),
    /// Carries the expected token, then the one actually found.
    ExpectedToken(TokenV, TokenV),
}

/// A parse failure, carrying enough payload to reconstruct a diagnostic.
#[derive(Debug, PartialEq)]
pub enum Error {
    /// A token was found where the program grammar required end of input.
    ExpectedEndOfInput(Token),
    /// Input ran out where an expression was expected.
    UnexpectedEndOfInput,
    /// Integer literal text does not fit a 32-bit signed integer.
    IntegerParseError,
    /// A token that can start no expression.
    IllegalToken(Token),
    /// Carries the expected token, then the one actually found.
    ExpectedToken(Token, Token),
}

impl View for Error {
    type V = ErrorV;

    open spec fn view(&self) -> ErrorV {
        match self {
            Error::ExpectedEndOfInput(t) => ErrorV::ExpectedEndOfInput(t@),
            Error::UnexpectedEndOfInput => ErrorV::UnexpectedEndOfInput,
            Error::IntegerParseError => ErrorV::IntegerParseError,
            Error::IllegalToken(t) => ErrorV::IllegalToken(t@),
            Error::ExpectedToken(e, a) => ErrorV::ExpectedToken(e@, a@),
        }
    }
}

} // verus!
