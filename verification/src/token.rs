//! The closed set of lexical symbols produced by the lexer.

use vstd::prelude::*;

verus! {

/// Mathematical value of a token: identifier and literal text is a `Seq<char>`.
pub enum TokenV {
    Illegal,
    EndOfInput,
    UpperIdentifier(Seq<char>),
    LowerIdentifier(Seq<char>),
    IntegerLiteral(Seq<char>),
    Backslash,
    Dot,
    LParen,
    RParen,
    Colon,
    Assign,
}

/// An atomic lexical unit. Identifiers and integer literals carry their raw
/// text; integer text is converted to a numeric value only by the parser.
/// Tokens are value types compared by structural equality.
#[derive(Debug, PartialEq, Eq)]
pub enum Token {
    Illegal,
    EndOfInput,
    UpperIdentifier(String),
    LowerIdentifier(String),
    IntegerLiteral(String),
    Backslash,
    Dot,
    LParen,
    RParen,
    Colon,
    Assign,
}

impl View for Token {
    type V = TokenV;

    open spec fn view(&self) -> TokenV {
        match self {
            Token::Illegal => TokenV::Illegal,
            Token::EndOfInput => TokenV::EndOfInput,
            Token::UpperIdentifier(s) => TokenV::UpperIdentifier(s@),
            Token::LowerIdentifier(s) => TokenV::LowerIdentifier(s@),
            Token::IntegerLiteral(s) => TokenV::IntegerLiteral(s@),
            Token::Backslash => TokenV::Backslash,
            Token::Dot => TokenV::Dot,
            Token::LParen => TokenV::LParen,
            Token::RParen => TokenV::RParen,
            Token::Colon => TokenV::Colon,
            Token::Assign => TokenV::Assign,
        }
    }
}

impl Token {
    /// Structural equality, usable from verified code: true exactly when the
    /// two tokens have the same mathematical value.
    pub fn matches(&self, other: &Token) -> (b: bool)
        ensures
            b == (self@ == other@),
    {
        match (self, other) {
            (Token::Illegal, Token::Illegal) => true,
            (Token::EndOfInput, Token::EndOfInput) => true,
            (Token::UpperIdentifier(a), Token::UpperIdentifier(b)) => a.eq(b),
            (Token::LowerIdentifier(a), Token::LowerIdentifier(b)) => a.eq(b),
            (Token::IntegerLiteral(a), Token::IntegerLiteral(b)) => a.eq(b),
            (Token::Backslash, Token::Backslash) => true,
            (Token::Dot, Token::Dot) => true,
            (Token::LParen, Token::LParen) => true,
            (Token::RParen, Token::RParen) => true,
            (Token::Colon, Token::Colon) => true,
            (Token::Assign, Token::Assign) => true,
            _ => false,
        }
    }
}

} // verus!
