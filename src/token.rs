use crate::span::Span;
use vstd::prelude::*;

verus! {

/// The kind of a lexical unit.
#[derive(Debug, Clone, Copy, PartialEq, Eq, Structural)]
pub enum Kind {
    /// The `mod` keyword.
    Mod,
    /// The `pub` keyword.
    Pub,
    /// An identifier.
    Ident,
    /// `{`
    OpenBrace,
    /// `}`
    CloseBrace,
    /// `[`
    OpenBracket,
    /// `]`
    CloseBracket,
    /// `(`
    OpenParen,
    /// `)`
    CloseParen,
    /// `;`
    SemiColon,
    /// `#`
    Pound,
    /// `!`
    Bang,
    /// `=`
    Eq,
    /// A literal value.
    Literal,
    /// Any other punctuation or keyword.
    Other,
    /// The end of input; never stored in a stream.
    Eof,
}

/// A lexical unit with its source span.
#[derive(Debug, Clone, Copy, PartialEq, Eq, Structural)]
pub struct Token {
    pub kind: Kind,
    pub span: Span,
}

impl Token {
    pub fn new(kind: Kind, span: Span) -> (r: Token)
        ensures
            r == (Token { kind, span }),
    {
        Token { kind, span }
    }
}

} // verus!
