use vstd::prelude::*;

verus! {

/// What the lexer or parser was looking for when it stopped.
#[derive(Debug, Clone, Copy, PartialEq, Eq, Structural)]
pub enum Expected {
    /// Any token: an unrecognized character was skipped.
    Token,
    /// The closing quote of a string literal.
    StringEnd,
    /// The closing marker of a block comment.
    CommentEnd,
    /// A property, class, extern or delete declaration.
    Entry,
    Identifier,
    /// A numeric or string token.
    Value,
    /// A numeric or string token, or a nested array.
    ValueOrArray,
    Semicolon,
    EqualsOrLBracket,
    RBracket,
    Equals,
    /// After `class Name`: a parent reference, a body, or a semicolon.
    ClassBodyOrSemicolon,
    LBrace,
    CommaOrRBrace,
}

/// What stood at the offending position.
#[derive(Debug, Clone, Copy, PartialEq, Eq, Structural)]
pub enum Found {
    Character(char),
    NumToken,
    StrToken,
    CtrlToken(char),
    IdentToken,
    ClassToken,
    DeleteToken,
    End,
}

/// One diagnostic: a half-open span into the source text, what was
/// expected there, and what was found instead.
#[derive(Debug, Clone, Copy, PartialEq, Eq, Structural)]
pub struct Diag {
    pub lo: usize,
    pub hi: usize,
    pub expected: Expected,
    pub found: Found,
}

/// How a decode fails.
///
/// A binary header mismatch is `InvalidFormat`; a binary body that runs out
/// of bytes or hits an unknown discriminant is `TruncatedOrCorrupt`; text
/// with any lexer or parser diagnostic is `ParseError`, carrying every
/// diagnostic collected; input that is neither a valid binary document nor
/// decodable text is `IoError`.
#[derive(Debug, PartialEq)]
pub enum CfgError {
    InvalidFormat,
    TruncatedOrCorrupt,
    ParseError(Vec<Diag>),
    IoError,
}

} // verus!
