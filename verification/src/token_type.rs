//! The closed, ordered enumeration of token kinds.

use vstd::prelude::*;

verus! {

/// Every kind of token the lexer can produce. The set is closed: the parse
/// rule table covers each variant with an explicit, exhaustively checked
/// match. `Count` is a sentinel that records the number of real kinds; no
/// token ever carries it and no rule is ever looked up for it.
#[derive(Clone, Copy, Debug, PartialEq, Eq, Structural, PartialOrd, Ord)]
pub enum TokenType {
    // Single-character tokens.
    LeftParen,
    RightParen,
    LeftBrace,
    RightBrace,
    Comma,
    Dot,
    Minus,
    Plus,
    Semicolon,
    Slash,
    Star,
    // One- or two-character tokens.
    Bang,
    BangEqual,
    Equal,
    EqualEqual,
    Greater,
    GreaterEqual,
    Less,
    LessEqual,
    // Literals.
    Identifier,
    String,
    Number,
    // Keywords.
    And,
    Class,
    Else,
    False,
    For,
    Fun,
    If,
    Nil,
    Or,
    Print,
    Return,
    Super,
    This,
    True,
    Var,
    While,
    // A lexical error; the token's lexeme is the diagnostic message.
    Error,
    // End of input, returned over and over once reached.
    Eof,
    // Sentinel: the number of real kinds above.
    Count,
}

} // verus!
