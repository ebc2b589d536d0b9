use std::ops::Range;
use vstd::prelude::*;

verus! {

/// The kinds of lexical tokens of the language.
#[derive(Debug, PartialEq, Eq, Clone, Copy, Structural)]
pub enum TokenType {
    Eof,
    // Single-character tokens.
    LeftParen,
    RightParen,
    LeftBrace,
    RightBrace,
    Comma,
    Dot,
    Minus,
    Plus,
    Semicolon,
    Slash,
    Star,
    // One or two character tokens.
    Bang,
    BangEqual,
    Equal,
    EqualEqual,
    Greater,
    GreaterEqual,
    Less,
    LessEqual,
    // Literals.
    String,
    Number,
    Identifier,
    UnterminatedString,
    // Keywords.
    Print,
    Var,
    And,
    Class,
    Else,
    False,
    Fun,
    For,
    If,
    Nil,
    Or,
    Return,
    Super,
    This,
    True,
    While,
    Break,
    Continue,
    Unknown,
}

/// A token: its kind and the range of character positions it covers in the source.
/// For a string literal the span covers the contents between the quotes.
#[derive(Debug)]
pub struct Token {
    pub token_type: TokenType,
    pub span: Range<usize>,
}

} // verus!
