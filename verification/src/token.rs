//! Token records produced by the scanner: the closed set of token kinds,
//! the optional literal payload, and the token itself.

#![allow(non_camel_case_types)]

use vstd::prelude::*;

verus! {

/// The closed enumeration of token kinds: single-character symbols,
/// one/two-character operators, the three literal kinds, the sixteen
/// reserved words, the transient classification kinds that never appear
/// in a finished token sequence, and the terminal end-of-input kind.
#[derive(PartialEq, Eq, Structural, Copy, Clone, Debug)]
pub enum TokenKind {
    // Single-character tokens.
    LEFT_PAREN,
    RIGHT_PAREN,
    LEFT_BRACE,
    RIGHT_BRACE,
    COMMA,
    DOT,
    MINUS,
    PLUS,
    SEMICOLON,
    SLASH,
    STAR,
    // One or two character tokens.
    BANG,
    BANG_EQUAL,
    EQUAL,
    EQUAL_EQUAL,
    GREATER,
    GREATER_EQUAL,
    LESS,
    LESS_EQUAL,
    // Literals.
    IDENTIFIER,
    STRING,
    NUMBER,
    // Keywords.
    AND,
    CLASS,
    ELSE,
    FALSE,
    FUN,
    FOR,
    IF,
    NIL,
    OR,
    PRINT,
    RETURN,
    SUPER,
    THIS,
    TRUE,
    VAR,
    WHILE,
    // Transient classifications used during dispatch only.
    COMMENT,
    INVALID_TOKEN,
    WHITESPACE,
    NEWLINE,
    // Terminal end-of-input marker.
    EOF,
}

/// The literal payload of a STRING or NUMBER token.
///
/// A string literal carries the raw bytes strictly between the quotes
/// (no unescaping is performed). A number literal carries the raw digit
/// span; decoding it to a machine number is left to the consumer, so the
/// scanner itself stays free of floating-point values.
#[derive(PartialEq, Eq, Debug)]
pub enum Literal {
    String(Vec<u8>),
    Number(Vec<u8>),
}

/// One classified lexeme: its kind, the owned copy of its source bytes,
/// an optional literal payload, and the 1-based source line at which the
/// lexeme starts.
#[derive(PartialEq, Eq, Debug)]
pub struct Token {
    pub kind: TokenKind,
    pub lexeme: Vec<u8>,
    pub literal: Option<Literal>,
    pub line: usize,
}

impl Token {
    pub fn new(kind: TokenKind, lexeme: Vec<u8>, literal: Option<Literal>, line: usize) -> (t:
        Token)
        ensures
            t.kind == kind,
            t.lexeme == lexeme,
            t.literal == literal,
            t.line == line,
    {
        Token { kind, lexeme, literal, line }
    }
}

} // verus!
