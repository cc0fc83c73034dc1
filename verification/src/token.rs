use vstd::prelude::*;
use crate::types::LexerSpan;

verus! {

/// Marker for values that a token may carry.
pub trait Object {}

#[allow(non_camel_case_types)]
#[derive(Debug, Clone, Copy, PartialEq, Eq, Structural)]
pub enum TokenKind {
    // simple tokens
    CURLY_OPEN, CURLY_CLOSE, PAREN_OPEN, PAREN_CLOSE, BRACKET_OPEN,
    BRACKET_CLOSE, SEMICOLON, COMMA, COLON, DOT, PLUS, HYPHEN, STAR,
    SLASH, EQUALS, GREATER_THAN, LESS_THAN, TILDE, PIPE, CARET,
    DOLLAR, AMPERSAND, BANG, QUESTION, AT, PERCENT,
    // double tokens
    HYPHEN_DOUBLE, COLON_DOUBLE, TILDE_EQUAL, PIPE_EQUAL, CARET_EQUAL,
    DOLLAR_EQUAL, STAR_EQUAL,
    // triple tokens
    CDO, CDC,
    // compound tokens
    IDENT, FUNCTION, AT_KEYWORD, HASH_TOKEN, ID_HASH, GENERIC_HASH, STRING, NUMBER,
    PERCENTAGE, DIMENSION, WHITESPACE, HEX_TOKEN, ESCAPE,
    URL, BAD_STRING, BAD_URL, IMPORTANT_TOKEN, DIGIT_TOKEN,
    // any other code point
    DELIM(char),
    // end of input
    EOF,
}

pub struct Token {
    pub kind: TokenKind,
    pub line: usize,
    pub span: LexerSpan,
    pub literal: Option<Box<dyn Object>>,
}

impl Token {
    pub fn new(kind: TokenKind, line: usize, span: LexerSpan) -> (token: Self)
        ensures
            token.kind == kind,
            token.line == line,
            token.span == span,
            token.literal is None,
    {
        Self { kind, line, span, literal: None }
    }
}

} // verus!
