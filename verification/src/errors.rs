use vstd::prelude::*;
use crate::text::{decimal, push_decimal};
use crate::types::{LexerSpan, LocalError};

verus! {

#[allow(non_camel_case_types)]
#[derive(Debug, Clone, Copy, PartialEq, Eq, Hash, Structural)]
pub enum LexerErrorReason {
    INVALID_TOKEN,
    UNTERMINATED_TOKEN,
    EOF,
    /// the consumer is inapplicable and consumed nothing
    NO_MATCH,
    /// a larger consumer failed after a smaller one matched
    MATCHED_PREFIX,
    /// internal bugs found during testing
    INVARIANT_VIOLATION,
}

pub struct LexerError {
    pub line: usize,
    pub reason: LexerErrorReason,
    pub span: LexerSpan,
}

impl LexerError {
    pub fn new(reason: LexerErrorReason, line: usize, span: LexerSpan) -> (e: Self)
        ensures
            e.reason == reason,
            e.line == line,
            e.span == span,
    {
        let LexerSpan(start, curr) = span;
        Self { reason, line, span: LexerSpan(start, curr) }
    }
}

/// The diagnostic text of a reason; reasons that only steer the lexer internally have none.
pub open spec fn reason_message(reason: LexerErrorReason) -> Option<Seq<char>> {
    match reason {
        LexerErrorReason::INVALID_TOKEN => Some("invalid token"@),
        LexerErrorReason::UNTERMINATED_TOKEN => Some("unterminated token"@),
        LexerErrorReason::INVARIANT_VIOLATION => Some("invariant violation"@),
        LexerErrorReason::EOF => Some("unexpected end of file"@),
        _ => None,
    }
}

/// `LexerSpan(start, end)` as written by its derived `Debug`.
pub open spec fn span_text(span: LexerSpan) -> Seq<char> {
    "LexerSpan("@ + decimal(span.0 as nat) + ", "@ + decimal(span.1 as nat) + ")"@
}

/// The full diagnostic: `<message>: <span>\n at line: <line>`.
pub open spec fn diagnostic_text(e: LexerError) -> Seq<char> {
    reason_message(e.reason).unwrap() + ": "@ + span_text(e.span) + "\n at line: "@
        + decimal(e.line as nat)
}

impl LocalError for LexerError {
    type Out = String;

    open spec fn resolvable(&self) -> bool {
        reason_message(self.reason) is Some
    }

    fn resolve(&self) -> (out: String)
        ensures
            out@ == diagnostic_text(*self),
    {
        let msg: &str = match self.reason {
            LexerErrorReason::INVALID_TOKEN => "invalid token",
            LexerErrorReason::UNTERMINATED_TOKEN => "unterminated token",
            LexerErrorReason::INVARIANT_VIOLATION => "invariant violation",
            _ => "unexpected end of file",
        };
        let mut out = String::from_str(msg);
        out.append(": ");
        out.append("LexerSpan(");
        push_decimal(&mut out, self.span.0);
        out.append(", ");
        push_decimal(&mut out, self.span.1);
        out.append(")");
        out.append("\n at line: ");
        push_decimal(&mut out, self.line);
        out
    }
}

} // verus!
