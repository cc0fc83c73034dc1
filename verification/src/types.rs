use vstd::prelude::*;

verus! {

/// Something that can describe itself as a value for diagnostics.
pub trait LocalError {
    type Out;

    /// Whether `resolve` has a description to give for this value.
    spec fn resolvable(&self) -> bool;

    fn resolve(&self) -> Self::Out
        requires
            self.resolvable(),
    ;
}

/// A source span in byte offsets: the offset of the first code point of a lexeme and the
/// offset of its last code point (the lexer's cursor when the lexeme was recognized).
#[derive(Debug, Clone, Copy, PartialEq, Eq, Structural)]
pub struct LexerSpan(pub usize, pub usize);

} // verus!
