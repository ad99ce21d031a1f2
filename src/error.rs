use vstd::prelude::*;

verus! {

/// Why a pattern could not be parsed.
///
/// Positions count characters (not bytes) from the start of the pattern.
#[derive(Debug, PartialEq, Eq, Clone, Copy, Structural)]
pub enum ParseError {
    /// A backslash followed by a character outside the escapable set.
    InvalidEscape(usize, char),
    /// A `)` with no matching `(`.
    InvalidRightParen(usize),
    /// A `*` with nothing before it to repeat.
    NoPrev(usize),
    /// A `(` that is never closed.
    NoRightParen,
    /// A pattern with no expression in it.
    Empty,
}

} // verus!
