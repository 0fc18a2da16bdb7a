//! Places in the source, and what can go wrong while scanning it.
use vstd::prelude::*;
use crate::ascii::NEWLINE;

verus! {

/// A place in the source: the line, counted from 1, and the column.
#[derive(Debug, Clone, Copy, PartialEq, Eq)]
pub struct SourcePosition {
    pub line: usize,
    pub col: usize,
}

impl Default for SourcePosition {
    /// The place before any byte was consumed: line 1, column 0.
    fn default() -> (r: Self)
        ensures
            r.line == 1,
            r.col == 0,
    {
        SourcePosition { line: 1, col: 0 }
    }
}

/// The line of the byte at `offset`: one more than the number of newlines
/// before it. A newline itself still counts to the line that it ends.
pub open spec fn line_at(bytes: Seq<u8>, offset: int) -> int
    decreases offset,
{
    if offset <= 0 {
        1
    } else if bytes[offset - 1] == NEWLINE {
        line_at(bytes, offset - 1) + 1
    } else {
        line_at(bytes, offset - 1)
    }
}

/// The column of the byte at `offset`. The first byte of the source has
/// column 0, the byte after a newline has column 1, and every other byte
/// has one more than the byte before it.
pub open spec fn column_at(bytes: Seq<u8>, offset: int) -> int
    decreases offset,
{
    if offset <= 0 {
        0
    } else if bytes[offset - 1] == NEWLINE {
        1
    } else {
        column_at(bytes, offset - 1) + 1
    }
}

impl SourcePosition {
    /// This is the place of the byte at `offset` of `bytes`.
    pub open spec fn is_at(self, bytes: Seq<u8>, offset: int) -> bool {
        self.line == line_at(bytes, offset) && self.col == column_at(bytes, offset)
    }
}

/// Lines start at 1 and columns at 0, and neither outruns the offset.
pub proof fn lemma_position_bounds(bytes: Seq<u8>, offset: int)
    requires
        0 <= offset,
    ensures
        1 <= line_at(bytes, offset) <= offset + 1,
        0 <= column_at(bytes, offset) <= offset,
        offset > 0 ==> column_at(bytes, offset) >= 1,
    decreases offset,
{
    if offset > 0 {
        lemma_position_bounds(bytes, offset - 1);
    }
}

/// The place of a byte depends only on the bytes before it.
pub proof fn lemma_position_of_prefix(a: Seq<u8>, b: Seq<u8>, offset: int)
    requires
        0 <= offset <= a.len(),
        offset <= b.len(),
        forall|i: int| 0 <= i < offset ==> a[i] == b[i],
    ensures
        line_at(a, offset) == line_at(b, offset),
        column_at(a, offset) == column_at(b, offset),
    decreases offset,
{
    if offset > 0 {
        lemma_position_of_prefix(a, b, offset - 1);
    }
}

/// The ways in which scanning a token fails.
#[derive(Debug, Clone, Copy, PartialEq, Eq)]
pub enum LexErrorKind {
    /// A byte that starts no token, or a `:` that no `=` follows.
    IllegalCharacter,
    /// A word of more than `MAX_ID_LENGTH` bytes.
    IdentifierTooLong,
    /// An integer literal above `i32::MAX`.
    NumberTooLarge,
    /// A byte of 128 or more inside a string literal.
    NonPrintableCharacter,
    /// A backslash inside a string literal followed by anything but
    /// `n`, `t`, `"` or another backslash.
    IllegalEscapeCode,
    /// The input ends inside a string literal.
    UnterminatedString,
    /// The input ends inside a comment.
    UnterminatedComment,
}

/// A scanning failure: what went wrong, where, and the offending byte where
/// there is one.
#[derive(Debug, Clone, Copy, PartialEq, Eq)]
pub struct LexError {
    pub kind: LexErrorKind,
    pub position: SourcePosition,
    pub byte: Option<u8>,
}

} // verus!
