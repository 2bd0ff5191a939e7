use vstd::prelude::*;

verus! {

/// A position inside a document: a zero-based line and a count of UTF-16
/// code units from the start of that line.
#[derive(Debug, Clone, Copy, PartialEq, Eq, Structural)]
pub struct Position {
    pub line: u32,
    pub character: u32,
}

/// A span between two positions; well-formed ranges have `start <= end`
/// under (line, character) lexicographic order.
#[derive(Debug, Clone, Copy, PartialEq, Eq, Structural)]
pub struct Range {
    pub start: Position,
    pub end: Position,
}

/// One edit of a document: either a full replacement of its content
/// (`range` is `None`) or a patch replacing the byte span denoted by
/// `range` with `text`. The redundant `range_length` field is accepted
/// but never relied upon.
#[derive(Debug, Clone)]
pub struct TextDocumentContentChangeEvent {
    pub range: Option<Range>,
    pub range_length: Option<u32>,
    pub text: Vec<u8>,
}

/// The fatal error for an update call whose range resolves to
/// `start_offset > end_offset`: the caller sent an inverted range.
/// Carries both canonicalized positions and both resolved offsets.
#[derive(Debug, Clone, Copy, PartialEq, Eq, Structural)]
pub struct ContractViolation {
    pub start: Position,
    pub end: Position,
    pub start_offset: u32,
    pub end_offset: u32,
}

} // verus!
