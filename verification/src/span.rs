//! Source locations: a half-open byte range into one file's text.

use vstd::prelude::*;

verus! {

/// A byte range `start..end` in a source file.
#[derive(Clone, Copy, Debug, PartialEq, Eq, Structural)]
pub struct Span {
    /// First byte of the range.
    pub start: usize,
    /// One past the last byte of the range.
    pub end: usize,
}

impl Span {
    /// The range `start..end`.
    pub fn new(start: usize, end: usize) -> (s: Span)
        ensures
            s.start == start,
            s.end == end,
    {
        Span { start, end }
    }

    /// The smallest span covering both `self` and `other`.
    pub fn join(self, other: Span) -> (s: Span)
        ensures
            s.start == if self.start <= other.start { self.start } else { other.start },
            s.end == if self.end >= other.end { self.end } else { other.end },
    {
        let start = if self.start <= other.start { self.start } else { other.start };
        let end = if self.end >= other.end { self.end } else { other.end };
        Span { start, end }
    }
}

} // verus!
