//! Source positions for diagnostics.

use vstd::prelude::*;

verus! {

/// A source span: the line and the column range of one token.
#[derive(Clone, Copy, Debug, PartialEq, Eq, Structural)]
pub struct Span {
    pub line: usize,
    pub start: usize,
    pub end: usize,
}

impl Span {
    pub fn new(line: usize, start: usize, end: usize) -> (r: Self)
        ensures
            r.line == line,
            r.start == start,
            r.end == end,
    {
        Span { line, start, end }
    }
}

} // verus!
