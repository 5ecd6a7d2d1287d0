//! Half-open byte-offset ranges over a source buffer.

use vstd::prelude::*;

verus! {

/// A half-open byte range `[start, end)` into the source buffer.
///
/// A span never owns text: it only locates a fragment within the buffer it
/// was produced from. A well-formed span satisfies `start <= end`.
#[derive(Clone, Copy, Debug, PartialEq, Eq, Structural)]
pub struct Span {
    pub start: usize,
    pub end: usize,
}

impl Span {
    /// Whether the range is ordered, i.e. denotes `end - start` bytes.
    pub open spec fn wf(self) -> bool {
        self.start <= self.end
    }

    /// The number of bytes the span covers.
    pub open spec fn spec_len(self) -> int {
        self.end - self.start
    }

    pub fn new(start: usize, end: usize) -> (s: Span)
        requires
            start <= end,
        ensures
            s == (Span { start, end }),
    {
        Span { start, end }
    }

    /// An empty span anchored at `at`.
    pub fn empty(at: usize) -> (s: Span)
        ensures
            s == (Span { start: at, end: at }),
            s.spec_len() == 0,
    {
        Span { start: at, end: at }
    }

    pub fn len(&self) -> (n: usize)
        requires
            self.wf(),
        ensures
            n == self.spec_len(),
    {
        self.end - self.start
    }
}

} // verus!
