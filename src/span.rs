use vstd::prelude::*;

verus! {

/// A half-open range of source positions.
#[derive(Debug, Clone, Copy, PartialEq, Eq, Structural)]
pub struct Span {
    pub start: u32,
    pub end: u32,
}

/// The smaller of two positions.
pub open spec fn min_pos(a: u32, b: u32) -> u32 {
    if a <= b { a } else { b }
}

/// The larger of two positions.
pub open spec fn max_pos(a: u32, b: u32) -> u32 {
    if a >= b { a } else { b }
}

impl Span {
    /// A span is well formed when it does not run backwards.
    pub open spec fn wf(self) -> bool {
        self.start <= self.end
    }

    /// The smallest span that covers both spans.
    pub open spec fn spec_join(self, other: Span) -> Span {
        Span { start: min_pos(self.start, other.start), end: max_pos(self.end, other.end) }
    }

    /// `inner` lies wholly inside `self`.
    pub open spec fn contains(self, inner: Span) -> bool {
        self.start <= inner.start && inner.end <= self.end
    }

    /// `self` ends no later than `other` starts.
    pub open spec fn precedes(self, other: Span) -> bool {
        self.end <= other.start
    }

    pub fn new(start: u32, end: u32) -> (r: Span)
        ensures
            r == (Span { start, end }),
    {
        Span { start, end }
    }

    /// A zero-width span at a position.
    pub fn point(pos: u32) -> (r: Span)
        ensures
            r == (Span { start: pos, end: pos }),
    {
        Span { start: pos, end: pos }
    }

    /// Join two spans into the smallest span covering both.
    pub fn join(self, other: Span) -> (r: Span)
        ensures
            r == self.spec_join(other),
            r.contains(self),
            r.contains(other),
    {
        let start = if self.start <= other.start { self.start } else { other.start };
        let end = if self.end >= other.end { self.end } else { other.end };
        Span { start, end }
    }
}

} // verus!
