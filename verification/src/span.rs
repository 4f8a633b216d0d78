//! Source locations.

use vstd::prelude::*;

verus! {

/// A source location: 1-based line and column, and the byte range
/// `[start, end)` relative to the start of its line.
#[derive(Debug, Clone, Copy, PartialEq, Eq, Structural)]
pub struct Span {
    pub line: u32,
    pub col: u32,
    pub start: usize,
    pub end: usize,
}

/// The all-zero span, used where no location is known.
pub open spec fn zero_span() -> Span {
    Span { line: 0, col: 0, start: 0, end: 0 }
}

/// The span covering both `a` and `b`: the smaller line, column and start,
/// and the larger end.
pub open spec fn merged(a: Span, b: Span) -> Span {
    Span {
        line: if a.line <= b.line { a.line } else { b.line },
        col: if a.col <= b.col { a.col } else { b.col },
        start: if a.start <= b.start { a.start } else { b.start },
        end: if a.end >= b.end { a.end } else { b.end },
    }
}

impl Default for Span {
    fn default() -> (r: Span)
        ensures
            r == zero_span(),
    {
        Span { line: 0, col: 0, start: 0, end: 0 }
    }
}

impl Span {
    pub fn new(line: u32, col: u32, start: usize, end: usize) -> (r: Self)
        ensures
            r == (Span { line, col, start, end }),
    {
        Self { line, col, start, end }
    }

    /// An empty span at `offset`.
    pub fn point(line: u32, col: u32, offset: usize) -> (r: Self)
        ensures
            r == (Span { line, col, start: offset, end: offset }),
    {
        Self { line, col, start: offset, end: offset }
    }

    /// Merge two spans into one covering both.
    pub fn merge(self, other: Span) -> (r: Span)
        ensures
            r == merged(self, other),
    {
        Span {
            line: if self.line <= other.line { self.line } else { other.line },
            col: if self.col <= other.col { self.col } else { other.col },
            start: if self.start <= other.start { self.start } else { other.start },
            end: if self.end >= other.end { self.end } else { other.end },
        }
    }

    /// `line:col`, as the spans print in diagnostics.
    pub fn display(&self) -> (r: String)
        ensures
            r@ == crate::text::dec_nat(self.line as nat) + seq![':'] + crate::text::dec_nat(
                self.col as nat,
            ),
    {
        let mut s = crate::text::fmt_u64(self.line as u64);
        crate::text::push_char(&mut s, ':');
        let c = crate::text::fmt_u64(self.col as u64);
        crate::text::push_str(&mut s, c.as_str());
        s
    }
}

/// A merged span covers both inputs: it starts no later and ends no earlier
/// than either.
pub proof fn lemma_merge_covers(a: Span, b: Span)
    ensures
        merged(a, b).start <= a.start,
        merged(a, b).start <= b.start,
        merged(a, b).end >= a.end,
        merged(a, b).end >= b.end,
        merged(a, b).line <= a.line,
        merged(a, b).line <= b.line,
{
}

/// Merging is commutative, associative and idempotent.
pub proof fn lemma_merge_algebra(a: Span, b: Span, c: Span)
    ensures
        merged(a, b) == merged(b, a),
        merged(merged(a, b), c) == merged(a, merged(b, c)),
        merged(a, a) == a,
{
}

} // verus!
