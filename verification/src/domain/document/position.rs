use vstd::prelude::*;

use super::DocumentError;

verus! {

/// A byte offset into a document's UTF-8 text.
#[derive(Debug, Clone, Copy, PartialEq, Eq, Structural, PartialOrd, Ord, Hash)]
pub struct TextOffset(usize);

impl View for TextOffset {
    type V = usize;

    closed spec fn view(&self) -> usize {
        self.0
    }
}

impl TextOffset {
    /// Offsets with the same number are the same offset.
    pub proof fn lemma_view_injective(a: Self, b: Self)
        ensures
            a@ == b@ ==> a == b,
    {
    }

    /// The offset `value`, in specifications.
    pub closed spec fn spec_new(value: usize) -> Self {
        TextOffset(value)
    }

    pub proof fn lemma_spec_new(value: usize)
        ensures
            Self::spec_new(value)@ == value,
    {
    }

    #[verifier::when_used_as_spec(spec_new)]
    pub fn new(value: usize) -> (o: Self)
        ensures
            o@ == value,
            o == Self::spec_new(value),
    {
        Self(value)
    }

    pub fn value(self) -> (v: usize)
        ensures
            v == self@,
    {
        self.0
    }

    /// The offset `delta` bytes further on; the sum must fit in `usize`.
    pub fn checked_add(self, delta: usize) -> (o: Self)
        requires
            self@ + delta <= usize::MAX,
        ensures
            o@ == self@ + delta,
    {
        Self(self.0 + delta)
    }
}

impl From<usize> for TextOffset {
    fn from(value: usize) -> (o: Self)
        ensures
            o@ == value,
    {
        Self::new(value)
    }
}

impl vstd::std_specs::convert::FromSpecImpl<usize> for TextOffset {
    open spec fn obeys_from_spec() -> bool {
        true
    }

    closed spec fn from_spec(v: usize) -> Self {
        TextOffset(v)
    }
}

/// A half-open byte range `start..end` with `start <= end`.
#[derive(Debug, Clone, Copy, PartialEq, Eq, Structural)]
pub struct TextRange {
    start: TextOffset,
    end: TextOffset,
}

impl TextRange {
    /// Every range starts no later than it ends.
    #[verifier::type_invariant]
    pub open spec fn ordered(self) -> bool {
        self.spec_start()@ <= self.spec_end()@
    }

    /// The range `start..end`; an inverted pair is refused with `InvalidRange`.
    pub fn new(start: TextOffset, end: TextOffset) -> (r: Result<Self, DocumentError>)
        ensures
            start@ <= end@ <==> r is Ok,
            r matches Ok(range) ==> range.start() == start && range.end() == end && range == Self::spec_between(start, end),
            r matches Err(e) ==> e == (DocumentError::InvalidRange { start, end }),
    {
        if start.value() > end.value() {
            return Err(DocumentError::InvalidRange { start, end });
        }
        Ok(Self { start, end })
    }

    pub fn empty_at(offset: TextOffset) -> (r: Self)
        ensures
            r.start() == offset,
            r.end() == offset,
            r == Self::spec_between(offset, offset),
    {
        Self { start: offset, end: offset }
    }

    pub closed spec fn spec_start(self) -> TextOffset {
        self.start
    }

    pub closed spec fn spec_end(self) -> TextOffset {
        self.end
    }

    /// The range `start..end`, in specifications.
    pub closed spec fn spec_between(start: TextOffset, end: TextOffset) -> TextRange {
        TextRange { start, end }
    }

    pub proof fn lemma_spec_between(start: TextOffset, end: TextOffset)
        ensures
            Self::spec_between(start, end).start() == start,
            Self::spec_between(start, end).end() == end,
    {
    }

    /// Ranges with the same bounds are the same range.
    pub proof fn lemma_bounds_injective(a: Self, b: Self)
        ensures
            a.start() == b.start() && a.end() == b.end() ==> a == b,
    {
    }

    #[verifier::when_used_as_spec(spec_start)]
    pub fn start(self) -> (s: TextOffset)
        ensures
            s == self.start(),
    {
        self.start
    }

    #[verifier::when_used_as_spec(spec_end)]
    pub fn end(self) -> (e: TextOffset)
        ensures
            e == self.end(),
    {
        self.end
    }

    pub fn len(self) -> (n: usize)
        ensures
            n == self.end()@ - self.start()@,
    {
        proof {
            use_type_invariant(self);
        }
        self.end.value() - self.start.value()
    }

    pub fn is_empty(self) -> (b: bool)
        ensures
            b == (self.start()@ == self.end()@),
    {
        self.start.value() == self.end.value()
    }
}

/// A zero-based line and a column counted in characters.
#[derive(Debug, Clone, Copy, PartialEq, Eq, Structural)]
pub struct Position {
    line: usize,
    column: usize,
}

impl Position {
    /// The position at `line` and `column`, in specifications.
    pub closed spec fn spec_new(line: usize, column: usize) -> Self {
        Position { line, column }
    }

    pub proof fn lemma_spec_new(line: usize, column: usize)
        ensures
            Self::spec_new(line, column).line() == line,
            Self::spec_new(line, column).column() == column,
    {
    }

    #[verifier::when_used_as_spec(spec_new)]
    pub fn new(line: usize, column: usize) -> (p: Self)
        ensures
            p.line() == line,
            p.column() == column,
            p == Self::spec_new(line, column),
    {
        Self { line, column }
    }

    pub closed spec fn spec_line(self) -> usize {
        self.line
    }

    pub closed spec fn spec_column(self) -> usize {
        self.column
    }

    /// Positions with the same line and column are the same position.
    pub proof fn lemma_fields_injective(a: Self, b: Self)
        ensures
            a.line() == b.line() && a.column() == b.column() ==> a == b,
    {
    }

    #[verifier::when_used_as_spec(spec_line)]
    pub fn line(self) -> (l: usize)
        ensures
            l == self.line(),
    {
        self.line
    }

    #[verifier::when_used_as_spec(spec_column)]
    pub fn column(self) -> (c: usize)
        ensures
            c == self.column(),
    {
        self.column
    }
}

} // verus!
