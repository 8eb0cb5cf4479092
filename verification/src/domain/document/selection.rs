use vstd::prelude::*;

use super::{DocumentError, TextOffset, TextRange};

verus! {

/// A selection from `anchor` to `active`; a caret when both are the same offset.
#[derive(Debug, Clone, Copy, PartialEq, Eq, Structural)]
pub struct Selection {
    anchor: TextOffset,
    active: TextOffset,
}

impl Selection {
    pub closed spec fn spec_anchor(self) -> TextOffset {
        self.anchor
    }

    pub closed spec fn spec_active(self) -> TextOffset {
        self.active
    }

    /// The caret at `offset`, in specifications.
    pub closed spec fn spec_caret(offset: TextOffset) -> Self {
        Selection { anchor: offset, active: offset }
    }

    /// The range the selection covers, lower bound first.
    pub open spec fn spec_range(self) -> TextRange {
        if self.anchor()@ <= self.active()@ {
            TextRange::spec_between(self.anchor(), self.active())
        } else {
            TextRange::spec_between(self.active(), self.anchor())
        }
    }

    pub proof fn lemma_caret(offset: TextOffset)
        ensures
            Self::spec_caret(offset).anchor() == offset,
            Self::spec_caret(offset).active() == offset,
    {
    }

    /// Selections with the same ends are the same selection.
    pub proof fn lemma_ends_injective(a: Self, b: Self)
        ensures
            a.anchor() == b.anchor() && a.active() == b.active() ==> a == b,
    {
    }

    #[verifier::when_used_as_spec(spec_caret)]
    pub fn caret(offset: TextOffset) -> (s: Self)
        ensures
            s == Self::spec_caret(offset),
            s.anchor() == offset,
            s.active() == offset,
    {
        Self { anchor: offset, active: offset }
    }

    pub fn new(anchor: TextOffset, active: TextOffset) -> (s: Self)
        ensures
            s.anchor() == anchor,
            s.active() == active,
    {
        Self { anchor, active }
    }

    #[verifier::when_used_as_spec(spec_anchor)]
    pub fn anchor(self) -> (o: TextOffset)
        ensures
            o == self.anchor(),
    {
        self.anchor
    }

    #[verifier::when_used_as_spec(spec_active)]
    pub fn active(self) -> (o: TextOffset)
        ensures
            o == self.active(),
    {
        self.active
    }

    pub fn is_caret(self) -> (b: bool)
        ensures
            b == (self.anchor()@ == self.active()@),
    {
        self.anchor.value() == self.active.value()
    }

    /// The covered range; it is never refused, as its bounds are put in order.
    pub fn range(self) -> (r: Result<TextRange, DocumentError>)
        ensures
            r == Ok::<TextRange, DocumentError>(self.spec_range()),
    {
        let start = if self.anchor.value() <= self.active.value() {
            self.anchor
        } else {
            self.active
        };
        let end = if self.anchor.value() <= self.active.value() {
            self.active
        } else {
            self.anchor
        };
        TextRange::new(start, end)
    }

    /// The caret at the lower end of the selection.
    pub fn collapse_to_start(self) -> (r: Result<Self, DocumentError>)
        ensures
            r == Ok::<Self, DocumentError>(Self::spec_caret(self.spec_range().start())),
    {
        let range = self.range()?;
        Ok(Self::caret(range.start()))
    }

    /// The caret at the upper end of the selection.
    pub fn collapse_to_end(self) -> (r: Result<Self, DocumentError>)
        ensures
            r == Ok::<Self, DocumentError>(Self::spec_caret(self.spec_range().end())),
    {
        let range = self.range()?;
        Ok(Self::caret(range.end()))
    }
}

} // verus!
