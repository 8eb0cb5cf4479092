use vstd::prelude::*;

verus! {

/// Identifies a document held by the editor.
#[derive(Debug, Clone, Copy, PartialEq, Eq, Structural, Hash)]
pub struct DocumentId(u64);

impl View for DocumentId {
    type V = u64;

    closed spec fn view(&self) -> u64 {
        self.0
    }
}

impl DocumentId {
    /// Identifiers with the same number are the same identifier.
    pub proof fn lemma_view_injective(a: Self, b: Self)
        ensures
            a@ == b@ ==> a == b,
    {
    }

    /// The identifier numbered `value`, in specifications.
    pub closed spec fn spec_new(value: u64) -> Self {
        DocumentId(value)
    }

    pub proof fn lemma_spec_new(value: u64)
        ensures
            Self::spec_new(value)@ == value,
    {
    }

    #[verifier::when_used_as_spec(spec_new)]
    pub fn new(value: u64) -> (id: Self)
        ensures
            id@ == value,
            id == Self::spec_new(value),
    {
        Self(value)
    }

    pub fn value(self) -> (v: u64)
        ensures
            v == self@,
    {
        self.0
    }
}

/// Version counter of a document; every applied change moves it to `next()`.
#[derive(Debug, Clone, Copy, PartialEq, Eq, Structural, Hash, PartialOrd, Ord)]
pub struct RevisionId(u64);

impl View for RevisionId {
    type V = u64;

    closed spec fn view(&self) -> u64 {
        self.0
    }
}

impl RevisionId {
    /// Identifiers with the same number are the same identifier.
    pub proof fn lemma_view_injective(a: Self, b: Self)
        ensures
            a@ == b@ ==> a == b,
    {
    }

    /// The identifier numbered `value`, in specifications.
    pub closed spec fn spec_new(value: u64) -> Self {
        RevisionId(value)
    }

    pub proof fn lemma_spec_new(value: u64)
        ensures
            Self::spec_new(value)@ == value,
    {
    }

    #[verifier::when_used_as_spec(spec_new)]
    pub fn new(value: u64) -> (id: Self)
        ensures
            id@ == value,
            id == Self::spec_new(value),
    {
        Self(value)
    }

    pub fn initial() -> (id: Self)
        ensures
            id@ == 0,
    {
        Self(0)
    }

    /// The revision that follows this one; the counter must not be at its maximum.
    pub fn next(self) -> (id: Self)
        requires
            self@ < u64::MAX,
        ensures
            id@ == self@ + 1,
    {
        Self(self.0 + 1)
    }

    pub fn value(self) -> (v: u64)
        ensures
            v == self@,
    {
        self.0
    }
}

/// Identifies one open session on a document; several sessions may share a document.
#[derive(Debug, Clone, Copy, PartialEq, Eq, Structural, Hash)]
pub struct DocumentSessionId(u64);

impl View for DocumentSessionId {
    type V = u64;

    closed spec fn view(&self) -> u64 {
        self.0
    }
}

impl DocumentSessionId {
    /// Identifiers with the same number are the same identifier.
    pub proof fn lemma_view_injective(a: Self, b: Self)
        ensures
            a@ == b@ ==> a == b,
    {
    }

    /// The identifier numbered `value`, in specifications.
    pub closed spec fn spec_new(value: u64) -> Self {
        DocumentSessionId(value)
    }

    pub proof fn lemma_spec_new(value: u64)
        ensures
            Self::spec_new(value)@ == value,
    {
    }

    #[verifier::when_used_as_spec(spec_new)]
    pub fn new(value: u64) -> (id: Self)
        ensures
            id@ == value,
            id == Self::spec_new(value),
    {
        Self(value)
    }

    pub fn value(self) -> (v: u64)
        ensures
            v == self@,
    {
        self.0
    }
}

/// Identifies a viewport opened on a document session.
#[derive(Debug, Clone, Copy, PartialEq, Eq, Structural, Hash)]
pub struct ViewportSessionId(u64);

impl View for ViewportSessionId {
    type V = u64;

    closed spec fn view(&self) -> u64 {
        self.0
    }
}

impl ViewportSessionId {
    /// Identifiers with the same number are the same identifier.
    pub proof fn lemma_view_injective(a: Self, b: Self)
        ensures
            a@ == b@ ==> a == b,
    {
    }

    /// The identifier numbered `value`, in specifications.
    pub closed spec fn spec_new(value: u64) -> Self {
        ViewportSessionId(value)
    }

    pub proof fn lemma_spec_new(value: u64)
        ensures
            Self::spec_new(value)@ == value,
    {
    }

    #[verifier::when_used_as_spec(spec_new)]
    pub fn new(value: u64) -> (id: Self)
        ensures
            id@ == value,
            id == Self::spec_new(value),
    {
        Self(value)
    }

    pub fn value(self) -> (v: u64)
        ensures
            v == self@,
    {
        self.0
    }
}

} // verus!
