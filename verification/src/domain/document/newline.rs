use vstd::prelude::*;
use vstd::utf8::*;

verus! {

/// The line ending a document prefers.
#[derive(Debug, Clone, Copy, PartialEq, Eq, Structural)]
pub enum NewlineMode {
    Lf,
    Crlf,
}

/// How a document treats line endings.
#[derive(Debug, Clone, Copy, PartialEq, Eq, Structural)]
pub struct NewlinePolicy {
    preferred_mode: NewlineMode,
    preserve_existing: bool,
}

/// Whether `bytes` hold a carriage return directly followed by a line feed.
pub open spec fn contains_crlf(bytes: Seq<u8>) -> bool {
    exists|i: int| 0 <= i && i + 1 < bytes.len() && #[trigger] bytes[i] == 13 && bytes[i + 1] == 10
}

/// The policy detected for `bytes`: CRLF when they hold a CRLF pair, LF otherwise.
pub open spec fn detected_policy(bytes: Seq<u8>) -> NewlinePolicy {
    NewlinePolicy::spec_detected(if contains_crlf(bytes) { NewlineMode::Crlf } else { NewlineMode::Lf })
}

impl NewlinePolicy {
    /// The policy `detected(preferred_mode)`, in specifications.
    pub closed spec fn spec_detected(preferred_mode: NewlineMode) -> Self {
        NewlinePolicy { preferred_mode, preserve_existing: true }
    }

    pub proof fn lemma_spec_detected(preferred_mode: NewlineMode)
        ensures
            Self::spec_detected(preferred_mode).preferred_mode() == preferred_mode,
            Self::spec_detected(preferred_mode).preserve_existing(),
    {
    }

    pub closed spec fn spec_preferred_mode(self) -> NewlineMode {
        self.preferred_mode
    }

    pub closed spec fn spec_preserve_existing(self) -> bool {
        self.preserve_existing
    }

    /// The policy that keeps existing line endings and prefers `preferred_mode`.
    #[verifier::when_used_as_spec(spec_detected)]
    pub fn detected(preferred_mode: NewlineMode) -> (p: Self)
        ensures
            p == Self::spec_detected(preferred_mode),
            p.preferred_mode() == preferred_mode,
            p.preserve_existing(),
    {
        Self { preferred_mode, preserve_existing: true }
    }

    /// The policy for `text`: CRLF when the text holds a CRLF pair, LF otherwise.
    pub fn detect(text: &str) -> (p: Self)
        ensures
            p == detected_policy(encode_utf8(text@)),
            p.preferred_mode() == (if contains_crlf(encode_utf8(text@)) {
                NewlineMode::Crlf
            } else {
                NewlineMode::Lf
            }),
            p.preserve_existing(),
    {
        let bytes = text.as_bytes();
        let mut i: usize = 0;
        while i < bytes.len() && i + 1 < bytes.len()
            invariant
                i <= bytes.len(),
                bytes@ == encode_utf8(text@),
                forall|j: int| 0 <= j < i && j + 1 < bytes@.len() ==> !(#[trigger] bytes@[j] == 13 && bytes@[j + 1] == 10),
            decreases bytes.len() - i,
        {
            if bytes[i] == 13 && bytes[i + 1] == 10 {
                return Self::detected(NewlineMode::Crlf);
            }
            i = i + 1;
        }
        Self::detected(NewlineMode::Lf)
    }

    #[verifier::when_used_as_spec(spec_preferred_mode)]
    pub fn preferred_mode(self) -> (m: NewlineMode)
        ensures
            m == self.preferred_mode(),
    {
        self.preferred_mode
    }

    #[verifier::when_used_as_spec(spec_preserve_existing)]
    pub fn preserve_existing(self) -> (b: bool)
        ensures
            b == self.preserve_existing(),
    {
        self.preserve_existing
    }
}

} // verus!
