use vstd::prelude::*;
use vstd::utf8::*;

use super::{at_char_boundary, DocumentError, TextOffset, TextRange, TextSnapshot};

verus! {

/// The text after the bytes `start..end` of `text` are replaced by `inserted`.
pub open spec fn splice(text: Seq<u8>, start: int, end: int, inserted: Seq<u8>) -> Seq<u8> {
    text.subrange(0, start) + inserted + text.subrange(end, text.len() as int)
}

/// The error a buffer reports for inserting at `offset` into `text`, if any:
/// an offset past the end, or inside a character, is not a character boundary.
pub open spec fn insert_error(text: Seq<u8>, offset: TextOffset) -> Option<DocumentError> {
    if at_char_boundary(text, offset@ as int) {
        None
    } else {
        Some(DocumentError::InvalidUtf8Boundary { offset })
    }
}

/// The error a buffer reports for removing `range` from `text`, if any.
pub open spec fn range_error(text: Seq<u8>, range: TextRange) -> Option<DocumentError> {
    match TextSnapshot::slice_error(text, range.start(), range.end()) {
        Ok(_) => None,
        Err(e) => Some(e),
    }
}

/// Storage of a document's UTF-8 text that supports edits at byte offsets.
pub trait TextBuffer: Sized {
    /// The bytes the buffer holds.
    spec fn text(&self) -> Seq<u8>;

    /// The buffer's internal invariant.
    spec fn well_formed(&self) -> bool;

    /// A well-formed buffer holds valid UTF-8 whose length fits in `usize`.
    proof fn lemma_well_formed(&self)
        requires
            self.well_formed(),
        ensures
            valid_utf8(self.text()),
            self.text().len() <= usize::MAX,
    ;

    fn len_bytes(&self) -> (n: usize)
        requires
            self.well_formed(),
        ensures
            n == self.text().len(),
    ;

    fn snapshot(&self) -> (s: TextSnapshot)
        requires
            self.well_formed(),
        ensures
            s.bytes() == self.text(),
    ;

    /// The text of `range`, refused as `TextSnapshot::slice` refuses it.
    fn slice_string(&self, range: TextRange) -> (r: Result<String, DocumentError>)
        requires
            self.well_formed(),
        ensures
            match range_error(self.text(), range) {
                Some(e) => r == Err::<String, DocumentError>(e),
                None => r matches Ok(s) && encode_utf8(s@) == self.text().subrange(
                    range.start()@ as int,
                    range.end()@ as int,
                ),
            },
    ;

    fn is_char_boundary(&self, offset: TextOffset) -> (b: bool)
        requires
            self.well_formed(),
        ensures
            b == at_char_boundary(self.text(), offset@ as int),
    ;

    /// Inserts `text` at `offset`, which must be a character boundary.
    fn insert(&mut self, offset: TextOffset, text: &str) -> (r: Result<(), DocumentError>)
        requires
            old(self).well_formed(),
            old(self).text().len() + encode_utf8(text@).len() <= usize::MAX,
        ensures
            final(self).well_formed(),
            match insert_error(old(self).text(), offset) {
                Some(e) => r == Err::<(), DocumentError>(e) && final(self).text() == old(self).text(),
                None => r is Ok && final(self).text() == splice(
                    old(self).text(),
                    offset@ as int,
                    offset@ as int,
                    encode_utf8(text@),
                ),
            },
    ;

    /// Removes the bytes of `range`.
    fn delete(&mut self, range: TextRange) -> (r: Result<(), DocumentError>)
        requires
            old(self).well_formed(),
        ensures
            final(self).well_formed(),
            match range_error(old(self).text(), range) {
                Some(e) => r == Err::<(), DocumentError>(e) && final(self).text() == old(self).text(),
                None => r is Ok && final(self).text() == splice(
                    old(self).text(),
                    range.start()@ as int,
                    range.end()@ as int,
                    Seq::empty(),
                ),
            },
    ;

    /// Replaces the bytes of `range` by `text`.
    fn replace(&mut self, range: TextRange, text: &str) -> (r: Result<(), DocumentError>)
        requires
            old(self).well_formed(),
            old(self).text().len() + encode_utf8(text@).len() <= usize::MAX,
        ensures
            final(self).well_formed(),
            match range_error(old(self).text(), range) {
                Some(e) => r == Err::<(), DocumentError>(e) && final(self).text() == old(self).text(),
                None => r is Ok && final(self).text() == splice(
                    old(self).text(),
                    range.start()@ as int,
                    range.end()@ as int,
                    encode_utf8(text@),
                ),
            },
    ;
}

} // verus!
