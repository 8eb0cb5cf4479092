use vstd::prelude::*;
use vstd::utf8::*;

use super::{at_char_boundary, range_error, splice, DocumentError, TextOffset, TextRange};

verus! {

/// A change to a document's text.
#[derive(Debug, PartialEq, Eq)]
pub enum Edit {
    Insert { offset: TextOffset, text: String },
    Delete { range: TextRange },
    Replace { range: TextRange, text: String },
}

/// An edit with its inserted text taken as characters.
pub enum EditView {
    Insert { offset: TextOffset, text: Seq<char> },
    Delete { range: TextRange },
    Replace { range: TextRange, text: Seq<char> },
}

impl View for Edit {
    type V = EditView;

    open spec fn view(&self) -> EditView {
        match self {
            Edit::Insert { offset, text } => EditView::Insert { offset: *offset, text: text@ },
            Edit::Delete { range } => EditView::Delete { range: *range },
            Edit::Replace { range, text } => EditView::Replace { range: *range, text: text@ },
        }
    }
}

impl Edit {
    /// The number of bytes the edit inserts.
    pub fn inserted_bytes(&self) -> (n: usize)
        ensures
            n == inserted_len(self@),
    {
        match self {
            Edit::Insert { text, .. } => text.as_str().as_bytes().len(),
            Edit::Delete { .. } => 0,
            Edit::Replace { text, .. } => text.as_str().as_bytes().len(),
        }
    }
}

impl Clone for Edit {
    fn clone(&self) -> (c: Self)
        ensures
            c == *self,
    {
        match self {
            Edit::Insert { offset, text } => Edit::Insert { offset: *offset, text: text.clone() },
            Edit::Delete { range } => Edit::Delete { range: *range },
            Edit::Replace { range, text } => Edit::Replace { range: *range, text: text.clone() },
        }
    }
}

/// The number of bytes an edit inserts.
pub open spec fn inserted_len(edit: EditView) -> nat {
    match edit {
        EditView::Insert { text, .. } => encode_utf8(text).len(),
        EditView::Delete { .. } => 0,
        EditView::Replace { text, .. } => encode_utf8(text).len(),
    }
}

/// The text after applying `edit` to `text`, or the reason the edit is refused:
/// an offset or range end past the text is out of bounds, and an offset or range
/// bound inside a character is not a boundary.
pub open spec fn edit_result(text: Seq<u8>, edit: EditView) -> Result<Seq<u8>, DocumentError> {
    match edit {
        EditView::Insert { offset, text: inserted } => {
            if offset@ > text.len() {
                Err(DocumentError::RangeOutOfBounds { len: text.len() as usize, start: offset, end: offset })
            } else if !at_char_boundary(text, offset@ as int) {
                Err(DocumentError::InvalidUtf8Boundary { offset })
            } else {
                Ok(splice(text, offset@ as int, offset@ as int, encode_utf8(inserted)))
            }
        },
        EditView::Delete { range } => match range_error(text, range) {
            Some(e) => Err(e),
            None => Ok(splice(text, range.start()@ as int, range.end()@ as int, Seq::empty())),
        },
        EditView::Replace { range, text: inserted } => match range_error(text, range) {
            Some(e) => Err(e),
            None => Ok(splice(text, range.start()@ as int, range.end()@ as int, encode_utf8(inserted))),
        },
    }
}

} // verus!
