use vstd::prelude::*;
use vstd::utf8::*;

use super::{at_char_boundary, lemma_boundary_concat, lemma_boundary_iff, DocumentError, TextOffset, TextRange};

verus! {

/// An immutable copy of a document's text.
#[derive(Debug, Clone, PartialEq, Eq)]
pub struct TextSnapshot {
    text: String,
}

impl View for TextSnapshot {
    type V = Seq<char>;

    closed spec fn view(&self) -> Seq<char> {
        self.text@
    }
}

impl TextSnapshot {
    /// The snapshot's UTF-8 bytes.
    pub open spec fn bytes(self) -> Seq<u8> {
        encode_utf8(self@)
    }

    pub fn new(text: String) -> (s: Self)
        ensures
            s@ == text@,
    {
        Self { text }
    }

    pub fn as_str(&self) -> (s: &str)
        ensures
            s@ == self@,
    {
        self.text.as_str()
    }

    pub fn len_bytes(&self) -> (n: usize)
        ensures
            n == self.bytes().len(),
    {
        self.text.as_str().as_bytes().len()
    }

    pub fn is_empty(&self) -> (b: bool)
        ensures
            b == (self.bytes().len() == 0),
    {
        proof {
            if self@.len() > 0 {
                assert(self@ =~= seq![self@[0]] + self@.drop_first());
                assert(encode_utf8(self@).len() >= encode_scalar(self@[0] as u32).len());
            }
        }
        self.text.as_str().is_empty()
    }

    /// The text of `range`: refused when the range ends past the text or a bound
    /// falls inside a character.
    pub fn slice(&self, range: TextRange) -> (r: Result<&str, DocumentError>)
        ensures
            match Self::slice_error(self.bytes(), range.start(), range.end()) {
                Err(e) => r == Err::<&str, DocumentError>(e),
                Ok(_) => r matches Ok(s) && encode_utf8(s@) == self.bytes().subrange(
                    range.start()@ as int,
                    range.end()@ as int,
                ),
            },
    {
        proof {
            use_type_invariant(range);
        }
        let text = self.text.as_str();
        let text_len = text.as_bytes().len();
        let ghost bytes = self.bytes();
        proof {
            encode_utf8_valid_utf8(self@);
            lemma_boundary_iff(bytes, range.start()@ as int);
            lemma_boundary_iff(bytes, range.end()@ as int);
        }
        if range.end().value() > text_len {
            return Err(
                DocumentError::RangeOutOfBounds {
                    len: text_len,
                    start: range.start(),
                    end: range.end(),
                },
            );
        }
        if !text.is_char_boundary(range.start().value()) {
            return Err(DocumentError::InvalidUtf8Boundary { offset: range.start() });
        }
        if !text.is_char_boundary(range.end().value()) {
            return Err(DocumentError::InvalidUtf8Boundary { offset: range.end() });
        }
        let start = range.start().value();
        let end = range.end().value();
        let (_, rest) = text.split_at(start);
        proof {
            valid_utf8_split(bytes, start as int);
            let head = bytes.subrange(0, start as int);
            let tail = bytes.subrange(start as int, bytes.len() as int);
            assert(head + tail =~= bytes);
            lemma_boundary_concat(head, tail, end as int);
            lemma_boundary_iff(tail, end - start);
        }
        let (middle, _) = rest.split_at(end - start);
        proof {
            assert(bytes.subrange(start as int, bytes.len() as int).subrange(0, end - start)
                =~= bytes.subrange(start as int, end as int));
            valid_utf8_split(encode_utf8(rest@), end - start);
            decode_utf8_encode_utf8(encode_utf8(middle@));
            encode_utf8_decode_utf8(middle@);
        }
        Ok(middle)
    }

    /// The error `slice` reports for `range` on `bytes`, if any.
    pub open spec fn slice_error(bytes: Seq<u8>, start: TextOffset, end: TextOffset) -> Result<(), DocumentError> {
        if end@ > bytes.len() {
            Err(DocumentError::RangeOutOfBounds { len: bytes.len() as usize, start, end })
        } else if !at_char_boundary(bytes, start@ as int) {
            Err(DocumentError::InvalidUtf8Boundary { offset: start })
        } else if !at_char_boundary(bytes, end@ as int) {
            Err(DocumentError::InvalidUtf8Boundary { offset: end })
        } else {
            Ok(())
        }
    }

    /// The number of characters between `line_start` and `offset`.
    pub fn char_column(&self, line_start: TextOffset, offset: TextOffset) -> (r: Result<usize, DocumentError>)
        ensures
            line_start@ > offset@ ==> r == Err::<usize, DocumentError>(DocumentError::InvalidRange { start: line_start, end: offset }),
            line_start@ <= offset@ ==> match Self::slice_error(self.bytes(), line_start, offset) {
                Err(e) => r == Err::<usize, DocumentError>(e),
                Ok(_) => r matches Ok(n) && n == decode_utf8(self.bytes().subrange(line_start@ as int, offset@ as int)).len(),
            },
    {
        let range = TextRange::new(line_start, offset)?;
        let s = self.slice(range)?;
        proof {
            encode_utf8_decode_utf8(s@);
        }
        Ok(s.unicode_len())
    }
}

} // verus!
