use vstd::prelude::*;
use vstd::string::*;

use super::TextOffset;
use crate::domain::decimal::{decimal, push_decimal};

verus! {

/// Why a document operation was refused.
#[derive(Debug, Clone, Copy, PartialEq, Eq, Structural)]
pub enum DocumentError {
    InvalidRange { start: TextOffset, end: TextOffset },
    RangeOutOfBounds { len: usize, start: TextOffset, end: TextOffset },
    PositionOutOfBounds { line: usize, column: usize },
    InvalidUtf8Boundary { offset: TextOffset },
}

/// The text that describes `error` to a person.
pub open spec fn document_error_message(error: DocumentError) -> Seq<char> {
    match error {
        DocumentError::InvalidRange { start, end } => "invalid range: start offset "@ + decimal(start@ as nat)
            + " is greater than end offset "@ + decimal(end@ as nat),
        DocumentError::RangeOutOfBounds { len, start, end } => "range "@ + decimal(start@ as nat) + ".."@
            + decimal(end@ as nat) + " is out of bounds for document length "@ + decimal(len as nat),
        DocumentError::PositionOutOfBounds { line, column } => "position "@ + decimal(line as nat) + ":"@
            + decimal(column as nat) + " is out of bounds"@,
        DocumentError::InvalidUtf8Boundary { offset } => "offset "@ + decimal(offset@ as nat)
            + " is not on a UTF-8 character boundary"@,
    }
}

impl DocumentError {
    /// The text that describes the error to a person.
    pub fn message(&self) -> (s: String)
        ensures
            s@ == document_error_message(*self),
    {
        let mut s = String::new();
        match *self {
            DocumentError::InvalidRange { start, end } => {
                s.append("invalid range: start offset ");
                push_decimal(&mut s, start.value() as u64);
                s.append(" is greater than end offset ");
                push_decimal(&mut s, end.value() as u64);
            },
            DocumentError::RangeOutOfBounds { len, start, end } => {
                s.append("range ");
                push_decimal(&mut s, start.value() as u64);
                s.append("..");
                push_decimal(&mut s, end.value() as u64);
                s.append(" is out of bounds for document length ");
                push_decimal(&mut s, len as u64);
            },
            DocumentError::PositionOutOfBounds { line, column } => {
                s.append("position ");
                push_decimal(&mut s, line as u64);
                s.append(":");
                push_decimal(&mut s, column as u64);
                s.append(" is out of bounds");
            },
            DocumentError::InvalidUtf8Boundary { offset } => {
                s.append("offset ");
                push_decimal(&mut s, offset.value() as u64);
                s.append(" is not on a UTF-8 character boundary");
            },
        }
        s
    }
}

} // verus!
