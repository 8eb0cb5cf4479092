use vstd::prelude::*;
use vstd::std_specs::convert::FromSpecImpl;
use vstd::string::*;

use crate::domain::decimal::{decimal, push_decimal};
use crate::domain::document::{
    document_error_message, DocumentError, DocumentSessionId, RevisionId, ViewportSessionId,
};

verus! {

/// Why an editor operation was refused.
#[derive(Debug)]
pub enum EditorServiceError {
    Document(DocumentError),
    DocumentSessionNotFound(DocumentSessionId),
    ViewportSessionNotFound(ViewportSessionId),
    MissingDocumentPath(DocumentSessionId),
    StaleRevision { document_session_id: DocumentSessionId, expected: RevisionId, actual: RevisionId },
    FileSystem(String),
}

/// The text that describes `error` to a person.
pub open spec fn service_error_message(error: EditorServiceError) -> Seq<char> {
    match error {
        EditorServiceError::Document(e) => document_error_message(e),
        EditorServiceError::DocumentSessionNotFound(id) => "document session "@ + decimal(id@ as nat)
            + " is not open"@,
        EditorServiceError::ViewportSessionNotFound(id) => "viewport session "@ + decimal(id@ as nat)
            + " is not open"@,
        EditorServiceError::MissingDocumentPath(id) => "document session "@ + decimal(id@ as nat)
            + " has no file path"@,
        EditorServiceError::StaleRevision { document_session_id, expected, actual } =>
            "stale revision for document session "@ + decimal(document_session_id@ as nat) + ": expected "@
            + decimal(expected@ as nat) + ", actual "@ + decimal(actual@ as nat),
        EditorServiceError::FileSystem(text) => text@,
    }
}

impl EditorServiceError {
    /// The text that describes the error to a person.
    pub fn message(&self) -> (s: String)
        ensures
            s@ == service_error_message(*self),
    {
        match self {
            EditorServiceError::Document(e) => e.message(),
            EditorServiceError::DocumentSessionNotFound(id) => {
                let mut s = String::new();
                s.append("document session ");
                push_decimal(&mut s, id.value());
                s.append(" is not open");
                s
            },
            EditorServiceError::ViewportSessionNotFound(id) => {
                let mut s = String::new();
                s.append("viewport session ");
                push_decimal(&mut s, id.value());
                s.append(" is not open");
                s
            },
            EditorServiceError::MissingDocumentPath(id) => {
                let mut s = String::new();
                s.append("document session ");
                push_decimal(&mut s, id.value());
                s.append(" has no file path");
                s
            },
            EditorServiceError::StaleRevision { document_session_id, expected, actual } => {
                let mut s = String::new();
                s.append("stale revision for document session ");
                push_decimal(&mut s, document_session_id.value());
                s.append(": expected ");
                push_decimal(&mut s, expected.value());
                s.append(", actual ");
                push_decimal(&mut s, actual.value());
                s
            },
            EditorServiceError::FileSystem(text) => text.clone(),
        }
    }
}

impl From<DocumentError> for EditorServiceError {
    fn from(value: DocumentError) -> (e: Self)
        ensures
            e == EditorServiceError::Document(value),
    {
        EditorServiceError::Document(value)
    }
}

impl FromSpecImpl<DocumentError> for EditorServiceError {
    open spec fn obeys_from_spec() -> bool {
        true
    }

    open spec fn from_spec(v: DocumentError) -> Self {
        EditorServiceError::Document(v)
    }
}

} // verus!
