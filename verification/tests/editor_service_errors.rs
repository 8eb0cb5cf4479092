use std::collections::HashMap;
use std::io;

use scribe::application::commands::{EditDocument, SaveDocument};
use scribe::application::services::{EditorService, EditorServiceError};
use scribe::domain::document::{DocumentError, DocumentSessionId, Edit, RevisionId, TextOffset, ViewportSessionId};
use scribe::infrastructure::filesystem::FileSystem;

#[derive(Default)]
struct MemoryFileSystem {
    files: HashMap<String, String>,
}

impl FileSystem for MemoryFileSystem {
    fn read_to_string(&self, path: &str) -> io::Result<String> {
        self.files
            .get(path)
            .cloned()
            .ok_or_else(|| io::Error::new(io::ErrorKind::NotFound, "missing file"))
    }

    fn write_string(&self, _path: &str, _contents: &str) -> io::Result<()> {
        Err(io::Error::new(io::ErrorKind::Unsupported, "immutable memory filesystem"))
    }
}

#[derive(Default)]
struct FailingWriteFileSystem {
    files: HashMap<String, String>,
}

impl FailingWriteFileSystem {
    fn with_file(path: &str, contents: &str) -> Self {
        let mut files = HashMap::new();
        files.insert(path.to_string(), contents.to_string());
        Self { files }
    }
}

impl FileSystem for FailingWriteFileSystem {
    fn read_to_string(&self, path: &str) -> io::Result<String> {
        self.files
            .get(path)
            .cloned()
            .ok_or_else(|| io::Error::new(io::ErrorKind::NotFound, "missing file"))
    }

    fn write_string(&self, _path: &str, _contents: &str) -> io::Result<()> {
        Err(io::Error::other("write failed"))
    }
}

#[test]
fn open_document_returns_filesystem_error_for_missing_file() {
    let path = "/tmp/missing.txt";
    let mut service = EditorService::new(MemoryFileSystem::default());

    let error = service.open_document(path).unwrap_err();

    assert!(matches!(error, EditorServiceError::FileSystem(_)));
    assert!(error.message().contains("missing file"));
}

#[test]
fn save_document_without_known_path_is_rejected() {
    let mut service = EditorService::new(MemoryFileSystem::default());
    let snapshot = service.create_document("draft");

    let error = service
        .save_document(SaveDocument {
            document_session_id: snapshot.document_session_id,
            expected_revision: None,
            path: None,
        })
        .unwrap_err();

    assert_eq!(
        error.message(),
        format!(
            "document session {} has no file path",
            snapshot.document_session_id.value()
        )
    );
}

#[test]
fn save_document_surfaces_filesystem_failure_without_dropping_document_state() {
    let path = "/tmp/example.txt";
    let mut service = EditorService::new(FailingWriteFileSystem::with_file(path, "hello"));
    let snapshot = service.open_document(path).unwrap();

    service
        .edit_document(EditDocument {
            document_session_id: snapshot.document_session_id,
            expected_revision: None,
            edit: Edit::Insert {
                offset: TextOffset::new(5),
                text: " world".to_string(),
            },
        })
        .unwrap();

    let error = service
        .save_document(SaveDocument {
            document_session_id: snapshot.document_session_id,
            expected_revision: None,
            path: None,
        })
        .unwrap_err();

    assert!(matches!(error, EditorServiceError::FileSystem(_)));
    assert_eq!(
        service
            .get_document(snapshot.document_session_id)
            .unwrap()
            .text,
        "hello world"
    );
}

#[test]
fn unknown_document_operations_return_document_session_not_found() {
    let missing_id = DocumentSessionId::new(42);
    let mut service = EditorService::new(MemoryFileSystem::default());

    let get_error = service.get_document(missing_id).unwrap_err();
    let close_error = service.close_document(missing_id).unwrap_err();
    let edit_error = service
        .edit_document(EditDocument {
            document_session_id: missing_id,
            expected_revision: None,
            edit: Edit::Insert {
                offset: TextOffset::new(0),
                text: "x".to_string(),
            },
        })
        .unwrap_err();

    assert!(matches!(
        get_error,
        EditorServiceError::DocumentSessionNotFound(document_session_id)
            if document_session_id == missing_id
    ));
    assert!(matches!(
        close_error,
        EditorServiceError::DocumentSessionNotFound(document_session_id)
            if document_session_id == missing_id
    ));
    assert!(matches!(
        edit_error,
        EditorServiceError::DocumentSessionNotFound(document_session_id)
            if document_session_id == missing_id
    ));
}

#[test]
fn edit_document_rejects_stale_expected_revision() {
    let mut service = EditorService::new(MemoryFileSystem::default());
    let snapshot = service.create_document("hello");

    service
        .edit_document(EditDocument {
            document_session_id: snapshot.document_session_id,
            expected_revision: Some(snapshot.revision),
            edit: Edit::Insert {
                offset: TextOffset::new(5),
                text: "!".to_string(),
            },
        })
        .unwrap();

    let error = service
        .edit_document(EditDocument {
            document_session_id: snapshot.document_session_id,
            expected_revision: Some(snapshot.revision),
            edit: Edit::Insert {
                offset: TextOffset::new(6),
                text: "?".to_string(),
            },
        })
        .unwrap_err();

    assert!(matches!(
        error,
        EditorServiceError::StaleRevision {
            document_session_id,
            expected,
            actual,
        } if document_session_id == snapshot.document_session_id
            && expected == snapshot.revision
            && actual == snapshot.revision.next()
    ));
}

#[test]
fn undo_document_rejects_stale_expected_revision() {
    let mut service = EditorService::new(MemoryFileSystem::default());
    let snapshot = service.create_document("hello");

    service
        .edit_document(EditDocument {
            document_session_id: snapshot.document_session_id,
            expected_revision: Some(snapshot.revision),
            edit: Edit::Insert {
                offset: TextOffset::new(5),
                text: "!".to_string(),
            },
        })
        .unwrap();

    let error = service
        .undo_document(snapshot.document_session_id, Some(snapshot.revision))
        .unwrap_err();

    assert!(matches!(
        error,
        EditorServiceError::StaleRevision {
            document_session_id,
            expected,
            actual,
        } if document_session_id == snapshot.document_session_id
            && expected == snapshot.revision
            && actual == snapshot.revision.next()
    ));
}

#[test]
fn every_service_error_has_its_message() {
    let session = DocumentSessionId::new(3);
    assert_eq!(
        EditorServiceError::DocumentSessionNotFound(session).message(),
        "document session 3 is not open"
    );
    assert_eq!(
        EditorServiceError::ViewportSessionNotFound(ViewportSessionId::new(12)).message(),
        "viewport session 12 is not open"
    );
    assert_eq!(
        EditorServiceError::MissingDocumentPath(session).message(),
        "document session 3 has no file path"
    );
    assert_eq!(
        EditorServiceError::StaleRevision {
            document_session_id: session,
            expected: RevisionId::new(0),
            actual: RevisionId::new(107),
        }
        .message(),
        "stale revision for document session 3: expected 0, actual 107"
    );
    assert_eq!(EditorServiceError::FileSystem("disk full".to_string()).message(), "disk full");
    assert_eq!(
        EditorServiceError::Document(DocumentError::PositionOutOfBounds { line: 4, column: 90 }).message(),
        "position 4:90 is out of bounds"
    );
    assert_eq!(
        EditorServiceError::from(DocumentError::InvalidUtf8Boundary { offset: TextOffset::new(2) }).message(),
        "offset 2 is not on a UTF-8 character boundary"
    );
}

#[test]
fn edits_refused_by_the_document_are_reported_and_change_nothing() {
    let mut service = EditorService::new(MemoryFileSystem::default());
    let snapshot = service.create_document("a🙂b");

    let error = service
        .edit_document(EditDocument {
            document_session_id: snapshot.document_session_id,
            expected_revision: None,
            edit: Edit::Insert { offset: TextOffset::new(2), text: "!".to_string() },
        })
        .unwrap_err();

    assert!(matches!(
        error,
        EditorServiceError::Document(DocumentError::InvalidUtf8Boundary { offset }) if offset == TextOffset::new(2)
    ));
    let current = service.get_document(snapshot.document_session_id).unwrap();
    assert_eq!(current.text, "a🙂b");
    assert_eq!(current.revision.value(), 0);
}

#[test]
fn a_closed_session_cannot_be_saved_or_undone() {
    let mut service = EditorService::new(MemoryFileSystem::default());
    let snapshot = service.create_document("x");
    service.close_document(snapshot.document_session_id).unwrap();

    let save_error = service
        .save_document(SaveDocument {
            document_session_id: snapshot.document_session_id,
            expected_revision: None,
            path: Some("/tmp/x.txt".to_string()),
        })
        .unwrap_err();
    let undo_error = service.undo_document(snapshot.document_session_id, None).unwrap_err();
    let close_again = service.close_document(snapshot.document_session_id).unwrap_err();

    assert!(matches!(save_error, EditorServiceError::DocumentSessionNotFound(_)));
    assert!(matches!(undo_error, EditorServiceError::DocumentSessionNotFound(_)));
    assert!(matches!(close_again, EditorServiceError::DocumentSessionNotFound(_)));
}
