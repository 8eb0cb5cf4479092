use std::collections::HashMap;
use std::io;
use std::sync::{Arc, Mutex};

use scribe::application::commands::{EditDocument, SaveDocument};
use scribe::application::services::{EditorService, EditorServiceError};
use scribe::domain::document::{DocumentSessionId, Edit, RevisionId, TextOffset};
use scribe::infrastructure::filesystem::FileSystem;

/// Files kept in memory and shared with the test, which also counts the writes.
#[derive(Clone, Default)]
struct SharedFileSystem {
    files: Arc<Mutex<HashMap<String, String>>>,
    writes: Arc<Mutex<usize>>,
}

impl SharedFileSystem {
    fn with_file(path: &str, contents: &str) -> Self {
        let fs = Self::default();
        fs.files.lock().unwrap().insert(path.to_string(), contents.to_string());
        fs
    }

    fn file(&self, path: &str) -> Option<String> {
        self.files.lock().unwrap().get(path).cloned()
    }

    fn writes(&self) -> usize {
        *self.writes.lock().unwrap()
    }
}

impl FileSystem for SharedFileSystem {
    fn read_to_string(&self, path: &str) -> io::Result<String> {
        self.file(path).ok_or_else(|| io::Error::new(io::ErrorKind::NotFound, "missing file"))
    }

    fn write_string(&self, path: &str, contents: &str) -> io::Result<()> {
        *self.writes.lock().unwrap() += 1;
        self.files.lock().unwrap().insert(path.to_string(), contents.to_string());
        Ok(())
    }
}

fn insert(session: DocumentSessionId, offset: usize, text: &str) -> EditDocument {
    EditDocument {
        document_session_id: session,
        expected_revision: None,
        edit: Edit::Insert { offset: TextOffset::new(offset), text: text.to_string() },
    }
}

#[test]
fn save_writes_the_edited_text_to_the_stored_path() {
    let fs = SharedFileSystem::with_file("/tmp/example.txt", "hello");
    let mut service = EditorService::new(fs.clone());
    let snapshot = service.open_document("/tmp/example.txt").unwrap();
    let session = snapshot.document_session_id;
    service.edit_document(insert(session, 5, " world")).unwrap();
    let command = SaveDocument { document_session_id: session, expected_revision: None, path: None };

    let (path, text) = service.save_target(&command).unwrap();
    assert_eq!(path, "/tmp/example.txt");
    assert_eq!(text, "hello world");

    let saved = service.save_document(command).unwrap();
    assert_eq!(saved.text, "hello world");
    assert_eq!(saved.path, Some("/tmp/example.txt".to_string()));
    assert_eq!(fs.file("/tmp/example.txt"), Some("hello world".to_string()));
    assert_eq!(fs.writes(), 1);
}

#[test]
fn save_to_a_given_path_writes_there() {
    let fs = SharedFileSystem::default();
    let mut service = EditorService::new(fs.clone());
    let snapshot = service.create_document("draft");
    let command = SaveDocument {
        document_session_id: snapshot.document_session_id,
        expected_revision: Some(RevisionId::new(0)),
        path: Some("/tmp/draft.txt".to_string()),
    };
    let saved = service.save_document(command).unwrap();
    assert_eq!(saved.path, Some("/tmp/draft.txt".to_string()));
    assert_eq!(fs.file("/tmp/draft.txt"), Some("draft".to_string()));
    assert_eq!(fs.writes(), 1);
}

#[test]
fn refused_saves_write_nothing() {
    let fs = SharedFileSystem::default();
    let mut service = EditorService::new(fs.clone());
    let snapshot = service.create_document("draft");
    let session = snapshot.document_session_id;

    let missing = SaveDocument { document_session_id: session, expected_revision: None, path: None };
    assert!(matches!(service.save_target(&missing), Err(EditorServiceError::MissingDocumentPath(s)) if s == session));
    assert!(matches!(service.save_document(missing), Err(EditorServiceError::MissingDocumentPath(s)) if s == session));

    let stale = SaveDocument {
        document_session_id: session,
        expected_revision: Some(RevisionId::new(7)),
        path: Some("/tmp/stale.txt".to_string()),
    };
    assert!(matches!(service.save_document(stale), Err(EditorServiceError::StaleRevision { .. })));

    let unknown = SaveDocument {
        document_session_id: DocumentSessionId::new(42),
        expected_revision: None,
        path: Some("/tmp/unknown.txt".to_string()),
    };
    assert!(matches!(service.save_document(unknown), Err(EditorServiceError::DocumentSessionNotFound(_))));
    assert_eq!(fs.writes(), 0);
    assert_eq!(fs.file("/tmp/stale.txt"), None);
}

#[test]
fn unsaved_edits_leave_the_file_alone() {
    let fs = SharedFileSystem::with_file("/tmp/recovery.txt", "alpha");
    let mut service = EditorService::new(fs.clone());
    let snapshot = service.open_document("/tmp/recovery.txt").unwrap();
    service.edit_document(insert(snapshot.document_session_id, 5, " beta")).unwrap();
    let current = service.get_document(snapshot.document_session_id).unwrap();
    assert_eq!(current.text, "alpha beta");
    assert_eq!(fs.file("/tmp/recovery.txt"), Some("alpha".to_string()));
    assert_eq!(fs.writes(), 0);
}

#[test]
fn documents_get_fresh_identifiers() {
    let mut service = EditorService::new(SharedFileSystem::default());
    let first = service.create_document("a");
    service.close_document(first.document_session_id).unwrap();
    let second = service.create_document("b");
    assert_ne!(first.document_id, second.document_id);
    assert_ne!(first.document_session_id, second.document_session_id);
}
