use std::collections::HashMap;
use std::io;
use std::sync::Mutex;

use scribe::application::commands::{EditDocument, SaveDocument};
use scribe::application::services::{EditorService, EditorServiceError};
use scribe::domain::document::{Edit, TextOffset};
use scribe::infrastructure::filesystem::FileSystem;

#[derive(Default)]
struct WritableMemoryFileSystem {
    files: Mutex<HashMap<String, String>>,
}

impl WritableMemoryFileSystem {
    fn with_file(path: &str, contents: &str) -> Self {
        let mut files = HashMap::new();
        files.insert(path.to_string(), contents.to_string());
        Self { files: Mutex::new(files) }
    }
}

impl FileSystem for WritableMemoryFileSystem {
    fn read_to_string(&self, path: &str) -> io::Result<String> {
        self.files
            .lock()
            .map_err(|_| io::Error::other("lock poisoned"))?
            .get(path)
            .cloned()
            .ok_or_else(|| io::Error::new(io::ErrorKind::NotFound, "missing file"))
    }

    fn write_string(&self, path: &str, contents: &str) -> io::Result<()> {
        self.files
            .lock()
            .map_err(|_| io::Error::other("lock poisoned"))?
            .insert(path.to_string(), contents.to_string());
        Ok(())
    }
}

#[test]
fn unsaved_edits_remain_in_backend_state_until_explicit_save() {
    let path = "/tmp/recovery.txt";
    let filesystem = WritableMemoryFileSystem::with_file(path, "alpha");
    let mut service = EditorService::new(filesystem);
    let snapshot = service.open_document(path).unwrap();

    service
        .edit_document(EditDocument {
            document_session_id: snapshot.document_session_id,
            expected_revision: None,
            edit: Edit::Insert {
                offset: TextOffset::new(5),
                text: " beta".to_string(),
            },
        })
        .unwrap();

    let current = service.get_document(snapshot.document_session_id).unwrap();

    assert_eq!(current.text, "alpha beta");
    assert_eq!(current.path, Some(path.to_string()));
}

#[test]
fn explicit_save_persists_current_backend_state_to_filesystem() {
    let path = "/tmp/recovery-save.txt";
    let filesystem = WritableMemoryFileSystem::with_file(path, "draft");
    let mut service = EditorService::new(filesystem);
    let snapshot = service.open_document(path).unwrap();

    service
        .edit_document(EditDocument {
            document_session_id: snapshot.document_session_id,
            expected_revision: None,
            edit: Edit::Insert {
                offset: TextOffset::new(5),
                text: " updated".to_string(),
            },
        })
        .unwrap();

    let saved = service
        .save_document(SaveDocument {
            document_session_id: snapshot.document_session_id,
            expected_revision: None,
            path: None,
        })
        .unwrap();

    assert_eq!(saved.text, "draft updated");
    assert_eq!(
        service
            .get_document(snapshot.document_session_id)
            .unwrap()
            .text,
        "draft updated"
    );
}

#[test]
fn explicit_save_without_path_stays_an_application_error() {
    let mut service = EditorService::new(WritableMemoryFileSystem::default());
    let snapshot = service.create_document("draft");

    let error = service
        .save_document(SaveDocument {
            document_session_id: snapshot.document_session_id,
            expected_revision: None,
            path: None,
        })
        .unwrap_err();

    assert!(matches!(
        error,
        EditorServiceError::MissingDocumentPath(document_session_id)
        if document_session_id == snapshot.document_session_id
    ));
}

#[test]
fn saving_to_a_new_path_gives_the_document_that_path() {
    let mut service = EditorService::new(WritableMemoryFileSystem::default());
    let snapshot = service.create_document("draft");

    let saved = service
        .save_document(SaveDocument {
            document_session_id: snapshot.document_session_id,
            expected_revision: Some(snapshot.revision),
            path: Some("/tmp/new.txt".to_string()),
        })
        .unwrap();
    let again = service
        .save_document(SaveDocument {
            document_session_id: snapshot.document_session_id,
            expected_revision: None,
            path: None,
        })
        .unwrap();

    assert_eq!(saved.path.as_deref(), Some("/tmp/new.txt"));
    assert_eq!(again.path.as_deref(), Some("/tmp/new.txt"));
    assert_eq!(service.open_document("/tmp/new.txt").unwrap().text, "draft");
}
