use std::collections::HashMap;
use std::io;
use std::sync::Mutex;

use scribe::application::commands::{EditDocument, SaveDocument};
use scribe::application::services::EditorService;
use scribe::domain::document::{DocumentSessionId, Edit, TextOffset, TextRange};
use scribe::infrastructure::filesystem::FileSystem;

#[derive(Default)]
struct MemoryFileSystem {
    files: HashMap<String, String>,
}

impl FileSystem for MemoryFileSystem {
    fn read_to_string(&self, path: &str) -> io::Result<String> {
        self.files
            .get(path)
            .cloned()
            .ok_or_else(|| io::Error::new(io::ErrorKind::NotFound, "missing file"))
    }

    fn write_string(&self, _path: &str, _contents: &str) -> io::Result<()> {
        Err(io::Error::new(io::ErrorKind::Unsupported, "immutable memory filesystem"))
    }
}

#[derive(Default)]
struct WritableMemoryFileSystem {
    files: Mutex<HashMap<String, String>>,
}

impl WritableMemoryFileSystem {
    fn with_file(path: &str, contents: &str) -> Self {
        let mut files = HashMap::new();
        files.insert(path.to_string(), contents.to_string());
        Self { files: Mutex::new(files) }
    }
}

impl FileSystem for WritableMemoryFileSystem {
    fn read_to_string(&self, path: &str) -> io::Result<String> {
        self.files
            .lock()
            .map_err(|_| io::Error::other("lock poisoned"))?
            .get(path)
            .cloned()
            .ok_or_else(|| io::Error::new(io::ErrorKind::NotFound, "missing file"))
    }

    fn write_string(&self, path: &str, contents: &str) -> io::Result<()> {
        self.files
            .lock()
            .map_err(|_| io::Error::other("lock poisoned"))?
            .insert(path.to_string(), contents.to_string());
        Ok(())
    }
}

#[test]
fn application_service_can_open_edit_and_save_document() {
    let path = "/tmp/example.txt";
    let filesystem = WritableMemoryFileSystem::with_file(path, "hello");
    let mut service = EditorService::new(filesystem);

    let snapshot = service.open_document(path).unwrap();
    assert_eq!(snapshot.text, "hello");

    let result = service
        .edit_document(EditDocument {
            document_session_id: snapshot.document_session_id,
            expected_revision: None,
            edit: Edit::Insert {
                offset: TextOffset::new(5),
                text: " world".to_string(),
            },
        })
        .unwrap();
    assert_eq!(result.changes.len(), 1);

    let saved = service
        .save_document(SaveDocument {
            document_session_id: snapshot.document_session_id,
            expected_revision: None,
            path: None,
        })
        .unwrap();
    assert_eq!(saved.text, "hello world");
}

#[test]
fn application_service_handles_large_document_round_trip() {
    let path = "/tmp/large.txt";
    let original = "row-0123456789abcdef\n".repeat(2048);
    let filesystem = WritableMemoryFileSystem::with_file(path, &original);
    let mut service = EditorService::new(filesystem);

    let snapshot = service.open_document(path).unwrap();
    assert_eq!(snapshot.text.len(), original.len());

    service
        .edit_document(EditDocument {
            document_session_id: snapshot.document_session_id,
            expected_revision: None,
            edit: Edit::Insert {
                offset: TextOffset::new(snapshot.text.len()),
                text: "tail".to_string(),
            },
        })
        .unwrap();

    let saved = service
        .save_document(SaveDocument {
            document_session_id: snapshot.document_session_id,
            expected_revision: None,
            path: None,
        })
        .unwrap();

    assert!(saved.text.ends_with("tail"));
}

#[test]
fn application_service_supports_undo_and_redo() {
    let mut service = EditorService::new(MemoryFileSystem::default());
    let snapshot = service.create_document("hello");

    service
        .edit_document(EditDocument {
            document_session_id: snapshot.document_session_id,
            expected_revision: None,
            edit: Edit::Replace {
                range: TextRange::new(TextOffset::new(0), TextOffset::new(5)).unwrap(),
                text: "scribe".to_string(),
            },
        })
        .unwrap();

    let undone = service.undo_document(snapshot.document_session_id, None).unwrap();
    assert_eq!(undone.changes.len(), 1);
    assert_eq!(
        service.get_document(snapshot.document_session_id).unwrap().text,
        "hello"
    );

    let redone = service.redo_document(snapshot.document_session_id, None).unwrap();
    assert_eq!(redone.changes.len(), 1);
    assert_eq!(
        service.get_document(snapshot.document_session_id).unwrap().text,
        "scribe"
    );
}

#[test]
fn application_service_can_close_documents() {
    let mut service = EditorService::new(MemoryFileSystem::default());
    let snapshot = service.create_document("");

    service.close_document(snapshot.document_session_id).unwrap();

    assert!(service.get_document(DocumentSessionId::new(1)).is_err());
}

#[test]
fn saving_writes_the_current_text_to_the_file_system() {
    let path = "/tmp/written.txt";
    let mut service = EditorService::new(WritableMemoryFileSystem::with_file(path, "one"));
    let snapshot = service.open_document(path).unwrap();
    service
        .edit_document(EditDocument {
            document_session_id: snapshot.document_session_id,
            expected_revision: Some(snapshot.revision),
            edit: Edit::Insert { offset: TextOffset::new(3), text: " two".to_string() },
        })
        .unwrap();

    let saved = service
        .save_document(SaveDocument {
            document_session_id: snapshot.document_session_id,
            expected_revision: None,
            path: Some("/tmp/copy.txt".to_string()),
        })
        .unwrap();

    assert_eq!(saved.path.as_deref(), Some("/tmp/copy.txt"));
    assert_eq!(saved.revision.value(), 1);
    assert_eq!(saved.document_session_id, snapshot.document_session_id);

    let reopened = service.open_document("/tmp/copy.txt").unwrap();
    assert_eq!(reopened.text, "one two");
    assert_eq!(reopened.document_session_id.value(), 2);
}

#[test]
fn sessions_and_documents_are_numbered_from_one() {
    let mut service = EditorService::new(MemoryFileSystem::default());
    let first = service.create_document("a");
    let second = service.create_document("b\nc");

    assert_eq!(first.document_session_id.value(), 1);
    assert_eq!(first.document_id.value(), 1);
    assert_eq!(second.document_session_id.value(), 2);
    assert_eq!(second.document_id.value(), 2);
    assert_eq!(second.line_count, 2);
    assert!(first.telemetry.is_none());
}

#[test]
fn edits_report_operation_time_and_fresh_reads_report_build_time() {
    let mut service = EditorService::new(MemoryFileSystem::default());
    let snapshot = service.create_document("abc");
    let result = service
        .edit_document(EditDocument {
            document_session_id: snapshot.document_session_id,
            expected_revision: None,
            edit: Edit::Delete { range: TextRange::new(TextOffset::new(0), TextOffset::new(1)).unwrap() },
        })
        .unwrap();
    assert!(result.telemetry.document_operation_nanos.is_some());
    assert!(result.telemetry.snapshot_build_nanos.is_none());

    let fresh = service.get_document(snapshot.document_session_id).unwrap();
    let telemetry = fresh.telemetry.unwrap();
    assert!(telemetry.snapshot_build_nanos.is_some());
    assert!(telemetry.document_operation_nanos.is_none());
    assert_eq!(fresh.text, "bc");
    assert_eq!(fresh.revision.value(), 1);

    let cached = service.get_document(snapshot.document_session_id).unwrap();
    assert_eq!(cached.telemetry.unwrap().snapshot_build_nanos, Some(0));
    assert_eq!(cached.text, "bc");
}

#[test]
fn undo_and_redo_with_empty_history_apply_nothing() {
    let mut service = EditorService::new(MemoryFileSystem::default());
    let snapshot = service.create_document("same");

    let undone = service.undo_document(snapshot.document_session_id, None).unwrap();
    let redone = service.redo_document(snapshot.document_session_id, None).unwrap();

    assert!(undone.changes.is_empty());
    assert!(redone.changes.is_empty());
    assert_eq!(service.get_document(snapshot.document_session_id).unwrap().text, "same");
}
