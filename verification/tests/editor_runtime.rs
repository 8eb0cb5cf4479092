use std::io;

use scribe::application::commands::{DocumentSnapshot, EditDocument, EditResult};
use scribe::application::runtime::{handle_request, request_has_room, EditorRuntimeError, EditorRuntimeReply, EditorRuntimeRequest};
use scribe::application::services::{EditorService, EditorServiceError};
use scribe::domain::document::{DocumentSessionId, Edit, TextOffset};
use scribe::infrastructure::filesystem::FileSystem;

#[derive(Default)]
struct MemoryFileSystem;

impl FileSystem for MemoryFileSystem {
    fn read_to_string(&self, _path: &str) -> io::Result<String> {
        Err(io::Error::new(io::ErrorKind::NotFound, "missing file"))
    }

    fn write_string(&self, _path: &str, _contents: &str) -> io::Result<()> {
        Err(io::Error::new(io::ErrorKind::Unsupported, "immutable memory filesystem"))
    }
}

fn snapshot_reply(reply: EditorRuntimeReply) -> Result<DocumentSnapshot, EditorRuntimeError> {
    match reply {
        EditorRuntimeReply::Snapshot(result) => result,
        _ => panic!("expected a snapshot reply"),
    }
}

fn edit_reply(reply: EditorRuntimeReply) -> Result<EditResult, EditorRuntimeError> {
    match reply {
        EditorRuntimeReply::Edit(result) => result,
        _ => panic!("expected an edit reply"),
    }
}

#[test]
fn editor_runtime_executes_document_lifecycle_on_dedicated_thread() {
    let mut service = EditorService::new(MemoryFileSystem);

    let snapshot = snapshot_reply(handle_request(
        &mut service,
        EditorRuntimeRequest::CreateDocument { text: "hello".to_string() },
    ))
    .unwrap();
    let edited = edit_reply(handle_request(
        &mut service,
        EditorRuntimeRequest::EditDocument {
            command: EditDocument {
                document_session_id: snapshot.document_session_id,
                expected_revision: None,
                edit: Edit::Insert {
                    offset: TextOffset::new(5),
                    text: " world".to_string(),
                },
            },
        },
    ))
    .unwrap();
    let current = snapshot_reply(handle_request(
        &mut service,
        EditorRuntimeRequest::GetDocument { document_session_id: snapshot.document_session_id },
    ))
    .unwrap();

    assert_eq!(edited.changes.len(), 1);
    assert_eq!(current.text, "hello world");
}

#[test]
fn editor_runtime_reuses_cached_snapshot_on_repeated_reads() {
    let mut service = EditorService::new(MemoryFileSystem);
    let snapshot = snapshot_reply(handle_request(
        &mut service,
        EditorRuntimeRequest::CreateDocument { text: "hello".to_string() },
    ))
    .unwrap();

    let first = snapshot_reply(handle_request(
        &mut service,
        EditorRuntimeRequest::GetDocument { document_session_id: snapshot.document_session_id },
    ))
    .unwrap();
    let second = snapshot_reply(handle_request(
        &mut service,
        EditorRuntimeRequest::GetDocument { document_session_id: snapshot.document_session_id },
    ))
    .unwrap();

    assert_eq!(first.text, "hello");
    assert_eq!(second.text, "hello");
    assert_eq!(
        second
            .telemetry
            .as_ref()
            .and_then(|telemetry| telemetry.snapshot_build_nanos),
        Some(0)
    );
}

#[test]
fn editor_runtime_surfaces_stale_revision_errors() {
    let mut service = EditorService::new(MemoryFileSystem);
    let snapshot = snapshot_reply(handle_request(
        &mut service,
        EditorRuntimeRequest::CreateDocument { text: "hello".to_string() },
    ))
    .unwrap();

    edit_reply(handle_request(
        &mut service,
        EditorRuntimeRequest::EditDocument {
            command: EditDocument {
                document_session_id: snapshot.document_session_id,
                expected_revision: Some(snapshot.revision),
                edit: Edit::Insert {
                    offset: TextOffset::new(5),
                    text: "!".to_string(),
                },
            },
        },
    ))
    .unwrap();

    let error = edit_reply(handle_request(
        &mut service,
        EditorRuntimeRequest::EditDocument {
            command: EditDocument {
                document_session_id: snapshot.document_session_id,
                expected_revision: Some(snapshot.revision),
                edit: Edit::Insert {
                    offset: TextOffset::new(6),
                    text: "?".to_string(),
                },
            },
        },
    ))
    .unwrap_err();

    assert!(matches!(
        error,
        EditorRuntimeError::Service(EditorServiceError::StaleRevision {
            document_session_id,
            expected,
            actual,
        }) if document_session_id == snapshot.document_session_id
            && expected == snapshot.revision
            && actual == snapshot.revision.next()
    ));
}

#[test]
fn runtime_serves_undo_redo_open_save_and_close() {
    let mut service = EditorService::new(MemoryFileSystem);
    let snapshot = snapshot_reply(handle_request(
        &mut service,
        EditorRuntimeRequest::CreateDocument { text: "ab".to_string() },
    ))
    .unwrap();
    let session = snapshot.document_session_id;
    edit_reply(handle_request(
        &mut service,
        EditorRuntimeRequest::EditDocument {
            command: EditDocument {
                document_session_id: session,
                expected_revision: None,
                edit: Edit::Insert { offset: TextOffset::new(1), text: "-".to_string() },
            },
        },
    ))
    .unwrap();

    let undone = edit_reply(handle_request(
        &mut service,
        EditorRuntimeRequest::UndoDocument { document_session_id: session, expected_revision: None },
    ))
    .unwrap();
    let redone = edit_reply(handle_request(
        &mut service,
        EditorRuntimeRequest::RedoDocument { document_session_id: session, expected_revision: None },
    ))
    .unwrap();
    let opened = snapshot_reply(handle_request(
        &mut service,
        EditorRuntimeRequest::OpenDocument { path: "/tmp/none.txt".to_string() },
    ));
    let saved = snapshot_reply(handle_request(
        &mut service,
        EditorRuntimeRequest::SaveDocument {
            command: scribe::application::commands::SaveDocument {
                document_session_id: session,
                expected_revision: None,
                path: None,
            },
        },
    ));
    let closed = handle_request(&mut service, EditorRuntimeRequest::CloseDocument { document_session_id: session });
    let after_close = snapshot_reply(handle_request(
        &mut service,
        EditorRuntimeRequest::GetDocument { document_session_id: DocumentSessionId::new(session.value()) },
    ));

    assert_eq!(undone.changes.len(), 1);
    assert_eq!(redone.changes.len(), 1);
    assert!(matches!(opened, Err(EditorRuntimeError::Service(EditorServiceError::FileSystem(_)))));
    assert!(matches!(saved, Err(EditorRuntimeError::Service(EditorServiceError::MissingDocumentPath(_)))));
    assert!(matches!(closed, EditorRuntimeReply::Closed(Ok(()))));
    assert!(matches!(
        after_close,
        Err(EditorRuntimeError::Service(EditorServiceError::DocumentSessionNotFound(_)))
    ));
}

#[test]
fn runtime_errors_have_messages() {
    assert_eq!(EditorRuntimeError::RuntimeUnavailable.message(), "editor runtime is unavailable");
    assert_eq!(
        EditorRuntimeError::from(EditorServiceError::DocumentSessionNotFound(DocumentSessionId::new(9))).message(),
        "document session 9 is not open"
    );
}

#[test]
fn fresh_service_has_room_for_every_request() {
    let mut service = EditorService::new(MemoryFileSystem);
    assert!(request_has_room(&service, &EditorRuntimeRequest::CreateDocument { text: "a".to_string() }));
    let snapshot = snapshot_reply(handle_request(
        &mut service,
        EditorRuntimeRequest::CreateDocument { text: "abc".to_string() },
    ))
    .unwrap();
    let session = snapshot.document_session_id;
    let edit = Edit::Insert { offset: TextOffset::new(1), text: "xy".to_string() };
    assert!(service.has_edit_room(session, &edit));
    assert!(request_has_room(
        &service,
        &EditorRuntimeRequest::EditDocument {
            command: EditDocument { document_session_id: session, expected_revision: None, edit },
        },
    ));
    assert!(service.has_undo_room(session));
    assert!(service.has_redo_room(session));
    assert!(service.has_undo_room(DocumentSessionId::new(99)));
    assert!(request_has_room(&service, &EditorRuntimeRequest::CloseDocument { document_session_id: session }));
    assert!(service.has_open_room());
}
