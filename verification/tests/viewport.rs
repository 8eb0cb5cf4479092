use std::io;

use scribe::application::commands::{CreateViewport, ScrollViewport};
use scribe::application::services::{EditorService, EditorServiceError};
use scribe::domain::document::{DocumentSessionId, ViewportSessionId};
use scribe::infrastructure::filesystem::FileSystem;

#[derive(Default)]
struct MemoryFileSystem;

impl FileSystem for MemoryFileSystem {
    fn read_to_string(&self, _path: &str) -> io::Result<String> {
        Err(io::Error::new(io::ErrorKind::NotFound, "missing file"))
    }

    fn write_string(&self, _path: &str, _contents: &str) -> io::Result<()> {
        Err(io::Error::new(io::ErrorKind::Unsupported, "immutable memory filesystem"))
    }
}

#[test]
fn viewport_creation_returns_visible_lines_for_document_session() {
    let mut service = EditorService::new(MemoryFileSystem);
    let snapshot = service.create_document("alpha\nbeta\ngamma\ndelta");

    let viewport = service
        .create_viewport(CreateViewport {
            document_session_id: snapshot.document_session_id,
            top_line: 1,
            visible_line_count: 2,
        })
        .unwrap();

    assert_eq!(viewport.document_session_id, snapshot.document_session_id);
    assert_eq!(viewport.top_line, 1);
    assert_eq!(viewport.document_line_count, 4);
    assert_eq!(viewport.lines.len(), 2);
    assert_eq!(viewport.lines[0].line_number, 1);
    assert_eq!(viewport.lines[0].text, "beta\n");
    assert_eq!(viewport.lines[1].line_number, 2);
    assert_eq!(viewport.lines[1].text, "gamma\n");
}

#[test]
fn viewport_scroll_updates_top_line_and_reuses_session() {
    let mut service = EditorService::new(MemoryFileSystem);
    let snapshot = service.create_document("alpha\nbeta\ngamma\ndelta");

    let viewport = service
        .create_viewport(CreateViewport {
            document_session_id: snapshot.document_session_id,
            top_line: 0,
            visible_line_count: 2,
        })
        .unwrap();

    let scrolled = service
        .scroll_viewport(ScrollViewport {
            viewport_session_id: viewport.viewport_session_id,
            top_line: 2,
        })
        .unwrap();

    assert_eq!(scrolled.viewport_session_id, viewport.viewport_session_id);
    assert_eq!(scrolled.top_line, 2);
    assert_eq!(scrolled.lines.len(), 2);
    assert_eq!(scrolled.lines[0].line_number, 2);
    assert_eq!(scrolled.lines[0].text, "gamma\n");
    assert_eq!(scrolled.lines[1].line_number, 3);
    assert_eq!(scrolled.lines[1].text, "delta");
}

#[test]
fn viewport_top_line_is_clamped_and_shows_at_least_one_line() {
    let mut service = EditorService::new(MemoryFileSystem);
    let snapshot = service.create_document("one\ntwo\nthree");

    let viewport = service
        .create_viewport(CreateViewport {
            document_session_id: snapshot.document_session_id,
            top_line: 40,
            visible_line_count: 0,
        })
        .unwrap();

    assert_eq!(viewport.top_line, 2);
    assert_eq!(viewport.visible_line_count, 1);
    assert_eq!(viewport.lines.len(), 1);
    assert_eq!(viewport.lines[0].line_number, 2);
    assert_eq!(viewport.lines[0].text, "three");
    assert!(viewport.telemetry.unwrap().snapshot_build_nanos.is_some());
}

#[test]
fn unknown_viewports_and_sessions_are_refused() {
    let mut service = EditorService::new(MemoryFileSystem);

    let missing_viewport = service.get_viewport(ViewportSessionId::new(5)).unwrap_err();
    let missing_session = service
        .create_viewport(CreateViewport {
            document_session_id: DocumentSessionId::new(8),
            top_line: 0,
            visible_line_count: 3,
        })
        .unwrap_err();
    let missing_scroll = service
        .scroll_viewport(ScrollViewport { viewport_session_id: ViewportSessionId::new(1), top_line: 0 })
        .unwrap_err();

    assert!(matches!(missing_viewport, EditorServiceError::ViewportSessionNotFound(id) if id.value() == 5));
    assert!(matches!(missing_session, EditorServiceError::DocumentSessionNotFound(id) if id.value() == 8));
    assert!(matches!(missing_scroll, EditorServiceError::ViewportSessionNotFound(id) if id.value() == 1));
}

#[test]
fn a_viewport_of_a_closed_session_reports_the_session() {
    let mut service = EditorService::new(MemoryFileSystem);
    let snapshot = service.create_document("x\ny");
    let viewport = service
        .create_viewport(CreateViewport {
            document_session_id: snapshot.document_session_id,
            top_line: 0,
            visible_line_count: 5,
        })
        .unwrap();
    assert_eq!(viewport.lines.len(), 2);

    service.close_document(snapshot.document_session_id).unwrap();
    let error = service.get_viewport(viewport.viewport_session_id).unwrap_err();

    assert!(matches!(
        error,
        EditorServiceError::DocumentSessionNotFound(id) if id == snapshot.document_session_id
    ));
}
