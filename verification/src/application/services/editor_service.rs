use vstd::prelude::*;
use vstd::utf8::*;

use super::clock::{instant_now, nanos_since};
use super::error::EditorServiceError;
use crate::application::commands::{
    clone_opt_string, line_views, opt_string_view, snapshot_of, CreateViewport, DocumentSnapshot,
    DocumentSnapshotView, EditDocument, EditResult, PerformanceTelemetry, SaveDocument, ScrollViewport,
    ViewportLine, ViewportSnapshot, ViewportSnapshotView,
};
use crate::application::state::{
    shown_line_count, DocumentEntry, DocumentEntryView, DocumentStore, DocumentStoreView, ViewportSession,
    ViewportStore, ViewportStoreView,
};
use crate::domain::document::{
    at_char_boundary, change_views, edit_outcome, edit_room, lemma_line_starts_boundaries, lemma_line_starts_shape,
    line_starts_of, next_line_start, opened_view, redo_outcome, redo_room, strictly_increasing, undo_outcome,
    undo_room, ChangeSet, ChangeSetView, Document, Edit, DocumentError, DocumentSessionId, DocumentView, RevisionId,
    TextOffset, TextRange, ViewportSessionId,
};
use crate::domain::document::EditView;
use crate::infrastructure::filesystem::{io_error_text, FileSystem};

verus! {

/// The documents and viewports an editor service holds.
pub struct EditorServiceView {
    pub store: DocumentStoreView,
    pub viewports: ViewportStoreView,
}

/// The editor's application service: it opens, edits, saves and closes documents
/// through sessions, and shows their lines in viewports.
pub struct EditorService<F: FileSystem> {
    store: DocumentStore,
    viewport_store: ViewportStore,
    filesystem: F,
}

impl<F: FileSystem> View for EditorService<F> {
    type V = EditorServiceView;

    closed spec fn view(&self) -> EditorServiceView {
        EditorServiceView { store: self.store@, viewports: self.viewport_store@ }
    }
}

/// The document that session `session` is open on, if the session is open and
/// the document is held.
pub open spec fn session_document(store: DocumentStoreView, session: u64) -> Option<u64> {
    if store.sessions.contains_key(session) && store.documents.contains_key(store.sessions[session]) {
        Some(store.sessions[session])
    } else {
        None
    }
}

/// The store after a document with text `text` and file path `path` is opened in
/// a new session; its snapshot is cached.
pub open spec fn store_after_open(store: DocumentStoreView, text: Seq<u8>, path: Option<Seq<char>>) -> DocumentStoreView {
    let id = (store.next_id + 1) as u64;
    let session = (store.next_session_id + 1) as u64;
    let document = opened_view(id, text);
    DocumentStoreView {
        next_id: id,
        documents: store.documents.insert(
            id,
            DocumentEntryView { document, path, cached_snapshot: Some(snapshot_of(document, session, path)) },
        ),
        next_session_id: session,
        sessions: store.sessions.insert(session, id),
    }
}

/// The snapshot handed out when a document with text `text` and file path `path`
/// is opened.
pub open spec fn snapshot_after_open(store: DocumentStoreView, text: Seq<u8>, path: Option<Seq<char>>) -> DocumentSnapshotView {
    snapshot_of(opened_view((store.next_id + 1) as u64, text), (store.next_session_id + 1) as u64, path)
}

/// Room within the machine's counters for opening one more document and session.
pub open spec fn open_room(store: DocumentStoreView) -> bool {
    &&& store.next_id < u64::MAX
    &&& store.next_session_id < u64::MAX
}

/// The store with the entry of document `id` replaced by `entry`.
pub open spec fn with_entry(store: DocumentStoreView, id: u64, entry: DocumentEntryView) -> DocumentStoreView {
    DocumentStoreView { documents: store.documents.insert(id, entry), ..store }
}

/// The path a save writes to: the one given, else the document's own.
pub open spec fn save_path(given: Option<Seq<char>>, own: Option<Seq<char>>) -> Option<Seq<char>> {
    match given {
        Some(p) => Some(p),
        None => own,
    }
}

/// The service after document `id` was written to `path` through session
/// `session`: the document has that path and a fresh cached snapshot.
pub open spec fn saved(before: EditorServiceView, id: u64, session: u64, path: Seq<char>) -> EditorServiceView {
    let entry = before.store.documents[id];
    EditorServiceView {
        store: with_entry(
            before.store,
            id,
            DocumentEntryView {
                path: Some(path),
                cached_snapshot: Some(snapshot_of(entry.document, session, Some(path))),
                ..entry
            },
        ),
        ..before
    }
}

/// Whether `expected`, when given, differs from the revision `actual`.
pub open spec fn is_stale(expected: Option<RevisionId>, actual: u64) -> bool {
    expected matches Some(e) && e@ != actual
}

/// The error for a request that expected revision `expected` of a document at
/// revision `actual`.
pub open spec fn stale_error(session: DocumentSessionId, expected: Option<RevisionId>, actual: u64) -> EditorServiceError {
    EditorServiceError::StaleRevision {
        document_session_id: session,
        expected: expected->0,
        actual: RevisionId::spec_new(actual),
    }
}

/// What an undo or redo request answers and leaves, where `outcome` is what the
/// history operation does to a document: the session and revision checks come
/// first; a refused operation keeps its partial effect and the cached snapshot,
/// any other drops the cached snapshot.
pub open spec fn history_result(
    before: EditorServiceView,
    after: EditorServiceView,
    session: DocumentSessionId,
    expected: Option<RevisionId>,
    r: Result<EditResult, EditorServiceError>,
    outcome: spec_fn(DocumentView) -> (DocumentView, Result<Option<Seq<ChangeSetView>>, DocumentError>),
) -> bool {
    let s = before.store;
    match session_document(s, session@) {
        None => r matches Err(e) && e == EditorServiceError::DocumentSessionNotFound(session) && after == before,
        Some(id) => {
            let entry = s.documents[id];
            let document = entry.document;
            if is_stale(expected, document.revision) {
                r matches Err(e) && e == stale_error(session, expected, document.revision) && after == before
            } else {
                let (changed, result) = outcome(document);
                match result {
                    Err(de) => r matches Err(e) && e == EditorServiceError::Document(de) && after == (EditorServiceView {
                        store: with_entry(s, id, DocumentEntryView { document: changed, ..entry }),
                        ..before
                    }),
                    Ok(changes) => r matches Ok(res) && res.document_session_id == session && res.document_id@ == id
                        && change_views(res.changes@) == (match changes {
                        Some(cs) => cs,
                        None => Seq::empty(),
                    }) && res.telemetry.document_operation_nanos is Some && res.telemetry.snapshot_build_nanos is None
                        && after == (EditorServiceView {
                        store: with_entry(s, id, DocumentEntryView { document: changed, cached_snapshot: None, ..entry }),
                        ..before
                    }),
                }
            }
        },
    }
}

/// The text of line `line` of `text`, with its line feed if it has one.
pub open spec fn line_text(text: Seq<u8>, line: int) -> Seq<char> {
    decode_utf8(text.subrange(line_starts_of(text)[line], next_line_start(text, line)))
}

/// The first line a viewport shows: its top line, kept within the document.
pub open spec fn clamped_top_line(line_count: usize, top_line: usize) -> usize {
    if line_count == 0 {
        0
    } else if top_line < line_count - 1 {
        top_line
    } else {
        (line_count - 1) as usize
    }
}

/// Room within `usize` for the last line a viewport of `d` may show.
pub open spec fn viewport_room(d: DocumentView, top_line: usize, visible_line_count: usize) -> bool {
    clamped_top_line(line_starts_of(d.text).len() as usize, top_line) + visible_line_count <= usize::MAX
}

/// What a viewport with top line `top_line` showing `visible_line_count` lines
/// shows of document `d`: the lines from the clamped top line on, as many as fit
/// before the document's end.
pub open spec fn viewport_of(
    d: DocumentView,
    viewport: u64,
    session: u64,
    top_line: usize,
    visible_line_count: usize,
) -> ViewportSnapshotView {
    let count = line_starts_of(d.text).len() as usize;
    let first = clamped_top_line(count, top_line);
    let last = if first + visible_line_count < count { first + visible_line_count } else { count as int };
    ViewportSnapshotView {
        viewport_session_id: viewport,
        document_session_id: session,
        document_id: d.id,
        revision: d.revision,
        top_line: first,
        visible_line_count,
        document_line_count: count,
        lines: Seq::new((last - first) as nat, |i: int| ((first + i) as usize, line_text(d.text, first + i))),
        telemetry: None,
    }
}

/// The view of a viewport and what it shows fit the machine's counters.
pub open spec fn viewport_fits(s: EditorServiceView, viewport: u64) -> bool {
    s.viewports.viewports.contains_key(viewport) ==> ({
        let v = s.viewports.viewports[viewport];
        session_document(s.store, v.document_session_id()@) matches Some(id) ==> viewport_room(
            s.store.documents[id].document,
            v.top_line(),
            v.visible_line_count(),
        )
    })
}

/// What a request for viewport `viewport` answers in service state `s`: an unknown
/// viewport or document session is refused; otherwise the viewport's lines, with
/// the time taken to gather them.
pub open spec fn viewport_reply(s: EditorServiceView, viewport: u64, r: Result<ViewportSnapshot, EditorServiceError>) -> bool {
    if !s.viewports.viewports.contains_key(viewport) {
        r matches Err(e) && e == EditorServiceError::ViewportSessionNotFound(ViewportSessionId::spec_new(viewport))
    } else {
        let v = s.viewports.viewports[viewport];
        match session_document(s.store, v.document_session_id()@) {
            None => r matches Err(e) && e == EditorServiceError::DocumentSessionNotFound(v.document_session_id()),
            Some(id) => r matches Ok(snapshot) && snapshot@.telemetry matches Some(t) && t.document_operation_nanos is None
                && t.snapshot_build_nanos is Some && snapshot@ == (ViewportSnapshotView {
                telemetry: Some(t),
                ..viewport_of(s.store.documents[id].document, viewport, v.document_session_id()@, v.top_line(), v.visible_line_count())
            }),
        }
    }
}

/// The lines of `document` a viewport shows, with the viewport's identity.
pub fn build_viewport_snapshot(
    document: &Document,
    viewport_session_id: ViewportSessionId,
    document_session_id: DocumentSessionId,
    top_line: usize,
    visible_line_count: usize,
) -> (r: Result<ViewportSnapshot, EditorServiceError>)
    requires
        document.well_formed(),
        viewport_room(document@, top_line, visible_line_count),
    ensures
        r matches Ok(snapshot) && snapshot@ == viewport_of(
            document@,
            viewport_session_id@,
            document_session_id@,
            top_line,
            visible_line_count,
        ),
{
    let ghost text = document@.text;
    proof {
        document.lemma_well_formed();
        lemma_line_starts_shape(text);
        lemma_line_starts_boundaries(text);
    }
    let document_line_count = document.line_count();
    let clamped_top_line = if document_line_count == 0 {
        0
    } else if top_line < document_line_count - 1 {
        top_line
    } else {
        document_line_count - 1
    };
    let last_line = if clamped_top_line + visible_line_count < document_line_count {
        clamped_top_line + visible_line_count
    } else {
        document_line_count
    };
    let document_snapshot = document.snapshot();
    let mut lines: Vec<ViewportLine> = Vec::new();
    let mut line_number = clamped_top_line;
    while line_number < last_line
        invariant
            document.well_formed(),
            text == document@.text,
            document_snapshot.bytes() == text,
            valid_utf8(text),
            document_line_count == line_starts_of(text).len(),
            clamped_top_line <= line_number <= last_line <= document_line_count,
            line_views(lines@) == Seq::new(
                (line_number - clamped_top_line) as nat,
                |i: int| ((clamped_top_line + i) as usize, line_text(text, clamped_top_line + i)),
            ),
            strictly_increasing(line_starts_of(text)),
            forall|i: int| 0 <= i < line_starts_of(text).len() ==> 0 <= #[trigger] line_starts_of(text)[i] <= text.len(),
            forall|i: int| 0 <= i < line_starts_of(text).len() ==> at_char_boundary(text, #[trigger] line_starts_of(text)[i]),
        decreases last_line - line_number,
    {
        let line_start = match document.line_start_offset(line_number) {
            Ok(offset) => offset,
            Err(e) => {
                return Err(EditorServiceError::Document(e));
            },
        };
        let line_end = if line_number + 1 < document_line_count {
            match document.line_start_offset(line_number + 1) {
                Ok(offset) => offset,
                Err(e) => {
                    return Err(EditorServiceError::Document(e));
                },
            }
        } else {
            TextOffset::new(document.len_bytes())
        };
        proof {
            if line_number + 1 < document_line_count {
                assert(line_starts_of(text)[line_number as int] < line_starts_of(text)[line_number + 1]);
            }
        }
        let range = match TextRange::new(line_start, line_end) {
            Ok(range) => range,
            Err(e) => {
                return Err(EditorServiceError::Document(e));
            },
        };
        let line_text_str = match document_snapshot.slice(range) {
            Ok(s) => s.to_owned(),
            Err(e) => {
                return Err(EditorServiceError::Document(e));
            },
        };
        proof {
            encode_utf8_decode_utf8(line_text_str@);
        }
        let ghost prev = lines@;
        lines.push(ViewportLine { line_number, text: line_text_str });
        proof {
            assert(line_views(lines@) =~= Seq::new(
                (line_number + 1 - clamped_top_line) as nat,
                |i: int| ((clamped_top_line + i) as usize, line_text(text, clamped_top_line + i)),
            )) by {
                assert(line_views(lines@) =~= line_views(prev).push((line_number, line_text_str@)));
            }
        }
        line_number = line_number + 1;
    }
    Ok(
        ViewportSnapshot {
            viewport_session_id,
            document_session_id,
            document_id: document.id(),
            revision: document.revision(),
            top_line: clamped_top_line,
            visible_line_count,
            document_line_count,
            lines,
            telemetry: None,
        },
    )
}

/// What a request for the snapshot of session `document_session_id` answers and leaves: an
/// unknown session is refused; a cached snapshot is handed out for the session with no
/// build time; otherwise a fresh one is built, cached and handed out with its build time.
pub open spec fn get_reply(
    before: EditorServiceView,
    after: EditorServiceView,
    document_session_id: DocumentSessionId,
    r: Result<DocumentSnapshot, EditorServiceError>,
) -> bool {
    ({
        let s = before.store;
        let sid = document_session_id@;
        match session_document(s, sid) {
            None => r matches Err(e) && e == EditorServiceError::DocumentSessionNotFound(document_session_id)
                && after == before,
            Some(id) => {
                let entry = s.documents[id];
                match entry.cached_snapshot {
                    Some(cached) => r matches Ok(snapshot) && snapshot@ == (DocumentSnapshotView {
                        document_session_id: sid,
                        telemetry: Some(
                            PerformanceTelemetry { document_operation_nanos: None, snapshot_build_nanos: Some(0) },
                        ),
                        ..cached
                    }) && after == before,
                    None => {
                        let fresh = snapshot_of(entry.document, sid, entry.path);
                        r matches Ok(snapshot) && snapshot@.telemetry matches Some(t)
                            && t.document_operation_nanos is None && t.snapshot_build_nanos is Some
                            && snapshot@ == (DocumentSnapshotView { telemetry: Some(t), ..fresh })
                            && after == (EditorServiceView {
                            store: with_entry(s, id, DocumentEntryView { cached_snapshot: Some(fresh), ..entry }),
                            ..before
                        })
                    },
                }
            },
        }
    })
}

/// What an edit request answers and leaves: the session and revision checks come first;
/// a refused edit changes nothing; an applied one drops the cached snapshot and returns
/// its change set with the time it took.
pub open spec fn edit_reply(
    before: EditorServiceView,
    after: EditorServiceView,
    command_session: DocumentSessionId,
    expected_revision: Option<RevisionId>,
    edit: EditView,
    r: Result<EditResult, EditorServiceError>,
) -> bool {
    ({
        let s = before.store;
        let sid = command_session;
        match session_document(s, sid@) {
            None => r matches Err(e) && e == EditorServiceError::DocumentSessionNotFound(sid) && after
                == before,
            Some(id) => {
                let entry = s.documents[id];
                let document = entry.document;
                if is_stale(expected_revision, document.revision) {
                    r matches Err(e) && e == stale_error(sid, expected_revision, document.revision)
                        && after == before
                } else {
                    match edit_outcome(document, edit).1 {
                        Err(de) => r matches Err(e) && e == EditorServiceError::Document(de) && after
                            == before,
                        Ok(c) => r matches Ok(result) && result.document_session_id == sid
                            && result.document_id@ == id && change_views(result.changes@) == seq![c]
                            && result.telemetry.document_operation_nanos is Some
                            && result.telemetry.snapshot_build_nanos is None && after == (EditorServiceView {
                            store: with_entry(
                                s,
                                id,
                                DocumentEntryView {
                                    document: edit_outcome(document, edit).0,
                                    cached_snapshot: None,
                                    ..entry
                                },
                            ),
                            ..before
                        }),
                    }
                }
            },
        }
    })
}

/// Where and what a save request writes: the path given, else the document's own,
/// and the document's text; or the error that refuses the request before anything
/// is written (an unknown session, a stale revision, no path at all).
pub open spec fn save_target_of(
    s: EditorServiceView,
    sid: DocumentSessionId,
    expected_revision: Option<RevisionId>,
    given_path: Option<Seq<char>>,
) -> Result<(Seq<char>, Seq<u8>), EditorServiceError> {
    match session_document(s.store, sid@) {
        None => Err(EditorServiceError::DocumentSessionNotFound(sid)),
        Some(id) => {
            let entry = s.store.documents[id];
            if is_stale(expected_revision, entry.document.revision) {
                Err(stale_error(sid, expected_revision, entry.document.revision))
            } else {
                match save_path(given_path, entry.path) {
                    None => Err(EditorServiceError::MissingDocumentPath(sid)),
                    Some(path) => Ok((path, entry.document.text)),
                }
            }
        },
    }
}

/// What opening the file at `path` with the file system `fs` answered, tied to
/// what `fs` answered the read: the text read opens a new document, and a file
/// system error is answered only when the read itself failed.
pub open spec fn open_read<F: FileSystem>(
    before: EditorServiceView,
    after: EditorServiceView,
    fs: F,
    path: Seq<char>,
    r: Result<DocumentSnapshot, EditorServiceError>,
) -> bool {
    exists|p: &str, read: Result<String, std::io::Error>| {
        &&& #[trigger] call_ensures(F::read_to_string, (&fs, p), read)
        &&& p@ == path
        &&& match read {
            Ok(contents) => r matches Ok(snapshot) && snapshot@ == snapshot_after_open(
                before.store,
                encode_utf8(contents@),
                Some(path),
            ) && after == (EditorServiceView {
                store: store_after_open(before.store, encode_utf8(contents@), Some(path)),
                ..before
            }),
            Err(_) => r matches Err(e) && e is FileSystem && after == before,
        }
    }
}

/// What a save request with the file system `fs` asked it to write: when the save
/// is not refused before writing, one `write_string` of the document's whole text
/// to the chosen path, and the save succeeds exactly when that write did.
pub open spec fn save_wrote<F: FileSystem>(
    before: EditorServiceView,
    fs: F,
    sid: DocumentSessionId,
    expected_revision: Option<RevisionId>,
    given_path: Option<Seq<char>>,
    r: Result<DocumentSnapshot, EditorServiceError>,
) -> bool {
    match save_target_of(before, sid, expected_revision, given_path) {
        Err(_) => true,
        Ok((path, text)) => exists|p: &str, t: &str, written: Result<(), std::io::Error>| {
            &&& #[trigger] call_ensures(F::write_string, (&fs, p, t), written)
            &&& p@ == path
            &&& encode_utf8(t@) == text
            &&& (written is Ok <==> r is Ok)
        },
    }
}

/// A save that succeeds asked the file system, in a write that succeeded, to store
/// at the path its snapshot names exactly the text its snapshot holds, which is the
/// document's whole text; a save refused with a file system error is one whose
/// write failed.
pub proof fn lemma_save_stores_snapshot_text<F: FileSystem>(
    before: EditorServiceView,
    after: EditorServiceView,
    fs: F,
    sid: DocumentSessionId,
    expected_revision: Option<RevisionId>,
    given_path: Option<Seq<char>>,
    r: Result<DocumentSnapshot, EditorServiceError>,
)
    requires
        save_reply(before, after, sid, expected_revision, given_path, r),
        save_wrote(before, fs, sid, expected_revision, given_path, r),
    ensures
        r matches Ok(snapshot) ==> exists|p: &str, t: &str, written: Result<(), std::io::Error>| {
            &&& #[trigger] call_ensures(F::write_string, (&fs, p, t), written)
            &&& written is Ok
            &&& snapshot@.path == Some(p@)
            &&& snapshot@.text == t@
            &&& session_document(before.store, sid@) matches Some(id) && encode_utf8(t@)
                == before.store.documents[id].document.text
        },
        r matches Err(EditorServiceError::FileSystem(_)) ==> exists|p: &str, t: &str, written: Result<(), std::io::Error>| {
            &&& #[trigger] call_ensures(F::write_string, (&fs, p, t), written)
            &&& written is Err
        },
{
    if r is Ok || r matches Err(EditorServiceError::FileSystem(_)) {
        let (path, text) = save_target_of(before, sid, expected_revision, given_path)->Ok_0;
        let (p, t, written) = choose|p: &str, t: &str, written: Result<(), std::io::Error>| {
            &&& #[trigger] call_ensures(F::write_string, (&fs, p, t), written)
            &&& p@ == path
            &&& encode_utf8(t@) == text
            &&& (written is Ok <==> r is Ok)
        };
        encode_utf8_decode_utf8(t@);
        assert(call_ensures(F::write_string, (&fs, p, t), written));
    }
}

/// Opening answers a file system error only when the file system's read of the path
/// failed, and then changes nothing; otherwise it opens a new document, at the
/// initial revision and with that path, holding exactly the text that was read.
pub proof fn lemma_open_holds_text_read<F: FileSystem>(
    before: EditorServiceView,
    after: EditorServiceView,
    fs: F,
    path: Seq<char>,
    r: Result<DocumentSnapshot, EditorServiceError>,
)
    requires
        open_room(before.store),
        open_read(before, after, fs, path, r),
    ensures
        r matches Ok(snapshot) ==> exists|p: &str, read: Result<String, std::io::Error>| {
            &&& #[trigger] call_ensures(F::read_to_string, (&fs, p), read)
            &&& p@ == path
            &&& read matches Ok(contents) && snapshot@.text == contents@
            &&& snapshot@.path == Some(path)
            &&& snapshot@.revision == 0
            &&& snapshot@.document_id == before.store.next_id + 1
            &&& after.store.documents.contains_key(snapshot@.document_id)
        },
        r is Err ==> after == before && exists|p: &str, read: Result<String, std::io::Error>| {
            &&& #[trigger] call_ensures(F::read_to_string, (&fs, p), read)
            &&& p@ == path
            &&& read is Err
        },
{
    let (p, read) = choose|p: &str, read: Result<String, std::io::Error>| {
        &&& #[trigger] call_ensures(F::read_to_string, (&fs, p), read)
        &&& p@ == path
        &&& match read {
            Ok(contents) => r matches Ok(snapshot) && snapshot@ == snapshot_after_open(
                before.store,
                encode_utf8(contents@),
                Some(path),
            ) && after == (EditorServiceView {
                store: store_after_open(before.store, encode_utf8(contents@), Some(path)),
                ..before
            }),
            Err(_) => r matches Err(e) && e is FileSystem && after == before,
        }
    };
    if let Ok(contents) = read {
        encode_utf8_decode_utf8(contents@);
    }
    assert(call_ensures(F::read_to_string, (&fs, p), read));
}

/// What a save request answers and leaves: the session, revision and path checks come
/// first; then the file system decides between its error, with nothing changed, and a
/// saved document with a fresh cached snapshot.
pub open spec fn save_reply(
    before: EditorServiceView,
    after: EditorServiceView,
    command_session: DocumentSessionId,
    expected_revision: Option<RevisionId>,
    given_path: Option<Seq<char>>,
    r: Result<DocumentSnapshot, EditorServiceError>,
) -> bool {
    ({
        let s = before.store;
        let sid = command_session;
        match session_document(s, sid@) {
            None => r matches Err(e) && e == EditorServiceError::DocumentSessionNotFound(sid) && after
                == before,
            Some(id) => {
                let entry = s.documents[id];
                if is_stale(expected_revision, entry.document.revision) {
                    r matches Err(e) && e == stale_error(
                        sid,
                        expected_revision,
                        entry.document.revision,
                    ) && after == before
                } else {
                    match save_path(given_path, entry.path) {
                        None => r matches Err(e) && e == EditorServiceError::MissingDocumentPath(sid)
                            && after == before,
                        Some(path) => match r {
                            Err(e) => e is FileSystem && after == before,
                            Ok(snapshot) => snapshot@ == snapshot_of(entry.document, sid@, Some(path))
                                && after == saved(before, id, sid@, path),
                        },
                    }
                }
            },
        }
    })
}

/// What closing session `document_session_id` answers and leaves: an unknown session is
/// refused; otherwise the session is closed, and the document goes with its last session.
pub open spec fn close_reply(
    before: EditorServiceView,
    after: EditorServiceView,
    document_session_id: DocumentSessionId,
    r: Result<(), EditorServiceError>,
) -> bool {
    ({
        let s = before.store;
        let sid = document_session_id@;
        if !s.sessions.contains_key(sid) {
            r matches Err(e) && e == EditorServiceError::DocumentSessionNotFound(document_session_id)
                && after == before
        } else {
            let id = s.sessions[sid];
            let sessions = s.sessions.remove(sid);
            r is Ok && after == (EditorServiceView {
                store: DocumentStoreView {
                    sessions,
                    documents: if sessions.values().contains(id) {
                        s.documents
                    } else {
                        s.documents.remove(id)
                    },
                    ..s
                },
                ..before
            })
        }
    })
}

/// What opening the file at `path` answers and leaves, whatever the file system answered:
/// one more document holding what was read, in a new session, or the file system's error
/// with nothing changed.
pub open spec fn open_reply(
    before: EditorServiceView,
    after: EditorServiceView,
    path: Seq<char>,
    r: Result<DocumentSnapshot, EditorServiceError>,
) -> bool {
    match r {
        Ok(snapshot) => exists|text: Seq<char>| {
            &&& snapshot@ == snapshot_after_open(before.store, encode_utf8(text), Some(path))
            &&& after == (EditorServiceView {
                store: store_after_open(before.store, encode_utf8(text), Some(path)),
                ..before
            })
        },
        Err(e) => e is FileSystem && after == before,
    }
}

/// What creating a document holding `text` answers and leaves: one more document, in a new
/// session, and its snapshot.
pub open spec fn create_reply(before: EditorServiceView, after: EditorServiceView, text: Seq<char>, snapshot: DocumentSnapshotView) -> bool {
    &&& snapshot == snapshot_after_open(before.store, encode_utf8(text), None)
    &&& after == (EditorServiceView { store: store_after_open(before.store, encode_utf8(text), None), ..before })
}

/// An edit that went through is what the next read through the same session shows:
/// the document's text and revision after the edit, with the path it had, in a
/// freshly built snapshot.
pub proof fn lemma_edit_then_get(
    s0: EditorServiceView,
    s1: EditorServiceView,
    s2: EditorServiceView,
    sid: DocumentSessionId,
    expected_revision: Option<RevisionId>,
    edit: EditView,
    result: EditResult,
    snapshot: DocumentSnapshot,
)
    requires
        edit_fits(s0, sid, edit),
        edit_reply(s0, s1, sid, expected_revision, edit, Ok(result)),
        get_reply(s1, s2, sid, Ok(snapshot)),
    ensures
        session_document(s0.store, sid@) matches Some(id) && ({
            let entry = s0.store.documents[id];
            let edited = edit_outcome(entry.document, edit).0;
            &&& edit_outcome(entry.document, edit).1 is Ok
            &&& snapshot@ == (DocumentSnapshotView { telemetry: snapshot@.telemetry, ..snapshot_of(edited, sid@, entry.path) })
            &&& edited.revision == entry.document.revision + 1
        }),
{
    let id = session_document(s0.store, sid@)->Some_0;
    let entry = s0.store.documents[id];
    let edited = edit_outcome(entry.document, edit).0;
    assert(s1.store.documents[id] == (DocumentEntryView { document: edited, cached_snapshot: None, ..entry }));
    assert(session_document(s1.store, sid@) == Some(id));
    let fresh = snapshot_of(edited, sid@, entry.path);
    assert(snapshot@ == (DocumentSnapshotView { telemetry: snapshot@.telemetry, ..fresh }));
}

/// Room within the machine's counters for an edit request.
pub open spec fn edit_fits(s: EditorServiceView, session: DocumentSessionId, edit: EditView) -> bool {
    session_document(s.store, session@) matches Some(id) ==> edit_room(s.store.documents[id].document, edit)
}

/// Room within the machine's counters for an undo request.
pub open spec fn undo_fits(s: EditorServiceView, session: DocumentSessionId) -> bool {
    session_document(s.store, session@) matches Some(id) ==> undo_room(s.store.documents[id].document)
}

/// Room within the machine's counters for a redo request.
pub open spec fn redo_fits(s: EditorServiceView, session: DocumentSessionId) -> bool {
    session_document(s.store, session@) matches Some(id) ==> redo_room(s.store.documents[id].document)
}

/// Refuses a request whose expected revision is given and is not the document's.
pub fn ensure_revision_matches(
    document_session_id: DocumentSessionId,
    expected_revision: Option<RevisionId>,
    actual_revision: RevisionId,
) -> (r: Result<(), EditorServiceError>)
    ensures
        is_stale(expected_revision, actual_revision@) ==> (r matches Err(e) && e == stale_error(
            document_session_id,
            expected_revision,
            actual_revision@,
        )),
        !is_stale(expected_revision, actual_revision@) ==> r is Ok,
{
    if let Some(expected_revision) = expected_revision {
        if expected_revision.value() != actual_revision.value() {
            proof {
                RevisionId::lemma_spec_new(actual_revision@);
                RevisionId::lemma_view_injective(actual_revision, RevisionId::spec_new(actual_revision@));
            }
            return Err(
                EditorServiceError::StaleRevision {
                    document_session_id,
                    expected: expected_revision,
                    actual: actual_revision,
                },
            );
        }
    }
    Ok(())
}

impl<F: FileSystem> EditorService<F> {
    /// The service's documents are well formed and stored under their identifiers.
    pub closed spec fn well_formed(&self) -> bool {
        self.store.well_formed()
    }

    /// Every document and session the service holds has an identifier no greater
    /// than its counter: the document and session that `create_document` and
    /// `open_document` hand out next, one past each counter, are held by none.
    pub proof fn lemma_fresh_ids(&self)
        requires
            self.well_formed(),
        ensures
            forall|k: u64| #[trigger] self@.store.documents.contains_key(k) ==> k <= self@.store.next_id,
            forall|s: u64| #[trigger] self@.store.sessions.contains_key(s) ==> s <= self@.store.next_session_id,
    {
        self.store.lemma_ids_bounded();
    }

    /// The file system the service reads and writes through.
    pub closed spec fn file_system(&self) -> F {
        self.filesystem
    }

    /// The document that session `document_session_id` is open on, if any.
    fn session_doc(&self, document_session_id: DocumentSessionId) -> (d: Option<&Document>)
        requires
            self.well_formed(),
        ensures
            match session_document(self@.store, document_session_id@) {
                Some(id) => d matches Some(doc) && doc@ == self@.store.documents[id].document && doc.well_formed(),
                None => d is None,
            },
    {
        match self.store.resolve_session(document_session_id) {
            None => None,
            Some(id) => match self.store.get(id) {
                Some(entry) => Some(entry.document()),
                None => None,
            },
        }
    }

    /// Whether the counters leave room for opening a document: what `open_room` states.
    pub fn has_open_room(&self) -> (b: bool)
        ensures
            b == open_room(self@.store),
    {
        self.store.has_open_room()
    }

    /// Whether the counters leave room for `edit` through session
    /// `document_session_id`: what `edit_fits` states.
    pub fn has_edit_room(&self, document_session_id: DocumentSessionId, edit: &Edit) -> (b: bool)
        requires
            self.well_formed(),
        ensures
            b == edit_fits(self@, document_session_id, edit@),
    {
        match self.session_doc(document_session_id) {
            None => true,
            Some(document) => document.has_edit_room(edit),
        }
    }

    /// Whether the counters leave room for an undo through session
    /// `document_session_id`: what `undo_fits` states.
    pub fn has_undo_room(&self, document_session_id: DocumentSessionId) -> (b: bool)
        requires
            self.well_formed(),
        ensures
            b == undo_fits(self@, document_session_id),
    {
        match self.session_doc(document_session_id) {
            None => true,
            Some(document) => document.has_undo_room(),
        }
    }

    /// Whether the counters leave room for a redo through session
    /// `document_session_id`: what `redo_fits` states.
    pub fn has_redo_room(&self, document_session_id: DocumentSessionId) -> (b: bool)
        requires
            self.well_formed(),
        ensures
            b == redo_fits(self@, document_session_id),
    {
        match self.session_doc(document_session_id) {
            None => true,
            Some(document) => document.has_redo_room(),
        }
    }

    /// A service with no documents or viewports, reading and writing files through
    /// `filesystem`.
    pub fn new(filesystem: F) -> (s: Self)
        ensures
            s.well_formed(),
            s@ == (EditorServiceView {
                store: DocumentStoreView {
                    next_id: 0,
                    documents: Map::empty(),
                    next_session_id: 0,
                    sessions: Map::empty(),
                },
                viewports: ViewportStoreView { next_viewport_id: 0, viewports: Map::empty() },
            }),
    {
        Self { store: DocumentStore::default(), viewport_store: ViewportStore::default(), filesystem }
    }

    /// Registers a new document holding `text` with file path `path`, opens a
    /// session on it, and caches and returns its snapshot.
    fn register(&mut self, text: &str, path: Option<String>) -> (snapshot: DocumentSnapshot)
        requires
            old(self).well_formed(),
            open_room(old(self)@.store),
        ensures
            final(self).well_formed(),
            final(self).file_system() == old(self).file_system(),
            snapshot@ == snapshot_after_open(old(self)@.store, encode_utf8(text@), opt_string_view(path)),
            final(self)@ == (EditorServiceView {
                store: store_after_open(old(self)@.store, encode_utf8(text@), opt_string_view(path)),
                ..old(self)@
            }),
    {
        let ghost path_view = opt_string_view(path);
        let id = self.store.next_document_id();
        let document = Document::open(id, text);
        let entry_path = clone_opt_string(&path);
        self.store.insert(DocumentEntry::new(document, entry_path));
        let session_id = self.store.open_session(id).unwrap();
        let entry = self.store.get_mut(id).unwrap();
        let snapshot = DocumentSnapshot::from_document(entry.document(), path).with_document_session_id(session_id);
        entry.cache_snapshot(snapshot.clone());
        proof {
            let s = old(self)@.store;
            assert(self@.store.documents =~= store_after_open(s, encode_utf8(text@), path_view).documents);
        }
        snapshot
    }

    /// Creates a document holding `text`, with no file path, in a new session.
    pub fn create_document(&mut self, text: &str) -> (snapshot: DocumentSnapshot)
        requires
            old(self).well_formed(),
            open_room(old(self)@.store),
        ensures
            final(self).well_formed(),
            create_reply(old(self)@, final(self)@, text@, snapshot@),
    {
        self.register(text, None)
    }

    /// Opens the file at `path` in a new session. Whatever the file system answers,
    /// either the service holds one more document, whose text is what was read, or
    /// the file system's error is returned and nothing changed.
    pub fn open_document(&mut self, path: &str) -> (r: Result<DocumentSnapshot, EditorServiceError>)
        requires
            old(self).well_formed(),
            open_room(old(self)@.store),
        ensures
            final(self).well_formed(),
            open_reply(old(self)@, final(self)@, path@, r),
            open_read(old(self)@, final(self)@, old(self).file_system(), path@, r),
            final(self).file_system() == old(self).file_system(),
    {
        let answer = self.filesystem.read_to_string(path);
        let ghost fs = self.filesystem;
        let ghost before = self@;
        let ghost answered = answer;
        let read = match answer {
            Ok(contents) => Ok(contents),
            Err(error) => Err(io_error_text(&error)),
        };
        let r = self.finish_open(path, read);
        proof {
            assert(call_ensures(F::read_to_string, (&fs, path), answered));
            assert(path@ == path@);
        }
        r
    }

    /// Completes opening the file at `path` once it was read: `read` is its text,
    /// or the text of the file system's error.
    pub fn finish_open(&mut self, path: &str, read: Result<String, String>) -> (r: Result<DocumentSnapshot, EditorServiceError>)
        requires
            old(self).well_formed(),
            open_room(old(self)@.store),
        ensures
            final(self).well_formed(),
            final(self).file_system() == old(self).file_system(),
            match read {
                Ok(contents) => r matches Ok(snapshot) && snapshot@ == snapshot_after_open(
                    old(self)@.store,
                    encode_utf8(contents@),
                    Some(path@),
                ) && final(self)@ == (EditorServiceView {
                    store: store_after_open(old(self)@.store, encode_utf8(contents@), Some(path@)),
                    ..old(self)@
                }),
                Err(text) => r matches Err(e) && e == EditorServiceError::FileSystem(text) && final(self)@ == old(
                    self,
                )@,
            },
    {
        match read {
            Ok(contents) => {
                let owned_path = path.to_owned();
                Ok(self.register(contents.as_str(), Some(owned_path)))
            },
            Err(text) => Err(EditorServiceError::FileSystem(text)),
        }
    }

    /// The snapshot of the document of session `document_session_id`, for that
    /// session: the cached one if it is still current, else a new one, which is
    /// cached.
    pub fn get_document(&mut self, document_session_id: DocumentSessionId) -> (r: Result<
        DocumentSnapshot,
        EditorServiceError,
    >)
        requires
            old(self).well_formed(),
        ensures
            final(self).well_formed(),
            get_reply(old(self)@, final(self)@, document_session_id, r),
    {
        let document_id = match self.store.resolve_session(document_session_id) {
            Some(id) => id,
            None => {
                return Err(EditorServiceError::DocumentSessionNotFound(document_session_id));
            },
        };
        let entry = match self.store.get(document_id) {
            Some(entry) => entry,
            None => {
                return Err(EditorServiceError::DocumentSessionNotFound(document_session_id));
            },
        };
        let started_at = instant_now();
        match entry.cached_snapshot() {
            Some(snapshot) => {
                return Ok(
                    snapshot.clone().with_document_session_id(document_session_id).with_telemetry(
                        PerformanceTelemetry { document_operation_nanos: None, snapshot_build_nanos: Some(0) },
                    ),
                );
            },
            None => {},
        }
        let path = match entry.path() {
            Some(p) => Some(p.clone()),
            None => None,
        };
        let snapshot = DocumentSnapshot::from_document(entry.document(), path).with_document_session_id(
            document_session_id,
        );
        let build_nanos = nanos_since(&started_at);
        let entry = self.store.get_mut(document_id).unwrap();
        entry.cache_snapshot(snapshot.clone());
        Ok(
            snapshot.with_telemetry(
                PerformanceTelemetry { document_operation_nanos: None, snapshot_build_nanos: Some(build_nanos) },
            ),
        )
    }

    /// Applies the edit of `command` to the document of its session, unless the
    /// session is unknown or the document is not at the expected revision. A
    /// successful edit drops the cached snapshot.
    pub fn edit_document(&mut self, command: EditDocument) -> (r: Result<EditResult, EditorServiceError>)
        requires
            old(self).well_formed(),
            edit_fits(old(self)@, command.document_session_id, command.edit@),
        ensures
            final(self).well_formed(),
            edit_reply(old(self)@, final(self)@, command.document_session_id, command.expected_revision, command.edit@, r),
    {
        let document_session_id = command.document_session_id;
        let document_id = match self.store.resolve_session(document_session_id) {
            Some(id) => id,
            None => {
                return Err(EditorServiceError::DocumentSessionNotFound(document_session_id));
            },
        };
        let entry = match self.store.get(document_id) {
            Some(entry) => entry,
            None => {
                return Err(EditorServiceError::DocumentSessionNotFound(document_session_id));
            },
        };
        match ensure_revision_matches(document_session_id, command.expected_revision, entry.document().revision()) {
            Ok(()) => {},
            Err(e) => {
                return Err(e);
            },
        }
        let operation_started_at = instant_now();
        let entry = self.store.get_mut(document_id).unwrap();
        let change = match entry.document_mut().apply_edit(command.edit) {
            Ok(change) => change,
            Err(e) => {
                proof {
                    assert(self@.store.documents =~= old(self)@.store.documents);
                }
                return Err(EditorServiceError::Document(e));
            },
        };
        entry.clear_snapshot_cache();
        let telemetry = PerformanceTelemetry {
            document_operation_nanos: Some(nanos_since(&operation_started_at)),
            snapshot_build_nanos: None,
        };
        let mut changes: Vec<ChangeSet> = Vec::new();
        changes.push(change);
        proof {
            assert(change_views(changes@) =~= seq![change@]);
        }
        Ok(EditResult { document_session_id, document_id, changes, telemetry })
    }

    /// Undoes the latest transaction of the document of session
    /// `document_session_id`, unless the session is unknown or the document is not
    /// at the expected revision. Unless the undo is refused, the cached snapshot is
    /// dropped; with nothing to undo, no change sets are returned.
    pub fn undo_document(&mut self, document_session_id: DocumentSessionId, expected_revision: Option<RevisionId>) -> (r:
        Result<EditResult, EditorServiceError>)
        requires
            old(self).well_formed(),
            undo_fits(old(self)@, document_session_id),
        ensures
            final(self).well_formed(),
            history_result(
                old(self)@,
                final(self)@,
                document_session_id,
                expected_revision,
                r,
                |d: DocumentView| undo_outcome(d),
            ),
    {
        let document_id = match self.store.resolve_session(document_session_id) {
            Some(id) => id,
            None => {
                return Err(EditorServiceError::DocumentSessionNotFound(document_session_id));
            },
        };
        let entry = match self.store.get(document_id) {
            Some(entry) => entry,
            None => {
                return Err(EditorServiceError::DocumentSessionNotFound(document_session_id));
            },
        };
        match ensure_revision_matches(document_session_id, expected_revision, entry.document().revision()) {
            Ok(()) => {},
            Err(e) => {
                return Err(e);
            },
        }
        let operation_started_at = instant_now();
        let entry = self.store.get_mut(document_id).unwrap();
        let changes = match entry.document_mut().undo() {
            Ok(Some(changes)) => changes,
            Ok(None) => Vec::new(),
            Err(e) => {
                return Err(EditorServiceError::Document(e));
            },
        };
        entry.clear_snapshot_cache();
        let telemetry = PerformanceTelemetry {
            document_operation_nanos: Some(nanos_since(&operation_started_at)),
            snapshot_build_nanos: None,
        };
        proof {
            assert(change_views(Seq::<ChangeSet>::empty()) =~= Seq::<ChangeSetView>::empty());
        }
        Ok(EditResult { document_session_id, document_id, changes, telemetry })
    }

    /// Redoes the latest undone transaction of the document of session
    /// `document_session_id`, as `undo_document` undoes.
    pub fn redo_document(&mut self, document_session_id: DocumentSessionId, expected_revision: Option<RevisionId>) -> (r:
        Result<EditResult, EditorServiceError>)
        requires
            old(self).well_formed(),
            redo_fits(old(self)@, document_session_id),
        ensures
            final(self).well_formed(),
            history_result(
                old(self)@,
                final(self)@,
                document_session_id,
                expected_revision,
                r,
                |d: DocumentView| redo_outcome(d),
            ),
    {
        let document_id = match self.store.resolve_session(document_session_id) {
            Some(id) => id,
            None => {
                return Err(EditorServiceError::DocumentSessionNotFound(document_session_id));
            },
        };
        let entry = match self.store.get(document_id) {
            Some(entry) => entry,
            None => {
                return Err(EditorServiceError::DocumentSessionNotFound(document_session_id));
            },
        };
        match ensure_revision_matches(document_session_id, expected_revision, entry.document().revision()) {
            Ok(()) => {},
            Err(e) => {
                return Err(e);
            },
        }
        let operation_started_at = instant_now();
        let entry = self.store.get_mut(document_id).unwrap();
        let changes = match entry.document_mut().redo() {
            Ok(Some(changes)) => changes,
            Ok(None) => Vec::new(),
            Err(e) => {
                return Err(EditorServiceError::Document(e));
            },
        };
        entry.clear_snapshot_cache();
        let telemetry = PerformanceTelemetry {
            document_operation_nanos: Some(nanos_since(&operation_started_at)),
            snapshot_build_nanos: None,
        };
        proof {
            assert(change_views(Seq::<ChangeSet>::empty()) =~= Seq::<ChangeSetView>::empty());
        }
        Ok(EditResult { document_session_id, document_id, changes, telemetry })
    }

    /// Writes the document of the session of `command` to the given path, or to
    /// the document's own path; refused when the session is unknown, the document
    /// is not at the expected revision, or no path is known, and then nothing is
    /// written. Otherwise it writes exactly what `save_target` gives: the text of
    /// the document to the chosen path, in one `write_string` call. Whatever the file
    /// system answers, either the document now has that path and a fresh cached
    /// snapshot, which is returned, or the file system's error is returned and
    /// nothing changed.
    pub fn save_document(&mut self, command: SaveDocument) -> (r: Result<DocumentSnapshot, EditorServiceError>)
        requires
            old(self).well_formed(),
        ensures
            final(self).well_formed(),
            save_reply(old(self)@, final(self)@, command.document_session_id, command.expected_revision, opt_string_view(command.path), r),
            save_wrote(
                old(self)@,
                old(self).file_system(),
                command.document_session_id,
                command.expected_revision,
                opt_string_view(command.path),
                r,
            ),
            final(self).file_system() == old(self).file_system(),
    {
        let document_session_id = command.document_session_id;
        let (path, text) = match self.save_target(&command) {
            Ok(target) => target,
            Err(e) => {
                return Err(e);
            },
        };
        let path_str = path.as_str();
        let text_str = text.as_str();
        let answer = self.filesystem.write_string(path_str, text_str);
        let ghost ps = path_str;
        let ghost ts = text_str;
        let ghost fs = self.filesystem;
        let ghost answered = answer;
        let written = match answer {
            Ok(()) => Ok(()),
            Err(error) => Err(io_error_text(&error)),
        };
        let r = self.finish_save(document_session_id, path, written);
        proof {
            assert(call_ensures(F::write_string, (&fs, ps, ts), answered));
        }
        r
    }

    /// The path and the text a save request writes, or the error that refuses it
    /// before anything is written: what `save_target_of` states.
    pub fn save_target(&self, command: &SaveDocument) -> (r: Result<(String, String), EditorServiceError>)
        requires
            self.well_formed(),
        ensures
            match save_target_of(self@, command.document_session_id, command.expected_revision, opt_string_view(command.path)) {
                Err(e) => r == Err::<(String, String), EditorServiceError>(e),
                Ok((p, t)) => r matches Ok((path, text)) && path@ == p && encode_utf8(text@) == t,
            },
    {
        let document_session_id = command.document_session_id;
        let document_id = match self.store.resolve_session(document_session_id) {
            Some(id) => id,
            None => {
                return Err(EditorServiceError::DocumentSessionNotFound(document_session_id));
            },
        };
        let entry = match self.store.get(document_id) {
            Some(entry) => entry,
            None => {
                return Err(EditorServiceError::DocumentSessionNotFound(document_session_id));
            },
        };
        match ensure_revision_matches(document_session_id, command.expected_revision, entry.document().revision()) {
            Ok(()) => {},
            Err(e) => {
                return Err(e);
            },
        }
        let path = match &command.path {
            Some(path) => path.clone(),
            None => match entry.path() {
                Some(path) => path.clone(),
                None => {
                    return Err(EditorServiceError::MissingDocumentPath(document_session_id));
                },
            },
        };
        let text = entry.document().text();
        Ok((path, text))
    }

    /// Completes saving the document of session `document_session_id` to `path`
    /// once the file system answered: `written` is its answer, with the text of
    /// its error.
    pub fn finish_save(&mut self, document_session_id: DocumentSessionId, path: String, written: Result<(), String>) -> (r:
        Result<DocumentSnapshot, EditorServiceError>)
        requires
            old(self).well_formed(),
        ensures
            final(self).well_formed(),
            final(self).file_system() == old(self).file_system(),
            match written {
                Err(text) => r matches Err(e) && e == EditorServiceError::FileSystem(text) && final(self)@ == old(self)@,
                Ok(()) => match session_document(old(self)@.store, document_session_id@) {
                    None => r matches Err(e) && e == EditorServiceError::DocumentSessionNotFound(document_session_id)
                        && final(self)@ == old(self)@,
                    Some(id) => r matches Ok(snapshot) && snapshot@ == snapshot_of(
                        old(self)@.store.documents[id].document,
                        document_session_id@,
                        Some(path@),
                    ) && final(self)@ == saved(old(self)@, id, document_session_id@, path@),
                },
            },
    {
        match written {
            Ok(()) => {},
            Err(text) => {
                return Err(EditorServiceError::FileSystem(text));
            },
        }
        let document_id = match self.store.resolve_session(document_session_id) {
            Some(id) => id,
            None => {
                return Err(EditorServiceError::DocumentSessionNotFound(document_session_id));
            },
        };
        if self.store.get(document_id).is_none() {
            return Err(EditorServiceError::DocumentSessionNotFound(document_session_id));
        }
        let entry = self.store.get_mut(document_id).unwrap();
        entry.set_path(Some(path.clone()));
        let snapshot = DocumentSnapshot::from_document(entry.document(), Some(path)).with_document_session_id(
            document_session_id,
        );
        entry.cache_snapshot(snapshot.clone());
        Ok(snapshot)
    }

    /// Closes session `document_session_id`; the document goes with its last session.
    pub fn close_document(&mut self, document_session_id: DocumentSessionId) -> (r: Result<(), EditorServiceError>)
        requires
            old(self).well_formed(),
        ensures
            final(self).well_formed(),
            close_reply(old(self)@, final(self)@, document_session_id, r),
    {
        let (document_id, should_remove_document) = match self.store.close_session(document_session_id) {
            Some(closed) => closed,
            None => {
                return Err(EditorServiceError::DocumentSessionNotFound(document_session_id));
            },
        };
        if should_remove_document {
            self.store.remove(document_id);
        }
        Ok(())
    }

    /// Opens a viewport on session `command.document_session_id`, showing at least
    /// one line, and returns what it shows.
    pub fn create_viewport(&mut self, command: CreateViewport) -> (r: Result<ViewportSnapshot, EditorServiceError>)
        requires
            old(self).well_formed(),
            old(self)@.viewports.next_viewport_id < u64::MAX,
            session_document(old(self)@.store, command.document_session_id@) matches Some(id) ==> viewport_room(
                old(self)@.store.documents[id].document,
                command.top_line,
                shown_line_count(command.visible_line_count),
            ),
        ensures
            final(self).well_formed(),
            !old(self)@.store.sessions.contains_key(command.document_session_id@) ==> (r matches Err(e) && e
                == EditorServiceError::DocumentSessionNotFound(command.document_session_id) && final(self)@ == old(
                self,
            )@),
            old(self)@.store.sessions.contains_key(command.document_session_id@) ==> ({
                let id = (old(self)@.viewports.next_viewport_id + 1) as u64;
                &&& final(self)@ == (EditorServiceView {
                    viewports: ViewportStoreView {
                        next_viewport_id: id,
                        viewports: old(self)@.viewports.viewports.insert(
                            id,
                            ViewportSession::spec_new(
                                command.document_session_id,
                                command.top_line,
                                shown_line_count(command.visible_line_count),
                            ),
                        ),
                    },
                    ..old(self)@
                })
                &&& viewport_reply(final(self)@, id, r)
            }),
    {
        if self.store.resolve_session(command.document_session_id).is_none() {
            return Err(EditorServiceError::DocumentSessionNotFound(command.document_session_id));
        }
        let viewport_session_id = self.viewport_store.create_viewport(
            command.document_session_id,
            command.top_line,
            command.visible_line_count,
        );
        proof {
            ViewportSession::lemma_spec_new(
                command.document_session_id,
                command.top_line,
                shown_line_count(command.visible_line_count),
            );
        }
        self.get_viewport(viewport_session_id)
    }

    /// What viewport `viewport_session_id` shows now.
    pub fn get_viewport(&mut self, viewport_session_id: ViewportSessionId) -> (r: Result<
        ViewportSnapshot,
        EditorServiceError,
    >)
        requires
            old(self).well_formed(),
            viewport_fits(old(self)@, viewport_session_id@),
        ensures
            final(self).well_formed(),
            final(self)@ == old(self)@,
            viewport_reply(old(self)@, viewport_session_id@, r),
    {
        let viewport = match self.viewport_store.get(viewport_session_id) {
            Some(viewport) => *viewport,
            None => {
                proof {
                    ViewportSessionId::lemma_spec_new(viewport_session_id@);
                    ViewportSessionId::lemma_view_injective(
                        viewport_session_id,
                        ViewportSessionId::spec_new(viewport_session_id@),
                    );
                }
                return Err(EditorServiceError::ViewportSessionNotFound(viewport_session_id));
            },
        };
        let started_at = instant_now();
        let document_session_id = viewport.document_session_id();
        let document_id = match self.store.resolve_session(document_session_id) {
            Some(id) => id,
            None => {
                return Err(EditorServiceError::DocumentSessionNotFound(document_session_id));
            },
        };
        let entry = match self.store.get(document_id) {
            Some(entry) => entry,
            None => {
                return Err(EditorServiceError::DocumentSessionNotFound(document_session_id));
            },
        };
        let snapshot = match build_viewport_snapshot(
            entry.document(),
            viewport_session_id,
            document_session_id,
            viewport.top_line(),
            viewport.visible_line_count(),
        ) {
            Ok(snapshot) => snapshot,
            Err(e) => {
                return Err(e);
            },
        };
        Ok(
            snapshot.with_telemetry(
                PerformanceTelemetry { document_operation_nanos: None, snapshot_build_nanos: Some(nanos_since(&started_at)) },
            ),
        )
    }

    /// Moves viewport `command.viewport_session_id` to top line `command.top_line`
    /// and returns what it shows.
    pub fn scroll_viewport(&mut self, command: ScrollViewport) -> (r: Result<ViewportSnapshot, EditorServiceError>)
        requires
            old(self).well_formed(),
            old(self)@.viewports.viewports.contains_key(command.viewport_session_id@) ==> ({
                let viewport = old(self)@.viewports.viewports[command.viewport_session_id@];
                session_document(old(self)@.store, viewport.document_session_id()@) matches Some(id) ==> viewport_room(
                    old(self)@.store.documents[id].document,
                    command.top_line,
                    viewport.visible_line_count(),
                )
            }),
        ensures
            final(self).well_formed(),
            !old(self)@.viewports.viewports.contains_key(command.viewport_session_id@) ==> (r matches Err(e) && e
                == EditorServiceError::ViewportSessionNotFound(command.viewport_session_id) && final(self)@ == old(
                self,
            )@),
            old(self)@.viewports.viewports.contains_key(command.viewport_session_id@) ==> ({
                let id = command.viewport_session_id@;
                let viewport = old(self)@.viewports.viewports[id];
                &&& final(self)@ == (EditorServiceView {
                    viewports: ViewportStoreView {
                        viewports: old(self)@.viewports.viewports.insert(
                            id,
                            ViewportSession::spec_new(
                                viewport.document_session_id(),
                                command.top_line,
                                viewport.visible_line_count(),
                            ),
                        ),
                        ..old(self)@.viewports
                    },
                    ..old(self)@
                })
                &&& viewport_reply(final(self)@, id, r)
            }),
    {
        let viewport = match self.viewport_store.get_mut(command.viewport_session_id) {
            Some(viewport) => viewport,
            None => {
                return Err(EditorServiceError::ViewportSessionNotFound(command.viewport_session_id));
            },
        };
        viewport.set_top_line(command.top_line);
        proof {
            let v = old(self)@.viewports.viewports[command.viewport_session_id@];
            ViewportSession::lemma_spec_new(v.document_session_id(), command.top_line, v.visible_line_count());
        }
        self.get_viewport(command.viewport_session_id)
    }
}

} // verus!
