use vstd::prelude::*;
use vstd::utf8::*;

use crate::domain::document::{
    line_starts_of, ChangeSet, Document, DocumentId, DocumentSessionId, DocumentView, Edit, NewlineMode,
    RevisionId, ViewportSessionId,
};

verus! {

/// How long the work behind a reply took, where it was measured.
#[derive(Debug, Clone, Copy, PartialEq, Eq, Structural)]
pub struct PerformanceTelemetry {
    pub document_operation_nanos: Option<u64>,
    pub snapshot_build_nanos: Option<u64>,
}

/// The state of a document as handed to a client.
#[derive(Debug, PartialEq, Eq)]
pub struct DocumentSnapshot {
    pub document_session_id: DocumentSessionId,
    pub document_id: DocumentId,
    pub revision: RevisionId,
    pub text: String,
    pub line_count: usize,
    pub newline_mode: NewlineMode,
    pub path: Option<String>,
    pub telemetry: Option<PerformanceTelemetry>,
}

/// A document snapshot with its texts taken as characters and its identifiers as numbers.
pub struct DocumentSnapshotView {
    pub document_session_id: u64,
    pub document_id: u64,
    pub revision: u64,
    pub text: Seq<char>,
    pub line_count: usize,
    pub newline_mode: NewlineMode,
    pub path: Option<Seq<char>>,
    pub telemetry: Option<PerformanceTelemetry>,
}

/// The view of an optional string.
pub open spec fn opt_string_view(s: Option<String>) -> Option<Seq<char>> {
    match s {
        Some(s) => Some(s@),
        None => None,
    }
}

impl View for DocumentSnapshot {
    type V = DocumentSnapshotView;

    open spec fn view(&self) -> DocumentSnapshotView {
        DocumentSnapshotView {
            document_session_id: self.document_session_id@,
            document_id: self.document_id@,
            revision: self.revision@,
            text: self.text@,
            line_count: self.line_count,
            newline_mode: self.newline_mode,
            path: opt_string_view(self.path),
            telemetry: self.telemetry,
        }
    }
}

/// The snapshot of document `d` for session `session`, with file path `path` and
/// no telemetry.
pub open spec fn snapshot_of(d: DocumentView, session: u64, path: Option<Seq<char>>) -> DocumentSnapshotView {
    DocumentSnapshotView {
        document_session_id: session,
        document_id: d.id,
        revision: d.revision,
        text: decode_utf8(d.text),
        line_count: line_starts_of(d.text).len() as usize,
        newline_mode: d.newline_policy.preferred_mode(),
        path,
        telemetry: None,
    }
}

/// A copy of an optional string.
pub fn clone_opt_string(s: &Option<String>) -> (c: Option<String>)
    ensures
        opt_string_view(c) == opt_string_view(*s),
{
    match s {
        Some(s) => Some(s.clone()),
        None => None,
    }
}

impl Clone for DocumentSnapshot {
    fn clone(&self) -> (c: Self)
        ensures
            c@ == self@,
    {
        DocumentSnapshot {
            document_session_id: self.document_session_id,
            document_id: self.document_id,
            revision: self.revision,
            text: self.text.clone(),
            line_count: self.line_count,
            newline_mode: self.newline_mode,
            path: clone_opt_string(&self.path),
            telemetry: self.telemetry,
        }
    }
}

impl DocumentSnapshot {
    /// The snapshot of `document` with file path `path`, for no session in
    /// particular (session number 0) and with no telemetry.
    pub fn from_document(document: &Document, path: Option<String>) -> (s: Self)
        requires
            document.well_formed(),
        ensures
            s@ == snapshot_of(document@, 0, opt_string_view(path)),
    {
        let text = document.text();
        proof {
            encode_utf8_decode_utf8(text@);
            document.lemma_well_formed();
        }
        DocumentSnapshot {
            document_session_id: DocumentSessionId::new(0),
            document_id: document.id(),
            revision: document.revision(),
            text,
            line_count: document.line_count(),
            newline_mode: document.newline_policy().preferred_mode(),
            path,
            telemetry: None,
        }
    }

    /// The same snapshot, for session `document_session_id`.
    pub fn with_document_session_id(self, document_session_id: DocumentSessionId) -> (s: Self)
        ensures
            s@ == (DocumentSnapshotView { document_session_id: document_session_id@, ..self@ }),
    {
        DocumentSnapshot { document_session_id, ..self }
    }

    /// The same snapshot, carrying `telemetry`.
    pub fn with_telemetry(self, telemetry: PerformanceTelemetry) -> (s: Self)
        ensures
            s@ == (DocumentSnapshotView { telemetry: Some(telemetry), ..self@ }),
    {
        DocumentSnapshot { telemetry: Some(telemetry), ..self }
    }
}

/// The change sets an edit, undo or redo applied to a document.
#[derive(Debug, Clone, PartialEq, Eq)]
pub struct EditResult {
    pub document_session_id: DocumentSessionId,
    pub document_id: DocumentId,
    pub changes: Vec<ChangeSet>,
    pub telemetry: PerformanceTelemetry,
}

/// A request to write a document to a file: the given path, or the document's own.
#[derive(Debug, Clone, PartialEq, Eq)]
pub struct SaveDocument {
    pub document_session_id: DocumentSessionId,
    pub expected_revision: Option<RevisionId>,
    pub path: Option<String>,
}

/// A request to apply an edit to a document.
#[derive(Debug, Clone, PartialEq, Eq)]
pub struct EditDocument {
    pub document_session_id: DocumentSessionId,
    pub expected_revision: Option<RevisionId>,
    pub edit: Edit,
}

/// A request to show lines of a document in a viewport.
#[derive(Debug, Clone, Copy, PartialEq, Eq, Structural)]
pub struct CreateViewport {
    pub document_session_id: DocumentSessionId,
    pub top_line: usize,
    pub visible_line_count: usize,
}

/// A request to move a viewport to another top line.
#[derive(Debug, Clone, Copy, PartialEq, Eq, Structural)]
pub struct ScrollViewport {
    pub viewport_session_id: ViewportSessionId,
    pub top_line: usize,
}

/// One line shown in a viewport, with its line feed if it has one.
#[derive(Debug, PartialEq, Eq)]
pub struct ViewportLine {
    pub line_number: usize,
    pub text: String,
}

/// The lines of a document that a viewport shows.
#[derive(Debug, PartialEq, Eq)]
pub struct ViewportSnapshot {
    pub viewport_session_id: ViewportSessionId,
    pub document_session_id: DocumentSessionId,
    pub document_id: DocumentId,
    pub revision: RevisionId,
    pub top_line: usize,
    pub visible_line_count: usize,
    pub document_line_count: usize,
    pub lines: Vec<ViewportLine>,
    pub telemetry: Option<PerformanceTelemetry>,
}

/// A viewport snapshot with its lines as line numbers and characters.
pub struct ViewportSnapshotView {
    pub viewport_session_id: u64,
    pub document_session_id: u64,
    pub document_id: u64,
    pub revision: u64,
    pub top_line: usize,
    pub visible_line_count: usize,
    pub document_line_count: usize,
    pub lines: Seq<(usize, Seq<char>)>,
    pub telemetry: Option<PerformanceTelemetry>,
}

/// The line numbers and texts of viewport lines.
pub open spec fn line_views(lines: Seq<ViewportLine>) -> Seq<(usize, Seq<char>)> {
    lines.map_values(|l: ViewportLine| (l.line_number, l.text@))
}

impl View for ViewportSnapshot {
    type V = ViewportSnapshotView;

    open spec fn view(&self) -> ViewportSnapshotView {
        ViewportSnapshotView {
            viewport_session_id: self.viewport_session_id@,
            document_session_id: self.document_session_id@,
            document_id: self.document_id@,
            revision: self.revision@,
            top_line: self.top_line,
            visible_line_count: self.visible_line_count,
            document_line_count: self.document_line_count,
            lines: line_views(self.lines@),
            telemetry: self.telemetry,
        }
    }
}

impl ViewportSnapshot {
    /// The same snapshot, carrying `telemetry`.
    pub fn with_telemetry(self, telemetry: PerformanceTelemetry) -> (s: Self)
        ensures
            s@ == (ViewportSnapshotView { telemetry: Some(telemetry), ..self@ }),
    {
        ViewportSnapshot { telemetry: Some(telemetry), ..self }
    }
}

} // verus!
