use vstd::prelude::*;
use vstd::std_specs::convert::FromSpecImpl;
use vstd::string::*;
use vstd::utf8::encode_utf8;

use crate::application::commands::{DocumentSnapshot, EditDocument, EditResult, SaveDocument};
use crate::application::services::{
    close_reply, create_reply, edit_fits, edit_reply, get_reply, history_result, open_reply, open_room, redo_fits,
    open_read, save_reply, save_wrote, service_error_message, snapshot_after_open, store_after_open, undo_fits, EditorService, EditorServiceError, EditorServiceView,
};
use crate::application::commands::opt_string_view;
use crate::domain::document::{redo_outcome, undo_outcome, DocumentSessionId, DocumentView, RevisionId};
use crate::infrastructure::filesystem::FileSystem;

verus! {

/// Why a request to the editor runtime failed.
#[derive(Debug)]
pub enum EditorRuntimeError {
    Service(EditorServiceError),
    RuntimeUnavailable,
}

/// The text that describes `error` to a person.
pub open spec fn runtime_error_message(error: EditorRuntimeError) -> Seq<char> {
    match error {
        EditorRuntimeError::Service(e) => service_error_message(e),
        EditorRuntimeError::RuntimeUnavailable => "editor runtime is unavailable"@,
    }
}

impl EditorRuntimeError {
    /// The text that describes the error to a person.
    pub fn message(&self) -> (s: String)
        ensures
            s@ == runtime_error_message(*self),
    {
        match self {
            EditorRuntimeError::Service(e) => e.message(),
            EditorRuntimeError::RuntimeUnavailable => String::from_str("editor runtime is unavailable"),
        }
    }
}

impl From<EditorServiceError> for EditorRuntimeError {
    fn from(value: EditorServiceError) -> (e: Self)
        ensures
            e == EditorRuntimeError::Service(value),
    {
        EditorRuntimeError::Service(value)
    }
}

impl FromSpecImpl<EditorServiceError> for EditorRuntimeError {
    open spec fn obeys_from_spec() -> bool {
        true
    }

    open spec fn from_spec(v: EditorServiceError) -> Self {
        EditorRuntimeError::Service(v)
    }
}

/// A request that the editor runtime serves, one at a time, on its service.
pub enum EditorRuntimeRequest {
    CreateDocument { text: String },
    OpenDocument { path: String },
    GetDocument { document_session_id: DocumentSessionId },
    EditDocument { command: EditDocument },
    UndoDocument { document_session_id: DocumentSessionId, expected_revision: Option<RevisionId> },
    RedoDocument { document_session_id: DocumentSessionId, expected_revision: Option<RevisionId> },
    SaveDocument { command: SaveDocument },
    CloseDocument { document_session_id: DocumentSessionId },
}

/// The runtime's answer to a request.
pub enum EditorRuntimeReply {
    Snapshot(Result<DocumentSnapshot, EditorRuntimeError>),
    Edit(Result<EditResult, EditorRuntimeError>),
    Closed(Result<(), EditorRuntimeError>),
}

/// A runtime result with its service error taken out of the runtime error.
pub open spec fn service_side<T>(r: Result<T, EditorRuntimeError>) -> Result<T, EditorServiceError> {
    match r {
        Ok(v) => Ok(v),
        Err(EditorRuntimeError::Service(e)) => Err(e),
        Err(EditorRuntimeError::RuntimeUnavailable) => Err(vstd::pervasive::arbitrary()),
    }
}

/// The runtime result that carries a service result.
pub open spec fn from_service<T>(r: Result<T, EditorServiceError>) -> Result<T, EditorRuntimeError> {
    match r {
        Ok(v) => Ok(v),
        Err(e) => Err(EditorRuntimeError::Service(e)),
    }
}

fn lift<T>(r: Result<T, EditorServiceError>) -> (l: Result<T, EditorRuntimeError>)
    ensures
        l == from_service(r),
{
    match r {
        Ok(v) => Ok(v),
        Err(e) => Err(EditorRuntimeError::Service(e)),
    }
}

/// Room within the machine's counters for serving `request`.
pub open spec fn request_fits(s: EditorServiceView, request: EditorRuntimeRequest) -> bool {
    match request {
        EditorRuntimeRequest::CreateDocument { .. } => open_room(s.store),
        EditorRuntimeRequest::OpenDocument { .. } => open_room(s.store),
        EditorRuntimeRequest::EditDocument { command } => edit_fits(s, command.document_session_id, command.edit@),
        EditorRuntimeRequest::UndoDocument { document_session_id, .. } => undo_fits(s, document_session_id),
        EditorRuntimeRequest::RedoDocument { document_session_id, .. } => redo_fits(s, document_session_id),
        _ => true,
    }
}

/// Serving a request never moves the identifier counters back: with
/// `EditorService::lemma_fresh_ids`, every document created or opened gets an
/// identifier that no document had before it, and likewise for sessions.
pub proof fn lemma_counters_never_decrease(
    before: EditorServiceView,
    after: EditorServiceView,
    request: EditorRuntimeRequest,
    reply: EditorRuntimeReply,
)
    requires
        request_fits(before, request),
        request_reply(before, after, request, reply),
    ensures
        after.store.next_id >= before.store.next_id,
        after.store.next_session_id >= before.store.next_session_id,
{
    match request {
        EditorRuntimeRequest::OpenDocument { path } => {
            if let EditorRuntimeReply::Snapshot(Ok(snapshot)) = reply {
                let text = choose|text: Seq<char>| {
                    &&& snapshot@ == snapshot_after_open(before.store, encode_utf8(text), Some(path@))
                    &&& after == (EditorServiceView {
                        store: store_after_open(before.store, encode_utf8(text), Some(path@)),
                        ..before
                    })
                };
                assert(after.store == store_after_open(before.store, encode_utf8(text), Some(path@)));
            }
        },
        _ => {},
    }
}

/// Whether the service's counters leave room for serving `request`: what
/// `request_fits` states.
pub fn request_has_room<F: FileSystem>(service: &EditorService<F>, request: &EditorRuntimeRequest) -> (b: bool)
    requires
        service.well_formed(),
    ensures
        b == request_fits(service@, *request),
{
    match request {
        EditorRuntimeRequest::CreateDocument { .. } => service.has_open_room(),
        EditorRuntimeRequest::OpenDocument { .. } => service.has_open_room(),
        EditorRuntimeRequest::EditDocument { command } => service.has_edit_room(command.document_session_id, &command.edit),
        EditorRuntimeRequest::UndoDocument { document_session_id, .. } => service.has_undo_room(*document_session_id),
        EditorRuntimeRequest::RedoDocument { document_session_id, .. } => service.has_redo_room(*document_session_id),
        _ => true,
    }
}

/// What serving `request` answers and leaves: the service's own answer, its errors
/// carried as service errors.
pub open spec fn request_reply(
    before: EditorServiceView,
    after: EditorServiceView,
    request: EditorRuntimeRequest,
    reply: EditorRuntimeReply,
) -> bool {
    match request {
        EditorRuntimeRequest::CreateDocument { text } => reply matches EditorRuntimeReply::Snapshot(Ok(snapshot))
            && create_reply(before, after, text@, snapshot@),
        EditorRuntimeRequest::OpenDocument { path } => reply matches EditorRuntimeReply::Snapshot(r) && r
            == from_service(service_side(r)) && open_reply(before, after, path@, service_side(r)),
        EditorRuntimeRequest::GetDocument { document_session_id } => reply matches EditorRuntimeReply::Snapshot(r) && r
            == from_service(service_side(r)) && get_reply(before, after, document_session_id, service_side(r)),
        EditorRuntimeRequest::EditDocument { command } => reply matches EditorRuntimeReply::Edit(r) && r
            == from_service(service_side(r)) && edit_reply(
            before,
            after,
            command.document_session_id,
            command.expected_revision,
            command.edit@,
            service_side(r),
        ),
        EditorRuntimeRequest::UndoDocument { document_session_id, expected_revision } => reply matches EditorRuntimeReply::Edit(r)
            && r == from_service(service_side(r)) && history_result(
            before,
            after,
            document_session_id,
            expected_revision,
            service_side(r),
            |d: DocumentView| undo_outcome(d),
        ),
        EditorRuntimeRequest::RedoDocument { document_session_id, expected_revision } => reply matches EditorRuntimeReply::Edit(r)
            && r == from_service(service_side(r)) && history_result(
            before,
            after,
            document_session_id,
            expected_revision,
            service_side(r),
            |d: DocumentView| redo_outcome(d),
        ),
        EditorRuntimeRequest::SaveDocument { command } => reply matches EditorRuntimeReply::Snapshot(r) && r
            == from_service(service_side(r)) && save_reply(
            before,
            after,
            command.document_session_id,
            command.expected_revision,
            opt_string_view(command.path),
            service_side(r),
        ),
        EditorRuntimeRequest::CloseDocument { document_session_id } => reply matches EditorRuntimeReply::Closed(r) && r
            == from_service(service_side(r)) && close_reply(before, after, document_session_id, service_side(r)),
    }
}

/// Serves one request on `service`: what the runtime does with each request it
/// receives, in the order they arrive.
pub fn handle_request<F: FileSystem>(service: &mut EditorService<F>, request: EditorRuntimeRequest) -> (reply:
    EditorRuntimeReply)
    requires
        old(service).well_formed(),
        request_fits(old(service)@, request),
    ensures
        final(service).well_formed(),
        request_reply(old(service)@, final(service)@, request, reply),
        request matches EditorRuntimeRequest::OpenDocument { path } ==> reply matches EditorRuntimeReply::Snapshot(r)
            && open_read(old(service)@, final(service)@, old(service).file_system(), path@, service_side(r)),
        request matches EditorRuntimeRequest::SaveDocument { command } ==> reply matches EditorRuntimeReply::Snapshot(r)
            && save_wrote(
            old(service)@,
            old(service).file_system(),
            command.document_session_id,
            command.expected_revision,
            opt_string_view(command.path),
            service_side(r),
        ),
{
    match request {
        EditorRuntimeRequest::CreateDocument { text } => EditorRuntimeReply::Snapshot(
            Ok(service.create_document(text.as_str())),
        ),
        EditorRuntimeRequest::OpenDocument { path } => EditorRuntimeReply::Snapshot(
            lift(service.open_document(path.as_str())),
        ),
        EditorRuntimeRequest::GetDocument { document_session_id } => EditorRuntimeReply::Snapshot(
            lift(service.get_document(document_session_id)),
        ),
        EditorRuntimeRequest::EditDocument { command } => EditorRuntimeReply::Edit(lift(service.edit_document(command))),
        EditorRuntimeRequest::UndoDocument { document_session_id, expected_revision } => EditorRuntimeReply::Edit(
            lift(service.undo_document(document_session_id, expected_revision)),
        ),
        EditorRuntimeRequest::RedoDocument { document_session_id, expected_revision } => EditorRuntimeReply::Edit(
            lift(service.redo_document(document_session_id, expected_revision)),
        ),
        EditorRuntimeRequest::SaveDocument { command } => EditorRuntimeReply::Snapshot(
            lift(service.save_document(command)),
        ),
        EditorRuntimeRequest::CloseDocument { document_session_id } => EditorRuntimeReply::Closed(
            lift(service.close_document(document_session_id)),
        ),
    }
}

} // verus!
