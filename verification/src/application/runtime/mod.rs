pub mod editor_runtime;

pub use editor_runtime::{
    from_service, handle_request, lemma_counters_never_decrease, request_fits, request_has_room, request_reply, runtime_error_message, service_side,
    EditorRuntimeError, EditorRuntimeReply, EditorRuntimeRequest,
};
