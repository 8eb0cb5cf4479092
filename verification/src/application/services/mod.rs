mod clock;
pub mod editor_service;
pub mod error;

pub use editor_service::{
    close_reply, create_reply, edit_fits, edit_reply, get_reply, open_reply, redo_fits, save_reply, undo_fits,
    build_viewport_snapshot, clamped_top_line, line_text, viewport_fits, viewport_of, viewport_reply, viewport_room,
    ensure_revision_matches, history_result, is_stale, lemma_edit_then_get, lemma_open_holds_text_read,
    lemma_save_stores_snapshot_text, open_read, save_wrote, save_path, save_target_of, saved, open_room, session_document, snapshot_after_open, stale_error,
    store_after_open, with_entry, EditorService, EditorServiceView,
};
pub use error::{service_error_message, EditorServiceError};
