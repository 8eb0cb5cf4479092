mod ids;
mod position;
mod error;
mod utf8_text;
mod text_snapshot;
mod text_buffer;
mod piece_table;
mod piece_tree;
mod line_index;
mod edit;
mod change_set;
mod history;
mod replay;
mod document;
mod cursor;
mod newline;
mod selection;

pub use error::{document_error_message, DocumentError};
pub use ids::{DocumentId, DocumentSessionId, RevisionId, ViewportSessionId};
pub use text_snapshot::TextSnapshot;
pub use piece_table::PieceTable;
pub use piece_tree::{newline_count, PieceTree};
pub use edit::{edit_result, inserted_len, Edit, EditView};
pub use newline::{contains_crlf, detected_policy, NewlineMode, NewlinePolicy};
pub use selection::Selection;
pub use replay::{
    change_of, edit_ordered, edits_ordered, lemma_edit_len, lemma_redo_repeats, lemma_replay_append,
    lemma_replay_facts, lemma_replay_step, lemma_replay_stopped, lemma_total_inserted_prefix,
    lemma_undo_restores, lemma_edit_valid, lemma_forward_repeats, lemma_inverse_restores,
    lemma_splice_boundaries, redo_edits, replay, replay_room, total_inserted, undo_edits, ReplayOutcome,
};
pub use cursor::{
    boundary_at_or_after, boundary_at_or_before, caret_at, move_defined, move_result, vertical_result, CursorMove,
    CursorMoveRules,
};
pub use document::{
    lemma_line_of_offset, lemma_line_unique, line_content_end, line_of_offset, next_line_start, position_offset, position_result,
    changes_match, edit_outcome, edit_room, opened_view, redo_outcome, redo_room, undo_outcome, undo_room,
    with_text, edits_applied, lemma_transaction_undo_redo, Document, DocumentView,
};
pub use change_set::{forward_of, ChangeSet, ChangeSetView};
pub use history::{
    begun, change_views, committed, empty_history, recorded, transaction_views, EditTransaction, UndoManager,
    UndoManagerView,
};
pub use line_index::{
    lemma_decode_last_newline, lemma_decode_no_newline, lemma_encode_len, lemma_newline_starts_after_feed, lemma_no_feed_in_line, lemma_line_starts_boundaries, lemma_line_starts_shape, lemma_newline_starts_bounds,
    lemma_newline_starts_concat, lemma_newline_starts_shift, line_holds, line_starts_of, column_byte_offset, newline_starts, offsets_view,
    strictly_increasing, LineIndex,
};
pub use text_buffer::{insert_error, range_error, splice, TextBuffer};
pub use position::{Position, TextOffset, TextRange};
pub use utf8_text::{
    at_char_boundary, bytes_at_char_boundary, bytes_of, is_continuation, lemma_boundary_after_newline,
    lemma_boundary_concat, lemma_boundary_iff, lemma_encode_concat, lemma_first_byte_leads,
    lemma_valid_subrange, push_bytes, string_of,
};
