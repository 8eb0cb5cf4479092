use scribe::domain::document::{
    CursorMove, Document, DocumentError, DocumentId, Edit, LineIndex, NewlineMode, NewlinePolicy, PieceTable,
    Position, Selection, TextBuffer, TextOffset, TextRange, TextSnapshot,
};

fn range(start: usize, end: usize) -> TextRange {
    TextRange::new(TextOffset::new(start), TextOffset::new(end)).unwrap()
}

#[test]
fn undoing_a_transaction_restores_the_text_it_started_from() {
    let mut document = Document::open(DocumentId::new(1), "héllo wörld");
    document.begin_transaction();
    document.apply_edit(Edit::Replace { range: range(0, 6), text: "Ω".to_string() }).unwrap();
    document.apply_edit(Edit::Delete { range: range(2, 3) }).unwrap();
    document.apply_edit(Edit::Insert { offset: TextOffset::new(0), text: "\r\n".to_string() }).unwrap();
    document.commit_transaction();
    let edited = document.text();

    let undone = document.undo().unwrap().unwrap();
    assert_eq!(undone.len(), 3);
    assert_eq!(document.text(), "héllo wörld");

    let redone = document.redo().unwrap().unwrap();
    assert_eq!(redone.len(), 3);
    assert_eq!(document.text(), edited);
    assert_eq!(document.revision().value(), 9);
}

#[test]
fn the_inverse_of_each_change_undoes_it() {
    let mut document = Document::open(DocumentId::new(2), "a🙂b\nc");
    let change = document.apply_edit(Edit::Replace { range: range(1, 5), text: "xyz".to_string() }).unwrap();
    assert_eq!(document.text(), "axyzb\nc");
    assert_eq!(change.removed_text(), "🙂");
    assert_eq!(change.range_after(), range(1, 4));
    assert_eq!(change.inverse_edit(), &Edit::Replace { range: range(1, 4), text: "🙂".to_string() });
    assert_eq!(change.forward_edit(), Edit::Replace { range: range(1, 5), text: "xyz".to_string() });

    document.apply_edit(change.inverse_edit().clone()).unwrap();
    assert_eq!(document.text(), "a🙂b\nc");
}

#[test]
fn forward_edits_take_the_simplest_form() {
    let mut document = Document::open(DocumentId::new(3), "abc");
    let insert = document.apply_edit(Edit::Replace { range: range(1, 1), text: "+".to_string() }).unwrap();
    let delete = document.apply_edit(Edit::Replace { range: range(0, 1), text: String::new() }).unwrap();

    assert_eq!(insert.forward_edit(), Edit::Insert { offset: TextOffset::new(1), text: "+".to_string() });
    assert_eq!(delete.forward_edit(), Edit::Delete { range: range(0, 1) });
    assert_eq!(document.text(), "+bc");
}

#[test]
fn a_new_edit_clears_what_could_be_redone() {
    let mut document = Document::open(DocumentId::new(4), "x");
    document.apply_edit(Edit::Insert { offset: TextOffset::new(1), text: "y".to_string() }).unwrap();
    document.undo().unwrap();
    document.apply_edit(Edit::Insert { offset: TextOffset::new(0), text: "z".to_string() }).unwrap();

    assert!(document.redo().unwrap().is_none());
    assert_eq!(document.text(), "zx");
    assert!(document.undo().unwrap().is_some());
    assert_eq!(document.text(), "x");
    assert!(document.undo().unwrap().is_none());
}

#[test]
fn offsets_and_positions_convert_both_ways() {
    let document = Document::open(DocumentId::new(5), "ab\nçd\n\n🙂e");
    for offset in [0usize, 1, 2, 3, 5, 6, 7, 8, 12, 13] {
        let position = document.offset_to_position(TextOffset::new(offset)).unwrap();
        assert_eq!(document.position_to_offset(position).unwrap(), TextOffset::new(offset));
    }
    assert_eq!(document.offset_to_position(TextOffset::new(12)).unwrap(), Position::new(3, 1));
    assert_eq!(
        document.offset_to_position(TextOffset::new(4)).unwrap_err(),
        DocumentError::InvalidUtf8Boundary { offset: TextOffset::new(4) }
    );
    assert_eq!(
        document.offset_to_position(TextOffset::new(14)).unwrap_err(),
        DocumentError::RangeOutOfBounds { len: 13, start: TextOffset::new(14), end: TextOffset::new(14) }
    );
    assert_eq!(
        document.position_to_offset(Position::new(4, 0)).unwrap_err(),
        DocumentError::PositionOutOfBounds { line: 4, column: 0 }
    );
}

#[test]
fn there_is_one_more_line_than_line_feeds() {
    for (text, lines) in [("", 1usize), ("\n", 2), ("a\r\nb", 2), ("\n\n\n", 4), ("no feed", 1)] {
        assert_eq!(Document::open(DocumentId::new(6), text).line_count(), lines);
    }
}

#[test]
fn line_ends_exclude_the_line_feed() {
    let document = Document::open(DocumentId::new(7), "ab\n\ncd");
    assert_eq!(document.line_start_offset(1).unwrap(), TextOffset::new(3));
    assert_eq!(document.line_end_offset(0).unwrap(), TextOffset::new(2));
    assert_eq!(document.line_end_offset(1).unwrap(), TextOffset::new(3));
    assert_eq!(document.line_end_offset(2).unwrap(), TextOffset::new(6));
    assert_eq!(
        document.line_end_offset(3).unwrap_err(),
        DocumentError::PositionOutOfBounds { line: 3, column: 0 }
    );
    assert_eq!(
        document.line_start_offset(9).unwrap_err(),
        DocumentError::PositionOutOfBounds { line: 9, column: 0 }
    );
}

#[test]
fn cursor_moves_stop_at_the_edges_and_fall_back_on_short_lines() {
    let document = Document::open(DocumentId::new(8), "long line\nab\nxyz");
    let start = Selection::caret(TextOffset::new(0));
    let end = Selection::caret(TextOffset::new(16));

    assert_eq!(document.move_selection(start, CursorMove::Left).unwrap(), start);
    assert_eq!(document.move_selection(end, CursorMove::Right).unwrap(), end);
    assert_eq!(document.move_selection(start, CursorMove::Up).unwrap(), start);
    assert_eq!(
        document.move_selection(Selection::caret(TextOffset::new(7)), CursorMove::Down).unwrap(),
        Selection::caret(TextOffset::new(12))
    );
    assert_eq!(
        document.move_selection(Selection::caret(TextOffset::new(15)), CursorMove::Up).unwrap(),
        Selection::caret(TextOffset::new(12))
    );
    assert_eq!(
        document.move_selection(Selection::caret(TextOffset::new(16)), CursorMove::Up).unwrap(),
        Selection::caret(TextOffset::new(10))
    );
    assert_eq!(
        document.move_selection(Selection::caret(TextOffset::new(14)), CursorMove::Down).unwrap_err(),
        DocumentError::PositionOutOfBounds { line: 3, column: 0 }
    );
    assert_eq!(
        document.move_selection(Selection::caret(TextOffset::new(11)), CursorMove::LineStart).unwrap(),
        Selection::caret(TextOffset::new(10))
    );
    assert_eq!(
        document.move_selection(Selection::caret(TextOffset::new(3)), CursorMove::LineEnd).unwrap(),
        Selection::caret(TextOffset::new(9))
    );
}

#[test]
fn moving_right_steps_over_a_whole_character() {
    let document = Document::open(DocumentId::new(9), "é🙂");
    assert_eq!(
        document.move_selection(Selection::caret(TextOffset::new(0)), CursorMove::Right).unwrap(),
        Selection::caret(TextOffset::new(2))
    );
    assert_eq!(
        document.move_selection(Selection::caret(TextOffset::new(2)), CursorMove::Right).unwrap(),
        Selection::caret(TextOffset::new(6))
    );
    assert_eq!(
        document.move_selection(Selection::caret(TextOffset::new(6)), CursorMove::Left).unwrap(),
        Selection::caret(TextOffset::new(2))
    );
}

#[test]
fn selections_collapse_to_their_ends() {
    let selection = Selection::new(TextOffset::new(9), TextOffset::new(4));
    assert!(!selection.is_caret());
    assert_eq!(selection.collapse_to_start().unwrap(), Selection::caret(TextOffset::new(4)));
    assert_eq!(selection.collapse_to_end().unwrap(), Selection::caret(TextOffset::new(9)));
    assert_eq!(selection.anchor(), TextOffset::new(9));
    assert_eq!(selection.active(), TextOffset::new(4));
}

#[test]
fn newline_policy_is_detected_from_crlf_pairs() {
    assert_eq!(NewlinePolicy::detect("a\nb").preferred_mode(), NewlineMode::Lf);
    assert_eq!(NewlinePolicy::detect("a\rb\n").preferred_mode(), NewlineMode::Lf);
    assert_eq!(NewlinePolicy::detect("a\r\n").preferred_mode(), NewlineMode::Crlf);
    assert!(NewlinePolicy::detected(NewlineMode::Lf).preserve_existing());
}

#[test]
fn document_errors_have_messages() {
    assert_eq!(
        DocumentError::InvalidRange { start: TextOffset::new(5), end: TextOffset::new(4) }.message(),
        "invalid range: start offset 5 is greater than end offset 4"
    );
    assert_eq!(
        DocumentError::RangeOutOfBounds { len: 5, start: TextOffset::new(1), end: TextOffset::new(18) }.message(),
        "range 1..18 is out of bounds for document length 5"
    );
    assert_eq!(
        DocumentError::PositionOutOfBounds { line: 0, column: 10 }.message(),
        "position 0:10 is out of bounds"
    );
    assert_eq!(
        DocumentError::InvalidUtf8Boundary { offset: TextOffset::new(1234567890) }.message(),
        "offset 1234567890 is not on a UTF-8 character boundary"
    );
}

#[test]
fn piece_table_edits_slices_and_boundaries() {
    let mut table = PieceTable::new("ab🙂cd");
    table.insert(TextOffset::new(2), "XY").unwrap();
    table.delete(range(0, 1)).unwrap();
    table.replace(range(7, 8), "!").unwrap();

    assert_eq!(table.snapshot().as_str(), "bXY🙂!d");
    assert_eq!(table.len_bytes(), 9);
    assert_eq!(table.slice_string(range(1, 7)).unwrap(), "XY🙂");
    assert!(table.is_char_boundary(TextOffset::new(3)));
    assert!(!table.is_char_boundary(TextOffset::new(4)));
    assert!(!table.is_char_boundary(TextOffset::new(10)));
    assert_eq!(
        table.insert(TextOffset::new(5), "?").unwrap_err(),
        DocumentError::InvalidUtf8Boundary { offset: TextOffset::new(5) }
    );
    assert_eq!(
        table.slice_string(range(2, 12)).unwrap_err(),
        DocumentError::RangeOutOfBounds { len: 9, start: TextOffset::new(2), end: TextOffset::new(12) }
    );
}

#[test]
fn line_index_maps_lines_of_a_snapshot() {
    let snapshot = TextSnapshot::new("a\nX\nY\nd".to_string());
    let index = LineIndex::from_snapshot(&snapshot);
    assert_eq!(index.line_count(), 4);
    assert_eq!(index.line_start(2), Some(TextOffset::new(4)));
    assert_eq!(index.line_start(4), None);
    assert_eq!(index.offset_to_position(&snapshot, TextOffset::new(4)).unwrap(), Position::new(2, 0));
    assert_eq!(index.position_to_offset(&snapshot, Position::new(3, 1)).unwrap(), TextOffset::new(7));
}

#[test]
fn snapshots_slice_and_count_characters() {
    let snapshot = TextSnapshot::new("añb".to_string());
    assert_eq!(snapshot.len_bytes(), 4);
    assert!(!snapshot.is_empty());
    assert_eq!(snapshot.slice(range(1, 3)).unwrap(), "ñ");
    assert_eq!(
        snapshot.slice(range(2, 3)).unwrap_err(),
        DocumentError::InvalidUtf8Boundary { offset: TextOffset::new(2) }
    );
    assert_eq!(snapshot.char_column(TextOffset::new(0), TextOffset::new(4)).unwrap(), 3);
    assert!(TextSnapshot::new(String::new()).is_empty());
}

#[test]
fn positions_and_offsets_lead_back_to_each_other() {
    let document = Document::open(DocumentId::new(3), "añb\n\ncd🙂e\n");
    for offset in [0usize, 1, 3, 4, 5, 6, 7, 8, 12, 13, 14] {
        let position = document.offset_to_position(TextOffset::new(offset)).unwrap();
        assert_eq!(document.position_to_offset(position).unwrap(), TextOffset::new(offset));
    }
    for (line, column) in [(0usize, 0usize), (0, 3), (1, 0), (2, 2), (2, 4), (3, 0)] {
        let position = Position::new(line, column);
        let offset = document.position_to_offset(position).unwrap();
        assert_eq!(document.offset_to_position(offset).unwrap(), position);
    }
    assert_eq!(document.offset_to_position(TextOffset::new(2)).unwrap_err(), DocumentError::InvalidUtf8Boundary {
        offset: TextOffset::new(2)
    });
    assert!(document.position_to_offset(Position::new(0, 4)).is_err());
}

#[test]
fn edits_count_the_bytes_they_insert() {
    assert_eq!(Edit::Insert { offset: TextOffset::new(0), text: "é🙂".to_string() }.inserted_bytes(), 6);
    assert_eq!(Edit::Delete { range: range(0, 2) }.inserted_bytes(), 0);
    assert_eq!(Edit::Replace { range: range(0, 2), text: "abc".to_string() }.inserted_bytes(), 3);
}

#[test]
fn documents_have_room_for_ordinary_edits_and_history() {
    let mut document = Document::open(DocumentId::new(4), "hello");
    assert!(document.has_edit_room(&Edit::Insert { offset: TextOffset::new(5), text: "!".to_string() }));
    assert!(document.has_undo_room());
    assert!(document.has_redo_room());
    document.apply_edit(Edit::Insert { offset: TextOffset::new(5), text: "!".to_string() }).unwrap();
    assert!(document.has_undo_room());
    document.undo().unwrap();
    assert!(document.has_redo_room());
}

#[test]
fn line_index_positions_and_offsets_lead_back_to_each_other() {
    let snapshot = TextSnapshot::new("añb\n\ncd🙂e\n".to_string());
    let index = LineIndex::from_snapshot(&snapshot);
    for offset in [0usize, 1, 3, 4, 5, 6, 7, 8, 12, 13, 14] {
        let position = index.offset_to_position(&snapshot, TextOffset::new(offset)).unwrap();
        assert_eq!(index.position_to_offset(&snapshot, position).unwrap(), TextOffset::new(offset));
    }
    for (line, column) in [(0usize, 0usize), (0, 3), (2, 2), (2, 4), (3, 0)] {
        let position = Position::new(line, column);
        let offset = index.position_to_offset(&snapshot, position).unwrap();
        assert_eq!(index.offset_to_position(&snapshot, offset).unwrap(), position);
    }
}
