use vstd::prelude::*;
use vstd::utf8::*;

use super::{
    at_char_boundary, change_of, change_views, edit_ordered, edit_result, edits_ordered, inserted_len,
    lemma_boundary_iff, lemma_replay_facts, lemma_replay_step, lemma_replay_stopped,
    lemma_total_inserted_prefix, line_starts_of, range_error, recorded, redo_edits, replay, replay_room,
    splice, undo_edits, ChangeSet, ChangeSetView, DocumentError, DocumentId, Edit, EditView, LineIndex, NewlinePolicy,
    PieceTable, RevisionId, TextBuffer, TextOffset, TextRange, TextSnapshot, UndoManager, UndoManagerView,
    contains_crlf, NewlineMode, begun, committed, detected_policy, empty_history, column_byte_offset, line_holds, Position,
    lemma_line_starts_shape, lemma_line_starts_boundaries, strictly_increasing, CursorMove,
    lemma_decode_no_newline, lemma_encode_len, lemma_decode_last_newline, lemma_newline_starts_after_feed,
    lemma_encode_concat, newline_starts, lemma_boundary_concat, total_inserted, forward_of, lemma_undo_restores,
    lemma_redo_repeats, lemma_no_feed_in_line, lemma_valid_subrange,
    CursorMoveRules, move_defined, move_result, Selection,
};

verus! {

/// What a document is: its identity, its revision, its UTF-8 text, its undo
/// history and its line ending policy.
pub struct DocumentView {
    pub id: u64,
    pub revision: u64,
    pub text: Seq<u8>,
    pub history: UndoManagerView,
    pub newline_policy: NewlinePolicy,
}

/// An open text document: a piece table with a line index kept in step, a revision
/// counter and an undo history.
#[derive(Debug, Clone, PartialEq, Eq)]
pub struct Document {
    id: DocumentId,
    revision: RevisionId,
    buffer: PieceTable,
    line_index: LineIndex,
    history: UndoManager,
    newline_policy: NewlinePolicy,
}

impl View for Document {
    type V = DocumentView;

    closed spec fn view(&self) -> DocumentView {
        DocumentView {
            id: self.id@,
            revision: self.revision@,
            text: self.buffer.text(),
            history: self.history@,
            newline_policy: self.newline_policy,
        }
    }
}

/// A document just opened with identifier `id` and text `text`: at the initial
/// revision, with no history, and the line ending policy detected from the text.
pub open spec fn opened_view(id: u64, text: Seq<u8>) -> DocumentView {
    DocumentView { id, revision: 0, text, history: empty_history(), newline_policy: detected_policy(text) }
}

/// Room within the machine's counters for applying `edit` to `d`.
pub open spec fn edit_room(d: DocumentView, edit: EditView) -> bool {
    &&& d.revision < u64::MAX
    &&& d.text.len() + inserted_len(edit) <= usize::MAX
}

/// What applying `edit` to `d` does: the document afterwards, and the change set
/// recorded, or the reason the edit is refused (which leaves `d` unchanged).
pub open spec fn edit_outcome(d: DocumentView, edit: EditView) -> (DocumentView, Result<ChangeSetView, DocumentError>) {
    match edit_result(d.text, edit) {
        Err(e) => (d, Err(e)),
        Ok(text) => {
            let c = change_of(d.text, d.revision, edit);
            (with_text(d, text, (d.revision + 1) as u64, recorded(d.history, c)), Ok(c))
        },
    }
}

/// Room within the machine's counters for undoing the latest transaction of `d`.
pub open spec fn undo_room(d: DocumentView) -> bool {
    d.history.undo.len() > 0 ==> replay_room(d.text, d.revision, undo_edits(d.history.undo.last()))
}

/// Room within the machine's counters for redoing the latest undone transaction of `d`.
pub open spec fn redo_room(d: DocumentView) -> bool {
    d.history.redo.len() > 0 ==> replay_room(d.text, d.revision, redo_edits(d.history.redo.last()))
}

/// What undo does to `d`: with nothing to undo, nothing. Otherwise the latest
/// transaction is taken off the undo stack and its inverse edits are replayed,
/// last change first; if they all apply, the transaction goes on the redo stack
/// and their change sets are the result; if one is refused, the edits before it
/// stay applied and its error is the result.
pub open spec fn undo_outcome(d: DocumentView) -> (DocumentView, Result<Option<Seq<ChangeSetView>>, DocumentError>) {
    let h = d.history;
    if h.undo.len() == 0 {
        (d, Ok(None))
    } else {
        let t = h.undo.last();
        let out = replay(d.text, d.revision, undo_edits(t));
        let popped = UndoManagerView { undo: h.undo.drop_last(), ..h };
        match out.error {
            Some(e) => (with_text(d, out.text, out.revision, popped), Err(e)),
            None => (
                with_text(d, out.text, out.revision, UndoManagerView { redo: h.redo.push(t), ..popped }),
                Ok(Some(out.changes)),
            ),
        }
    }
}

/// What redo does to `d`: as undo, with the redo stack, replaying the latest
/// undone transaction's changes in order and putting it back on the undo stack.
pub open spec fn redo_outcome(d: DocumentView) -> (DocumentView, Result<Option<Seq<ChangeSetView>>, DocumentError>) {
    let h = d.history;
    if h.redo.len() == 0 {
        (d, Ok(None))
    } else {
        let t = h.redo.last();
        let out = replay(d.text, d.revision, redo_edits(t));
        let popped = UndoManagerView { redo: h.redo.drop_last(), ..h };
        match out.error {
            Some(e) => (with_text(d, out.text, out.revision, popped), Err(e)),
            None => (
                with_text(d, out.text, out.revision, UndoManagerView { undo: h.undo.push(t), ..popped }),
                Ok(Some(out.changes)),
            ),
        }
    }
}

/// The change sets of a history operation's result match `expected`.
pub open spec fn changes_match(
    r: Result<Option<Vec<ChangeSet>>, DocumentError>,
    expected: Result<Option<Seq<ChangeSetView>>, DocumentError>,
) -> bool {
    match expected {
        Ok(None) => r == Ok::<Option<Vec<ChangeSet>>, DocumentError>(None),
        Ok(Some(cs)) => r matches Ok(Some(v)) && change_views(v@) == cs,
        Err(e) => r == Err::<Option<Vec<ChangeSet>>, DocumentError>(e),
    }
}

/// The view of a document after an edit that left its identity and policy alone.
pub open spec fn with_text(d: DocumentView, text: Seq<u8>, revision: u64, history: UndoManagerView) -> DocumentView {
    DocumentView { id: d.id, revision, text, history, newline_policy: d.newline_policy }
}

/// The offset where the line after `line` starts, or the end of the text for the
/// last line.
pub open spec fn next_line_start(text: Seq<u8>, line: int) -> int {
    if line + 1 < line_starts_of(text).len() {
        line_starts_of(text)[line + 1]
    } else {
        text.len() as int
    }
}

/// The line that holds `offset`.
pub open spec fn line_of_offset(text: Seq<u8>, offset: int) -> int {
    choose|line: int| line_holds(line_starts_of(text), offset, line)
}

/// The line and character column of `offset` in `text`: refused when the offset is
/// past the end or inside a character.
pub open spec fn position_result(text: Seq<u8>, offset: TextOffset) -> Result<Position, DocumentError> {
    if offset@ > text.len() {
        Err(DocumentError::RangeOutOfBounds { len: text.len() as usize, start: offset, end: offset })
    } else if !at_char_boundary(text, offset@ as int) {
        Err(DocumentError::InvalidUtf8Boundary { offset })
    } else {
        let line = line_of_offset(text, offset@ as int);
        let column = decode_utf8(text.subrange(line_starts_of(text)[line], offset@ as int)).len();
        Ok(Position::spec_new(line as usize, column as usize))
    }
}

/// The byte offset of `position` in `text`, if its line exists and has at least
/// `column` characters before its line feed.
pub open spec fn position_offset(text: Seq<u8>, position: Position) -> Option<int> {
    let line = position.line() as int;
    if line >= line_starts_of(text).len() {
        None
    } else {
        let start = line_starts_of(text)[line];
        match column_byte_offset(decode_utf8(text.subrange(start, next_line_start(text, line))), position.column() as int) {
            Some(k) => Some(start + k),
            None => None,
        }
    }
}

/// The offset where the content of `line` ends: before its line feed, if it has one.
pub open spec fn line_content_end(text: Seq<u8>, line: int) -> int {
    let start = line_starts_of(text)[line];
    let end = next_line_start(text, line);
    if end > start && text[end - 1] == 0x0a {
        end - 1
    } else {
        end
    }
}

proof fn lemma_line_exists(starts: Seq<int>, offset: int, k: int)
    requires
        strictly_increasing(starts),
        0 <= k < starts.len(),
        starts[k] <= offset,
    ensures
        exists|line: int| line_holds(starts, offset, line),
    decreases starts.len() - k,
{
    if k + 1 < starts.len() && starts[k + 1] <= offset {
        lemma_line_exists(starts, offset, k + 1);
    } else {
        assert(line_holds(starts, offset, k));
    }
}

/// Every offset within the text is held by a line, and a position found for an
/// offset names that line.
pub proof fn lemma_line_of_offset(text: Seq<u8>, offset: int)
    requires
        0 <= offset <= text.len(),
        text.len() <= usize::MAX,
        line_starts_of(text).len() <= usize::MAX,
    ensures
        line_holds(line_starts_of(text), offset, line_of_offset(text, offset)),
        0 <= line_of_offset(text, offset) < line_starts_of(text).len(),
        position_result(text, TextOffset::spec_new(offset as usize)) matches Ok(p) ==> p.line() == line_of_offset(
            text,
            offset,
        ),
{
    lemma_line_starts_shape(text);
    lemma_line_exists(line_starts_of(text), offset, 0);
    let line = line_of_offset(text, offset);
    let column = decode_utf8(text.subrange(line_starts_of(text)[line], offset)).len();
    Position::lemma_spec_new(line as usize, column as usize);
    TextOffset::lemma_spec_new(offset as usize);
}

/// Only one line holds a given offset.
pub proof fn lemma_line_unique(text: Seq<u8>, offset: int, a: int, b: int)
    requires
        line_holds(line_starts_of(text), offset, a),
        line_holds(line_starts_of(text), offset, b),
    ensures
        a == b,
{
    lemma_line_starts_shape(text);
    let s = line_starts_of(text);
    if a < b {
        assert(s[a + 1] <= s[b]);
    } else if b < a {
        assert(s[b + 1] <= s[a]);
    }
}

/// The position found for an offset leads back to that offset.
proof fn lemma_position_offset_of_result(text: Seq<u8>, offset: TextOffset)
    requires
        valid_utf8(text),
        text.len() <= usize::MAX,
        line_starts_of(text).len() <= usize::MAX,
        position_result(text, offset) is Ok,
    ensures
        position_offset(text, position_result(text, offset)->Ok_0) == Some(offset@ as int),
{
    let off = offset@ as int;
    lemma_line_of_offset(text, off);
    lemma_line_starts_shape(text);
    lemma_line_starts_boundaries(text);
    TextOffset::lemma_spec_new(offset@);
    let starts = line_starts_of(text);
    let line = line_of_offset(text, off);
    let s = starts[line];
    let e = next_line_start(text, line);
    let prefix = text.subrange(s, off);
    lemma_valid_subrange(text, s, off);
    let column = decode_utf8(prefix).len();
    decode_utf8_encode_utf8(prefix);
    lemma_encode_len(decode_utf8(prefix));
    let p = position_result(text, offset)->Ok_0;
    Position::lemma_spec_new(line as usize, column as usize);
    assert(p.line() == line && p.column() == column);
    let seg = text.subrange(s, e);
    lemma_valid_subrange(text, s, e);
    let k = off - s;
    assert(at_char_boundary(seg, k)) by {
        if 0 < k < seg.len() {
            assert(seg[k] == text[off]);
        }
    }
    lemma_boundary_iff(seg, k);
    decode_utf8_split(seg, k);
    assert(seg.subrange(0, k) =~= prefix);
    let chars = decode_utf8(seg);
    assert(chars.take(column as int) =~= decode_utf8(prefix));
    assert forall|i: int| 0 <= i < prefix.len() implies #[trigger] prefix[i] != 0x0a by {
        lemma_no_feed_in_line(text, line, s + i);
    }
    lemma_decode_no_newline(prefix);
    assert forall|j: int| 0 <= j < column implies #[trigger] chars[j] != '\n' by {
        assert(chars[j] == decode_utf8(prefix)[j]);
    }
}

/// The offset found for a position has that position.
proof fn lemma_position_result_of_offset(text: Seq<u8>, position: Position)
    requires
        valid_utf8(text),
        text.len() <= usize::MAX,
        line_starts_of(text).len() <= usize::MAX,
        position_offset(text, position) is Some,
    ensures
        position_result(
            text,
            TextOffset::spec_new(position_offset(text, position)->Some_0 as usize),
        ) == Ok::<Position, DocumentError>(position),
{
    lemma_line_starts_shape(text);
    lemma_line_starts_boundaries(text);
    lemma_newline_starts_after_feed(text, 0);
    let starts = line_starts_of(text);
    let line = position.line() as int;
    let c = position.column() as int;
    let s = starts[line];
    let e = next_line_start(text, line);
    let seg = text.subrange(s, e);
    lemma_valid_subrange(text, s, e);
    let chars = decode_utf8(seg);
    decode_utf8_encode_utf8(seg);
    let head = chars.take(c);
    let rest = chars.skip(c);
    assert(chars =~= head + rest);
    lemma_encode_concat(head, rest);
    encode_utf8_valid_utf8(head);
    encode_utf8_valid_utf8(rest);
    encode_utf8_decode_utf8(head);
    let m = encode_utf8(head).len() as int;
    let k = s + m;
    assert(k == position_offset(text, position)->Some_0);
    assert(seg.subrange(0, m) =~= encode_utf8(head));
    assert(text.subrange(s, k) =~= encode_utf8(head));
    lemma_boundary_concat(encode_utf8(head), encode_utf8(rest), m);
    assert(at_char_boundary(text, k)) by {
        if 0 < k < text.len() && 0 < m < seg.len() {
            assert(text[k] == seg[m]);
        }
    }
    assert(line_holds(starts, k, line)) by {
        if line + 1 < starts.len() && m == seg.len() {
            assert(s < e);
            assert(text[e - 1] == 0x0a) by {
                assert(starts[line + 1] == newline_starts(text, 0)[line]);
            }
            assert(seg.last() == 0x0a);
            lemma_decode_last_newline(seg);
            assert(decode_utf8(encode_utf8(head)) == decode_utf8(seg));
            assert(c == chars.len());
            assert(chars[c - 1] == '\n');
        }
    }
    TextOffset::lemma_spec_new(k as usize);
    lemma_line_of_offset(text, k);
    lemma_line_unique(text, k, line, line_of_offset(text, k));
    Position::lemma_spec_new(line as usize, c as usize);
    Position::lemma_fields_injective(position, Position::spec_new(line as usize, c as usize));
}

/// The document after `edits` are applied to `d` one after another, each as
/// `apply_edit` applies it.
pub open spec fn edits_applied(d: DocumentView, edits: Seq<EditView>) -> DocumentView
    decreases edits.len(),
{
    if edits.len() == 0 {
        d
    } else {
        edit_outcome(edits_applied(d, edits.drop_last()), edits.last()).0
    }
}

/// Edits applied inside an open transaction: the text and revision are those of
/// replaying them, and their change sets join the open transaction.
proof fn lemma_edits_applied(d: DocumentView, edits: Seq<EditView>)
    requires
        d.history.in_progress is Some,
        replay(d.text, d.revision, edits).error is None,
    ensures
        ({
            let out = replay(d.text, d.revision, edits);
            let e = edits_applied(d, edits);
            &&& e.text == out.text
            &&& e.revision == out.revision
            &&& e.id == d.id
            &&& e.newline_policy == d.newline_policy
            &&& e.history.undo == d.history.undo
            &&& e.history.in_progress == Some(d.history.in_progress->Some_0 + out.changes)
            &&& edits.len() > 0 ==> e.history.redo == Seq::<Seq<ChangeSetView>>::empty()
            &&& edits.len() == 0 ==> e.history.redo == d.history.redo
        }),
    decreases edits.len(),
{
    if edits.len() == 0 {
        assert(d.history.in_progress->Some_0 + Seq::<ChangeSetView>::empty() =~= d.history.in_progress->Some_0);
    } else {
        let init = edits.drop_last();
        let prev = replay(d.text, d.revision, init);
        assert(prev.error is None);
        lemma_edits_applied(d, init);
        let out = replay(d.text, d.revision, edits);
        assert(out.changes == prev.changes.push(change_of(prev.text, prev.revision, edits.last())));
        assert(d.history.in_progress->Some_0 + prev.changes.push(change_of(prev.text, prev.revision, edits.last()))
            =~= (d.history.in_progress->Some_0 + prev.changes).push(change_of(prev.text, prev.revision, edits.last())));
    }
}

/// Undo takes a document back to the text its last transaction started from, and
/// redo then gives the edited text again: for a document with no open transaction
/// that begins one, applies `edits` (each of which goes through) and commits it.
pub proof fn lemma_transaction_undo_redo(d0: DocumentView, edits: Seq<EditView>)
    requires
        valid_utf8(d0.text),
        d0.history.in_progress is None,
        edits.len() > 0,
        edits_ordered(edits),
        replay_room(d0.text, d0.revision, edits),
        replay(d0.text, d0.revision, edits).error is None,
    ensures
        ({
            let begun_doc = DocumentView { history: begun(d0.history), ..d0 };
            let edited = edits_applied(begun_doc, edits);
            let d1 = DocumentView { history: committed(edited.history), ..edited };
            let (d2, undone) = undo_outcome(d1);
            let (d3, redone) = redo_outcome(d2);
            &&& d1.text == replay(d0.text, d0.revision, edits).text
            &&& undone is Ok && undone->Ok_0 is Some
            &&& d2.text == d0.text
            &&& redone is Ok && redone->Ok_0 is Some
            &&& d3.text == d1.text
        }),
{
    let begun_doc = DocumentView { history: begun(d0.history), ..d0 };
    let done = replay(d0.text, d0.revision, edits);
    lemma_edits_applied(begun_doc, edits);
    lemma_replay_facts(d0.text, d0.revision, edits);
    let edited = edits_applied(begun_doc, edits);
    assert(Seq::<ChangeSetView>::empty() + done.changes =~= done.changes);
    let d1 = DocumentView { history: committed(edited.history), ..edited };
    assert(d1.history.undo == d0.history.undo.push(done.changes));
    assert(d1.history.undo.last() == done.changes);
    lemma_undo_restores(d0.text, d0.revision, edits, d1.revision);
    let d2 = undo_outcome(d1).0;
    assert(d2.history.redo.last() == done.changes);
    lemma_redo_repeats(d0.text, d0.revision, edits, d2.revision);
}

impl LineIndex {
    /// For an index of a valid text, `offset_to_position` and `position_to_offset`
    /// undo each other: the offset of the position of an offset is that offset, and
    /// the position of the offset of a position is that position.
    pub proof fn lemma_roundtrip(self, text: Seq<u8>, offset: TextOffset, position: Position)
        requires
            self.sorted_from_zero(),
            self.describes(text),
            valid_utf8(text),
            text.len() <= usize::MAX,
        ensures
            position_result(text, offset) is Ok ==> position_offset(text, position_result(text, offset)->Ok_0)
                == Some(offset@ as int),
            position_offset(text, position) is Some ==> position_result(
                text,
                TextOffset::spec_new(position_offset(text, position)->Some_0 as usize),
            ) == Ok::<Position, DocumentError>(position),
    {
        if position_result(text, offset) is Ok {
            lemma_position_offset_of_result(text, offset);
        }
        if position_offset(text, position) is Some {
            lemma_position_result_of_offset(text, position);
        }
    }

    /// For an index of `snapshot`, as `from_snapshot` builds it, `offset_to_position`
    /// and `position_to_offset` on that snapshot undo each other.
    pub proof fn lemma_snapshot_roundtrip(self, snapshot: TextSnapshot, offset: TextOffset, position: Position)
        requires
            self.sorted_from_zero(),
            self.describes(snapshot.bytes()),
            snapshot.bytes().len() <= usize::MAX,
        ensures
            position_result(snapshot.bytes(), offset) is Ok ==> position_offset(
                snapshot.bytes(),
                position_result(snapshot.bytes(), offset)->Ok_0,
            ) == Some(offset@ as int),
            position_offset(snapshot.bytes(), position) is Some ==> position_result(
                snapshot.bytes(),
                TextOffset::spec_new(position_offset(snapshot.bytes(), position)->Some_0 as usize),
            ) == Ok::<Position, DocumentError>(position),
    {
        encode_utf8_valid_utf8(snapshot@);
        self.lemma_roundtrip(snapshot.bytes(), offset, position);
    }
}

impl Document {
    /// The buffer is sound and the line index describes its text.
    pub closed spec fn well_formed(&self) -> bool {
        &&& self.buffer.well_formed()
        &&& self.line_index.describes(self.buffer.text())
        &&& line_starts_of(self.buffer.text()).len() <= usize::MAX
    }

    /// A well-formed document holds valid UTF-8 whose length fits in `usize`.
    pub proof fn lemma_well_formed(&self)
        requires
            self.well_formed(),
        ensures
            valid_utf8(self@.text),
            self@.text.len() <= usize::MAX,
            line_starts_of(self@.text).len() <= usize::MAX,
    {
        self.buffer.lemma_well_formed();
    }

    /// Asking for the offset of the position of an offset gives back the offset:
    /// `position_to_offset` undoes `offset_to_position`.
    pub proof fn lemma_offset_position_roundtrip(&self, offset: TextOffset)
        requires
            self.well_formed(),
            position_result(self@.text, offset) is Ok,
        ensures
            position_offset(self@.text, position_result(self@.text, offset)->Ok_0) == Some(offset@ as int),
    {
        self.lemma_well_formed();
        lemma_position_offset_of_result(self@.text, offset);
    }

    /// Asking for the position of the offset of a position gives back the position:
    /// `offset_to_position` undoes `position_to_offset`.
    pub proof fn lemma_position_offset_roundtrip(&self, position: Position)
        requires
            self.well_formed(),
            position_offset(self@.text, position) is Some,
        ensures
            position_result(
                self@.text,
                TextOffset::spec_new(position_offset(self@.text, position)->Some_0 as usize),
            ) == Ok::<Position, DocumentError>(position),
    {
        self.lemma_well_formed();
        lemma_position_result_of_offset(self@.text, position);
    }

    /// For this document, with no transaction open: beginning one, applying `edits`
    /// (each of which goes through) and committing it, then undoing gives back this
    /// document's text, and redoing gives the edited text again.
    pub proof fn lemma_transaction_round_trip(&self, edits: Seq<EditView>)
        requires
            self.well_formed(),
            self@.history.in_progress is None,
            edits.len() > 0,
            edits_ordered(edits),
            replay_room(self@.text, self@.revision, edits),
            replay(self@.text, self@.revision, edits).error is None,
        ensures
            ({
                let d0 = self@;
                let begun_doc = DocumentView { history: begun(d0.history), ..d0 };
                let edited = edits_applied(begun_doc, edits);
                let d1 = DocumentView { history: committed(edited.history), ..edited };
                let (d2, undone) = undo_outcome(d1);
                let (d3, redone) = redo_outcome(d2);
                &&& d1.text == replay(d0.text, d0.revision, edits).text
                &&& undone is Ok && undone->Ok_0 is Some
                &&& d2.text == d0.text
                &&& redone is Ok && redone->Ok_0 is Some
                &&& d3.text == d1.text
            }),
    {
        self.lemma_well_formed();
        lemma_transaction_undo_redo(self@, edits);
    }

    /// A document with identifier `id` holding `text`, at the initial revision, with
    /// no history and the line ending policy detected from the text.
    pub fn open(id: DocumentId, text: &str) -> (d: Self)
        ensures
            d.well_formed(),
            d@ == opened_view(id@, encode_utf8(text@)),
    {
        let newline_policy = NewlinePolicy::detect(text);
        let buffer = PieceTable::new(text);
        let line_index = LineIndex::from_snapshot(&buffer.snapshot());
        proof {
            use_type_invariant(&line_index);
        }
        Self {
            id,
            revision: RevisionId::initial(),
            buffer,
            line_index,
            history: UndoManager::default(),
            newline_policy,
        }
    }

    pub fn id(&self) -> (id: DocumentId)
        ensures
            id@ == self@.id,
    {
        self.id
    }

    pub fn revision(&self) -> (r: RevisionId)
        ensures
            r@ == self@.revision,
    {
        self.revision
    }

    /// The document's text.
    pub fn text(&self) -> (s: String)
        requires
            self.well_formed(),
        ensures
            encode_utf8(s@) == self@.text,
    {
        let snapshot = self.buffer.snapshot();
        snapshot.as_str().to_owned()
    }

    pub fn snapshot(&self) -> (s: TextSnapshot)
        requires
            self.well_formed(),
        ensures
            s.bytes() == self@.text,
    {
        self.buffer.snapshot()
    }

    pub fn newline_policy(&self) -> (p: NewlinePolicy)
        ensures
            p == self@.newline_policy,
    {
        self.newline_policy
    }

    pub fn len_bytes(&self) -> (n: usize)
        requires
            self.well_formed(),
        ensures
            n == self@.text.len(),
    {
        self.buffer.len_bytes()
    }

    pub fn is_empty(&self) -> (b: bool)
        requires
            self.well_formed(),
        ensures
            b == (self@.text.len() == 0),
    {
        self.buffer.len_bytes() == 0
    }

    /// The number of lines: one more than the number of line feeds.
    pub fn line_count(&self) -> (n: usize)
        requires
            self.well_formed(),
        ensures
            n == line_starts_of(self@.text).len(),
    {
        self.line_index.line_count()
    }

    pub fn begin_transaction(&mut self)
        ensures
            final(self).well_formed() == old(self).well_formed(),
            final(self)@ == (DocumentView { history: begun(old(self)@.history), ..old(self)@ }),
    {
        self.history.begin_transaction();
    }

    pub fn commit_transaction(&mut self)
        ensures
            final(self).well_formed() == old(self).well_formed(),
            final(self)@ == (DocumentView { history: committed(old(self)@.history), ..old(self)@ }),
    {
        self.history.commit_transaction();
    }

    /// Applies `edit` and records it in the history; a refused edit changes nothing.
    pub fn apply_edit(&mut self, edit: Edit) -> (r: Result<ChangeSet, DocumentError>)
        requires
            old(self).well_formed(),
            edit_room(old(self)@, edit@),
        ensures
            final(self).well_formed(),
            final(self)@ == edit_outcome(old(self)@, edit@).0,
            match edit_outcome(old(self)@, edit@).1 {
                Ok(c) => r matches Ok(x) && x@ == c,
                Err(e) => r == Err::<ChangeSet, DocumentError>(e),
            },
    {
        self.apply_edit_internal(edit, true)
    }

    /// Undoes the most recent undoable transaction: its changes' inverse edits are
    /// applied, last change first, and the transaction becomes redoable. With nothing
    /// to undo, nothing happens. If an inverse edit is refused, the edits before it
    /// stay applied, the transaction is dropped, and the error is returned.
    pub fn undo(&mut self) -> (r: Result<Option<Vec<ChangeSet>>, DocumentError>)
        requires
            old(self).well_formed(),
            undo_room(old(self)@),
        ensures
            final(self).well_formed(),
            final(self)@ == undo_outcome(old(self)@).0,
            changes_match(r, undo_outcome(old(self)@).1),
    {
        let transaction = match self.history.pop_undo() {
            Some(t) => t,
            None => {
                return Ok(None);
            },
        };
        let ghost start = *old(self);
        let ghost edits = undo_edits(transaction@);
        let ghost popped = self@.history;
        let changes = transaction.changes();
        let n = changes.len();
        let mut applied: Vec<ChangeSet> = Vec::new();
        let mut i: usize = n;
        proof {
            assert(edits.take(0) =~= Seq::<EditView>::empty());
            lemma_total_inserted_prefix(edits, 0);
            start.lemma_well_formed();
        }
        while i > 0
            invariant
                0 <= i <= n,
                n == edits.len(),
                change_views(changes@) == transaction@,
                edits == undo_edits(transaction@),
                start@.history.undo.len() > 0,
                start == *old(self),
                popped == (UndoManagerView { undo: start@.history.undo.drop_last(), ..start@.history }),
                transaction@ == start@.history.undo.last(),
                self.well_formed(),
                self@.id == start@.id,
                self@.newline_policy == start@.newline_policy,
                self@.history == popped,
                replay_room(start@.text, start@.revision, edits),
                valid_utf8(start@.text),
                edits_ordered(edits.take((n - i) as int)),
                ({
                    let out = replay(start@.text, start@.revision, edits.take((n - i) as int));
                    &&& out.error is None
                    &&& out.text == self@.text
                    &&& out.revision == self@.revision
                    &&& out.changes == change_views(applied@)
                }),
            decreases i,
        {
            let k: usize = n - i;
            i = i - 1;
            let edit = changes[i].inverse_edit().clone();
            proof {
                assert(edit@ == edits[k as int]);
                lemma_replay_facts(start@.text, start@.revision, edits.take(k as int));
                lemma_total_inserted_prefix(edits, k as int);
                lemma_total_inserted_prefix(edits, k + 1);
                lemma_replay_step(start@.text, start@.revision, edits, k as int);
            }
            match self.apply_edit_internal(edit, false) {
                Ok(c) => {
                    let ghost prev = applied@;
                    applied.push(c);
                    proof {
                        assert(change_views(applied@) =~= change_views(prev).push(c@));
                        lemma_ordered_extend(edits, k as int);
                    }
                },
                Err(e) => {
                    proof {
                        lemma_replay_stopped(start@.text, start@.revision, edits, (k + 1) as int);
                    }
                    return Err(e);
                },
            }
        }
        proof {
            assert(edits.take(n as int) =~= edits);
        }
        self.history.push_redo(transaction);
        Ok(Some(applied))
    }

    /// Redoes the most recent redoable transaction: its changes are applied again,
    /// in order, and the transaction becomes undoable. With nothing to redo, nothing
    /// happens. If an edit is refused, the edits before it stay applied, the
    /// transaction is dropped, and the error is returned.
    pub fn redo(&mut self) -> (r: Result<Option<Vec<ChangeSet>>, DocumentError>)
        requires
            old(self).well_formed(),
            redo_room(old(self)@),
        ensures
            final(self).well_formed(),
            final(self)@ == redo_outcome(old(self)@).0,
            changes_match(r, redo_outcome(old(self)@).1),
    {
        let transaction = match self.history.pop_redo() {
            Some(t) => t,
            None => {
                return Ok(None);
            },
        };
        let ghost start = *old(self);
        let ghost edits = redo_edits(transaction@);
        let ghost popped = self@.history;
        let changes = transaction.changes();
        let n = changes.len();
        let mut applied: Vec<ChangeSet> = Vec::new();
        let mut i: usize = 0;
        proof {
            assert(edits.take(0) =~= Seq::<EditView>::empty());
            lemma_total_inserted_prefix(edits, 0);
            start.lemma_well_formed();
        }
        while i < n
            invariant
                0 <= i <= n,
                n == edits.len(),
                change_views(changes@) == transaction@,
                edits == redo_edits(transaction@),
                start@.history.redo.len() > 0,
                start == *old(self),
                popped == (UndoManagerView { redo: start@.history.redo.drop_last(), ..start@.history }),
                transaction@ == start@.history.redo.last(),
                self.well_formed(),
                self@.id == start@.id,
                self@.newline_policy == start@.newline_policy,
                self@.history == popped,
                replay_room(start@.text, start@.revision, edits),
                valid_utf8(start@.text),
                edits_ordered(edits.take(i as int)),
                ({
                    let out = replay(start@.text, start@.revision, edits.take(i as int));
                    &&& out.error is None
                    &&& out.text == self@.text
                    &&& out.revision == self@.revision
                    &&& out.changes == change_views(applied@)
                }),
            decreases n - i,
        {
            let edit = changes[i].forward_edit();
            proof {
                assert(edit@ == edits[i as int]);
                lemma_replay_facts(start@.text, start@.revision, edits.take(i as int));
                lemma_total_inserted_prefix(edits, i as int);
                lemma_total_inserted_prefix(edits, i + 1);
                lemma_replay_step(start@.text, start@.revision, edits, i as int);
            }
            match self.apply_edit_internal(edit, false) {
                Ok(c) => {
                    let ghost prev = applied@;
                    applied.push(c);
                    proof {
                        assert(change_views(applied@) =~= change_views(prev).push(c@));
                        lemma_ordered_extend(edits, i as int);
                    }
                },
                Err(e) => {
                    proof {
                        lemma_replay_stopped(start@.text, start@.revision, edits, (i + 1) as int);
                    }
                    return Err(e);
                },
            }
            i = i + 1;
        }
        proof {
            assert(edits.take(n as int) =~= edits);
        }
        self.history.push_undo(transaction);
        Ok(Some(applied))
    }

    /// Whether the counters leave room to apply `edit`: what `edit_room` states.
    pub fn has_edit_room(&self, edit: &Edit) -> (b: bool)
        requires
            self.well_formed(),
        ensures
            b == edit_room(self@, edit@),
    {
        let len = self.len_bytes();
        let inserted = edit.inserted_bytes();
        self.revision.value() < u64::MAX && inserted <= usize::MAX - len
    }

    /// Whether the counters leave room to undo the latest transaction: what
    /// `undo_room` states.
    pub fn has_undo_room(&self) -> (b: bool)
        requires
            self.well_formed(),
        ensures
            b == undo_room(self@),
    {
        match self.history.last_undo() {
            None => true,
            Some(t) => {
                let changes = t.changes();
                let ghost edits = undo_edits(t@);
                let n = changes.len();
                let rev = self.revision.value();
                if n as u64 > u64::MAX - rev {
                    return false;
                }
                let len = self.len_bytes();
                let mut total: usize = 0;
                let mut i: usize = 0;
                proof {
                    assert(edits.take(0) =~= Seq::<EditView>::empty());
                }
                while i < n
                    invariant
                        i <= n,
                        n == changes@.len(),
                        change_views(changes@) == t@,
                        edits == undo_edits(t@),
                        self@.history.undo.len() > 0,
                        t@ == self@.history.undo.last(),
                        len == self@.text.len(),
                        rev == self@.revision,
                        rev + n <= u64::MAX,
                        total == total_inserted(edits.take(i as int)),
                        len + total <= usize::MAX,
                    decreases n - i,
                {
                    let k = changes[n - 1 - i].inverse_edit().inserted_bytes();
                    proof {
                        assert(k == inserted_len(edits[i as int]));
                        lemma_total_inserted_prefix(edits, i as int);
                        lemma_total_inserted_prefix(edits, i + 1);
                    }
                    if k > usize::MAX - len - total {
                        return false;
                    }
                    total = total + k;
                    i = i + 1;
                }
                proof {
                    assert(edits.take(n as int) =~= edits);
                }
                true
            },
        }
    }

    /// Whether the counters leave room to redo the latest undone transaction: what
    /// `redo_room` states.
    pub fn has_redo_room(&self) -> (b: bool)
        requires
            self.well_formed(),
        ensures
            b == redo_room(self@),
    {
        match self.history.last_redo() {
            None => true,
            Some(t) => {
                let changes = t.changes();
                let ghost edits = redo_edits(t@);
                let n = changes.len();
                let rev = self.revision.value();
                if n as u64 > u64::MAX - rev {
                    return false;
                }
                let len = self.len_bytes();
                let mut total: usize = 0;
                let mut i: usize = 0;
                proof {
                    assert(edits.take(0) =~= Seq::<EditView>::empty());
                }
                while i < n
                    invariant
                        i <= n,
                        n == changes@.len(),
                        change_views(changes@) == t@,
                        edits == redo_edits(t@),
                        self@.history.redo.len() > 0,
                        t@ == self@.history.redo.last(),
                        len == self@.text.len(),
                        rev == self@.revision,
                        rev + n <= u64::MAX,
                        total == total_inserted(edits.take(i as int)),
                        len + total <= usize::MAX,
                    decreases n - i,
                {
                    let k = changes[i].forward_edit().inserted_bytes();
                    proof {
                        assert(k == inserted_len(edits[i as int]));
                        lemma_total_inserted_prefix(edits, i as int);
                        lemma_total_inserted_prefix(edits, i + 1);
                    }
                    if k > usize::MAX - len - total {
                        return false;
                    }
                    total = total + k;
                    i = i + 1;
                }
                proof {
                    assert(edits.take(n as int) =~= edits);
                }
                true
            },
        }
    }

    /// The line and character column of `offset`.
    pub fn offset_to_position(&self, offset: TextOffset) -> (r: Result<Position, DocumentError>)
        requires
            self.well_formed(),
        ensures
            r == position_result(self@.text, offset),
    {
        let snapshot = self.buffer.snapshot();
        let r = self.line_index.offset_to_position(&snapshot, offset);
        proof {
            let text = self@.text;
            self.lemma_well_formed();
            lemma_line_starts_boundaries(text);
            if offset@ <= text.len() && at_char_boundary(text, offset@ as int) {
                let starts = line_starts_of(text);
                let line = choose|line: int| #[trigger] line_holds(starts, offset@ as int, line) && (if at_char_boundary(text, starts[line]) {
                    r matches Ok(p) && p.line() == line && p.column() == decode_utf8(text.subrange(starts[line], offset@ as int)).len()
                } else {
                    r == Err::<Position, DocumentError>(DocumentError::InvalidUtf8Boundary {
                        offset: TextOffset::spec_new(starts[line] as usize),
                    })
                });
                assert(at_char_boundary(text, starts[line]));
                lemma_line_unique(text, offset@ as int, line, line_of_offset(text, offset@ as int));
                let p = r->Ok_0;
                let column = decode_utf8(text.subrange(starts[line], offset@ as int)).len();
                Position::lemma_spec_new(line as usize, column as usize);
                Position::lemma_fields_injective(p, Position::spec_new(line as usize, column as usize));
            }
        }
        r
    }

    /// The byte offset of `position`: refused when its line does not exist or has
    /// fewer characters than its column before the line feed.
    pub fn position_to_offset(&self, position: Position) -> (r: Result<TextOffset, DocumentError>)
        requires
            self.well_formed(),
        ensures
            match position_offset(self@.text, position) {
                Some(o) => r matches Ok(offset) && offset@ == o,
                None => r == Err::<TextOffset, DocumentError>(
                    DocumentError::PositionOutOfBounds { line: position.line(), column: position.column() },
                ),
            },
    {
        let snapshot = self.buffer.snapshot();
        proof {
            let text = self@.text;
            self.lemma_well_formed();
            lemma_line_starts_shape(text);
            lemma_line_starts_boundaries(text);
            let starts = line_starts_of(text);
            let line = position.line() as int;
            if line < starts.len() {
                let ls = starts[line];
                let le = next_line_start(text, line);
                TextOffset::lemma_spec_new(ls as usize);
                TextOffset::lemma_spec_new(le as usize);
                if line + 1 < starts.len() {
                    assert(ls < le);
                }
            }
        }
        self.line_index.position_to_offset(&snapshot, position)
    }

    /// The offset where line `line` starts.
    pub fn line_start_offset(&self, line: usize) -> (r: Result<TextOffset, DocumentError>)
        requires
            self.well_formed(),
        ensures
            line < line_starts_of(self@.text).len() ==> (r matches Ok(o) && o@ == line_starts_of(self@.text)[line as int]),
            line >= line_starts_of(self@.text).len() ==> r == Err::<TextOffset, DocumentError>(
                DocumentError::PositionOutOfBounds { line, column: 0 },
            ),
    {
        match self.line_index.line_start(line) {
            Some(o) => Ok(o),
            None => Err(DocumentError::PositionOutOfBounds { line, column: 0 }),
        }
    }

    /// The offset where the content of line `line` ends, before its line feed.
    pub fn line_end_offset(&self, line: usize) -> (r: Result<TextOffset, DocumentError>)
        requires
            self.well_formed(),
        ensures
            line < line_starts_of(self@.text).len() ==> (r matches Ok(o) && o@ == line_content_end(self@.text, line as int)),
            line >= line_starts_of(self@.text).len() ==> r == Err::<TextOffset, DocumentError>(
                DocumentError::PositionOutOfBounds { line, column: 0 },
            ),
    {
        let start = match self.line_start_offset(line) {
            Ok(o) => o,
            Err(e) => {
                return Err(e);
            },
        };
        let ghost text = self@.text;
        proof {
            self.lemma_well_formed();
            lemma_line_starts_shape(text);
            lemma_line_starts_boundaries(text);
            use_type_invariant(&self.line_index);
        }
        let next_start = match self.line_index.line_start(line + 1) {
            Some(o) => o,
            None => TextOffset::new(self.len_bytes()),
        };
        proof {
            if line + 1 < line_starts_of(text).len() {
                assert(line_starts_of(text)[line as int] < line_starts_of(text)[line + 1]);
            }
        }
        let snapshot = self.buffer.snapshot();
        let range = match TextRange::new(start, next_start) {
            Ok(range) => range,
            Err(e) => {
                return Err(e);
            },
        };
        let line_text = match snapshot.slice(range) {
            Ok(s) => s,
            Err(e) => {
                return Err(e);
            },
        };
        let bytes = line_text.as_bytes();
        let n = bytes.len();
        let line_end = if n > 0 && bytes[n - 1] == 10 {
            n - 1
        } else {
            n
        };
        proof {
            assert(bytes@ == text.subrange(start@ as int, next_start@ as int));
            if n > 0 {
                assert(bytes@[n - 1] == text[next_start@ - 1]);
            }
        }
        Ok(TextOffset::new(start.value() + line_end))
    }

    /// Moves `selection` by `movement` under the cursor rules.
    pub fn move_selection(&self, selection: Selection, movement: CursorMove) -> (r: Result<Selection, DocumentError>)
        requires
            self.well_formed(),
            move_defined(self@.text, selection, movement),
        ensures
            r == move_result(self@.text, selection, movement),
    {
        CursorMoveRules::move_selection(self, selection, movement)
    }

    fn apply_edit_internal(&mut self, edit: Edit, record_history: bool) -> (r: Result<ChangeSet, DocumentError>)
        requires
            old(self).well_formed(),
            old(self)@.revision < u64::MAX,
            old(self)@.text.len() + inserted_len(edit@) <= usize::MAX,
        ensures
            final(self).well_formed(),
            edit_ordered(edit@),
            match edit_result(old(self)@.text, edit@) {
                Err(e) => r == Err::<ChangeSet, DocumentError>(e) && final(self)@ == old(self)@,
                Ok(text) => r matches Ok(c) && c@ == change_of(old(self)@.text, old(self)@.revision, edit@)
                    && final(self)@ == with_text(
                    old(self)@,
                    text,
                    (old(self)@.revision + 1) as u64,
                    if record_history {
                        recorded(old(self)@.history, c@)
                    } else {
                        old(self)@.history
                    },
                ),
            },
    {
        match edit {
            Edit::Insert { offset, text } => self.insert(offset, text, record_history),
            Edit::Delete { range } => {
                proof {
                    use_type_invariant(range);
                }
                self.delete(range, record_history)
            },
            Edit::Replace { range, text } => {
                proof {
                    use_type_invariant(range);
                }
                self.replace(range, text, record_history)
            },
        }
    }

    fn insert(&mut self, offset: TextOffset, text: String, record_history: bool) -> (r: Result<ChangeSet, DocumentError>)
        requires
            old(self).well_formed(),
            old(self)@.revision < u64::MAX,
            old(self)@.text.len() + encode_utf8(text@).len() <= usize::MAX,
        ensures
            final(self).well_formed(),
            match edit_result(old(self)@.text, EditView::Insert { offset, text: text@ }) {
                Err(e) => r == Err::<ChangeSet, DocumentError>(e) && final(self)@ == old(self)@,
                Ok(t) => r matches Ok(c) && c@ == change_of(
                    old(self)@.text,
                    old(self)@.revision,
                    EditView::Insert { offset, text: text@ },
                ) && final(self)@ == with_text(
                    old(self)@,
                    t,
                    (old(self)@.revision + 1) as u64,
                    if record_history {
                        recorded(old(self)@.history, c@)
                    } else {
                        old(self)@.history
                    },
                ),
            },
    {
        match self.validate_offset(offset) {
            Ok(()) => {},
            Err(e) => {
                return Err(e);
            },
        }
        let ghost before = self.buffer.text();
        let revision_before = self.revision;
        let range_before = TextRange::empty_at(offset);
        match self.buffer.insert(offset, text.as_str()) {
            Ok(()) => {},
            Err(e) => {
                return Err(e);
            },
        }
        self.line_index.apply_change(offset, 0, text.as_str(), Ghost(before));
        proof {
            use_type_invariant(&self.line_index);
        }
        self.revision = self.revision.next();
        let end = offset.checked_add(text.as_str().len());
        let range_after = match TextRange::new(offset, end) {
            Ok(range) => range,
            Err(e) => {
                return Err(e);
            },
        };
        let inverse_edit = Edit::Delete { range: range_after };
        let change_set = ChangeSet::new(
            revision_before,
            self.revision,
            range_before,
            range_after,
            text,
            String::new(),
            inverse_edit,
        );
        proof {
            assert(offset@ + 0 == offset@ as int);
            TextOffset::lemma_spec_new(end@);
            TextOffset::lemma_view_injective(end, TextOffset::spec_new(end@));
        }
        if record_history {
            self.history.record(change_set.clone());
        }
        Ok(change_set)
    }

    fn delete(&mut self, range: TextRange, record_history: bool) -> (r: Result<ChangeSet, DocumentError>)
        requires
            old(self).well_formed(),
            old(self)@.revision < u64::MAX,
            range.start()@ <= range.end()@,
        ensures
            final(self).well_formed(),
            match edit_result(old(self)@.text, EditView::Delete { range }) {
                Err(e) => r == Err::<ChangeSet, DocumentError>(e) && final(self)@ == old(self)@,
                Ok(t) => r matches Ok(c) && c@ == change_of(
                    old(self)@.text,
                    old(self)@.revision,
                    EditView::Delete { range },
                ) && final(self)@ == with_text(
                    old(self)@,
                    t,
                    (old(self)@.revision + 1) as u64,
                    if record_history {
                        recorded(old(self)@.history, c@)
                    } else {
                        old(self)@.history
                    },
                ),
            },
    {
        match self.validate_range(range) {
            Ok(()) => {},
            Err(e) => {
                return Err(e);
            },
        }
        let ghost before = self.buffer.text();
        proof {
            self.buffer.lemma_well_formed();
        }
        let revision_before = self.revision;
        let snapshot = self.buffer.snapshot();
        let removed_text = match snapshot.slice(range) {
            Ok(s) => s.to_owned(),
            Err(e) => {
                return Err(e);
            },
        };
        proof {
            encode_utf8_decode_utf8(removed_text@);
        }
        match self.buffer.delete(range) {
            Ok(()) => {},
            Err(e) => {
                return Err(e);
            },
        }
        let nothing = String::new();
        proof {
            assert(encode_utf8(nothing@) =~= Seq::<u8>::empty()) by {
                assert(nothing@ =~= Seq::<char>::empty());
            }
        }
        self.line_index.apply_change(range.start(), range.len(), nothing.as_str(), Ghost(before));
        proof {
            use_type_invariant(&self.line_index);
        }
        self.revision = self.revision.next();
        let range_after = TextRange::empty_at(range.start());
        let inverse_edit = Edit::Insert { offset: range.start(), text: removed_text.clone() };
        let change_set = ChangeSet::new(
            revision_before,
            self.revision,
            range,
            range_after,
            nothing,
            removed_text,
            inverse_edit,
        );
        if record_history {
            self.history.record(change_set.clone());
        }
        Ok(change_set)
    }

    fn replace(&mut self, range: TextRange, text: String, record_history: bool) -> (r: Result<ChangeSet, DocumentError>)
        requires
            old(self).well_formed(),
            old(self)@.revision < u64::MAX,
            range.start()@ <= range.end()@,
            old(self)@.text.len() + encode_utf8(text@).len() <= usize::MAX,
        ensures
            final(self).well_formed(),
            match edit_result(old(self)@.text, EditView::Replace { range, text: text@ }) {
                Err(e) => r == Err::<ChangeSet, DocumentError>(e) && final(self)@ == old(self)@,
                Ok(t) => r matches Ok(c) && c@ == change_of(
                    old(self)@.text,
                    old(self)@.revision,
                    EditView::Replace { range, text: text@ },
                ) && final(self)@ == with_text(
                    old(self)@,
                    t,
                    (old(self)@.revision + 1) as u64,
                    if record_history {
                        recorded(old(self)@.history, c@)
                    } else {
                        old(self)@.history
                    },
                ),
            },
    {
        match self.validate_range(range) {
            Ok(()) => {},
            Err(e) => {
                return Err(e);
            },
        }
        let ghost before = self.buffer.text();
        proof {
            self.buffer.lemma_well_formed();
        }
        let revision_before = self.revision;
        let snapshot = self.buffer.snapshot();
        let removed_text = match snapshot.slice(range) {
            Ok(s) => s.to_owned(),
            Err(e) => {
                return Err(e);
            },
        };
        proof {
            encode_utf8_decode_utf8(removed_text@);
        }
        match self.buffer.replace(range, text.as_str()) {
            Ok(()) => {},
            Err(e) => {
                return Err(e);
            },
        }
        self.line_index.apply_change(range.start(), range.len(), text.as_str(), Ghost(before));
        proof {
            use_type_invariant(&self.line_index);
        }
        self.revision = self.revision.next();
        let end = range.start().checked_add(text.as_str().len());
        let range_after = match TextRange::new(range.start(), end) {
            Ok(r) => r,
            Err(e) => {
                return Err(e);
            },
        };
        let inverse_edit = Edit::Replace { range: range_after, text: removed_text.clone() };
        let change_set = ChangeSet::new(
            revision_before,
            self.revision,
            range,
            range_after,
            text,
            removed_text,
            inverse_edit,
        );
        proof {
            TextOffset::lemma_spec_new(end@);
            TextOffset::lemma_view_injective(end, TextOffset::spec_new(end@));
        }
        if record_history {
            self.history.record(change_set.clone());
        }
        Ok(change_set)
    }

    fn validate_range(&self, range: TextRange) -> (r: Result<(), DocumentError>)
        requires
            self.well_formed(),
            range.start()@ <= range.end()@,
        ensures
            match range_error(self@.text, range) {
                Some(e) => r == Err::<(), DocumentError>(e),
                None => r is Ok,
            },
    {
        let len = self.buffer.len_bytes();
        if range.end().value() > len {
            return Err(DocumentError::RangeOutOfBounds { len, start: range.start(), end: range.end() });
        }
        match self.validate_offset(range.start()) {
            Ok(()) => {},
            Err(e) => {
                return Err(e);
            },
        }
        self.validate_offset(range.end())
    }

    fn validate_offset(&self, offset: TextOffset) -> (r: Result<(), DocumentError>)
        requires
            self.well_formed(),
        ensures
            offset@ > self@.text.len() ==> r == Err::<(), DocumentError>(
                DocumentError::RangeOutOfBounds { len: self@.text.len() as usize, start: offset, end: offset },
            ),
            offset@ <= self@.text.len() && !at_char_boundary(self@.text, offset@ as int) ==> r == Err::<
                (),
                DocumentError,
            >(DocumentError::InvalidUtf8Boundary { offset }),
            offset@ <= self@.text.len() && at_char_boundary(self@.text, offset@ as int) ==> r is Ok,
    {
        if offset.value() > self.buffer.len_bytes() {
            return Err(
                DocumentError::RangeOutOfBounds { len: self.buffer.len_bytes(), start: offset, end: offset },
            );
        }
        if !self.buffer.is_char_boundary(offset) {
            return Err(DocumentError::InvalidUtf8Boundary { offset });
        }
        Ok(())
    }
}

/// An ordered prefix followed by an ordered edit is an ordered prefix one longer.
proof fn lemma_ordered_extend(edits: Seq<EditView>, k: int)
    requires
        0 <= k < edits.len(),
        edits_ordered(edits.take(k)),
        edit_ordered(edits[k]),
    ensures
        edits_ordered(edits.take(k + 1)),
{
    assert forall|j: int| 0 <= j < k + 1 implies #[trigger] edit_ordered(edits.take(k + 1)[j]) by {
        if j < k {
            assert(edits.take(k + 1)[j] == edits.take(k)[j]);
        }
    }
}

} // verus!
