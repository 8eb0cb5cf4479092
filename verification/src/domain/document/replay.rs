use vstd::prelude::*;
use vstd::utf8::*;

use super::{
    at_char_boundary, edit_result, forward_of, inserted_len, lemma_boundary_concat, lemma_valid_subrange,
    range_error, splice, ChangeSetView, DocumentError, EditView, TextOffset, TextRange,
};

verus! {

/// Every range of `edit` starts no later than it ends, as the ranges of edits built
/// in executable code do.
pub open spec fn edit_ordered(edit: EditView) -> bool {
    match edit {
        EditView::Insert { .. } => true,
        EditView::Delete { range } => range.start()@ <= range.end()@,
        EditView::Replace { range, .. } => range.start()@ <= range.end()@,
    }
}

/// The change set a document records when `edit` succeeds on `text` at revision `rev`.
pub open spec fn change_of(text: Seq<u8>, rev: u64, edit: EditView) -> ChangeSetView {
    match edit {
        EditView::Insert { offset, text: inserted } => {
            let after = TextRange::spec_between(
                offset,
                TextOffset::spec_new((offset@ + encode_utf8(inserted).len()) as usize),
            );
            ChangeSetView {
                revision_before: rev,
                revision_after: (rev + 1) as u64,
                range_before: TextRange::spec_between(offset, offset),
                range_after: after,
                inserted,
                removed: Seq::empty(),
                inverse: EditView::Delete { range: after },
            }
        },
        EditView::Delete { range } => {
            let removed = decode_utf8(text.subrange(range.start()@ as int, range.end()@ as int));
            ChangeSetView {
                revision_before: rev,
                revision_after: (rev + 1) as u64,
                range_before: range,
                range_after: TextRange::spec_between(range.start(), range.start()),
                inserted: Seq::empty(),
                removed,
                inverse: EditView::Insert { offset: range.start(), text: removed },
            }
        },
        EditView::Replace { range, text: inserted } => {
            let removed = decode_utf8(text.subrange(range.start()@ as int, range.end()@ as int));
            let after = TextRange::spec_between(
                range.start(),
                TextOffset::spec_new((range.start()@ + encode_utf8(inserted).len()) as usize),
            );
            ChangeSetView {
                revision_before: rev,
                revision_after: (rev + 1) as u64,
                range_before: range,
                range_after: after,
                inserted,
                removed,
                inverse: EditView::Replace { range: after, text: removed },
            }
        },
    }
}

/// Where a sequence of edits leaves a document: its text and revision, the change
/// sets of the edits that succeeded, and the error that stopped the sequence, if any.
pub struct ReplayOutcome {
    pub text: Seq<u8>,
    pub revision: u64,
    pub changes: Seq<ChangeSetView>,
    pub error: Option<DocumentError>,
}

/// Applies `edits` in order from `text` at revision `rev`, stopping at the first
/// edit that is refused.
pub open spec fn replay(text: Seq<u8>, rev: u64, edits: Seq<EditView>) -> ReplayOutcome
    decreases edits.len(),
{
    if edits.len() == 0 {
        ReplayOutcome { text, revision: rev, changes: Seq::empty(), error: None }
    } else {
        let prev = replay(text, rev, edits.drop_last());
        if prev.error is Some {
            prev
        } else {
            match edit_result(prev.text, edits.last()) {
                Err(e) => ReplayOutcome { error: Some(e), ..prev },
                Ok(next) => ReplayOutcome {
                    text: next,
                    revision: (prev.revision + 1) as u64,
                    changes: prev.changes.push(change_of(prev.text, prev.revision, edits.last())),
                    error: None,
                },
            }
        }
    }
}

/// The bytes that `edits` insert, all together.
pub open spec fn total_inserted(edits: Seq<EditView>) -> nat
    decreases edits.len(),
{
    if edits.len() == 0 {
        0
    } else {
        total_inserted(edits.drop_last()) + inserted_len(edits.last())
    }
}

/// Room for `edits` within the machine's counters: one revision per edit, and
/// every byte they insert on top of `text`.
pub open spec fn replay_room(text: Seq<u8>, rev: u64, edits: Seq<EditView>) -> bool {
    &&& rev + edits.len() <= u64::MAX
    &&& text.len() + total_inserted(edits) <= usize::MAX
}

/// The edits that undo `changes`: their inverses, last change first.
pub open spec fn undo_edits(changes: Seq<ChangeSetView>) -> Seq<EditView> {
    Seq::new(changes.len(), |i: int| changes[changes.len() - 1 - i].inverse)
}

/// The edits that redo `changes`: each one replayed, in order.
pub open spec fn redo_edits(changes: Seq<ChangeSetView>) -> Seq<EditView> {
    changes.map_values(|c: ChangeSetView| forward_of(c))
}

/// A successful edit changes the length by at most the bytes it inserts.
pub proof fn lemma_edit_len(text: Seq<u8>, edit: EditView)
    requires
        edit_ordered(edit),
        edit_result(text, edit) is Ok,
    ensures
        edit_result(text, edit)->Ok_0.len() <= text.len() + inserted_len(edit),
{
}

/// Inserting valid text at two boundaries keeps the text valid, and both ends
/// of the inserted part are boundaries afterwards.
pub proof fn lemma_splice_boundaries(text: Seq<u8>, start: int, end: int, inserted: Seq<u8>)
    requires
        valid_utf8(text),
        valid_utf8(inserted),
        0 <= start <= end <= text.len(),
        at_char_boundary(text, start),
        at_char_boundary(text, end),
    ensures
        valid_utf8(splice(text, start, end, inserted)),
        at_char_boundary(splice(text, start, end, inserted), start),
        at_char_boundary(splice(text, start, end, inserted), start + inserted.len()),
        splice(text, start, end, inserted).len() == text.len() - (end - start) + inserted.len(),
{
    let head = text.subrange(0, start);
    let tail = text.subrange(end, text.len() as int);
    lemma_valid_subrange(text, 0, start);
    lemma_valid_subrange(text, end, text.len() as int);
    valid_utf8_concat(inserted, tail);
    valid_utf8_concat(head, inserted + tail);
    assert(splice(text, start, end, inserted) =~= head + (inserted + tail));
    lemma_boundary_concat(head, inserted + tail, start);
    lemma_boundary_concat(head, inserted + tail, start + inserted.len());
    lemma_boundary_concat(inserted, tail, inserted.len() as int);
}

/// A successful edit on valid text leaves valid text.
pub proof fn lemma_edit_valid(text: Seq<u8>, edit: EditView)
    requires
        valid_utf8(text),
        edit_ordered(edit),
        edit_result(text, edit) is Ok,
    ensures
        valid_utf8(edit_result(text, edit)->Ok_0),
{
    match edit {
        EditView::Insert { offset, text: inserted } => {
            encode_utf8_valid_utf8(inserted);
            lemma_splice_boundaries(text, offset@ as int, offset@ as int, encode_utf8(inserted));
        },
        EditView::Delete { range } => {
            lemma_splice_boundaries(text, range.start()@ as int, range.end()@ as int, Seq::empty());
        },
        EditView::Replace { range, text: inserted } => {
            encode_utf8_valid_utf8(inserted);
            lemma_splice_boundaries(text, range.start()@ as int, range.end()@ as int, encode_utf8(inserted));
        },
    }
}

/// The inverse of a successful edit, applied to its result, gives back the text
/// the edit started from.
pub proof fn lemma_inverse_restores(text: Seq<u8>, rev: u64, edit: EditView)
    requires
        valid_utf8(text),
        edit_ordered(edit),
        edit_result(text, edit) is Ok,
        text.len() + inserted_len(edit) <= usize::MAX,
    ensures
        edit_result(edit_result(text, edit)->Ok_0, change_of(text, rev, edit).inverse) == Ok::<
            Seq<u8>,
            DocumentError,
        >(text),
{
    let after = edit_result(text, edit)->Ok_0;
    match edit {
        EditView::Insert { offset, text: inserted } => {
            let o = offset@ as int;
            let ins = encode_utf8(inserted);
            encode_utf8_valid_utf8(inserted);
            lemma_splice_boundaries(text, o, o, ins);
            let end = TextOffset::spec_new((offset@ + ins.len()) as usize);
            TextOffset::lemma_spec_new((offset@ + ins.len()) as usize);
            let r = TextRange::spec_between(offset, end);
            TextRange::lemma_spec_between(offset, end);
            assert(range_error(after, r) is None);
            assert(splice(after, o, o + ins.len(), Seq::empty()) =~= text);
        },
        EditView::Delete { range } => {
            let s = range.start()@ as int;
            let e = range.end()@ as int;
            let removed = text.subrange(s, e);
            lemma_valid_subrange(text, s, e);
            decode_utf8_encode_utf8(removed);
            lemma_splice_boundaries(text, s, e, Seq::empty());
            assert(at_char_boundary(after, s));
            assert(splice(after, s, s, encode_utf8(decode_utf8(removed))) =~= text);
        },
        EditView::Replace { range, text: inserted } => {
            let s = range.start()@ as int;
            let e = range.end()@ as int;
            let ins = encode_utf8(inserted);
            let removed = text.subrange(s, e);
            encode_utf8_valid_utf8(inserted);
            lemma_valid_subrange(text, s, e);
            decode_utf8_encode_utf8(removed);
            lemma_splice_boundaries(text, s, e, ins);
            let end = TextOffset::spec_new((range.start()@ + ins.len()) as usize);
            TextOffset::lemma_spec_new((range.start()@ + ins.len()) as usize);
            let r = TextRange::spec_between(range.start(), end);
            TextRange::lemma_spec_between(range.start(), end);
            assert(range_error(after, r) is None);
            assert(splice(after, s, s + ins.len(), encode_utf8(decode_utf8(removed))) =~= text);
        },
    }
}

/// Replaying the edit recorded by a successful edit, on the same text, gives the
/// same text.
pub proof fn lemma_forward_repeats(text: Seq<u8>, rev: u64, edit: EditView)
    requires
        valid_utf8(text),
        edit_ordered(edit),
        edit_result(text, edit) is Ok,
    ensures
        edit_result(text, forward_of(change_of(text, rev, edit))) == edit_result(text, edit),
{
    let c = change_of(text, rev, edit);
    match edit {
        EditView::Insert { offset, text: inserted } => {
            TextRange::lemma_spec_between(offset, offset);
            if inserted.len() == 0 {
                assert(c.removed.len() == 0);
            }
        },
        EditView::Delete { range } => {
            let s = range.start()@ as int;
            let e = range.end()@ as int;
            TextRange::lemma_spec_between(range.start(), range.start());
            if c.removed.len() == 0 {
                assert(encode_utf8(Seq::<char>::empty()) =~= Seq::<u8>::empty());
                assert(text.subrange(s, e).len() == 0) by {
                    lemma_valid_subrange_decode_empty(text, s, e);
                }
                assert(splice(text, s, s, Seq::empty()) =~= splice(text, s, e, Seq::empty()));
            }
        },
        EditView::Replace { range, text: inserted } => {
            let s = range.start()@ as int;
            let e = range.end()@ as int;
            if c.removed.len() == 0 {
                assert(text.subrange(s, e).len() == 0) by {
                    lemma_valid_subrange_decode_empty(text, s, e);
                }
                assert(splice(text, s, s, encode_utf8(inserted)) =~= splice(text, s, e, encode_utf8(inserted)));
            } else if inserted.len() == 0 {
                assert(encode_utf8(inserted) =~= Seq::<u8>::empty());
            }
        },
    }
}

/// Valid bytes between two boundaries that decode to no characters are no bytes.
proof fn lemma_valid_subrange_decode_empty(text: Seq<u8>, s: int, e: int)
    requires
        valid_utf8(text),
        0 <= s <= e <= text.len(),
        at_char_boundary(text, s),
        at_char_boundary(text, e),
        decode_utf8(text.subrange(s, e)).len() == 0,
    ensures
        text.subrange(s, e).len() == 0,
{
    let sub = text.subrange(s, e);
    lemma_valid_subrange(text, s, e);
    decode_utf8_encode_utf8(sub);
    assert(decode_utf8(sub) =~= Seq::<char>::empty());
    assert(encode_utf8(Seq::<char>::empty()) =~= Seq::<u8>::empty());
}

/// Every edit of `edits` has ordered ranges.
pub open spec fn edits_ordered(edits: Seq<EditView>) -> bool {
    forall|i: int| 0 <= i < edits.len() ==> #[trigger] edit_ordered(edits[i])
}

/// Replaying `a` then `b` is replaying `a + b`: the second part starts where the
/// first one stopped, unless the first one was refused.
pub proof fn lemma_replay_append(text: Seq<u8>, rev: u64, a: Seq<EditView>, b: Seq<EditView>)
    ensures
        ({
            let ra = replay(text, rev, a);
            let rb = replay(ra.text, ra.revision, b);
            replay(text, rev, a + b) == if ra.error is Some {
                ra
            } else {
                ReplayOutcome { text: rb.text, revision: rb.revision, changes: ra.changes + rb.changes, error: rb.error }
            }
        }),
    decreases b.len(),
{
    let ra = replay(text, rev, a);
    if b.len() == 0 {
        assert(a + b =~= a);
        assert(ra.changes + Seq::<ChangeSetView>::empty() =~= ra.changes);
    } else {
        lemma_replay_append(text, rev, a, b.drop_last());
        assert((a + b).drop_last() =~= a + b.drop_last());
        assert((a + b).last() == b.last());
        let rb = replay(ra.text, ra.revision, b.drop_last());
        if ra.error is None && rb.error is None {
            assert((ra.changes + rb.changes).push(change_of(rb.text, rb.revision, b.last())) =~= ra.changes + rb.changes.push(
                change_of(rb.text, rb.revision, b.last()),
            ));
        }
    }
}

/// What a replay keeps: valid text, a revision counted per applied change, and a
/// length within the bytes inserted; with no error, every edit was applied.
pub proof fn lemma_replay_facts(text: Seq<u8>, rev: u64, edits: Seq<EditView>)
    requires
        valid_utf8(text),
        edits_ordered(edits),
        rev + edits.len() <= u64::MAX,
    ensures
        valid_utf8(replay(text, rev, edits).text),
        replay(text, rev, edits).revision == rev + replay(text, rev, edits).changes.len(),
        replay(text, rev, edits).changes.len() <= edits.len(),
        replay(text, rev, edits).error is None ==> replay(text, rev, edits).changes.len() == edits.len(),
        replay(text, rev, edits).text.len() <= text.len() + total_inserted(edits),
    decreases edits.len(),
{
    if edits.len() > 0 {
        let init = edits.drop_last();
        assert(edits_ordered(init)) by {
            assert forall|i: int| 0 <= i < init.len() implies #[trigger] edit_ordered(init[i]) by {
                assert(init[i] == edits[i]);
            }
        }
        assert(edit_ordered(edits[edits.len() - 1]));
        lemma_replay_facts(text, rev, init);
        let prev = replay(text, rev, init);
        if prev.error is None {
            if edit_result(prev.text, edits.last()) is Ok {
                lemma_edit_valid(prev.text, edits.last());
                lemma_edit_len(prev.text, edits.last());
            }
        }
    }
}

/// The total inserted by a prefix is at most the total of the whole sequence.
pub proof fn lemma_total_inserted_prefix(edits: Seq<EditView>, k: int)
    requires
        0 <= k <= edits.len(),
    ensures
        total_inserted(edits.take(k)) <= total_inserted(edits),
        k < edits.len() ==> total_inserted(edits.take(k + 1)) == total_inserted(edits.take(k)) + inserted_len(edits[k]),
    decreases edits.len() - k,
{
    if k < edits.len() {
        assert(edits.take(k + 1).drop_last() =~= edits.take(k));
        lemma_total_inserted_prefix(edits, k + 1);
    } else {
        assert(edits.take(k) =~= edits);
    }
}

/// Replaying one more edit of a sequence extends the replay of the edits before it.
pub proof fn lemma_replay_step(text: Seq<u8>, rev: u64, edits: Seq<EditView>, k: int)
    requires
        0 <= k < edits.len(),
    ensures
        replay(text, rev, edits.take(k + 1)) == ({
            let prev = replay(text, rev, edits.take(k));
            if prev.error is Some {
                prev
            } else {
                match edit_result(prev.text, edits[k]) {
                    Err(e) => ReplayOutcome { error: Some(e), ..prev },
                    Ok(next) => ReplayOutcome {
                        text: next,
                        revision: (prev.revision + 1) as u64,
                        changes: prev.changes.push(change_of(prev.text, prev.revision, edits[k])),
                        error: None,
                    },
                }
            }
        }),
{
    assert(edits.take(k + 1).drop_last() =~= edits.take(k));
    assert(edits.take(k + 1).last() == edits[k]);
}

/// Once a replay is refused, later edits change nothing.
pub proof fn lemma_replay_stopped(text: Seq<u8>, rev: u64, edits: Seq<EditView>, k: int)
    requires
        0 <= k <= edits.len(),
        replay(text, rev, edits.take(k)).error is Some,
    ensures
        replay(text, rev, edits) == replay(text, rev, edits.take(k)),
    decreases edits.len() - k,
{
    if k < edits.len() {
        lemma_replay_step(text, rev, edits, k);
        lemma_replay_stopped(text, rev, edits, k + 1);
    } else {
        assert(edits.take(k) =~= edits);
    }
}

/// Undoing the changes that a sequence of successful edits recorded, last change
/// first, gives back the text the sequence started from.
pub proof fn lemma_undo_restores(text: Seq<u8>, rev: u64, edits: Seq<EditView>, undo_rev: u64)
    requires
        valid_utf8(text),
        edits_ordered(edits),
        replay_room(text, rev, edits),
        replay(text, rev, edits).error is None,
    ensures
        ({
            let done = replay(text, rev, edits);
            let undone = replay(done.text, undo_rev, undo_edits(done.changes));
            undone.text == text && undone.error is None
        }),
    decreases edits.len(),
{
    let done = replay(text, rev, edits);
    if edits.len() == 0 {
        assert(undo_edits(done.changes) =~= Seq::<EditView>::empty());
    } else {
        let init = edits.drop_last();
        let last = edits.last();
        assert(edits_ordered(init)) by {
            assert forall|i: int| 0 <= i < init.len() implies #[trigger] edit_ordered(init[i]) by {
                assert(init[i] == edits[i]);
            }
        }
        assert(edit_ordered(edits[edits.len() - 1]));
        let prev = replay(text, rev, init);
        assert(prev.error is None);
        lemma_replay_facts(text, rev, init);
        let c = change_of(prev.text, prev.revision, last);
        assert(done.changes == prev.changes.push(c));
        assert(undo_edits(done.changes) =~= seq![c.inverse] + undo_edits(prev.changes));
        lemma_inverse_restores(prev.text, prev.revision, last);
        lemma_replay_append(done.text, undo_rev, seq![c.inverse], undo_edits(prev.changes));
        let first = replay(done.text, undo_rev, seq![c.inverse]);
        assert(seq![c.inverse].drop_last() =~= Seq::<EditView>::empty());
        assert(seq![c.inverse].last() == c.inverse);
        let empty = replay(done.text, undo_rev, seq![c.inverse].drop_last());
        assert(empty.text == done.text && empty.error is None);
        assert(done.text == edit_result(prev.text, last)->Ok_0);
        assert(edit_result(done.text, c.inverse) == Ok::<Seq<u8>, DocumentError>(prev.text));
        assert(first.text == prev.text && first.error is None);
        lemma_undo_restores(text, rev, init, first.revision);
    }
}

/// Redoing the changes that a sequence of successful edits recorded, from the text
/// it started from, gives the text it ended with.
pub proof fn lemma_redo_repeats(text: Seq<u8>, rev: u64, edits: Seq<EditView>, redo_rev: u64)
    requires
        valid_utf8(text),
        edits_ordered(edits),
        replay_room(text, rev, edits),
        replay(text, rev, edits).error is None,
    ensures
        ({
            let done = replay(text, rev, edits);
            let redone = replay(text, redo_rev, redo_edits(done.changes));
            redone.text == done.text && redone.error is None
        }),
    decreases edits.len(),
{
    let done = replay(text, rev, edits);
    if edits.len() == 0 {
        assert(redo_edits(done.changes) =~= Seq::<EditView>::empty());
    } else {
        let init = edits.drop_last();
        let last = edits.last();
        assert(edits_ordered(init)) by {
            assert forall|i: int| 0 <= i < init.len() implies #[trigger] edit_ordered(init[i]) by {
                assert(init[i] == edits[i]);
            }
        }
        assert(edit_ordered(edits[edits.len() - 1]));
        let prev = replay(text, rev, init);
        lemma_replay_facts(text, rev, init);
        let c = change_of(prev.text, prev.revision, last);
        assert(done.changes == prev.changes.push(c));
        assert(redo_edits(done.changes).drop_last() =~= redo_edits(prev.changes));
        lemma_redo_repeats(text, rev, init, redo_rev);
        lemma_forward_repeats(prev.text, prev.revision, last);
    }
}

} // verus!
