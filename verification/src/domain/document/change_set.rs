use vstd::prelude::*;

use super::{Edit, EditView, RevisionId, TextRange};

verus! {

/// The record of one applied edit: the revisions around it, the ranges it covered
/// before and after, the text it inserted and removed, and the edit that undoes it.
#[derive(Debug, PartialEq, Eq)]
pub struct ChangeSet {
    revision_before: RevisionId,
    revision_after: RevisionId,
    range_before: TextRange,
    range_after: TextRange,
    inserted_text: String,
    removed_text: String,
    inverse_edit: Edit,
}

/// A change set with its texts taken as characters and its revisions as numbers.
pub struct ChangeSetView {
    pub revision_before: u64,
    pub revision_after: u64,
    pub range_before: TextRange,
    pub range_after: TextRange,
    pub inserted: Seq<char>,
    pub removed: Seq<char>,
    pub inverse: EditView,
}

impl View for ChangeSet {
    type V = ChangeSetView;

    closed spec fn view(&self) -> ChangeSetView {
        ChangeSetView {
            revision_before: self.revision_before@,
            revision_after: self.revision_after@,
            range_before: self.range_before,
            range_after: self.range_after,
            inserted: self.inserted_text@,
            removed: self.removed_text@,
            inverse: self.inverse_edit@,
        }
    }
}

/// The edit that replays a change: an insertion when it removed nothing, a deletion
/// when it inserted nothing, a replacement otherwise.
pub open spec fn forward_of(change: ChangeSetView) -> EditView {
    if change.removed.len() == 0 {
        EditView::Insert { offset: change.range_before.start(), text: change.inserted }
    } else if change.inserted.len() == 0 {
        EditView::Delete { range: change.range_before }
    } else {
        EditView::Replace { range: change.range_before, text: change.inserted }
    }
}

impl Clone for ChangeSet {
    fn clone(&self) -> (c: Self)
        ensures
            c@ == self@,
    {
        ChangeSet {
            revision_before: self.revision_before,
            revision_after: self.revision_after,
            range_before: self.range_before,
            range_after: self.range_after,
            inserted_text: self.inserted_text.clone(),
            removed_text: self.removed_text.clone(),
            inverse_edit: self.inverse_edit.clone(),
        }
    }
}

impl ChangeSet {
    pub fn new(
        revision_before: RevisionId,
        revision_after: RevisionId,
        range_before: TextRange,
        range_after: TextRange,
        inserted_text: String,
        removed_text: String,
        inverse_edit: Edit,
    ) -> (c: Self)
        ensures
            c@ == (ChangeSetView {
                revision_before: revision_before@,
                revision_after: revision_after@,
                range_before,
                range_after,
                inserted: inserted_text@,
                removed: removed_text@,
                inverse: inverse_edit@,
            }),
    {
        Self {
            revision_before,
            revision_after,
            range_before,
            range_after,
            inserted_text,
            removed_text,
            inverse_edit,
        }
    }

    pub fn revision_before(&self) -> (r: RevisionId)
        ensures
            r@ == self@.revision_before,
    {
        self.revision_before
    }

    pub fn revision_after(&self) -> (r: RevisionId)
        ensures
            r@ == self@.revision_after,
    {
        self.revision_after
    }

    pub fn range_before(&self) -> (r: TextRange)
        ensures
            r == self@.range_before,
    {
        self.range_before
    }

    pub fn range_after(&self) -> (r: TextRange)
        ensures
            r == self@.range_after,
    {
        self.range_after
    }

    pub fn inserted_text(&self) -> (s: &str)
        ensures
            s@ == self@.inserted,
    {
        self.inserted_text.as_str()
    }

    pub fn removed_text(&self) -> (s: &str)
        ensures
            s@ == self@.removed,
    {
        self.removed_text.as_str()
    }

    pub fn inverse_edit(&self) -> (e: &Edit)
        ensures
            e@ == self@.inverse,
    {
        &self.inverse_edit
    }

    /// The edit that applies this change again.
    pub fn forward_edit(&self) -> (e: Edit)
        ensures
            e@ == forward_of(self@),
    {
        if self.removed_text.as_str().is_empty() {
            return Edit::Insert { offset: self.range_before.start(), text: self.inserted_text.clone() };
        }
        if self.inserted_text.as_str().is_empty() {
            return Edit::Delete { range: self.range_before };
        }
        Edit::Replace { range: self.range_before, text: self.inserted_text.clone() }
    }
}

} // verus!
