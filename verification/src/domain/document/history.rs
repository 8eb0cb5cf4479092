use vstd::prelude::*;

use super::{ChangeSet, ChangeSetView};

verus! {

/// The views of a sequence of change sets.
pub open spec fn change_views(changes: Seq<ChangeSet>) -> Seq<ChangeSetView> {
    changes.map_values(|c: ChangeSet| c@)
}

/// Change sets undone and redone together.
#[derive(Debug, PartialEq, Eq)]
pub struct EditTransaction {
    changes: Vec<ChangeSet>,
}

impl View for EditTransaction {
    type V = Seq<ChangeSetView>;

    closed spec fn view(&self) -> Seq<ChangeSetView> {
        change_views(self.changes@)
    }
}

impl Clone for EditTransaction {
    fn clone(&self) -> (t: Self)
        ensures
            t@ == self@,
    {
        let mut changes: Vec<ChangeSet> = Vec::new();
        let mut i: usize = 0;
        while i < self.changes.len()
            invariant
                i <= self.changes.len(),
                changes@.len() == i,
                change_views(changes@) == change_views(self.changes@).take(i as int),
            decreases self.changes.len() - i,
        {
            let c = self.changes[i].clone();
            let ghost prev = changes@;
            changes.push(c);
            proof {
                assert(changes@ == prev.push(c));
                assert(c@ == self.changes@[i as int]@);
                assert(prev.len() == i);
                assert forall|j: int| 0 <= j < changes@.len() implies #[trigger] change_views(changes@)[j]
                    == change_views(self.changes@)[j] by {
                    assert(j <= i);
                    if j < i {
                        assert(changes@[j] == prev[j]);
                        assert(change_views(prev)[j] == change_views(self.changes@).take(i as int)[j]);
                    }
                }
            }
            i = i + 1;
            assert(change_views(changes@) =~= change_views(self.changes@).take(i as int));
        }
        assert(change_views(self.changes@).take(i as int) =~= change_views(self.changes@));
        EditTransaction { changes }
    }
}

impl EditTransaction {
    pub fn new(changes: Vec<ChangeSet>) -> (t: Self)
        ensures
            t@ == change_views(changes@),
    {
        Self { changes }
    }

    pub fn changes(&self) -> (s: &[ChangeSet])
        ensures
            change_views(s@) == self@,
    {
        self.changes.as_slice()
    }

    pub fn is_empty(&self) -> (b: bool)
        ensures
            b == (self@.len() == 0),
    {
        self.changes.len() == 0
    }

    pub fn push(&mut self, change: ChangeSet)
        ensures
            final(self)@ == old(self)@.push(change@),
    {
        self.changes.push(change);
        assert(change_views(self.changes@) =~= change_views(old(self).changes@).push(change@));
    }
}

/// The undo history: transactions that can be undone, transactions that can be
/// redone, and the transaction being gathered, if one is open.
pub struct UndoManagerView {
    pub undo: Seq<Seq<ChangeSetView>>,
    pub redo: Seq<Seq<ChangeSetView>>,
    pub in_progress: Option<Seq<ChangeSetView>>,
}

/// A history with nothing to undo or redo and no open transaction.
pub open spec fn empty_history() -> UndoManagerView {
    UndoManagerView { undo: Seq::empty(), redo: Seq::empty(), in_progress: None }
}

/// The views of a stack of transactions.
pub open spec fn transaction_views(stack: Seq<EditTransaction>) -> Seq<Seq<ChangeSetView>> {
    stack.map_values(|t: EditTransaction| t@)
}

/// The history after `change` is recorded: it joins the open transaction, or is
/// pushed as a transaction of its own; either way nothing can be redone anymore.
pub open spec fn recorded(h: UndoManagerView, change: ChangeSetView) -> UndoManagerView {
    match h.in_progress {
        Some(t) => UndoManagerView { undo: h.undo, redo: Seq::empty(), in_progress: Some(t.push(change)) },
        None => UndoManagerView { undo: h.undo.push(seq![change]), redo: Seq::empty(), in_progress: None },
    }
}

/// The history after the open transaction, if any, is closed: a non-empty one
/// becomes undoable and clears what could be redone.
pub open spec fn committed(h: UndoManagerView) -> UndoManagerView {
    match h.in_progress {
        Some(t) => if t.len() > 0 {
            UndoManagerView { undo: h.undo.push(t), redo: Seq::empty(), in_progress: None }
        } else {
            UndoManagerView { undo: h.undo, redo: h.redo, in_progress: None }
        },
        None => h,
    }
}

/// The history after a transaction is opened; an open one stays as it is.
pub open spec fn begun(h: UndoManagerView) -> UndoManagerView {
    match h.in_progress {
        Some(_) => h,
        None => UndoManagerView { undo: h.undo, redo: h.redo, in_progress: Some(Seq::empty()) },
    }
}

#[derive(Debug, PartialEq, Eq)]
pub struct UndoManager {
    undo_stack: Vec<EditTransaction>,
    redo_stack: Vec<EditTransaction>,
    in_progress: Option<EditTransaction>,
}

impl View for UndoManager {
    type V = UndoManagerView;

    closed spec fn view(&self) -> UndoManagerView {
        UndoManagerView {
            undo: transaction_views(self.undo_stack@),
            redo: transaction_views(self.redo_stack@),
            in_progress: match self.in_progress {
                Some(t) => Some(t@),
                None => None,
            },
        }
    }
}

impl Default for UndoManager {
    fn default() -> (m: Self)
        ensures
            m@ == empty_history(),
    {
        let m = UndoManager { undo_stack: Vec::new(), redo_stack: Vec::new(), in_progress: None };
        assert(m@.undo =~= Seq::<Seq<ChangeSetView>>::empty());
        assert(m@.redo =~= Seq::<Seq<ChangeSetView>>::empty());
        m
    }
}

impl Clone for UndoManager {
    fn clone(&self) -> (m: Self)
        ensures
            m@ == self@,
    {
        let undo_stack = clone_stack(&self.undo_stack);
        let redo_stack = clone_stack(&self.redo_stack);
        let in_progress = match &self.in_progress {
            Some(t) => Some(t.clone()),
            None => None,
        };
        UndoManager { undo_stack, redo_stack, in_progress }
    }
}

fn clone_stack(stack: &Vec<EditTransaction>) -> (c: Vec<EditTransaction>)
    ensures
        transaction_views(c@) == transaction_views(stack@),
{
    let mut c: Vec<EditTransaction> = Vec::new();
    let mut i: usize = 0;
    while i < stack.len()
        invariant
            i <= stack.len(),
            c@.len() == i,
            transaction_views(c@) == transaction_views(stack@).take(i as int),
        decreases stack.len() - i,
    {
        let t = stack[i].clone();
        let ghost prev = c@;
        c.push(t);
        proof {
            assert(c@ == prev.push(t));
            assert forall|j: int| 0 <= j < c@.len() implies #[trigger] transaction_views(c@)[j]
                == transaction_views(stack@)[j] by {
                assert(j <= i);
                if j < i {
                    assert(c@[j] == prev[j]);
                    assert(transaction_views(prev)[j] == transaction_views(stack@).take(i as int)[j]);
                }
            }
        }
        i = i + 1;
        assert(transaction_views(c@) =~= transaction_views(stack@).take(i as int));
    }
    assert(transaction_views(stack@).take(i as int) =~= transaction_views(stack@));
    c
}

impl UndoManager {
    /// The transaction an undo would take back, if any.
    pub fn last_undo(&self) -> (t: Option<&EditTransaction>)
        ensures
            self@.undo.len() == 0 ==> t is None,
            self@.undo.len() > 0 ==> (t matches Some(x) && x@ == self@.undo.last()),
    {
        let n = self.undo_stack.len();
        if n == 0 {
            None
        } else {
            Some(&self.undo_stack[n - 1])
        }
    }

    /// The transaction a redo would apply again, if any.
    pub fn last_redo(&self) -> (t: Option<&EditTransaction>)
        ensures
            self@.redo.len() == 0 ==> t is None,
            self@.redo.len() > 0 ==> (t matches Some(x) && x@ == self@.redo.last()),
    {
        let n = self.redo_stack.len();
        if n == 0 {
            None
        } else {
            Some(&self.redo_stack[n - 1])
        }
    }

    pub fn begin_transaction(&mut self)
        ensures
            final(self)@ == begun(old(self)@),
    {
        if self.in_progress.is_none() {
            self.in_progress = Some(EditTransaction::new(Vec::new()));
            assert(change_views(Seq::<ChangeSet>::empty()) =~= Seq::<ChangeSetView>::empty());
        }
    }

    pub fn commit_transaction(&mut self)
        ensures
            final(self)@ == committed(old(self)@),
    {
        if let Some(transaction) = self.in_progress.take() {
            if !transaction.is_empty() {
                self.undo_stack.push(transaction);
                self.redo_stack.clear();
                assert(transaction_views(self.undo_stack@) =~= transaction_views(
                    old(self).undo_stack@,
                ).push(transaction@));
                assert(transaction_views(self.redo_stack@) =~= Seq::<Seq<ChangeSetView>>::empty());
            }
        }
    }

    pub fn record(&mut self, change: ChangeSet)
        ensures
            final(self)@ == recorded(old(self)@, change@),
    {
        let ghost c = change@;
        match self.in_progress.take() {
            Some(mut transaction) => {
                transaction.push(change);
                self.in_progress = Some(transaction);
                self.redo_stack.clear();
                assert(transaction_views(self.redo_stack@) =~= Seq::<Seq<ChangeSetView>>::empty());
            },
            None => {
                let mut changes: Vec<ChangeSet> = Vec::new();
                changes.push(change);
                let transaction = EditTransaction::new(changes);
                assert(transaction@ =~= seq![c]);
                self.undo_stack.push(transaction);
                self.redo_stack.clear();
                assert(transaction_views(self.undo_stack@) =~= transaction_views(
                    old(self).undo_stack@,
                ).push(seq![c]));
                assert(transaction_views(self.redo_stack@) =~= Seq::<Seq<ChangeSetView>>::empty());
            },
        }
    }

    /// Takes the most recent undoable transaction.
    pub fn pop_undo(&mut self) -> (t: Option<EditTransaction>)
        ensures
            old(self)@.undo.len() == 0 ==> t is None && final(self)@ == old(self)@,
            old(self)@.undo.len() > 0 ==> (t matches Some(tr) && tr@ == old(self)@.undo.last()
                && final(self)@ == (UndoManagerView { undo: old(self)@.undo.drop_last(), ..old(self)@ })),
    {
        let t = self.undo_stack.pop();
        proof {
            if old(self).undo_stack@.len() > 0 {
                assert(transaction_views(self.undo_stack@) =~= transaction_views(
                    old(self).undo_stack@,
                ).drop_last());
            }
        }
        t
    }

    /// Takes the most recent redoable transaction.
    pub fn pop_redo(&mut self) -> (t: Option<EditTransaction>)
        ensures
            old(self)@.redo.len() == 0 ==> t is None && final(self)@ == old(self)@,
            old(self)@.redo.len() > 0 ==> (t matches Some(tr) && tr@ == old(self)@.redo.last()
                && final(self)@ == (UndoManagerView { redo: old(self)@.redo.drop_last(), ..old(self)@ })),
    {
        let t = self.redo_stack.pop();
        proof {
            if old(self).redo_stack@.len() > 0 {
                assert(transaction_views(self.redo_stack@) =~= transaction_views(
                    old(self).redo_stack@,
                ).drop_last());
            }
        }
        t
    }

    pub fn push_undo(&mut self, transaction: EditTransaction)
        ensures
            final(self)@ == (UndoManagerView { undo: old(self)@.undo.push(transaction@), ..old(self)@ }),
    {
        self.undo_stack.push(transaction);
        assert(transaction_views(self.undo_stack@) =~= transaction_views(old(self).undo_stack@).push(
            transaction@,
        ));
    }

    pub fn push_redo(&mut self, transaction: EditTransaction)
        ensures
            final(self)@ == (UndoManagerView { redo: old(self)@.redo.push(transaction@), ..old(self)@ }),
    {
        self.redo_stack.push(transaction);
        assert(transaction_views(self.redo_stack@) =~= transaction_views(old(self).redo_stack@).push(
            transaction@,
        ));
    }
}

} // verus!
