use std::collections::HashMap;

use vstd::prelude::*;
use vstd::std_specs::iter::IteratorSpec;

use crate::application::commands::{opt_string_view, DocumentSnapshot, DocumentSnapshotView};
use crate::domain::document::{Document, DocumentId, DocumentSessionId, DocumentView};

verus! {

broadcast use vstd::std_specs::hash::group_hash_axioms;

/// `HashMap::get_mut`: a mutable reference to the value stored under `key`, if
/// any; what is written through it is what the map holds under `key` afterwards.
#[verifier::external_body]
pub(crate) fn map_get_mut<V>(map: &mut HashMap<u64, V>, key: u64) -> (r: Option<&mut V>)
    ensures
        old(map)@.contains_key(key) ==> r.is_some() && *r.unwrap() == old(map)@[key] && final(map)@
            == old(map)@.insert(key, *final(r.unwrap())),
        !old(map)@.contains_key(key) ==> r.is_none() && final(map)@ == old(map)@,
{
    map.get_mut(&key)
}

/// A document held by the editor, with the file it belongs to and the snapshot
/// last handed out for it, while it is still current.
#[derive(Debug, Clone, PartialEq, Eq)]
pub struct DocumentEntry {
    document: Document,
    path: Option<String>,
    cached_snapshot: Option<DocumentSnapshot>,
}

pub struct DocumentEntryView {
    pub document: DocumentView,
    pub path: Option<Seq<char>>,
    pub cached_snapshot: Option<DocumentSnapshotView>,
}

impl View for DocumentEntry {
    type V = DocumentEntryView;

    closed spec fn view(&self) -> DocumentEntryView {
        DocumentEntryView {
            document: self.document@,
            path: opt_string_view(self.path),
            cached_snapshot: match self.cached_snapshot {
                Some(s) => Some(s@),
                None => None,
            },
        }
    }
}

impl DocumentEntry {
    /// The entry's document is well formed.
    pub closed spec fn well_formed(&self) -> bool {
        self.document.well_formed()
    }

    pub fn new(document: Document, path: Option<String>) -> (e: Self)
        ensures
            e@ == (DocumentEntryView { document: document@, path: opt_string_view(path), cached_snapshot: None }),
            e.well_formed() == document.well_formed(),
    {
        Self { document, path, cached_snapshot: None }
    }

    pub fn document(&self) -> (d: &Document)
        ensures
            d@ == self@.document,
            d.well_formed() == self.well_formed(),
    {
        &self.document
    }

    pub fn document_mut(&mut self) -> (d: &mut Document)
        ensures
            d@ == old(self)@.document,
            d.well_formed() == old(self).well_formed(),
            final(self)@ == (DocumentEntryView { document: final(d)@, ..old(self)@ }),
            final(self).well_formed() == final(d).well_formed(),
    {
        &mut self.document
    }

    pub fn path(&self) -> (p: Option<&String>)
        ensures
            match p {
                Some(s) => self@.path == Some(s@),
                None => self@.path is None,
            },
    {
        self.path.as_ref()
    }

    pub fn cached_snapshot(&self) -> (s: Option<&DocumentSnapshot>)
        ensures
            match s {
                Some(snapshot) => self@.cached_snapshot == Some(snapshot@),
                None => self@.cached_snapshot is None,
            },
    {
        self.cached_snapshot.as_ref()
    }

    pub fn cache_snapshot(&mut self, snapshot: DocumentSnapshot)
        ensures
            final(self)@ == (DocumentEntryView { cached_snapshot: Some(snapshot@), ..old(self)@ }),
            final(self).well_formed() == old(self).well_formed(),
    {
        self.cached_snapshot = Some(snapshot);
    }

    pub fn clear_snapshot_cache(&mut self)
        ensures
            final(self)@ == (DocumentEntryView { cached_snapshot: None, ..old(self)@ }),
            final(self).well_formed() == old(self).well_formed(),
    {
        self.cached_snapshot = None;
    }

    /// Sets the file path; the cached snapshot, which names the old path, is dropped.
    pub fn set_path(&mut self, path: Option<String>)
        ensures
            final(self)@ == (DocumentEntryView { path: opt_string_view(path), cached_snapshot: None, ..old(self)@ }),
            final(self).well_formed() == old(self).well_formed(),
    {
        self.path = path;
        self.clear_snapshot_cache();
    }
}

/// The documents the editor holds, by identifier, and the sessions open on them.
#[derive(Debug)]
pub struct DocumentStore {
    next_id: u64,
    documents: HashMap<u64, DocumentEntry>,
    next_session_id: u64,
    sessions: HashMap<u64, u64>,
}

pub struct DocumentStoreView {
    pub next_id: u64,
    pub documents: Map<u64, DocumentEntryView>,
    pub next_session_id: u64,
    pub sessions: Map<u64, u64>,
}

/// The views of the entries of a map of documents.
pub open spec fn entry_views(documents: Map<u64, DocumentEntry>) -> Map<u64, DocumentEntryView> {
    documents.map_values(|e: DocumentEntry| e@)
}

/// Storing an entry stores its view.
pub broadcast proof fn lemma_entry_views_insert(m: Map<u64, DocumentEntry>, k: u64, v: DocumentEntry)
    ensures
        #[trigger] entry_views(m.insert(k, v)) == entry_views(m).insert(k, v@),
{
    assert(entry_views(m.insert(k, v)) =~= entry_views(m).insert(k, v@));
}

impl View for DocumentStore {
    type V = DocumentStoreView;

    closed spec fn view(&self) -> DocumentStoreView {
        DocumentStoreView {
            next_id: self.next_id,
            documents: entry_views(self.documents@),
            next_session_id: self.next_session_id,
            sessions: self.sessions@,
        }
    }
}

impl Default for DocumentStore {
    fn default() -> (s: Self)
        ensures
            s@ == (DocumentStoreView {
                next_id: 0,
                documents: Map::empty(),
                next_session_id: 0,
                sessions: Map::empty(),
            }),
            s.well_formed(),
    {
        let s = DocumentStore { next_id: 0, documents: HashMap::new(), next_session_id: 0, sessions: HashMap::new() };
        assert(entry_views(s.documents@) =~= Map::<u64, DocumentEntryView>::empty());
        s
    }
}

impl DocumentStore {
    /// Every document is well formed and stored under its own identifier, and no
    /// identifier of a document or a session lies past its counter.
    pub closed spec fn well_formed(&self) -> bool {
        &&& forall|k: u64| #[trigger] self.documents@.contains_key(k) ==> self.documents@[k].well_formed()
            && self.documents@[k]@.document.id == k && k <= self.next_id
        &&& forall|s: u64| #[trigger] self.sessions@.contains_key(s) ==> s <= self.next_session_id
    }

    /// No document or session held has an identifier past its counter, so the
    /// identifiers handed out next are held by none.
    pub proof fn lemma_ids_bounded(&self)
        requires
            self.well_formed(),
        ensures
            forall|k: u64| #[trigger] self@.documents.contains_key(k) ==> k <= self@.next_id,
            forall|s: u64| #[trigger] self@.sessions.contains_key(s) ==> s <= self@.next_session_id,
    {
        assert forall|k: u64| #[trigger] self@.documents.contains_key(k) implies k <= self@.next_id by {
            assert(self.documents@.contains_key(k));
        }
    }

    /// Whether the identifier counters leave room for one more document and session.
    pub fn has_open_room(&self) -> (b: bool)
        ensures
            b == (self@.next_id < u64::MAX && self@.next_session_id < u64::MAX),
    {
        self.next_id < u64::MAX && self.next_session_id < u64::MAX
    }

    /// The identifier for the next document: one more than the last one handed out.
    pub fn next_document_id(&mut self) -> (id: DocumentId)
        requires
            old(self)@.next_id < u64::MAX,
        ensures
            id@ == old(self)@.next_id + 1,
            final(self)@ == (DocumentStoreView { next_id: id@, ..old(self)@ }),
            old(self).well_formed() ==> final(self).well_formed(),
    {
        self.next_id = self.next_id + 1;
        DocumentId::new(self.next_id)
    }

    /// Stores `entry` under its document's identifier, in place of any entry there.
    /// The store stays well formed when that identifier was already handed out;
    /// one past the counter would later be handed out again.
    pub fn insert(&mut self, entry: DocumentEntry)
        requires
            old(self).well_formed(),
            entry.well_formed(),
        ensures
            entry@.document.id <= old(self)@.next_id ==> final(self).well_formed(),
            final(self)@ == (DocumentStoreView {
                documents: old(self)@.documents.insert(entry@.document.id, entry@),
                ..old(self)@
            }),
    {
        let id = entry.document().id().value();
        self.documents.insert(id, entry);
        proof {
            assert(entry_views(self.documents@) =~= entry_views(old(self).documents@).insert(id, entry@));
        }
    }

    pub fn get(&self, document_id: DocumentId) -> (e: Option<&DocumentEntry>)
        requires
            self.well_formed(),
        ensures
            match e {
                Some(entry) => self@.documents.contains_key(document_id@) && entry@ == self@.documents[document_id@]
                    && entry.well_formed() && entry@.document.id == document_id@,
                None => !self@.documents.contains_key(document_id@),
            },
    {
        self.documents.get(&document_id.value())
    }

    pub fn get_mut(&mut self, document_id: DocumentId) -> (e: Option<&mut DocumentEntry>)
        requires
            old(self).well_formed(),
        ensures
            old(self)@.documents.contains_key(document_id@) ==> e.is_some() && e.unwrap()@ == old(self)@.documents[document_id@]
                && e.unwrap().well_formed() && e.unwrap()@.document.id == document_id@ && (final(e.unwrap()).well_formed() && final(e.unwrap())@.document.id == document_id@
                ==> final(self).well_formed()) && final(self)@ == (DocumentStoreView {
                documents: old(self)@.documents.insert(document_id@, final(e.unwrap())@),
                ..old(self)@
            }),
            !old(self)@.documents.contains_key(document_id@) ==> e.is_none() && final(self)@ == old(self)@
                && final(self).well_formed(),
    {
        proof {
            broadcast use lemma_entry_views_insert;
        }
        map_get_mut(&mut self.documents, document_id.value())
    }

    pub fn remove(&mut self, document_id: DocumentId) -> (e: Option<DocumentEntry>)
        requires
            old(self).well_formed(),
        ensures
            final(self).well_formed(),
            final(self)@ == (DocumentStoreView { documents: old(self)@.documents.remove(document_id@), ..old(self)@ }),
            match e {
                Some(entry) => old(self)@.documents.contains_key(document_id@) && entry@ == old(self)@.documents[document_id@]
                    && entry.well_formed(),
                None => !old(self)@.documents.contains_key(document_id@),
            },
    {
        let e = self.documents.remove(&document_id.value());
        proof {
            assert(entry_views(self.documents@) =~= entry_views(old(self).documents@).remove(document_id@));
        }
        e
    }

    /// Opens a new session on document `document_id`, if the store holds it.
    pub fn open_session(&mut self, document_id: DocumentId) -> (s: Option<DocumentSessionId>)
        requires
            old(self).well_formed(),
            old(self)@.next_session_id < u64::MAX,
        ensures
            final(self).well_formed(),
            old(self)@.documents.contains_key(document_id@) ==> (s matches Some(sid) && sid@ == old(self)@.next_session_id + 1
                && final(self)@ == (DocumentStoreView {
                next_session_id: sid@,
                sessions: old(self)@.sessions.insert(sid@, document_id@),
                ..old(self)@
            })),
            !old(self)@.documents.contains_key(document_id@) ==> s is None && final(self)@ == old(self)@,
    {
        if !self.documents.contains_key(&document_id.value()) {
            return None;
        }
        self.next_session_id = self.next_session_id + 1;
        let sid = self.next_session_id;
        self.sessions.insert(sid, document_id.value());
        Some(DocumentSessionId::new(sid))
    }

    /// The document that session `session_id` is open on, if the session is open.
    pub fn resolve_session(&self, session_id: DocumentSessionId) -> (d: Option<DocumentId>)
        ensures
            self@.sessions.contains_key(session_id@) ==> (d matches Some(id) && id@ == self@.sessions[session_id@]),
            !self@.sessions.contains_key(session_id@) ==> d is None,
    {
        match self.sessions.get(&session_id.value()) {
            Some(id) => Some(DocumentId::new(*id)),
            None => None,
        }
    }

    /// Closes session `session_id`: gives the document it was open on, and whether
    /// no other session remains open on that document.
    pub fn close_session(&mut self, session_id: DocumentSessionId) -> (r: Option<(DocumentId, bool)>)
        requires
            old(self).well_formed(),
        ensures
            final(self).well_formed(),
            !old(self)@.sessions.contains_key(session_id@) ==> r is None && final(self)@ == old(self)@,
            old(self)@.sessions.contains_key(session_id@) ==> (r matches Some((id, last)) && id@ == old(self)@.sessions[session_id@]
                && final(self)@ == (DocumentStoreView { sessions: old(self)@.sessions.remove(session_id@), ..old(self)@ })
                && last == !final(self)@.sessions.values().contains(id@)),
    {
        let document_id = match self.sessions.remove(&session_id.value()) {
            Some(id) => id,
            None => {
                proof {
                    assert(self.sessions@ =~= old(self).sessions@);
                }
                return None;
            },
        };
        let ghost values = vstd::std_specs::hash::spec_values_iter(&self.sessions).remaining().unref();
        let mut still_open = false;
        let ghost mut seen: int = 0;
        for other in it: self.sessions.values()
            invariant
                it.seq().unref() == values,
                seen == it.index(),
                values.to_set() == self.sessions@.values(),
                still_open == exists|j: int| 0 <= j < seen && values[j] == document_id,
        {
            if *other == document_id {
                still_open = true;
            }
            proof {
                seen = seen + 1;
            }
        }
        proof {
            if self.sessions@.values().contains(document_id) {
                assert(values.to_set().contains(document_id));
                assert(values.contains(document_id));
                let j = choose|j: int| 0 <= j < values.len() && values[j] == document_id;
                assert(seen == values.len());
                assert(0 <= j < seen && values[j] == document_id);
            }
            if still_open {
                let j = choose|j: int| 0 <= j < seen && values[j] == document_id;
                assert(values.contains(document_id));
                assert(values.to_set().contains(document_id));
            }
        }
        Some((DocumentId::new(document_id), !still_open))
    }
}

} // verus!
