use std::collections::HashMap;

use vstd::prelude::*;

use super::document_store::map_get_mut;
use crate::domain::document::{DocumentSessionId, ViewportSessionId};

verus! {

broadcast use vstd::std_specs::hash::group_hash_axioms;

/// A window onto the lines of a document session: the first line shown and how
/// many lines are shown.
#[derive(Debug, Clone, Copy, PartialEq, Eq, Structural)]
pub struct ViewportSession {
    document_session_id: DocumentSessionId,
    top_line: usize,
    visible_line_count: usize,
}

impl ViewportSession {
    pub closed spec fn spec_document_session_id(&self) -> DocumentSessionId {
        self.document_session_id
    }

    pub closed spec fn spec_top_line(&self) -> usize {
        self.top_line
    }

    pub closed spec fn spec_visible_line_count(&self) -> usize {
        self.visible_line_count
    }

    /// The viewport with these fields, in specifications.
    pub closed spec fn spec_new(document_session_id: DocumentSessionId, top_line: usize, visible_line_count: usize) -> Self {
        ViewportSession { document_session_id, top_line, visible_line_count }
    }

    pub proof fn lemma_spec_new(document_session_id: DocumentSessionId, top_line: usize, visible_line_count: usize)
        ensures
            Self::spec_new(document_session_id, top_line, visible_line_count).document_session_id() == document_session_id,
            Self::spec_new(document_session_id, top_line, visible_line_count).top_line() == top_line,
            Self::spec_new(document_session_id, top_line, visible_line_count).visible_line_count() == visible_line_count,
    {
    }

    /// Viewports with the same session, top line and line count are the same viewport.
    pub proof fn lemma_fields_injective(a: Self, b: Self)
        ensures
            a.document_session_id() == b.document_session_id() && a.top_line() == b.top_line()
                && a.visible_line_count() == b.visible_line_count() ==> a == b,
    {
    }

    #[verifier::when_used_as_spec(spec_new)]
    pub fn new(document_session_id: DocumentSessionId, top_line: usize, visible_line_count: usize) -> (v: Self)
        ensures
            v == Self::spec_new(document_session_id, top_line, visible_line_count),
            v.document_session_id() == document_session_id,
            v.top_line() == top_line,
            v.visible_line_count() == visible_line_count,
    {
        Self { document_session_id, top_line, visible_line_count }
    }

    #[verifier::when_used_as_spec(spec_document_session_id)]
    pub fn document_session_id(&self) -> (s: DocumentSessionId)
        ensures
            s == self.document_session_id(),
    {
        self.document_session_id
    }

    #[verifier::when_used_as_spec(spec_top_line)]
    pub fn top_line(&self) -> (l: usize)
        ensures
            l == self.top_line(),
    {
        self.top_line
    }

    #[verifier::when_used_as_spec(spec_visible_line_count)]
    pub fn visible_line_count(&self) -> (n: usize)
        ensures
            n == self.visible_line_count(),
    {
        self.visible_line_count
    }

    pub fn set_top_line(&mut self, top_line: usize)
        ensures
            *final(self) == Self::spec_new(old(self).document_session_id(), top_line, old(self).visible_line_count()),
            final(self).top_line() == top_line,
            final(self).document_session_id() == old(self).document_session_id(),
            final(self).visible_line_count() == old(self).visible_line_count(),
    {
        self.top_line = top_line;
    }
}

/// The open viewports, by viewport session number.
#[derive(Debug)]
pub struct ViewportStore {
    next_viewport_id: u64,
    viewports: HashMap<u64, ViewportSession>,
}

pub struct ViewportStoreView {
    pub next_viewport_id: u64,
    pub viewports: Map<u64, ViewportSession>,
}

impl View for ViewportStore {
    type V = ViewportStoreView;

    closed spec fn view(&self) -> ViewportStoreView {
        ViewportStoreView { next_viewport_id: self.next_viewport_id, viewports: self.viewports@ }
    }
}

impl Default for ViewportStore {
    fn default() -> (s: Self)
        ensures
            s@ == (ViewportStoreView { next_viewport_id: 0, viewports: Map::empty() }),
    {
        ViewportStore { next_viewport_id: 0, viewports: HashMap::new() }
    }
}

/// The number of lines a new viewport shows: at least one.
pub open spec fn shown_line_count(requested: usize) -> usize {
    if requested > 1 {
        requested
    } else {
        1
    }
}

impl ViewportStore {
    /// Opens a viewport on session `document_session_id`, showing at least one line;
    /// it gets the number after the last one handed out.
    pub fn create_viewport(
        &mut self,
        document_session_id: DocumentSessionId,
        top_line: usize,
        visible_line_count: usize,
    ) -> (id: ViewportSessionId)
        requires
            old(self)@.next_viewport_id < u64::MAX,
        ensures
            id@ == old(self)@.next_viewport_id + 1,
            final(self)@ == (ViewportStoreView {
                next_viewport_id: id@,
                viewports: old(self)@.viewports.insert(
                    id@,
                    ViewportSession::spec_new(document_session_id, top_line, shown_line_count(visible_line_count)),
                ),
            }),
    {
        self.next_viewport_id = self.next_viewport_id + 1;
        let viewport_session_id = ViewportSessionId::new(self.next_viewport_id);
        let shown = if visible_line_count > 1 {
            visible_line_count
        } else {
            1
        };
        self.viewports.insert(
            viewport_session_id.value(),
            ViewportSession::new(document_session_id, top_line, shown),
        );
        viewport_session_id
    }

    pub fn get(&self, viewport_session_id: ViewportSessionId) -> (v: Option<&ViewportSession>)
        ensures
            match v {
                Some(viewport) => self@.viewports.contains_key(viewport_session_id@) && *viewport
                    == self@.viewports[viewport_session_id@],
                None => !self@.viewports.contains_key(viewport_session_id@),
            },
    {
        self.viewports.get(&viewport_session_id.value())
    }

    pub fn get_mut(&mut self, viewport_session_id: ViewportSessionId) -> (v: Option<&mut ViewportSession>)
        ensures
            old(self)@.viewports.contains_key(viewport_session_id@) ==> v.is_some() && *v.unwrap()
                == old(self)@.viewports[viewport_session_id@] && final(self)@ == (ViewportStoreView {
                viewports: old(self)@.viewports.insert(viewport_session_id@, *final(v.unwrap())),
                ..old(self)@
            }),
            !old(self)@.viewports.contains_key(viewport_session_id@) ==> v.is_none() && final(self)@ == old(self)@,
    {
        map_get_mut(&mut self.viewports, viewport_session_id.value())
    }
}

} // verus!
