pub mod document_store;
pub mod viewport_store;

pub use document_store::{
    entry_views, lemma_entry_views_insert, DocumentEntry, DocumentEntryView, DocumentStore, DocumentStoreView,
};
pub use viewport_store::{shown_line_count, ViewportSession, ViewportStore, ViewportStoreView};
