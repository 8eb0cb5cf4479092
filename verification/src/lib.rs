//! Scribe's editing core: a UTF-8 text document stored in a piece table, with a
//! line index, undo/redo history, cursor movement rules, and the application
//! services that open, edit, save and view documents.
pub mod application;
pub mod domain;
pub mod infrastructure;
pub mod interface;
