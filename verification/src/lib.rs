//! A reactive state container for a clipboard-snippet store.
//!
//! The crate owns a canonical mapping of snippet keys to values plus the
//! current search query, derives display-ready rows through pure selector
//! functions, serializes snapshots to a persistent text format, and routes
//! every mutation and subscription through one ordered dispatch step.

pub mod chars;
pub mod rows;
pub mod snapshot;
pub mod store;
pub mod state;
