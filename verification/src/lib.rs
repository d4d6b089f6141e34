//! Core of a local file-indexing agent: a recursive directory lister, a
//! file-metadata store, a change-event debouncer, and the coordinator that
//! merges the initial scan with live change events into one consistent index.

pub mod coordinator;
pub mod descriptor;
pub mod lister;
pub mod options;
pub mod store;
pub mod watcher;
