//! An embedded, single-process, log-structured key-value store.
//!
//! Clients add `(key, value)` pairs of opaque byte strings and retrieve the
//! latest value for any key. Every write is framed and appended to a dirty
//! log, an in-memory memtable maps each key to the offset of its latest
//! record, and when the memtable outgrows a threshold its contents are
//! rewritten as a key-sorted segment. Segments are compacted pairwise with
//! newer-wins semantics. The engine here works over in-memory byte images
//! of the log and segment files; persisting those images is left to an
//! embedding shell.

pub mod codec;
pub mod db;
pub mod error;
pub mod laws;
mod memtable;
pub mod order;
pub mod records;
pub mod segment;

pub use db::Database;
pub use error::Error;
