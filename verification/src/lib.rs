//! An embedded key-value store that keeps its state in an append-only log.
//!
//! The library holds the storage engine: the record format, the replay of a
//! log into an index, the index itself, compaction and the lookup of values
//! by a pattern on their keys. It does no I/O. Every mutation returns the
//! bytes that the caller has to write, and the store tracks, as ghost state,
//! the contents that the log then has.

pub mod codec;
pub mod index;
pub mod pattern;
pub mod replay;
pub mod store;
