//! `kvs` is a log-structured key/value store engine.
//!
//! All mutations are appended as records to numbered segments; an index maps each key to
//! the byte range of its latest record; compaction rewrites the live records into a fresh
//! segment and retires the old ones; on open the index is rebuilt by replaying the
//! segments.
//!
//! The library holds the segments of the data directory as byte strings and is verified
//! against that model: what a key reads after any sequence of mutations, that a store
//! which is closed, or cut off in the middle of a record, reads after reopening what was
//! written whole, that a compaction leaves the live records and nothing else, and that
//! the directory holds no more than the records indexed and the stale bytes counted. It does
//! no input or output itself: [`engines::kvs::sync`] plans the file operations that bring
//! a directory on disk up to the segments.

/// Protocol used for communicating between client and server.
pub mod common;
pub mod engines;
pub mod error;
/// The interface of thread pools.
pub mod thread_pool;

pub use crate::engines::{KvStore, KvsEngine, SledStore};
pub use crate::error::Error;
