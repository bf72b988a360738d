//! An embedded, persistent key/value store.
//!
//! Keys and values are opaque byte sequences.  Every mutation is encoded as a
//! fixed-layout log record and appended to the active segment; an in-memory
//! ordered index (the memtable) holds the latest record per key.  Recovery
//! folds all prior segments into the memtable and rewrites them as a single
//! compacted segment.
//!
//! This crate holds the verified core: the record codec, the memtable, and
//! the engine's state transitions over the active segment's bytes.  Reading
//! and writing the actual files is left to the embedding process.

pub mod codec;
pub mod db;
pub mod entry;
pub mod memtable;
pub mod storage_reader;
