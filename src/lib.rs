//! An embedded, crash-recoverable key-value storage engine built on the
//! log-structured merge-tree pattern, with its logic verified.
//!
//! - [`wal`]: the log's record format and its replay into a [`memtable::MemTable`].
//! - [`memtable`]: the sorted write buffer, with tombstones and byte accounting.
//! - [`bloom`]: the membership filter of each table.
//! - [`sstable`]: immutable sorted tables and their file format.
//! - [`compaction`]: size tiers, which tables to merge, and the merge.
//! - [`ttl`]: key expiry.
//! - [`engine`]: the engine's state, its read and write paths, and flushes.

mod clock;
pub mod bloom;
pub mod compaction;
pub mod config;
pub mod engine;
pub mod error;
pub mod keys;
pub mod memtable;
pub mod sstable;
pub mod ttl;
pub mod types;
pub mod wal;
