//! The write path of one shard of a log-structured key-value store.
//!
//! Entries are appended to a log and never changed in place; an index maps the
//! first ten bytes of a key's hash to the log positions of the live entries, and
//! every entry names the hash of the key that follows its own, so that the live
//! entries form a list ordered by key hash. An [`updater::Updater`] applies the
//! operations of each task to the index and the log, and moves old live entries
//! to the end of the log when too much of it is dead.

pub mod active;
pub mod buffer;
pub mod bytes;
pub mod cache;
pub mod chain;
pub mod compaction;
pub mod compactor;
pub mod compare;
pub mod counting;
pub mod def;
pub mod effects;
pub mod entry;
pub mod error;
pub mod file;
pub mod hash;
pub mod indexer;
pub mod laws;
pub mod layout;
pub mod model;
pub mod numa_info;
pub mod numbering;
pub mod operations;
pub mod progress;
pub mod reads;
pub mod records;
pub mod schedule;
pub mod search;
pub mod sharding;
pub mod tasks;
pub mod topology;
pub mod updater;
pub mod versions;
