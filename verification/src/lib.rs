//! Compaction and multi-version metadata core of an LSM storage engine.

pub mod barrier;
pub mod cluster;
pub mod compaction;
pub mod compactor;
pub mod delete_range;
pub mod error;
pub mod filter;
pub mod filter_key_extractor;
pub mod iterator;
pub mod key;
pub mod key_range;
pub mod manager;
pub mod ordered;
pub mod runner;
pub mod seqs;
pub mod sstable;
pub mod store;
pub mod task;
