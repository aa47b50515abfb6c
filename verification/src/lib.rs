//! Write path and concurrency core of an embedded log-structured merge-tree
//! key-value engine: memtable, segment writer and on-disk codec, descriptor
//! table, snapshot tracker, transaction oracle, and the flush monitor policy.

pub mod config;
pub mod descriptor_table;
pub mod error;
pub mod id;
pub mod memtable;
pub mod monitor;
pub mod prefix;
pub mod segment;
pub mod snapshot_tracker;
pub mod tx;
pub mod value;
