//! The log-structured storage engine.

pub mod bits;
pub mod block;
pub mod bloom;
pub mod footer;
pub mod run;
pub mod table_format;
pub mod sstable;
pub mod memtable;
pub mod wal;
pub mod layers;
pub mod manifest;
pub mod compaction;
pub mod stack;
pub mod engine;
pub mod wal_op;
pub mod disk;
pub mod lsm;
pub mod upkeep;
