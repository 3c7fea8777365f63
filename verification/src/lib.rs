//! A replicated key-value store: Raft consensus over a log-structured storage
//! engine with multi-version reads, leases and watches.
//!
//! Every module is executable code with contracts. Files, sockets, clocks and
//! threads stay with the embedding program, which hands this library plain
//! values and carries out the actions that it returns.

pub mod bytes;
pub mod clock;
pub mod text;
pub mod words;
pub mod types;
pub mod error;
pub mod metrics;
pub mod admin;
pub mod chaos;
pub mod client;
pub mod config;
pub mod consensus;
pub mod mvcc;
pub mod server;
pub mod storage;
