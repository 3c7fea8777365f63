//! Settings of the storage engine and of consensus.

use std::collections::HashMap;
use vstd::prelude::*;
use crate::types::NodeId;

verus! {

/// Settings of the storage engine. The rate of false positives that a Bloom
/// filter aims at belongs to whoever sizes the filters.
#[derive(Debug, Clone)]
pub struct StorageConfig {
    /// The directory of all data files.
    pub data_dir: String,
    /// The size in bytes at which a memtable is flushed.
    pub memtable_size_limit: usize,
    /// How many tables a level may have before it is compacted.
    pub level_size_ratio: usize,
    /// The size in bytes that data blocks aim at.
    pub block_size: usize,
}

impl Default for StorageConfig {
    fn default() -> (r: Self)
        ensures
            r.data_dir@ == "data"@,
            r.memtable_size_limit == 4 * 1024 * 1024,
            r.level_size_ratio == 10,
            r.block_size == 4096,
    {
        StorageConfig {
            data_dir: "data".to_string(),
            memtable_size_limit: 4 * 1024 * 1024,
            level_size_ratio: 10,
            block_size: 4096,
        }
    }
}

/// Settings of consensus.
#[derive(Debug)]
pub struct RaftConfig {
    pub node_id: NodeId,
    pub election_timeout_min_ms: u64,
    pub election_timeout_max_ms: u64,
    pub heartbeat_interval_ms: u64,
    /// How many log entries call for a snapshot.
    pub snapshot_threshold: u64,
    /// The addresses of the peers.
    pub peers: HashMap<NodeId, String>,
}

impl Default for RaftConfig {
    fn default() -> (r: Self)
        ensures
            r.node_id == 1,
            r.election_timeout_min_ms == 150,
            r.election_timeout_max_ms == 300,
            r.heartbeat_interval_ms == 50,
            r.snapshot_threshold == 10_000,
            r.peers@ == Map::<NodeId, String>::empty(),
    {
        RaftConfig {
            node_id: 1,
            election_timeout_min_ms: 150,
            election_timeout_max_ms: 300,
            heartbeat_interval_ms: 50,
            snapshot_threshold: 10_000,
            peers: HashMap::new(),
        }
    }
}

} // verus!
