//! Raft consensus: elections, replication, membership and snapshots.

pub mod membership;
pub mod message;
pub mod state;
pub mod tick;
pub mod election;
pub mod read_index;
pub mod leadership_transfer;
pub mod log;
pub mod matching;
pub mod rpc;
pub mod safety;
pub mod snapshot;
pub mod transitions;
pub mod progress;
pub mod node;
