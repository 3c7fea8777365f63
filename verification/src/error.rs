//! What can go wrong.

use vstd::prelude::*;
use crate::text::joined;
use crate::words::{option_text, option_view};

verus! {

/// An error of the library.
#[derive(Debug, Clone)]
pub enum Error {
    /// Storage failed, with a description.
    Storage(String),
    /// Consensus failed, with a description.
    Raft(String),
    /// This node is not the leader; the leader is named where it is known.
    NotLeader { leader_id: Option<u64> },
    /// There is no such key.
    KeyNotFound,
    /// A transaction met a concurrent change.
    TransactionConflict,
    /// Stored data is damaged, with a description.
    Corruption(String),
}

/// What an error says.
pub open spec fn message_of(e: Error) -> Seq<char> {
    match e {
        Error::Storage(m) => "storage error: "@ + m@,
        Error::Raft(m) => "raft error: "@ + m@,
        Error::NotLeader { leader_id } => "not leader: leader is node "@ + option_view(leader_id),
        Error::KeyNotFound => "key not found"@,
        Error::TransactionConflict => "transaction conflict"@,
        Error::Corruption(m) => "corruption: "@ + m@,
    }
}

impl Error {
    /// What the error says.
    pub fn message(&self) -> (r: String)
        ensures
            r@ == message_of(*self),
    {
        match self {
            Error::Storage(m) => joined("storage error: ", m.as_str()),
            Error::Raft(m) => joined("raft error: ", m.as_str()),
            Error::NotLeader { leader_id } => joined(
                "not leader: leader is node ",
                option_text(*leader_id).as_str(),
            ),
            Error::KeyNotFound => "key not found".to_string(),
            Error::TransactionConflict => "transaction conflict".to_string(),
            Error::Corruption(m) => joined("corruption: ", m.as_str()),
        }
    }
}

} // verus!
