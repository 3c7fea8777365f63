//! The messages that nodes exchange, and the entries of the log.

use vstd::prelude::*;
use crate::bytes::copy;
use crate::types::{LogIndex, NodeId, Term};

verus! {

/// Asks for a vote.
#[derive(Debug, Clone, Copy, PartialEq, Eq, Structural)]
pub struct VoteRequest {
    pub term: Term,
    pub candidate_id: NodeId,
    pub last_log_index: LogIndex,
    pub last_log_term: Term,
    pub is_pre_vote: bool,
}

/// Answers a request for a vote.
#[derive(Debug, Clone, Copy, PartialEq, Eq, Structural)]
pub struct VoteResponse {
    pub term: Term,
    pub vote_granted: bool,
}

/// What an entry is for.
#[derive(Debug, Clone, Copy, PartialEq, Eq, Structural)]
pub enum EntryType {
    Normal,
    ConfigChange,
    Noop,
}

/// An entry of the log.
#[derive(Debug, PartialEq, Eq)]
pub struct LogEntry {
    pub index: LogIndex,
    pub term: Term,
    pub data: Vec<u8>,
    pub entry_type: EntryType,
}

/// What an entry says.
pub struct EntryView {
    pub index: LogIndex,
    pub term: Term,
    pub data: Seq<u8>,
    pub entry_type: EntryType,
}

impl View for LogEntry {
    type V = EntryView;

    open spec fn view(&self) -> EntryView {
        EntryView {
            index: self.index,
            term: self.term,
            data: self.data@,
            entry_type: self.entry_type,
        }
    }
}

/// A row of entries.
pub open spec fn entries_view(entries: Seq<LogEntry>) -> Seq<EntryView> {
    Seq::new(entries.len(), |i: int| entries[i]@)
}

impl LogEntry {
    /// A copy of the entry.
    pub fn copied(&self) -> (r: Self)
        ensures
            r@ == self@,
    {
        LogEntry {
            index: self.index,
            term: self.term,
            data: copy(self.data.as_slice()),
            entry_type: self.entry_type,
        }
    }
}

/// A copy of a row of entries.
pub fn copy_log_entries(entries: &[LogEntry]) -> (r: Vec<LogEntry>)
    ensures
        entries_view(r@) == entries_view(entries@),
{
    let mut out: Vec<LogEntry> = Vec::with_capacity(entries.len());
    let mut i: usize = 0;
    while i < entries.len()
        invariant
            i <= entries.len(),
            out.len() == i,
            forall|j: int| 0 <= j < i ==> (#[trigger] out@[j])@ == entries@[j]@,
        decreases entries.len() - i,
    {
        out.push(entries[i].copied());
        i += 1;
    }
    assert(entries_view(out@) =~= entries_view(entries@));
    out
}

/// Hands entries to a follower, or just keeps its timer from running out.
#[derive(Debug)]
pub struct AppendRequest {
    pub term: Term,
    pub leader_id: NodeId,
    pub prev_log_index: LogIndex,
    pub prev_log_term: Term,
    pub entries: Vec<LogEntry>,
    pub leader_commit: LogIndex,
}

/// What a request to append says.
pub struct AppendView {
    pub term: Term,
    pub leader_id: NodeId,
    pub prev_log_index: LogIndex,
    pub prev_log_term: Term,
    pub entries: Seq<EntryView>,
    pub leader_commit: LogIndex,
}

impl View for AppendRequest {
    type V = AppendView;

    open spec fn view(&self) -> AppendView {
        AppendView {
            term: self.term,
            leader_id: self.leader_id,
            prev_log_index: self.prev_log_index,
            prev_log_term: self.prev_log_term,
            entries: entries_view(self.entries@),
            leader_commit: self.leader_commit,
        }
    }
}

impl AppendRequest {
    /// A copy of the request.
    pub fn copied(&self) -> (r: Self)
        ensures
            r@ == self@,
    {
        AppendRequest {
            term: self.term,
            leader_id: self.leader_id,
            prev_log_index: self.prev_log_index,
            prev_log_term: self.prev_log_term,
            entries: copy_log_entries(self.entries.as_slice()),
            leader_commit: self.leader_commit,
        }
    }
}

/// Answers a request to append.
#[derive(Debug, Clone, Copy, PartialEq, Eq, Structural)]
pub struct AppendResponse {
    pub term: Term,
    pub success: bool,
    pub match_index: LogIndex,
}

/// Tells a node to start an election at once.
#[derive(Debug, Clone, Copy, PartialEq, Eq, Structural)]
pub struct TimeoutNow {
    pub term: Term,
    pub leader_id: NodeId,
}

/// What became of a proposal.
#[derive(Debug, PartialEq, Eq)]
pub enum ProposalResult {
    Success { index: LogIndex },
    NotLeader { leader_id: Option<NodeId> },
    TransferInProgress,
    Error(String),
}

} // verus!
