//! The calls between nodes.

use vstd::prelude::*;
use crate::bytes::copy;
use crate::consensus::message::{
    entries_view, AppendRequest, AppendResponse, AppendView, EntryType, EntryView, LogEntry,
    TimeoutNow, VoteRequest, VoteResponse,
};
use crate::consensus::log::all_loggable;
use crate::consensus::node::RaftNode;
use crate::consensus::snapshot::SnapshotMetadata;
use crate::consensus::transitions::{
    append_handled, election_started, snapshot_installed, takeover_handled, term_of_node,
    transfer_begun, transfer_refusal, vote_request_handled,
};
use crate::server::status::{refused, transfer_error_text, transfer_error_view, Status, StatusCode};
use crate::types::{LogIndex, NodeId, Term};

verus! {

/// What an entry is for, as a number.
pub open spec fn type_number(entry_type: EntryType) -> i32 {
    match entry_type {
        EntryType::Normal => 0,
        EntryType::ConfigChange => 1,
        EntryType::Noop => 2,
    }
}

/// What a number says that an entry is for; an unknown number stands for an
/// ordinary entry.
pub open spec fn type_of_number(n: i32) -> EntryType {
    if n == 1 {
        EntryType::ConfigChange
    } else if n == 2 {
        EntryType::Noop
    } else {
        EntryType::Normal
    }
}

/// An entry as it is sent.
#[derive(Debug, PartialEq, Eq)]
pub struct WireEntry {
    pub index: LogIndex,
    pub term: Term,
    pub data: Vec<u8>,
    pub entry_type: i32,
}

/// What a sent entry says.
pub struct WireView {
    pub index: LogIndex,
    pub term: Term,
    pub data: Seq<u8>,
    pub entry_type: i32,
}

impl View for WireEntry {
    type V = WireView;

    open spec fn view(&self) -> WireView {
        WireView {
            index: self.index,
            term: self.term,
            data: self.data@,
            entry_type: self.entry_type,
        }
    }
}

pub open spec fn wire_view(entries: Seq<WireEntry>) -> Seq<WireView> {
    Seq::new(entries.len(), |i: int| entries[i]@)
}

/// An entry as it is sent.
pub open spec fn sent(e: EntryView) -> WireView {
    WireView { index: e.index, term: e.term, data: e.data, entry_type: type_number(e.entry_type) }
}

/// An entry as it is received.
pub open spec fn received(e: WireView) -> EntryView {
    EntryView {
        index: e.index,
        term: e.term,
        data: e.data,
        entry_type: type_of_number(e.entry_type),
    }
}

/// What is sent arrives.
pub proof fn law_sent_is_received(entries: Seq<EntryView>)
    ensures
        entries.map_values(|e: EntryView| sent(e)).map_values(|w: WireView| received(w))
            == entries,
{
    assert(entries.map_values(|e: EntryView| sent(e)).map_values(|w: WireView| received(w))
        =~= entries);
}

/// A request to append as it is sent.
#[derive(Debug)]
pub struct WireAppendRequest {
    pub term: Term,
    pub leader_id: NodeId,
    pub prev_log_index: LogIndex,
    pub prev_log_term: Term,
    pub entries: Vec<WireEntry>,
    pub leader_commit: LogIndex,
}

/// What a sent request to append says.
pub struct WireAppendView {
    pub term: Term,
    pub leader_id: NodeId,
    pub prev_log_index: LogIndex,
    pub prev_log_term: Term,
    pub entries: Seq<WireView>,
    pub leader_commit: LogIndex,
}

impl View for WireAppendRequest {
    type V = WireAppendView;

    open spec fn view(&self) -> WireAppendView {
        WireAppendView {
            term: self.term,
            leader_id: self.leader_id,
            prev_log_index: self.prev_log_index,
            prev_log_term: self.prev_log_term,
            entries: wire_view(self.entries@),
            leader_commit: self.leader_commit,
        }
    }
}

/// A request to append as it is sent.
pub open spec fn append_sent(a: AppendView) -> WireAppendView {
    WireAppendView {
        term: a.term,
        leader_id: a.leader_id,
        prev_log_index: a.prev_log_index,
        prev_log_term: a.prev_log_term,
        entries: a.entries.map_values(|e: EntryView| sent(e)),
        leader_commit: a.leader_commit,
    }
}

/// A request to append as it is received.
pub open spec fn append_received(w: WireAppendView) -> AppendView {
    AppendView {
        term: w.term,
        leader_id: w.leader_id,
        prev_log_index: w.prev_log_index,
        prev_log_term: w.prev_log_term,
        entries: w.entries.map_values(|e: WireView| received(e)),
        leader_commit: w.leader_commit,
    }
}

fn number_of_type(entry_type: EntryType) -> (r: i32)
    ensures
        r == type_number(entry_type),
{
    match entry_type {
        EntryType::Normal => 0,
        EntryType::ConfigChange => 1,
        EntryType::Noop => 2,
    }
}

fn type_from_number(n: i32) -> (r: EntryType)
    ensures
        r == type_of_number(n),
{
    if n == 1 {
        EntryType::ConfigChange
    } else if n == 2 {
        EntryType::Noop
    } else {
        EntryType::Normal
    }
}

/// A peer, as a node calls it.
#[derive(Debug)]
pub struct PeerClient {
    pub node_id: NodeId,
    pub address: String,
}

impl PeerClient {
    pub fn new(node_id: NodeId, address: String) -> (r: Self)
        ensures
            r.node_id == node_id,
            r.address == address,
    {
        PeerClient { node_id, address }
    }

    /// A request to append as it is sent to the peer.
    pub fn append_entries(&self, req: &AppendRequest) -> (r: WireAppendRequest)
        ensures
            r@ == append_sent(req@),
    {
        let mut entries: Vec<WireEntry> = Vec::new();
        let mut i: usize = 0;
        while i < req.entries.len()
            invariant
                i <= req.entries.len(),
                entries.len() == i,
                forall|j: int| 0 <= j < i ==> (#[trigger] entries@[j])@ == sent(req.entries@[j]@),
            decreases req.entries.len() - i,
        {
            let e: &LogEntry = &req.entries[i];
            entries.push(
                WireEntry {
                    index: e.index,
                    term: e.term,
                    data: copy(e.data.as_slice()),
                    entry_type: number_of_type(e.entry_type),
                },
            );
            i += 1;
        }
        let r = WireAppendRequest {
            term: req.term,
            leader_id: req.leader_id,
            prev_log_index: req.prev_log_index,
            prev_log_term: req.prev_log_term,
            entries,
            leader_commit: req.leader_commit,
        };
        assert(r@.entries =~= append_sent(req@).entries);
        r
    }
}

/// Answers the calls of other nodes.
#[derive(Debug, Clone, Copy)]
pub struct RaftRpcServer {}

impl RaftRpcServer {
    pub fn new() -> (r: Self)
        ensures
            r == (RaftRpcServer {  }),
    {
        RaftRpcServer {  }
    }

    /// Answers a request for a vote.
    pub fn request_vote(&self, node: &mut RaftNode, request: VoteRequest) -> (r: VoteResponse)
        requires
            old(node).well_formed(),
        ensures
            final(node).well_formed(),
            (final(node)@, r) == vote_request_handled(old(node)@, request),
    {
        node.handle_vote_request(request)
    }

    /// Answers a request to append.
    pub fn append_entries(&self, node: &mut RaftNode, request: &WireAppendRequest) -> (r:
        AppendResponse)
        requires
            old(node).well_formed(),
            all_loggable(append_received(request@).entries),
        ensures
            final(node).well_formed(),
            (final(node)@, r) == append_handled(old(node)@, append_received(request@)),
    {
        let mut entries: Vec<LogEntry> = Vec::new();
        let mut i: usize = 0;
        while i < request.entries.len()
            invariant
                i <= request.entries.len(),
                entries.len() == i,
                forall|j: int|
                    0 <= j < i ==> (#[trigger] entries@[j])@ == received(request.entries@[j]@),
            decreases request.entries.len() - i,
        {
            let e: &WireEntry = &request.entries[i];
            entries.push(
                LogEntry {
                    index: e.index,
                    term: e.term,
                    data: copy(e.data.as_slice()),
                    entry_type: type_from_number(e.entry_type),
                },
            );
            i += 1;
        }
        assert(entries_view(entries@) =~= append_received(request@).entries);
        node.handle_append_entries(
            AppendRequest {
                term: request.term,
                leader_id: request.leader_id,
                prev_log_index: request.prev_log_index,
                prev_log_term: request.prev_log_term,
                entries,
                leader_commit: request.leader_commit,
            },
        )
    }

    /// Takes up a snapshot that a leader has sent because the node is behind it;
    /// `stored` says whether it, where it is needed, was found intact and stored.
    /// Answers with the term.
    pub fn install_snapshot(
        &self,
        node: &mut RaftNode,
        leader_term: Term,
        leader_id: NodeId,
        metadata: &SnapshotMetadata,
        stored: bool,
    ) -> (r: Term)
        requires
            old(node).well_formed(),
        ensures
            final(node).well_formed(),
            final(node)@ == snapshot_installed(
                old(node)@,
                leader_term,
                leader_id,
                *metadata,
                stored,
            ),
            r == term_of_node(final(node)@),
    {
        node.handle_install_snapshot(leader_term, leader_id, metadata, stored)
    }

    /// Begins to hand leadership to another node.
    pub fn transfer_leadership(&self, node: &mut RaftNode, transferee: NodeId) -> (r: Result<
        (),
        Status,
    >)
        requires
            old(node).well_formed(),
        ensures
            final(node).well_formed(),
            match transfer_refusal(old(node)@, transferee) {
                Some(e) => {
                    &&& refused(r, StatusCode::FailedPrecondition, transfer_error_view(e))
                    &&& final(node)@ == old(node)@
                },
                None => {
                    &&& r == Ok::<(), Status>(())
                    &&& exists|now: u128|
                        final(node)@ == #[trigger] transfer_begun(old(node)@, transferee, now)
                },
            },
    {
        match node.transfer_leadership(transferee) {
            Ok(()) => Ok(()),
            Err(e) => Err(
                Status { code: StatusCode::FailedPrecondition, message: transfer_error_text(e) },
            ),
        }
    }

    /// Stands for election at once, as a leader that hands over asks; answers
    /// with the term.
    pub fn timeout_now(&self, node: &mut RaftNode, msg: TimeoutNow) -> (r: Term)
        requires
            old(node).well_formed(),
            term_of_node(old(node)@) < u64::MAX,
            old(node)@.peers.len() < usize::MAX,
        ensures
            final(node).well_formed(),
            final(node)@ == if msg.term < term_of_node(old(node)@) {
                old(node)@
            } else {
                election_started(old(node)@)
            },
            final(node)@ == takeover_handled(old(node)@, msg.term).0,
            r == term_of_node(final(node)@),
    {
        let _ = node.handle_timeout_now(msg);
        node.term()
    }
}

/// A request to append arrives as it was sent, every part of it.
pub proof fn law_requests_arrive_whole(a: AppendView)
    ensures
        append_received(append_sent(a)) == a,
        append_sent(a).entries.len() == a.entries.len(),
{
    law_sent_is_received(a.entries);
    assert(append_sent(a).entries.map_values(|e: WireView| received(e)) =~= a.entries) by {
        assert forall|i: int| 0 <= i < a.entries.len() implies received(sent(#[trigger] a.entries[i]))
            == a.entries[i] by {
            let all = a.entries.map_values(|e: EntryView| sent(e)).map_values(
                |w: WireView| received(w),
            );
            assert(all[i] == received(sent(a.entries[i])));
        }
    }
}

} // verus!
