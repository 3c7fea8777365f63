//! What each event does to a node, as mathematics.

use vstd::prelude::*;
use crate::consensus::election::{at_least_as_recent, grants};
use crate::consensus::leadership_transfer::{new_transfer, taken_ms, TransferError, TransferView};
use crate::consensus::log::{
    compacted, contiguous, entry_at, extended, last_index_of, last_term_of, log_records,
    suffix_from, term_of, truncated, LogView,
};
use crate::consensus::membership::{
    change_begun, quorum, settled, voter_ids, ChangeView, MemberView, MembershipView,
};
use crate::consensus::message::{
    AppendResponse, AppendView, EntryType, EntryView, ProposalResult, VoteRequest, VoteResponse,
};
use crate::consensus::read_index::{acked, new_read, ReadView};
use crate::consensus::snapshot::{described, SnapshotMetadata};
use crate::consensus::state::{
    new_leader, ElectionView, LeaderView, PersistentState, RaftState, Role,
};
use crate::storage::wal::encode_records;
use crate::types::{LogIndex, NodeId, Term};

verus! {

/// The state of a node.
#[verifier::ext_equal]
pub struct NodeView {
    pub state: RaftState,
    pub log: LogView,
    /// The bytes that the write-ahead log of the log has yet to take up.
    pub wal: Seq<u8>,
    pub leader: Option<LeaderView>,
    pub election: Option<ElectionView>,
    pub reads: Map<u64, ReadView>,
    pub next_read: u64,
    pub transfer: Option<TransferView>,
    pub membership: MembershipView,
    pub peers: Seq<NodeId>,
    /// The term or the vote has changed since they were last saved.
    pub unsaved: bool,
}

/// The cluster has this many nodes.
pub open spec fn cluster_size_of(n: NodeView) -> nat {
    n.peers.len() + 1
}

pub open spec fn term_of_node(n: NodeView) -> Term {
    n.state.persistent.current_term
}

/// The node goes on as a follower in a newer term: its vote is free again, and
/// what it did as a leader or candidate is over.
pub open spec fn stepped_down(n: NodeView, term: Term) -> NodeView {
    NodeView {
        state: RaftState {
            role: Role::Follower,
            persistent: PersistentState { current_term: term, voted_for: None },
            leader_id: None,
            ..n.state
        },
        leader: None,
        election: None,
        reads: Map::empty(),
        transfer: None,
        membership: MembershipView {
            current: n.membership.current,
            pending: None,
            change_in_progress: false,
        },
        unsaved: true,
        ..n
    }
}

/// An election in which only the node itself has voted.
pub open spec fn own_vote(n: NodeView) -> ElectionView {
    ElectionView {
        votes: Set::empty().insert(n.state.id),
        cluster_size: cluster_size_of(n),
    }
}

/// The node asks whether it would win an election.
pub open spec fn pre_vote_started(n: NodeView) -> NodeView {
    NodeView {
        state: RaftState { role: Role::PreCandidate, ..n.state },
        election: Some(own_vote(n)),
        ..n
    }
}

/// The node stands for election in the next term.
pub open spec fn election_started(n: NodeView) -> NodeView {
    NodeView {
        state: RaftState {
            role: Role::Candidate,
            persistent: PersistentState {
                current_term: (term_of_node(n) + 1) as Term,
                voted_for: Some(n.state.id),
            },
            leader_id: None,
            ..n.state
        },
        election: Some(own_vote(n)),
        unsaved: true,
        ..n
    }
}

/// What the node asks its peers in an election of the given term.
pub open spec fn vote_request_of(n: NodeView, term: Term, is_pre_vote: bool) -> VoteRequest {
    VoteRequest {
        term,
        candidate_id: n.state.id,
        last_log_index: last_index_of(n.log),
        last_log_term: last_term_of(n.log),
        is_pre_vote,
    }
}

/// One message to every peer.
pub open spec fn to_peers<M>(n: NodeView, m: M) -> Seq<(NodeId, M)> {
    Seq::new(n.peers.len(), |i: int| (n.peers[i], m))
}

/// The node with entries appended to its log.
pub open spec fn with_entries(n: NodeView, es: Seq<EntryView>) -> NodeView {
    NodeView {
        log: extended(n.log, es),
        wal: n.wal + encode_records(log_records(es)),
        ..n
    }
}

/// The next entry of the node's log in its term.
pub open spec fn next_entry(n: NodeView, data: Seq<u8>, entry_type: EntryType) -> EntryView {
    EntryView {
        index: (last_index_of(n.log) + 1) as LogIndex,
        term: term_of_node(n),
        data,
        entry_type,
    }
}

/// A leader knows that it has an entry itself.
pub open spec fn self_matched(n: NodeView, index: LogIndex) -> NodeView {
    NodeView {
        leader: match n.leader {
            Some(l) => Some(
                LeaderView { match_index: l.match_index.insert(n.state.id, index), ..l },
            ),
            None => None,
        },
        ..n
    }
}

/// The node with one more entry of its own in the log.
pub open spec fn proposed(n: NodeView, data: Seq<u8>, entry_type: EntryType) -> NodeView {
    let e = next_entry(n, data, entry_type);
    self_matched(with_entries(n, seq![e]), e.index)
}

/// What a proposal of a client does, and how it is answered. Only a leader takes
/// it, and not while it hands leadership over.
pub open spec fn proposal_handled(n: NodeView, data: Seq<u8>) -> (
    NodeView,
    Result<LogIndex, ProposalResult>,
) {
    if n.state.role != Role::Leader {
        (n, Err(ProposalResult::NotLeader { leader_id: n.state.leader_id }))
    } else if n.transfer is Some {
        (n, Err(ProposalResult::TransferInProgress))
    } else {
        (
            proposed(n, data, EntryType::Normal),
            Ok((last_index_of(n.log) + 1) as LogIndex),
        )
    }
}

/// A peer has confirmed the leader to all reads that wait.
pub open spec fn leader_confirmed(n: NodeView, from: NodeId) -> NodeView {
    NodeView { reads: n.reads.map_values(|v: ReadView| acked(v, from)), ..n }
}

/// What an answer to a request to append does: where the peer has accepted, it
/// also confirms the leader.
pub open spec fn append_answered(
    n: NodeView,
    from: NodeId,
    response: AppendResponse,
    after: NodeView,
) -> bool {
    append_response_handled(
        if response.success {
            leader_confirmed(n, from)
        } else {
            n
        },
        from,
        response,
        after,
    )
}

/// What the message of a leader that hands over does: the requests of the election
/// that the node begins, if the message is not stale.
pub open spec fn takeover_handled(n: NodeView, term: Term) -> (
    NodeView,
    Seq<(NodeId, VoteRequest)>,
) {
    if term < term_of_node(n) {
        (n, Seq::empty())
    } else {
        (
            election_started(n),
            to_peers(n, vote_request_of(n, (term_of_node(n) + 1) as Term, false)),
        )
    }
}

/// What comes after the pre-votes: the requests of the election that the node
/// begins, if a peer has answered and enough would vote for it.
pub open spec fn pre_vote_ended(n: NodeView, answered: bool) -> (
    NodeView,
    Option<Seq<(NodeId, VoteRequest)>>,
) {
    if answered && election_decided(n) {
        (
            election_started(n),
            Some(to_peers(n, vote_request_of(n, (term_of_node(n) + 1) as Term, false))),
        )
    } else {
        (n, None)
    }
}

/// The description of a snapshot of the state machine's data; nothing where
/// nothing is committed.
pub open spec fn snapshot_of(n: NodeView, data: Seq<u8>) -> Option<SnapshotMetadata> {
    if n.state.commit_index == 0 {
        None
    } else {
        Some(
            described(
                n.state.commit_index,
                match term_of(n.log, n.state.commit_index) {
                    Some(t) => t,
                    None => 0,
                },
                data,
            ),
        )
    }
}

/// The log has grown so long that a snapshot is due.
pub open spec fn snapshot_due(n: NodeView, threshold: u64) -> bool {
    n.log.entries.len() > threshold
}

/// A node has use for a leader's snapshot.
pub open spec fn snapshot_wanted(n: NodeView, leader_term: Term, metadata: SnapshotMetadata) -> bool {
    leader_term >= term_of_node(n) && metadata.last_included_index > n.log.snapshot_index
}

/// A node that has begun a membership change; as it was, where that is refused.
pub open spec fn change_entered(n: NodeView, change: ChangeView) -> NodeView {
    match change_begun(n.membership, change) {
        Ok(membership) => NodeView { membership, ..n },
        Err(_) => n,
    }
}

/// A node that has taken up the entry of a joint phase.
pub open spec fn joint_taken(n: NodeView, next: Seq<MemberView>) -> NodeView {
    NodeView { membership: MembershipView { pending: Some(next), ..n.membership }, ..n }
}

/// A node that has taken over a configuration.
pub open spec fn config_taken(n: NodeView, members: Seq<MemberView>) -> NodeView {
    NodeView { membership: settled(members), ..n }
}

/// A read is registered with the node.
pub open spec fn read_begun(n: NodeView) -> NodeView {
    NodeView {
        reads: n.reads.insert(
            n.next_read,
            new_read(n.state.commit_index, n.state.id, n.membership.current.len()),
        ),
        next_read: (n.next_read + 1) as u64,
        ..n
    }
}

/// The node leads: it assumes that its peers have its log, and appends an empty
/// entry of its term.
pub open spec fn became_leader(n: NodeView) -> NodeView {
    let led = NodeView {
        state: RaftState { role: Role::Leader, leader_id: Some(n.state.id), ..n.state },
        election: None,
        leader: Some(new_leader(n.peers, last_index_of(n.log))),
        ..n
    };
    proposed(led, Seq::empty(), EntryType::Noop)
}

/// The node with a vote counted.
pub open spec fn vote_counted(n: NodeView, from: NodeId) -> NodeView {
    match n.election {
        Some(e) => NodeView {
            election: Some(
                ElectionView { votes: e.votes.insert(from), cluster_size: e.cluster_size },
            ),
            ..n
        },
        None => n,
    }
}

/// The votes of the node's election decide it: they are a majority of its
/// configuration and, during a membership change, of the new one too.
pub open spec fn election_decided(n: NodeView) -> bool {
    n.election matches Some(e) && quorum(n.membership, e.votes)
}

/// What an answer to a request for a vote does, and whether the node now leads.
pub open spec fn vote_response_handled(
    n: NodeView,
    from: NodeId,
    response: VoteResponse,
    was_pre_vote: bool,
) -> (NodeView, bool) {
    if response.term > term_of_node(n) {
        (stepped_down(n, response.term), false)
    } else if !response.vote_granted || n.election is None {
        (n, false)
    } else {
        let counted = vote_counted(n, from);
        if election_decided(counted) && !was_pre_vote {
            (became_leader(counted), true)
        } else {
            (counted, false)
        }
    }
}

/// What a request for a vote does, and how it is answered. A question before an
/// election changes nothing.
pub open spec fn vote_request_handled(n: NodeView, request: VoteRequest) -> (
    NodeView,
    VoteResponse,
) {
    if request.is_pre_vote {
        (
            n,
            VoteResponse {
                term: term_of_node(n),
                vote_granted: request.term > term_of_node(n) && at_least_as_recent(
                    request.last_log_term,
                    request.last_log_index,
                    last_term_of(n.log),
                    last_index_of(n.log),
                ),
            },
        )
    } else {
        let m = if request.term > term_of_node(n) {
            stepped_down(n, request.term)
        } else {
            n
        };
        let granted = grants(m.state, request, last_index_of(m.log), last_term_of(m.log));
        let after = if granted {
            NodeView {
                state: RaftState {
                    persistent: PersistentState {
                        voted_for: Some(request.candidate_id),
                        ..m.state.persistent
                    },
                    ..m.state
                },
                unsaved: true,
                ..m
            }
        } else {
            m
        };
        (after, VoteResponse { term: term_of_node(m), vote_granted: granted })
    }
}

/// How entries from a leader meet a log: the log without what conflicts with
/// them, and those of them that are new to it.
pub open spec fn resolved(l: LogView, es: Seq<EntryView>) -> (LogView, Seq<EntryView>)
    decreases es.len(),
{
    if es.len() == 0 {
        (l, Seq::empty())
    } else {
        let (m, fresh) = resolved(l, es.drop_last());
        let e = es.last();
        match entry_at(m, e.index) {
            Some(x) => if x.term != e.term {
                (truncated(m, (e.index - 1) as LogIndex), fresh.push(e))
            } else {
                (m, fresh)
            },
            None => (m, fresh.push(e)),
        }
    }
}

/// The commit index after a leader has announced its own.
pub open spec fn followed_commit(commit: LogIndex, leader_commit: LogIndex, last: LogIndex) -> LogIndex {
    if leader_commit > commit {
        if leader_commit <= last {
            leader_commit
        } else {
            last
        }
    } else {
        commit
    }
}

/// The node recognises a leader of a term that is not stale.
pub open spec fn leader_recognised(n: NodeView, term: Term, leader_id: NodeId) -> NodeView {
    let m = if term > term_of_node(n) {
        stepped_down(n, term)
    } else {
        n
    };
    NodeView {
        state: RaftState { role: Role::Follower, leader_id: Some(leader_id), ..m.state },
        ..m
    }
}

/// What a request to append does, and how it is answered.
pub open spec fn append_handled(n: NodeView, r: AppendView) -> (NodeView, AppendResponse) {
    if r.term < term_of_node(n) {
        (n, AppendResponse { term: term_of_node(n), success: false, match_index: 0 })
    } else {
        let m = leader_recognised(n, r.term, r.leader_id);
        if r.prev_log_index > 0 && term_of(m.log, r.prev_log_index) != Some(r.prev_log_term) {
            (
                m,
                AppendResponse {
                    term: term_of_node(m),
                    success: false,
                    match_index: last_index_of(m.log),
                },
            )
        } else {
            let (cut, fresh) = resolved(m.log, r.entries);
            let after = with_entries(NodeView { log: cut, ..m }, fresh);
            let last = last_index_of(after.log);
            (
                NodeView {
                    state: RaftState {
                        commit_index: followed_commit(
                            after.state.commit_index,
                            r.leader_commit,
                            last,
                        ),
                        ..after.state
                    },
                    ..after
                },
                AppendResponse { term: term_of_node(m), success: true, match_index: last },
            )
        }
    }
}

/// The next entry that a peer is to get.
pub open spec fn next_for(l: LeaderView, peer: NodeId) -> LogIndex {
    if l.next_index.contains_key(peer) {
        l.next_index[peer]
    } else {
        1
    }
}

/// A peer is behind the leader's snapshot: the entries that it is to get next are
/// no longer in the log, and it needs the snapshot instead.
pub open spec fn needs_snapshot(n: NodeView, l: LeaderView, peer: NodeId) -> bool {
    0 < n.log.snapshot_index && next_for(l, peer) <= n.log.snapshot_index
}

/// The peers that a leader sends entries to, and those that need its snapshot.
pub open spec fn peers_where(n: NodeView, behind: bool) -> Seq<NodeId> {
    match n.leader {
        Some(l) => if n.state.role == Role::Leader {
            n.peers.filter(|p: NodeId| needs_snapshot(n, l, p) == behind)
        } else {
            Seq::empty()
        },
        None => Seq::empty(),
    }
}

/// What a leader sends to the peers that do not need its snapshot.
pub open spec fn append_requests_of(n: NodeView) -> Seq<(NodeId, AppendView)> {
    let to = peers_where(n, false);
    Seq::new(to.len(), |i: int| (to[i], append_request_for(n, n.leader->0, to[i])))
}

/// A peer has taken up the leader's snapshot up to an index: it is to get the
/// entries after it.
pub open spec fn snapshot_taken(n: NodeView, peer: NodeId, index: LogIndex) -> NodeView {
    match n.leader {
        Some(l) => if n.state.role == Role::Leader {
            NodeView {
                leader: Some(
                    LeaderView {
                        next_index: l.next_index.insert(peer, (index + 1) as LogIndex),
                        ..l
                    },
                ),
                ..n
            }
        } else {
            n
        },
        None => n,
    }
}

/// What the leader sends to a peer.
pub open spec fn append_request_for(n: NodeView, l: LeaderView, peer: NodeId) -> AppendView {
    let next = next_for(l, peer);
    let prev: LogIndex = if next == 0 {
        0
    } else {
        (next - 1) as LogIndex
    };
    AppendView {
        term: term_of_node(n),
        leader_id: n.state.id,
        prev_log_index: prev,
        prev_log_term: match term_of(n.log, prev) {
            Some(t) => t,
            None => 0,
        },
        entries: suffix_from(n.log, next),
        leader_commit: n.state.commit_index,
    }
}

/// The nodes that are known to have the entry at an index.
pub open spec fn holders(l: LeaderView, index: LogIndex) -> Set<NodeId> {
    Set::new(|id: NodeId| l.match_index.contains_key(id) && l.match_index[id] >= index)
}

/// The leader may commit up to an index: some node has exactly it, it is new, a
/// quorum has it, and its entry is of the leader's term.
pub open spec fn committable(n: NodeView, l: LeaderView, index: LogIndex) -> bool {
    &&& index > n.state.commit_index
    &&& exists|id: NodeId| #[trigger] l.match_index.contains_key(id) && l.match_index[id] == index
    &&& quorum(n.membership, holders(l, index))
    &&& entry_at(n.log, index) matches Some(e) && e.term == term_of_node(n)
}

/// `index` is the commit index after the leader has advanced it as far as it
/// may.
pub open spec fn is_advanced(n: NodeView, index: LogIndex) -> bool {
    match n.leader {
        Some(l) => if exists|i: LogIndex| committable(n, l, i) {
            committable(n, l, index) && forall|i: LogIndex| committable(n, l, i) ==> i <= index
        } else {
            index == n.state.commit_index
        },
        None => index == n.state.commit_index,
    }
}

/// What a peer's answer to a request to append tells the leader.
pub open spec fn progress_noted(l: LeaderView, from: NodeId, response: AppendResponse) -> LeaderView {
    if response.success {
        LeaderView {
            match_index: l.match_index.insert(from, response.match_index),
            next_index: l.next_index.insert(from, (response.match_index + 1) as LogIndex),
        }
    } else {
        let next = if l.next_index.contains_key(from) {
            l.next_index[from]
        } else {
            1
        };
        LeaderView {
            next_index: l.next_index.insert(
                from,
                if next <= 2 {
                    1
                } else {
                    (next - 1) as LogIndex
                },
            ),
            ..l
        }
    }
}

/// What a peer's answer to a request to append does.
pub open spec fn append_response_handled(
    n: NodeView,
    from: NodeId,
    response: AppendResponse,
    after: NodeView,
) -> bool {
    if response.term > term_of_node(n) {
        after == stepped_down(n, response.term)
    } else if n.state.role != Role::Leader || n.leader is None {
        after == n
    } else {
        let noted = NodeView {
            leader: Some(progress_noted(n.leader->0, from, response)),
            ..n
        };
        &&& is_advanced(noted, after.state.commit_index)
        &&& after == NodeView {
            state: RaftState { commit_index: after.state.commit_index, ..noted.state },
            ..noted
        }
    }
}

/// The entries of a log with indices after `from` up to `to`.
pub open spec fn entries_between(l: LogView, from: LogIndex, to: LogIndex) -> Seq<EntryView>
    decreases to,
{
    if to <= from {
        Seq::empty()
    } else {
        let rest = entries_between(l, from, (to - 1) as LogIndex);
        match entry_at(l, to) {
            Some(e) => rest.push(e),
            None => rest,
        }
    }
}

/// The committed entries were handed out.
pub open spec fn applied_up(n: NodeView) -> NodeView {
    NodeView {
        state: RaftState {
            last_applied: if n.state.last_applied < n.state.commit_index {
                n.state.commit_index
            } else {
                n.state.last_applied
            },
            ..n.state
        },
        ..n
    }
}

/// What a snapshot from a leader does: one from a stale leader nothing; one that
/// is not newer, or that could not be stored, no more than that the leader is
/// recognised.
pub open spec fn snapshot_installed(
    n: NodeView,
    leader_term: Term,
    leader_id: NodeId,
    metadata: SnapshotMetadata,
    stored: bool,
) -> NodeView {
    if leader_term < term_of_node(n) {
        n
    } else {
        let m = leader_recognised(n, leader_term, leader_id);
        if metadata.last_included_index <= m.log.snapshot_index || !stored {
            m
        } else {
            let index = metadata.last_included_index;
            NodeView {
                log: compacted(m.log, index, metadata.last_included_term),
                state: RaftState {
                    commit_index: if index > m.state.commit_index {
                        index
                    } else {
                        m.state.commit_index
                    },
                    last_applied: if index > m.state.last_applied {
                        index
                    } else {
                        m.state.last_applied
                    },
                    ..m.state
                },
                ..m
            }
        }
    }
}

/// Why a leadership transfer is refused, if it is.
pub open spec fn transfer_refusal(n: NodeView, target: NodeId) -> Option<TransferError> {
    if n.state.role != Role::Leader {
        Some(TransferError::NotLeader)
    } else if target == n.state.id {
        Some(TransferError::AlreadyLeader)
    } else if n.transfer is Some {
        Some(TransferError::AlreadyInProgress)
    } else if !voter_ids(n.membership).contains(target) {
        Some(TransferError::TargetNotInCluster)
    } else {
        None
    }
}

/// The node begins to hand leadership over at a reading.
pub open spec fn transfer_begun(n: NodeView, target: NodeId, now: u128) -> NodeView {
    NodeView { transfer: Some(new_transfer(target, now)), ..n }
}

/// A transfer has taken longer than allowed at a reading.
pub open spec fn transfer_timed_out(n: NodeView, now: u128, timeout_ms: u64) -> bool {
    n.transfer matches Some(t) && taken_ms(t.started_at, now) > timeout_ms
}

/// The target of a transfer has the whole log and was not told yet.
pub open spec fn transfer_ready(n: NodeView) -> bool {
    &&& n.transfer matches Some(t) && {
        &&& !t.timeout_now_sent
        &&& last_index_of(n.log) <= (match n.leader {
            Some(l) => if l.match_index.contains_key(t.target) {
                l.match_index[t.target]
            } else {
                0
            },
            None => 0,
        })
    }
}

/// A look whether the target of a transfer can take over: the node after it, and
/// the target, where it is to be told now.
pub open spec fn transfer_checked(n: NodeView) -> (NodeView, Option<NodeId>) {
    if transfer_ready(n) {
        let t = n.transfer->0;
        (
            NodeView { transfer: Some(TransferView { timeout_now_sent: true, ..t }), ..n },
            Some(t.target),
        )
    } else {
        (n, None)
    }
}

/// The term never falls; within a term a vote that was given stays; and a
/// change of either is marked to be saved.
pub open spec fn vote_kept(before: NodeView, after: NodeView) -> bool {
    &&& term_of_node(after) >= term_of_node(before)
    &&& term_of_node(after) == term_of_node(before) && before.state.persistent.voted_for is Some
        ==> after.state.persistent.voted_for == before.state.persistent.voted_for
    &&& after.state.persistent != before.state.persistent ==> after.unsaved
}

/// A node grants its vote in a term to one candidate only: once it has granted
/// it, a request of another candidate in that term is refused.
pub proof fn law_one_vote_per_term(n: NodeView, a: VoteRequest, b: VoteRequest)
    requires
        !a.is_pre_vote,
        !b.is_pre_vote,
        a.term == b.term,
        vote_request_handled(n, a).1.vote_granted,
        vote_request_handled(vote_request_handled(n, a).0, b).1.vote_granted,
    ensures
        a.candidate_id == b.candidate_id,
{
}

/// A granted vote is one of the request's term, and is kept to be saved.
pub proof fn law_granted_vote_is_recorded(n: NodeView, request: VoteRequest)
    requires
        !request.is_pre_vote,
        vote_request_handled(n, request).1.vote_granted,
    ensures
        vote_request_handled(n, request).0.state.persistent == (PersistentState {
            current_term: request.term,
            voted_for: Some(request.candidate_id),
        }),
        vote_request_handled(n, request).0.unsaved,
        at_least_as_recent(
            request.last_log_term,
            request.last_log_index,
            last_term_of(n.log),
            last_index_of(n.log),
        ),
{
}

/// A question before an election changes nothing.
pub proof fn law_pre_vote_changes_nothing(n: NodeView, request: VoteRequest)
    requires
        request.is_pre_vote,
    ensures
        vote_request_handled(n, request).0 == n,
{
}

/// Entries that a leader sends: they follow the previous one without gaps.
pub open spec fn consecutive(es: Seq<EntryView>, prev: LogIndex) -> bool {
    forall|i: int| 0 <= i < es.len() ==> (#[trigger] es[i]).index == prev + 1 + i
}

/// How entries that follow an index in the log meet it, in detail.
pub proof fn lemma_resolved(l: LogView, es: Seq<EntryView>, prev: LogIndex)
    requires
        contiguous(l),
        consecutive(es, prev),
        l.snapshot_index <= prev <= last_index_of(l),
        last_index_of(l) == l.snapshot_index + l.entries.len(),
        prev + es.len() <= u64::MAX,
    ensures
        ({
            let (m, fresh) = resolved(l, es);
            let all = m.entries + fresh;
            &&& m.snapshot_index == l.snapshot_index
            &&& m.snapshot_term == l.snapshot_term
            &&& all.len() >= prev - l.snapshot_index + es.len()
            &&& forall|i: int| 0 <= i < all.len() ==> (#[trigger] all[i]).index
                == l.snapshot_index + 1 + i
            &&& forall|i: int|
                0 <= i < prev - l.snapshot_index ==> #[trigger] all[i] == l.entries[i]
            &&& forall|i: int|
                0 <= i < es.len() ==> #[trigger] all[prev - l.snapshot_index + i].term == es[i].term
            &&& fresh.len() > 0 ==> m.entries.len() + fresh.len() == prev - l.snapshot_index
                + es.len()
            &&& fresh.len() == 0 ==> m == l
            &&& fresh.len() <= es.len()
            &&& fresh == es.skip(es.len() - fresh.len())
            &&& fresh.len() > 0 ==> m.entries.len() >= prev - l.snapshot_index
            &&& m.entries.len() <= l.entries.len()
            &&& m.entries.len() < l.entries.len() ==> fresh.len() > 0
                && l.entries[m.entries.len() as int].term != es[es.len() - fresh.len()].term
            &&& forall|i: int| 0 <= i < m.entries.len() ==> #[trigger] m.entries[i] == l.entries[i]
        }),
    decreases es.len(),
{
    let base = prev - l.snapshot_index;
    if es.len() > 0 {
        let rest = es.drop_last();
        assert(consecutive(rest, prev)) by {
            assert forall|i: int| 0 <= i < rest.len() implies (#[trigger] rest[i]).index == prev + 1
                + i by {
                assert(es[i].index == prev + 1 + i);
            }
        }
        lemma_resolved(l, rest, prev);
        let (m0, f0) = resolved(l, rest);
        let e = es.last();
        let n = es.len() - 1;
        assert(es[n as int] == e);
        assert(e.index == prev + 1 + n);
        let place = e.index - m0.snapshot_index - 1;
        assert(place == base + n);
        let all0 = m0.entries + f0;
        let (m, fresh) = resolved(l, es);
        let all = m.entries + fresh;
        if f0.len() > 0 {
            assert(m0.entries.len() <= place);
            assert(entry_at(m0, e.index) is None);
            assert(all =~= all0.push(e));
            assert forall|i: int| 0 <= i < es.len() implies #[trigger] all[base + i].term
                == es[i].term by {
                if i < n {
                    assert(all0[base + i].term == rest[i].term);
                }
            }
        } else {
            assert(all0 =~= l.entries);
            if place < l.entries.len() {
                assert(entry_at(m0, e.index) == Some(l.entries[place]));
                if l.entries[place].term != e.term {
                    assert(m.entries =~= l.entries.take(place));
                    assert(all =~= l.entries.take(place).push(e));
                    assert forall|i: int| 0 <= i < es.len() implies #[trigger] all[base + i].term
                        == es[i].term by {
                        if i < n {
                            assert(all0[base + i].term == rest[i].term);
                        }
                    }
                } else {
                    assert(all =~= l.entries);
                    assert forall|i: int| 0 <= i < es.len() implies #[trigger] all[base + i].term
                        == es[i].term by {
                        if i < n {
                            assert(all0[base + i].term == rest[i].term);
                        }
                    }
                }
            } else {
                assert(entry_at(m0, e.index) is None);
                assert(all =~= l.entries.push(e));
                assert forall|i: int| 0 <= i < es.len() implies #[trigger] all[base + i].term
                    == es[i].term by {
                    if i < n {
                        assert(all0[base + i].term == rest[i].term);
                    }
                }
            }
        }
    } else {
        assert(l.entries + Seq::<EntryView>::empty() =~= l.entries);
    }
}

/// A contiguous log ends at its snapshot index plus its length.
pub proof fn lemma_contiguous_last(l: LogView)
    requires
        contiguous(l),
        l.snapshot_index + l.entries.len() <= u64::MAX,
    ensures
        last_index_of(l) == l.snapshot_index + l.entries.len(),
{
    if l.entries.len() > 0 {
        assert(l.entries[l.entries.len() - 1].index == l.snapshot_index + l.entries.len());
    }
}

/// A successful request to append leaves the follower's log without gaps,
/// unchanged up to the entry before the request's, and with the request's terms
/// from there on.
pub proof fn law_append_matches_leader(n: NodeView, r: AppendView)
    requires
        contiguous(n.log),
        n.log.snapshot_index + n.log.entries.len() <= u64::MAX,
        consecutive(r.entries, r.prev_log_index),
        n.log.snapshot_index <= r.prev_log_index,
        r.prev_log_index + r.entries.len() <= u64::MAX,
        append_handled(n, r).1.success,
    ensures
        ({
            let after = append_handled(n, r).0;
            &&& contiguous(after.log)
            &&& after.log.snapshot_index == n.log.snapshot_index
            &&& forall|i: LogIndex|
                n.log.snapshot_index < i <= r.prev_log_index ==> #[trigger] entry_at(after.log, i)
                    == entry_at(n.log, i)
            &&& forall|i: int|
                0 <= i < r.entries.len() ==> (entry_at(
                    after.log,
                    (#[trigger] r.entries[i]).index,
                ) matches Some(e) && e.term == r.entries[i].term)
        }),
{
    let m = leader_recognised(n, r.term, r.leader_id);
    assert(m.log == n.log);
    lemma_contiguous_last(n.log);
    let base = r.prev_log_index - n.log.snapshot_index;
    assert(r.prev_log_index <= last_index_of(n.log)) by {
        if r.prev_log_index > 0 {
            assert(term_of(n.log, r.prev_log_index) is Some);
        }
    }
    lemma_resolved(n.log, r.entries, r.prev_log_index);
    let (cut, fresh) = resolved(n.log, r.entries);
    let all = cut.entries + fresh;
    let after = append_handled(n, r).0;
    assert(after.log.entries == all);
    assert forall|i: LogIndex|
        n.log.snapshot_index < i <= r.prev_log_index implies #[trigger] entry_at(after.log, i)
        == entry_at(n.log, i) by {
        assert(all[i - n.log.snapshot_index - 1] == n.log.entries[i - n.log.snapshot_index - 1]);
    }
    assert forall|i: int| 0 <= i < r.entries.len() implies (entry_at(
        after.log,
        (#[trigger] r.entries[i]).index,
    ) matches Some(e) && e.term == r.entries[i].term) by {
        assert(r.entries[i].index == r.prev_log_index + 1 + i);
        assert(all[base + i].term == r.entries[i].term);
    }
}

/// A follower's commit index does not fall as long as its log still reaches it.
pub proof fn law_commit_follows(n: NodeView, r: AppendView)
    requires
        n.state.commit_index <= last_index_of(append_handled(n, r).0.log),
    ensures
        append_handled(n, r).0.state.commit_index >= n.state.commit_index,
        append_handled(n, r).0.state.commit_index > n.state.commit_index ==> append_handled(
            n,
            r,
        ).0.state.commit_index <= r.leader_commit,
{
}

/// A node that learns of a newer term gives up everything that it did as a
/// leader: waiting reads, a transfer and a membership change.
pub proof fn law_step_down_clears(n: NodeView, r: AppendView)
    requires
        r.term > term_of_node(n),
    ensures
        ({
            let after = append_handled(n, r).0;
            &&& after.state.role == Role::Follower
            &&& after.state.leader_id == Some(r.leader_id)
            &&& term_of_node(after) == r.term
            &&& after.reads == Map::<u64, ReadView>::empty()
            &&& after.transfer is None
            &&& after.membership.pending is None
            &&& !after.membership.change_in_progress
            &&& after.leader is None
            &&& after.election is None
        }),
{
}

} // verus!
