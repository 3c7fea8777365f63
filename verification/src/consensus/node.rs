//! A node of the cluster.
//!
//! Every event is a method; what it does is said by a function of
//! `transitions`. The embedding program carries messages, appends the bytes of
//! `take_wal` to the node's log file and saves the state of `take_unsaved`,
//! both before any message that a method returned is sent.

use std::collections::HashSet;
use vstd::prelude::*;
use crate::consensus::election::{is_log_up_to_date, should_grant_vote};
use crate::consensus::leadership_transfer::{
    new_transfer, TransferError, TransferState, TransferView,
};
use crate::consensus::log::{
    all_loggable, decode_log, entry_at, last_index_of, log_records, loggable, term_of, LogView,
    RaftLog,
};
use crate::consensus::membership::{
    change_begun, changed_members, initial_members, quorum, voter_ids, ClusterConfig, ConfigChange,
    JointConfigData, MembershipError, MembershipState, MembershipView,
};
use crate::consensus::message::{
    copy_log_entries, entries_view, AppendRequest, AppendResponse, AppendView, EntryType, EntryView,
    LogEntry, ProposalResult, TimeoutNow, VoteRequest, VoteResponse,
};
use crate::consensus::read_index::{acked, confirmed, new_read, ReadIndexState, ReadView};
use crate::consensus::snapshot::{described, SnapshotManager, SnapshotMetadata};
use crate::consensus::state::{
    pairs_of, ElectionState, LeaderState, PersistentState, RaftState, Role,
};
use crate::consensus::tick::TickConfig;
use crate::consensus::transitions::{
    append_handled, append_request_for, append_requests_of, append_response_handled, applied_up,
    became_leader, change_entered, cluster_size_of, committable, config_taken, election_decided,
    election_started, entries_between, holders, is_advanced, joint_taken, leader_confirmed,
    leader_recognised, needs_snapshot, peers_where, pre_vote_started, progress_noted,
    proposal_handled, proposed, read_begun, resolved, snapshot_due, snapshot_installed, snapshot_of,
    snapshot_taken, snapshot_wanted, stepped_down, takeover_handled, term_of_node, to_peers,
    transfer_begun, transfer_checked, transfer_ready, transfer_refusal, transfer_timed_out,
    vote_kept, vote_request_handled, vote_request_of, vote_response_handled, with_entries, NodeView,
};
use crate::error::Error;
use crate::storage::wal::{encode_records, valid_records};
use crate::types::{LogIndex, NodeId, Term};

verus! {

broadcast use vstd::std_specs::hash::group_hash_axioms;

/// How a node is set up.
#[derive(Debug)]
pub struct NodeConfig {
    pub id: NodeId,
    pub peers: Vec<NodeId>,
    pub data_dir: String,
    pub tick_config: TickConfig,
}

/// A node of the cluster.
#[derive(Debug)]
pub struct RaftNode {
    state: RaftState,
    log: RaftLog,
    leader_state: Option<LeaderState>,
    election_state: Option<ElectionState>,
    read_index_state: ReadIndexState,
    transfer_state: Option<TransferState>,
    membership: MembershipState,
    config: NodeConfig,
    unsaved: bool,
}

impl View for RaftNode {
    type V = NodeView;

    closed spec fn view(&self) -> NodeView {
        NodeView {
            state: self.state,
            log: self.log@,
            wal: self.log.pending(),
            leader: match self.leader_state {
                Some(l) => Some(l@),
                None => None,
            },
            election: match self.election_state {
                Some(e) => Some(e@),
                None => None,
            },
            reads: self.read_index_state@,
            next_read: self.read_index_state.next(),
            transfer: match self.transfer_state {
                Some(t) => Some(t@),
                None => None,
            },
            membership: self.membership@,
            peers: self.config.peers@,
            unsaved: self.unsaved,
        }
    }
}

/// A configuration entry as the embedding program has decoded it.
#[derive(Debug)]
pub enum DecodedConfig {
    /// The entry of a joint phase.
    Joint(JointConfigData),
    /// The entry of a final configuration.
    Final(ClusterConfig),
    /// Neither.
    Invalid,
}

/// A new node with the state that was saved and the log that was restored.
pub open spec fn new_node(
    id: NodeId,
    peers: Seq<NodeId>,
    persistent: PersistentState,
    entries: Seq<EntryView>,
) -> NodeView {
    NodeView {
        state: RaftState {
            id,
            role: Role::Follower,
            persistent,
            leader_id: None,
            commit_index: 0,
            last_applied: 0,
        },
        log: LogView { entries, snapshot_index: 0, snapshot_term: 0 },
        wal: Seq::empty(),
        leader: None,
        election: None,
        reads: Map::empty(),
        next_read: 1,
        transfer: None,
        membership: MembershipView {
            current: initial_members(id, peers),
            pending: None,
            change_in_progress: false,
        },
        peers,
        unsaved: false,
    }
}

/// Messages to peers as values.
pub open spec fn requests_view(rs: Seq<(NodeId, AppendRequest)>) -> Seq<(NodeId, AppendView)> {
    Seq::new(rs.len(), |i: int| (rs[i].0, rs[i].1@))
}

impl RaftNode {
    /// The node's parts fit together.
    pub closed spec fn well_formed(&self) -> bool {
        &&& self.read_index_state.well_formed()
        &&& self.state.id == self.config.id
    }

    /// A new node, with the term and vote that were saved and the bytes of its
    /// write-ahead log.
    pub fn new(config: NodeConfig, persistent: PersistentState, wal: Vec<u8>) -> (r: Result<
        Self,
        Error,
    >)
        ensures
            match decode_log(valid_records(wal@)) {
                Ok(es) => r matches Ok(n) && n.well_formed() && n@ == new_node(
                    config.id,
                    config.peers@,
                    persistent,
                    es,
                ),
                Err(e) => r matches Err(Error::Corruption(m)) && m@ == e,
            },
    {
        let log: RaftLog = match RaftLog::open("raft_log.wal".to_string(), wal) {
            Ok(l) => l,
            Err(e) => {
                return Err(e);
            },
        };
        let state = RaftState {
            id: config.id,
            role: Role::Follower,
            persistent,
            leader_id: None,
            commit_index: 0,
            last_applied: 0,
        };
        let membership: MembershipState = MembershipState::new(
            config.id,
            config.peers.as_slice(),
        );
        Ok(
            RaftNode {
                state,
                log,
                leader_state: None,
                election_state: None,
                read_index_state: ReadIndexState::new(),
                transfer_state: None,
                membership,
                config,
                unsaved: false,
            },
        )
    }

    /// What the node does at present.
    pub fn role(&self) -> (r: Role)
        ensures
            r == self@.state.role,
    {
        self.state.role
    }

    /// The node's term.
    pub fn term(&self) -> (r: Term)
        ensures
            r == term_of_node(self@),
    {
        self.state.persistent.current_term
    }

    /// The leader, as far as the node knows it.
    pub fn leader_id(&self) -> (r: Option<NodeId>)
        ensures
            r == self@.state.leader_id,
    {
        self.state.leader_id
    }

    /// The last entry that is known to be committed.
    pub fn commit_index(&self) -> (r: LogIndex)
        ensures
            r == self@.state.commit_index,
    {
        self.state.commit_index
    }

    /// The node's number.
    pub fn id(&self) -> (r: NodeId)
        requires
            self.well_formed(),
        ensures
            r == self@.state.id,
    {
        self.config.id
    }

    /// The number of nodes in the cluster.
    pub fn cluster_size(&self) -> (r: usize)
        requires
            self@.peers.len() < usize::MAX,
        ensures
            r == cluster_size_of(self@),
    {
        self.config.peers.len() + 1
    }

    /// The other nodes.
    pub fn peers(&self) -> (r: &[NodeId])
        ensures
            r@ == self@.peers,
    {
        self.config.peers.as_slice()
    }

    /// The term and the vote, where they have changed since they were last
    /// taken.
    pub fn take_unsaved(&mut self) -> (r: Option<PersistentState>)
        requires
            old(self).well_formed(),
        ensures
            final(self).well_formed(),
            final(self)@ == (NodeView { unsaved: false, ..old(self)@ }),
            r == if old(self)@.unsaved {
                Some(old(self)@.state.persistent)
            } else {
                None
            },
    {
        if self.unsaved {
            self.unsaved = false;
            Some(self.state.persistent)
        } else {
            None
        }
    }

    /// The bytes that the write-ahead log has to take up.
    pub fn take_wal(&mut self) -> (r: Vec<u8>)
        requires
            old(self).well_formed(),
        ensures
            final(self).well_formed(),
            r@ == old(self)@.wal,
            final(self)@ == (NodeView { wal: Seq::empty(), ..old(self)@ }),
    {
        self.log.sync()
    }

    /// One request for every peer.
    fn ask_peers(&self, request: VoteRequest) -> (r: Vec<(NodeId, VoteRequest)>)
        ensures
            r@ == to_peers(self@, request),
    {
        let mut out: Vec<(NodeId, VoteRequest)> = Vec::new();
        let mut i: usize = 0;
        while i < self.config.peers.len()
            invariant
                i <= self.config.peers.len(),
                out.len() == i,
                forall|j: int| 0 <= j < i ==> #[trigger] out@[j] == (self.config.peers@[j], request),
            decreases self.config.peers.len() - i,
        {
            out.push((self.config.peers[i], request));
            i += 1;
        }
        assert(out@ =~= to_peers(self@, request));
        out
    }

    fn request_in(&self, term: Term, is_pre_vote: bool) -> (r: VoteRequest)
        requires
            self.well_formed(),
        ensures
            r == vote_request_of(self@, term, is_pre_vote),
    {
        VoteRequest {
            term,
            candidate_id: self.config.id,
            last_log_index: self.log.last_index(),
            last_log_term: self.log.last_term(),
            is_pre_vote,
        }
    }

    /// Asks the peers whether the node would win an election, when its timer
    /// has run out.
    pub fn start_pre_vote(&mut self) -> (r: Vec<(NodeId, VoteRequest)>)
        requires
            old(self).well_formed(),
            term_of_node(old(self)@) < u64::MAX,
            old(self)@.peers.len() < usize::MAX,
        ensures
            final(self).well_formed(),
            final(self)@ == pre_vote_started(old(self)@),
            r@ == to_peers(
                old(self)@,
                vote_request_of(old(self)@, (term_of_node(old(self)@) + 1) as Term, true),
            ),
            vote_kept(old(self)@, final(self)@),
    {
        self.state.role = Role::PreCandidate;
        let mut election: ElectionState = ElectionState::new(self.config.peers.len() + 1);
        election.record_vote(self.config.id);
        let request: VoteRequest = self.request_in(self.state.persistent.current_term + 1, true);
        self.election_state = Some(election);
        self.ask_peers(request)
    }

    /// Stands for election, when enough peers have said that they would vote
    /// for the node.
    pub fn start_election(&mut self) -> (r: Vec<(NodeId, VoteRequest)>)
        requires
            old(self).well_formed(),
            term_of_node(old(self)@) < u64::MAX,
            old(self)@.peers.len() < usize::MAX,
        ensures
            final(self).well_formed(),
            final(self)@ == election_started(old(self)@),
            r@ == to_peers(
                old(self)@,
                vote_request_of(old(self)@, (term_of_node(old(self)@) + 1) as Term, false),
            ),
            vote_kept(old(self)@, final(self)@),
    {
        self.state.persistent.current_term = self.state.persistent.current_term + 1;
        self.state.persistent.voted_for = Some(self.config.id);
        self.state.role = Role::Candidate;
        self.state.leader_id = None;
        self.unsaved = true;
        let mut election: ElectionState = ElectionState::new(self.config.peers.len() + 1);
        election.record_vote(self.config.id);
        let request: VoteRequest = self.request_in(self.state.persistent.current_term, false);
        self.election_state = Some(election);
        self.ask_peers(request)
    }

    /// Takes up a peer's answer to a request for its vote; returns whether the
    /// node now leads.
    pub fn handle_vote_response(
        &mut self,
        from: NodeId,
        response: VoteResponse,
        was_pre_vote: bool,
    ) -> (r: bool)
        requires
            old(self).well_formed(),
            last_index_of(old(self)@.log) < u64::MAX,
        ensures
            final(self).well_formed(),
            (final(self)@, r) == vote_response_handled(old(self)@, from, response, was_pre_vote),
            vote_kept(old(self)@, final(self)@),
    {
        if response.term > self.state.persistent.current_term {
            self.step_down(response.term);
            return false;
        }
        if !response.vote_granted {
            return false;
        }
        match &mut self.election_state {
            Some(election) => {
                election.record_vote(from);
            },
            None => {
                return false;
            },
        }
        if self.pre_vote_has_quorum() && !was_pre_vote {
            self.become_leader();
            return true;
        }
        false
    }

    /// Whether the node has the votes that it needs; asked before an election,
    /// it tells whether to start one.
    pub fn pre_vote_has_quorum(&self) -> (r: bool)
        ensures
            r == election_decided(self@),
    {
        match &self.election_state {
            Some(e) => self.membership.has_quorum(e.votes()),
            None => false,
        }
    }

    /// Answers a request for a vote.
    pub fn handle_vote_request(&mut self, request: VoteRequest) -> (r: VoteResponse)
        requires
            old(self).well_formed(),
        ensures
            final(self).well_formed(),
            (final(self)@, r) == vote_request_handled(old(self)@, request),
            vote_kept(old(self)@, final(self)@),
    {
        if request.is_pre_vote {
            let would_grant: bool = request.term > self.state.persistent.current_term
                && is_log_up_to_date(
                request.last_log_term,
                request.last_log_index,
                self.log.last_term(),
                self.log.last_index(),
            );
            return VoteResponse {
                term: self.state.persistent.current_term,
                vote_granted: would_grant,
            };
        }
        if request.term > self.state.persistent.current_term {
            self.step_down(request.term);
        }
        let grant: bool = should_grant_vote(
            &self.state,
            &request,
            self.log.last_index(),
            self.log.last_term(),
        );
        if grant {
            self.state.persistent.voted_for = Some(request.candidate_id);
            self.unsaved = true;
        }
        VoteResponse { term: self.state.persistent.current_term, vote_granted: grant }
    }

    /// Answers a request to append.
    pub fn handle_append_entries(&mut self, request: AppendRequest) -> (r: AppendResponse)
        requires
            old(self).well_formed(),
            all_loggable(request@.entries),
        ensures
            final(self).well_formed(),
            (final(self)@, r) == append_handled(old(self)@, request@),
            vote_kept(old(self)@, final(self)@),
    {
        let ghost view = request@;
        if request.term < self.state.persistent.current_term {
            return AppendResponse {
                term: self.state.persistent.current_term,
                success: false,
                match_index: 0,
            };
        }
        self.recognise_leader(request.term, request.leader_id);
        let ghost m = self@;
        if request.prev_log_index > 0 && !self.log.match_term(
            request.prev_log_index,
            request.prev_log_term,
        ) {
            return AppendResponse {
                term: self.state.persistent.current_term,
                success: false,
                match_index: self.log.last_index(),
            };
        }
        let leader_commit: LogIndex = request.leader_commit;
        self.merge_entries(request.entries);
        if leader_commit > self.state.commit_index {
            let last: LogIndex = self.log.last_index();
            self.state.commit_index = if leader_commit <= last {
                leader_commit
            } else {
                last
            };
        }
        AppendResponse {
            term: self.state.persistent.current_term,
            success: true,
            match_index: self.log.last_index(),
        }
    }

    /// Goes on as a follower of a leader whose term is not stale.
    fn recognise_leader(&mut self, term: Term, leader_id: NodeId)
        requires
            old(self).well_formed(),
        ensures
            final(self).well_formed(),
            final(self)@ == leader_recognised(old(self)@, term, leader_id),
    {
        if term > self.state.persistent.current_term {
            self.step_down(term);
        }
        self.state.role = Role::Follower;
        self.state.leader_id = Some(leader_id);
    }

    /// Brings the log in line with entries from the leader.
    fn merge_entries(&mut self, entries: Vec<LogEntry>)
        requires
            old(self).well_formed(),
            all_loggable(entries_view(entries@)),
        ensures
            final(self).well_formed(),
            final(self)@ == ({
                let (cut, fresh) = resolved(old(self)@.log, entries_view(entries@));
                with_entries(NodeView { log: cut, ..old(self)@ }, fresh)
            }),
    {
        let ghost es = entries_view(entries@);
        let ghost l = self.log@;
        let ghost wal = self.log.pending();
        let mut fresh: Vec<LogEntry> = Vec::new();
        let mut i: usize = 0;
        proof {
            assert(entries_view(fresh@) =~= Seq::<EntryView>::empty());
            assert(es.take(0) =~= Seq::<EntryView>::empty());
        }
        while i < entries.len()
            invariant
                i <= entries.len(),
                es == entries_view(entries@),
                all_loggable(es),
                self.log.pending() == wal,
                (self.log@, entries_view(fresh@)) == resolved(l, es.take(i as int)),
                all_loggable(entries_view(fresh@)),
                *self == (RaftNode { log: self.log, ..*old(self) }),
            decreases entries.len() - i,
        {
            let ghost before = entries_view(fresh@);
            let ghost e = es[i as int];
            proof {
                assert(es.take(i + 1).drop_last() =~= es.take(i as int));
                assert(es.take(i + 1).last() == e);
                assert(loggable(e));
            }
            let entry: &LogEntry = &entries[i];
            let index: LogIndex = entry.index;
            let known: Option<Term> = match self.log.get(index) {
                Some(existing) => Some(existing.term),
                None => None,
            };
            let add: bool = match known {
                Some(term) => {
                    if term != entry.term {
                        self.log.truncate_after(index - 1);
                        true
                    } else {
                        false
                    }
                },
                None => true,
            };
            if add {
                fresh.push(entry.copied());
                assert(entries_view(fresh@) =~= before.push(e));
            }
            i += 1;
        }
        assert(es.take(i as int) =~= es);
        let ghost added = entries_view(fresh@);
        if !fresh.is_empty() {
            let _ = self.log.append(fresh);
        } else {
            proof {
                assert(self.log@.entries + added =~= self.log@.entries);
                assert(log_records(added) =~= Seq::<Seq<u8>>::empty());
                assert(wal + encode_records(log_records(added)) =~= wal);
            }
        }
    }

    /// Appends an entry of a client. Only a leader takes it, and not while it
    /// hands leadership over.
    pub fn propose(&mut self, data: Vec<u8>) -> (r: Result<LogIndex, ProposalResult>)
        requires
            old(self).well_formed(),
            last_index_of(old(self)@.log) < u64::MAX,
            data@.len() + 21 <= u32::MAX,
        ensures
            final(self).well_formed(),
            if old(self)@.state.role != Role::Leader {
                &&& r == Err::<LogIndex, ProposalResult>(
                    ProposalResult::NotLeader { leader_id: old(self)@.state.leader_id },
                )
                &&& final(self)@ == old(self)@
            } else if old(self)@.transfer is Some {
                &&& r == Err::<LogIndex, ProposalResult>(ProposalResult::TransferInProgress)
                &&& final(self)@ == old(self)@
            } else {
                &&& r == Ok::<LogIndex, ProposalResult>(
                    (last_index_of(old(self)@.log) + 1) as LogIndex,
                )
                &&& final(self)@ == proposed(old(self)@, data@, EntryType::Normal)
            },
            (final(self)@, r) == proposal_handled(old(self)@, data@),
            vote_kept(old(self)@, final(self)@),
    {
        if self.state.role != Role::Leader {
            return Err(ProposalResult::NotLeader { leader_id: self.state.leader_id });
        }
        if self.transfer_state.is_some() {
            return Err(ProposalResult::TransferInProgress);
        }
        Ok(self.append_own(data, EntryType::Normal))
    }

    /// Appends an entry of the node's own term; returns its index.
    fn append_own(&mut self, data: Vec<u8>, entry_type: EntryType) -> (r: LogIndex)
        requires
            old(self).well_formed(),
            last_index_of(old(self)@.log) < u64::MAX,
            data@.len() + 21 <= u32::MAX,
        ensures
            final(self).well_formed(),
            r == last_index_of(old(self)@.log) + 1,
            final(self)@ == proposed(old(self)@, data@, entry_type),
    {
        let index: LogIndex = self.log.last_index() + 1;
        let entry = LogEntry {
            index,
            term: self.state.persistent.current_term,
            data,
            entry_type,
        };
        let ghost e = entry@;
        let mut entries: Vec<LogEntry> = Vec::new();
        entries.push(entry);
        proof {
            assert(entries_view(entries@) =~= seq![e]);
            assert(all_loggable(seq![e]));
        }
        let _ = self.log.append(entries);
        let last: LogIndex = self.log.last_index();
        assert(last == index) by {
            assert(self.log@.entries.last() == e);
        }
        if let Some(leader) = &mut self.leader_state {
            leader.match_index.insert(self.config.id, last);
        }
        index
    }

    /// The peers that the leader sends entries to, or those that need its
    /// snapshot.
    fn select_peers(&self, behind: bool) -> (r: Vec<NodeId>)
        requires
            self.well_formed(),
        ensures
            r@ == peers_where(self@, behind),
    {
        let mut out: Vec<NodeId> = Vec::new();
        if self.state.role != Role::Leader {
            return out;
        }
        let leader: &LeaderState = match &self.leader_state {
            Some(l) => l,
            None => {
                return out;
            },
        };
        let ghost pred = |p: NodeId| needs_snapshot(self@, leader@, p) == behind;
        let snapshot: LogIndex = self.log.snapshot_index();
        let mut i: usize = 0;
        proof {
            reveal(Seq::filter);
            assert(self.config.peers@.take(0) =~= Seq::<NodeId>::empty());
        }
        while i < self.config.peers.len()
            invariant
                i <= self.config.peers.len(),
                self.well_formed(),
                self.leader_state == Some(*leader),
                snapshot == self@.log.snapshot_index,
                pred == (|p: NodeId| needs_snapshot(self@, leader@, p) == behind),
                out@ == self.config.peers@.take(i as int).filter(pred),
            decreases self.config.peers.len() - i,
        {
            let peer: NodeId = self.config.peers[i];
            let next: LogIndex = match leader.next_index.get(&peer) {
                Some(n) => *n,
                None => 1,
            };
            proof {
                reveal(Seq::filter);
                assert(self.config.peers@.take(i + 1).drop_last() =~= self.config.peers@.take(
                    i as int,
                ));
                assert(self.config.peers@.take(i + 1).last() == peer);
            }
            if (0 < snapshot && next <= snapshot) == behind {
                out.push(peer);
            }
            i += 1;
        }
        assert(self.config.peers@.take(i as int) =~= self.config.peers@);
        out
    }

    /// The peers that are behind the leader's snapshot, and are to get it.
    pub fn peers_behind(&self) -> (r: Vec<NodeId>)
        requires
            self.well_formed(),
        ensures
            r@ == peers_where(self@, true),
    {
        self.select_peers(true)
    }

    /// Takes up that a peer has installed the leader's snapshot up to an index.
    pub fn snapshot_taken_by(&mut self, peer: NodeId, index: LogIndex)
        requires
            old(self).well_formed(),
            index < u64::MAX,
        ensures
            final(self).well_formed(),
            final(self)@ == snapshot_taken(old(self)@, peer, index),
            vote_kept(old(self)@, final(self)@),
    {
        if self.state.role != Role::Leader {
            return;
        }
        if let Some(leader) = &mut self.leader_state {
            leader.next_index.insert(peer, index + 1);
        }
    }

    /// What the leader sends to each peer that does not need its snapshot: the
    /// entries that it is not known to have, or none to keep its timer from
    /// running out.
    pub fn create_append_requests(&self) -> (r: Vec<(NodeId, AppendRequest)>)
        requires
            self.well_formed(),
        ensures
            requests_view(r@) == append_requests_of(self@),
    {
        let mut requests: Vec<(NodeId, AppendRequest)> = Vec::new();
        let to: Vec<NodeId> = self.select_peers(false);
        assert(requests_view(requests@) =~= Seq::<(NodeId, AppendView)>::empty());
        let leader: &LeaderState = match &self.leader_state {
            Some(l) => l,
            None => {
                assert(requests_view(requests@) =~= append_requests_of(self@));
                return requests;
            },
        };
        let mut i: usize = 0;
        while i < to.len()
            invariant
                i <= to.len(),
                self.well_formed(),
                self.leader_state == Some(*leader),
                requests.len() == i,
                forall|j: int|
                    0 <= j < i ==> (#[trigger] requests@[j]).0 == to@[j] && requests@[j].1@
                        == append_request_for(self@, leader@, to@[j]),
            decreases to.len() - i,
        {
            let peer: NodeId = to[i];
            let next: LogIndex = match leader.next_index.get(&peer) {
                Some(n) => *n,
                None => 1,
            };
            let prev: LogIndex = if next == 0 {
                0
            } else {
                next - 1
            };
            let prev_term: Term = match self.log.term_at(prev) {
                Some(t) => t,
                None => 0,
            };
            let entries: Vec<LogEntry> = copy_log_entries(self.log.entries_from(next));
            requests.push(
                (
                    peer,
                    AppendRequest {
                        term: self.state.persistent.current_term,
                        leader_id: self.config.id,
                        prev_log_index: prev,
                        prev_log_term: prev_term,
                        entries,
                        leader_commit: self.state.commit_index,
                    },
                ),
            );
            i += 1;
        }
        assert(requests_view(requests@) =~= append_requests_of(self@));
        requests
    }

    /// Takes up a peer's answer to a request to append.
    pub fn handle_append_response(&mut self, from: NodeId, response: AppendResponse)
        requires
            old(self).well_formed(),
            response.match_index < u64::MAX,
        ensures
            final(self).well_formed(),
            append_response_handled(old(self)@, from, response, final(self)@),
            vote_kept(old(self)@, final(self)@),
    {
        if response.term > self.state.persistent.current_term {
            self.step_down(response.term);
            return;
        }
        if self.state.role != Role::Leader {
            return;
        }
        match &mut self.leader_state {
            Some(leader) => {
                if response.success {
                    leader.match_index.insert(from, response.match_index);
                    leader.next_index.insert(from, response.match_index + 1);
                } else {
                    let next: LogIndex = match leader.next_index.get(&from) {
                        Some(n) => *n,
                        None => 1,
                    };
                    let lowered: LogIndex = if next <= 2 {
                        1
                    } else {
                        next - 1
                    };
                    leader.next_index.insert(from, lowered);
                }
            },
            None => {
                return;
            },
        }
        let ghost noted = NodeView {
            leader: Some(progress_noted(old(self)@.leader->0, from, response)),
            ..old(self)@
        };
        assert(self@ =~= noted);
        self.try_advance_commit();
    }

    /// Advances the commit index as far as a quorum allows.
    fn try_advance_commit(&mut self)
        requires
            old(self).well_formed(),
        ensures
            final(self).well_formed(),
            is_advanced(old(self)@, final(self)@.state.commit_index),
            final(self)@ == (NodeView {
                state: RaftState {
                    commit_index: final(self)@.state.commit_index,
                    ..old(self)@.state
                },
                ..old(self)@
            }),
    {
        let ghost n = self@;
        let leader: &LeaderState = match &self.leader_state {
            Some(l) => l,
            None => {
                return;
            },
        };
        let ghost l = leader@;
        let pairs: Vec<(NodeId, LogIndex)> = pairs_of(&leader.match_index);
        let mut best: LogIndex = self.state.commit_index;
        let mut i: usize = 0;
        while i < pairs.len()
            invariant
                i <= pairs.len(),
                n == self@,
                n.leader == Some(l),
                forall|j: int|
                    0 <= j < pairs@.len() ==> l.match_index.contains_key((#[trigger] pairs@[j]).0)
                        && l.match_index[pairs@[j].0] == pairs@[j].1,
                forall|k: NodeId| #[trigger]
                    l.match_index.contains_key(k) ==> pairs@.contains((k, l.match_index[k])),
                best >= n.state.commit_index,
                best > n.state.commit_index ==> committable(n, l, best),
                forall|j: int|
                    0 <= j < i && committable(n, l, (#[trigger] pairs@[j]).1) ==> pairs@[j].1
                        <= best,
            decreases pairs.len() - i,
        {
            let candidate: LogIndex = pairs[i].1;
            if candidate > best && self.may_commit(candidate, &pairs) {
                proof {
                    let who = holders(l, candidate);
                    assert(Set::new(
                        |id: NodeId|
                            exists|j: int|
                                0 <= j < pairs@.len() && (#[trigger] pairs@[j]).0 == id
                                    && pairs@[j].1 >= candidate,
                    ) =~= who) by {
                        assert forall|id: NodeId| who.contains(id) implies exists|j: int|
                            0 <= j < pairs@.len() && (#[trigger] pairs@[j]).0 == id && pairs@[j].1
                                >= candidate by {
                            assert(pairs@.contains((id, l.match_index[id])));
                            let j = pairs@.index_of((id, l.match_index[id]));
                            assert(pairs@[j].0 == id);
                        }
                    }
                    assert(l.match_index.contains_key(pairs@[i as int].0));
                    assert(committable(n, l, candidate));
                }
                best = candidate;
            } else {
                proof {
                    if candidate > best && committable(n, l, candidate) {
                        let who = holders(l, candidate);
                        assert(Set::new(
                            |id: NodeId|
                                exists|j: int|
                                    0 <= j < pairs@.len() && (#[trigger] pairs@[j]).0 == id
                                        && pairs@[j].1 >= candidate,
                        ) =~= who) by {
                            assert forall|id: NodeId| who.contains(id) implies exists|j: int|
                                0 <= j < pairs@.len() && (#[trigger] pairs@[j]).0 == id && pairs@[j].1
                                    >= candidate by {
                                assert(pairs@.contains((id, l.match_index[id])));
                                let j = pairs@.index_of((id, l.match_index[id]));
                                assert(pairs@[j].0 == id);
                            }
                        }
                    }
                }
            }
            i += 1;
        }
        self.state.commit_index = best;
        proof {
            assert forall|c: LogIndex| committable(n, l, c) implies c <= best by {
                let id = choose|id: NodeId| #[trigger]
                    l.match_index.contains_key(id) && l.match_index[id] == c;
                assert(pairs@.contains((id, c)));
                let j = pairs@.index_of((id, c));
                assert(pairs@[j].1 == c);
            }
            assert(is_advanced(n, best));
        }
    }

    /// Whether a quorum has the entry at an index, and it is of the node's term.
    fn may_commit(&self, index: LogIndex, pairs: &Vec<(NodeId, LogIndex)>) -> (r: bool)
        ensures
            r == (quorum(
                self@.membership,
                Set::new(
                    |id: NodeId|
                        exists|j: int|
                            0 <= j < pairs@.len() && (#[trigger] pairs@[j]).0 == id && pairs@[j].1
                                >= index,
                ),
            ) && (entry_at(self@.log, index) matches Some(e) && e.term == term_of_node(self@))),
    {
        let mut voters: HashSet<NodeId> = HashSet::new();
        let mut i: usize = 0;
        while i < pairs.len()
            invariant
                i <= pairs.len(),
                voters@ == Set::new(
                    |id: NodeId|
                        exists|j: int|
                            0 <= j < i && (#[trigger] pairs@[j]).0 == id && pairs@[j].1 >= index,
                ),
            decreases pairs.len() - i,
        {
            let ghost before = voters@;
            if pairs[i].1 >= index {
                voters.insert(pairs[i].0);
            }
            proof {
                assert forall|id: NodeId| voters@.contains(id) == (exists|j: int|
                    0 <= j < i + 1 && (#[trigger] pairs@[j]).0 == id && pairs@[j].1 >= index) by {
                    if before.contains(id) {
                        let j = choose|j: int|
                            0 <= j < i && (#[trigger] pairs@[j]).0 == id && pairs@[j].1 >= index;
                        assert(pairs@[j].0 == id);
                    }
                    if exists|j: int|
                        0 <= j < i + 1 && (#[trigger] pairs@[j]).0 == id && pairs@[j].1 >= index {
                        let j = choose|j: int|
                            0 <= j < i + 1 && (#[trigger] pairs@[j]).0 == id && pairs@[j].1 >= index;
                        if j < i {
                            assert(before.contains(id));
                        }
                    }
                }
                assert(voters@ =~= Set::new(
                    |id: NodeId|
                        exists|j: int|
                            0 <= j < i + 1 && (#[trigger] pairs@[j]).0 == id && pairs@[j].1 >= index,
                ));
            }
            i += 1;
        }
        if !self.membership.has_quorum(&voters) {
            return false;
        }
        match self.log.get(index) {
            Some(entry) => entry.term == self.state.persistent.current_term,
            None => false,
        }
    }

    /// Hands out the entries that are committed and were not handed out yet.
    pub fn take_committed_entries(&mut self) -> (r: Vec<LogEntry>)
        requires
            old(self).well_formed(),
        ensures
            final(self).well_formed(),
            final(self)@ == applied_up(old(self)@),
            entries_view(r@) == entries_between(
                old(self)@.log,
                old(self)@.state.last_applied,
                old(self)@.state.commit_index,
            ),
    {
        let ghost l = self.log@;
        let from: LogIndex = self.state.last_applied;
        let mut entries: Vec<LogEntry> = Vec::new();
        assert(entries_view(entries@) =~= entries_between(l, from, from));
        while self.state.last_applied < self.state.commit_index
            invariant
                l == self.log@,
                from == old(self).state.last_applied,
                *self == (RaftNode {
                    state: RaftState { last_applied: self.state.last_applied, ..old(self).state },
                    ..*old(self)
                }),
                from <= self.state.last_applied,
                self.state.last_applied <= self.state.commit_index || self.state.last_applied
                    == from,
                entries_view(entries@) == entries_between(l, from, self.state.last_applied),
            decreases self.state.commit_index - self.state.last_applied,
        {
            let ghost before = entries_view(entries@);
            self.state.last_applied = self.state.last_applied + 1;
            if let Some(entry) = self.log.get(self.state.last_applied) {
                let copied: LogEntry = entry.copied();
                let ghost v = copied@;
                entries.push(copied);
                assert(entries_view(entries@) =~= before.push(v));
            }
        }
        entries
    }

    /// The description of a snapshot of the state machine's data at the commit
    /// index; nothing where nothing is committed. The log is compacted once the
    /// snapshot is stored, by `snapshot_stored`.
    pub fn trigger_snapshot(&self, snapshot_data: &[u8]) -> (r: Option<SnapshotMetadata>)
        ensures
            r == snapshot_of(self@, snapshot_data@),
            r == if self@.state.commit_index == 0 {
                None
            } else {
                Some(
                    described(
                        self@.state.commit_index,
                        match term_of(self@.log, self@.state.commit_index) {
                            Some(t) => t,
                            None => 0,
                        },
                        snapshot_data@,
                    ),
                )
            },
    {
        let commit_index: LogIndex = self.state.commit_index;
        if commit_index == 0 {
            return None;
        }
        let commit_term: Term = match self.log.term_at(commit_index) {
            Some(t) => t,
            None => 0,
        };
        Some(SnapshotManager::create_snapshot(commit_index, commit_term, snapshot_data))
    }

    /// Compacts the log up to a snapshot that was stored.
    pub fn snapshot_stored(&mut self, metadata: &SnapshotMetadata)
        requires
            old(self).well_formed(),
        ensures
            final(self).well_formed(),
            final(self)@ == (NodeView {
                log: crate::consensus::log::compacted(
                    old(self)@.log,
                    metadata.last_included_index,
                    metadata.last_included_term,
                ),
                ..old(self)@
            }),
    {
        self.log.compact(metadata.last_included_index, metadata.last_included_term);
    }

    /// Whether the log is long enough to be compacted.
    pub fn should_snapshot(&self, threshold: u64) -> (r: bool)
        ensures
            r == (self@.log.entries.len() > threshold),
            r == snapshot_due(self@, threshold),
    {
        self.log.len() as u64 > threshold
    }

    /// Takes up a snapshot from a leader; `stored` says whether the snapshot,
    /// where it is needed, was found intact and stored. Returns the term.
    pub fn handle_install_snapshot(
        &mut self,
        leader_term: Term,
        leader_id: NodeId,
        metadata: &SnapshotMetadata,
        stored: bool,
    ) -> (r: Term)
        requires
            old(self).well_formed(),
        ensures
            final(self).well_formed(),
            final(self)@ == snapshot_installed(
                old(self)@,
                leader_term,
                leader_id,
                *metadata,
                stored,
            ),
            r == term_of_node(final(self)@),
            vote_kept(old(self)@, final(self)@),
    {
        if leader_term < self.state.persistent.current_term {
            return self.state.persistent.current_term;
        }
        self.recognise_leader(leader_term, leader_id);
        if metadata.last_included_index <= self.log.snapshot_index() || !stored {
            return self.state.persistent.current_term;
        }
        self.log.compact(metadata.last_included_index, metadata.last_included_term);
        if metadata.last_included_index > self.state.commit_index {
            self.state.commit_index = metadata.last_included_index;
        }
        if metadata.last_included_index > self.state.last_applied {
            self.state.last_applied = metadata.last_included_index;
        }
        self.state.persistent.current_term
    }

    /// Whether a snapshot from a leader of the given term is to be stored.
    pub fn wants_snapshot(&self, leader_term: Term, metadata: &SnapshotMetadata) -> (r: bool)
        ensures
            r == (leader_term >= term_of_node(self@) && metadata.last_included_index
                > self@.log.snapshot_index),
            r == snapshot_wanted(self@, leader_term, *metadata),
    {
        leader_term >= self.state.persistent.current_term && metadata.last_included_index
            > self.log.snapshot_index()
    }

    /// The index of the last entry of the log, or of its snapshot.
    pub fn last_log_index(&self) -> (r: LogIndex)
        ensures
            r == last_index_of(self@.log),
    {
        self.log.last_index()
    }

    /// The number that the next read gets.
    pub fn next_read_id(&self) -> (r: u64)
        ensures
            r == self@.next_read,
    {
        self.read_index_state.next_id()
    }

    /// The index of the log's snapshot.
    pub fn snapshot_index(&self) -> (r: LogIndex)
        ensures
            r == self@.log.snapshot_index,
    {
        self.log.snapshot_index()
    }

    /// Registers a read; returns its number and the index that the state
    /// machine has to reach for it. The read may be served once a quorum has
    /// confirmed the leader.
    pub fn request_read_index(&mut self) -> (r: Result<(u64, LogIndex), ProposalResult>)
        requires
            old(self).well_formed(),
            old(self)@.next_read < u64::MAX,
        ensures
            final(self).well_formed(),
            if old(self)@.state.role != Role::Leader {
                &&& r == Err::<(u64, LogIndex), ProposalResult>(
                    ProposalResult::NotLeader { leader_id: old(self)@.state.leader_id },
                )
                &&& final(self)@ == old(self)@
            } else {
                &&& r == Ok::<(u64, LogIndex), ProposalResult>(
                    (old(self)@.next_read, old(self)@.state.commit_index),
                )
                &&& final(self)@ == (NodeView {
                    reads: old(self)@.reads.insert(
                        old(self)@.next_read,
                        new_read(
                            old(self)@.state.commit_index,
                            old(self)@.state.id,
                            old(self)@.membership.current.len(),
                        ),
                    ),
                    next_read: (old(self)@.next_read + 1) as u64,
                    ..old(self)@
                })
            },
            r is Ok ==> final(self)@ == read_begun(old(self)@),
    {
        if self.state.role != Role::Leader {
            return Err(ProposalResult::NotLeader { leader_id: self.state.leader_id });
        }
        let read_index: LogIndex = self.state.commit_index;
        let size: usize = self.membership.current_size();
        let id: u64 = self.read_index_state.register(read_index, self.config.id, size);
        Ok((id, read_index))
    }

    /// Records that a peer has confirmed the leader; returns the numbers of the
    /// reads that are confirmed.
    pub fn read_index_ack(&mut self, from: NodeId) -> (r: Vec<u64>)
        requires
            old(self).well_formed(),
        ensures
            final(self).well_formed(),
            final(self)@ == (NodeView {
                reads: old(self)@.reads.map_values(|v: ReadView| acked(v, from)),
                ..old(self)@
            }),
            final(self)@ == leader_confirmed(old(self)@, from),
            forall|i: int, j: int| 0 <= i < j < r@.len() ==> r@[i] < r@[j],
            forall|id: u64| #[trigger]
                r@.contains(id) <==> final(self)@.reads.contains_key(id) && confirmed(
                    final(self)@.reads[id],
                ),
    {
        self.read_index_state.record_ack(from)
    }

    /// Whether a read is confirmed.
    pub fn is_read_index_confirmed(&self, id: u64) -> (r: bool)
        requires
            self.well_formed(),
        ensures
            r == (self@.reads.contains_key(id) && confirmed(self@.reads[id])),
    {
        self.read_index_state.is_confirmed(id)
    }

    /// Takes a read out; returns its index.
    pub fn take_read_index(&mut self, id: u64) -> (r: Option<LogIndex>)
        requires
            old(self).well_formed(),
        ensures
            final(self).well_formed(),
            final(self)@ == (NodeView { reads: old(self)@.reads.remove(id), ..old(self)@ }),
            r == if old(self)@.reads.contains_key(id) {
                Some(old(self)@.reads[id].read_index)
            } else {
                None
            },
    {
        self.read_index_state.take_confirmed(id)
    }

    /// The last entry that was handed to the state machine.
    pub fn last_applied(&self) -> (r: LogIndex)
        ensures
            r == self@.state.last_applied,
    {
        self.state.last_applied
    }

    /// Begins to hand leadership to another node.
    pub fn transfer_leadership(&mut self, target: NodeId) -> (r: Result<(), TransferError>)
        requires
            old(self).well_formed(),
        ensures
            final(self).well_formed(),
            match transfer_refusal(old(self)@, target) {
                Some(e) => r == Err::<(), TransferError>(e) && final(self)@ == old(self)@,
                None => {
                    &&& r == Ok::<(), TransferError>(())
                    &&& exists|now: u128|
                        final(self)@ == #[trigger] transfer_begun(old(self)@, target, now)
                },
            },
    {
        if self.state.role != Role::Leader {
            return Err(TransferError::NotLeader);
        }
        if target == self.config.id {
            return Err(TransferError::AlreadyLeader);
        }
        if self.transfer_state.is_some() {
            return Err(TransferError::AlreadyInProgress);
        }
        if !self.membership.is_voter(target) {
            return Err(TransferError::TargetNotInCluster);
        }
        let transfer = TransferState::new(target);
        proof {
            let now = choose|now: u128| transfer@ == #[trigger] new_transfer(target, now);
            assert(transfer@ == transfer_begun(self@, target, now).transfer->0);
        }
        self.transfer_state = Some(transfer);
        assert(self@ == transfer_begun(old(self)@, target, transfer@.started_at));
        Ok(())
    }

    /// The target of a transfer, once it has the whole log; it is named once,
    /// and is then to be told to start an election.
    pub fn check_transfer_progress(&mut self) -> (r: Option<NodeId>)
        requires
            old(self).well_formed(),
        ensures
            final(self).well_formed(),
            if transfer_ready(old(self)@) {
                let target = (old(self)@.transfer->0).target;
                &&& r == Some(target)
                &&& final(self)@ == (NodeView {
                    transfer: Some(
                        TransferView { timeout_now_sent: true, ..old(self)@.transfer->0 },
                    ),
                    ..old(self)@
                })
            } else {
                r is None && final(self)@ == old(self)@
            },
            (final(self)@, r) == transfer_checked(old(self)@),
    {
        let target: NodeId = match &self.transfer_state {
            Some(t) => {
                if t.timeout_now_sent {
                    return None;
                }
                t.target
            },
            None => {
                return None;
            },
        };
        let our_last: LogIndex = self.log.last_index();
        let target_match: LogIndex = match &self.leader_state {
            Some(l) => match l.match_index.get(&target) {
                Some(i) => *i,
                None => 0,
            },
            None => 0,
        };
        if target_match >= our_last {
            if let Some(t) = &mut self.transfer_state {
                t.timeout_now_sent = true;
            }
            return Some(target);
        }
        None
    }

    /// Gives a transfer up that has taken longer than allowed; returns whether
    /// it did.
    pub fn check_transfer_timeout(&mut self, timeout_ms: u64) -> (r: bool)
        requires
            old(self).well_formed(),
        ensures
            final(self).well_formed(),
            exists|now: u128| #[trigger]
                transfer_timed_out(old(self)@, now, timeout_ms) == r,
            final(self)@ == if r {
                (NodeView { transfer: None, ..old(self)@ })
            } else {
                old(self)@
            },
    {
        let now: u128 = match &self.transfer_state {
            Some(t) => t.clock.reading(),
            None => {
                assert(!transfer_timed_out(old(self)@, 0, timeout_ms));
                return false;
            },
        };
        self.expire_transfer(now, timeout_ms)
    }

    /// Gives up a transfer that has taken longer than allowed at a reading;
    /// returns whether it did.
    pub fn expire_transfer(&mut self, now: u128, timeout_ms: u64) -> (r: bool)
        requires
            old(self).well_formed(),
        ensures
            final(self).well_formed(),
            r == transfer_timed_out(old(self)@, now, timeout_ms),
            final(self)@ == if r {
                (NodeView { transfer: None, ..old(self)@ })
            } else {
                old(self)@
            },
    {
        let expired: bool = match &self.transfer_state {
            Some(t) => t.is_expired_at(now, timeout_ms),
            None => false,
        };
        if expired {
            self.transfer_state = None;
        }
        expired
    }

    /// Whether leadership is being handed over.
    pub fn is_transfer_in_progress(&self) -> (r: bool)
        ensures
            r == (self@.transfer is Some),
    {
        self.transfer_state.is_some()
    }

    /// Starts an election at once, as a leader that hands over has asked; a
    /// stale request is ignored.
    pub fn handle_timeout_now(&mut self, msg: TimeoutNow) -> (r: Vec<(NodeId, VoteRequest)>)
        requires
            old(self).well_formed(),
            term_of_node(old(self)@) < u64::MAX,
            old(self)@.peers.len() < usize::MAX,
        ensures
            final(self).well_formed(),
            if msg.term < term_of_node(old(self)@) {
                &&& r@.len() == 0
                &&& final(self)@ == old(self)@
            } else {
                &&& final(self)@ == election_started(old(self)@)
                &&& r@ == to_peers(
                    old(self)@,
                    vote_request_of(old(self)@, (term_of_node(old(self)@) + 1) as Term, false),
                )
            },
            (final(self)@, r@) == takeover_handled(old(self)@, msg.term),
            vote_kept(old(self)@, final(self)@),
    {
        if msg.term < self.state.persistent.current_term {
            return Vec::new();
        }
        self.start_election()
    }

    /// Proposes a membership change: enters the joint phase and appends its
    /// entry, whose bytes `encode` makes. Returns the index of the entry.
    pub fn propose_config_change<G: Fn(&JointConfigData) -> Vec<u8>>(
        &mut self,
        change: ConfigChange,
        encode: G,
    ) -> (r: Result<LogIndex, MembershipError>)
        requires
            old(self).well_formed(),
            last_index_of(old(self)@.log) < u64::MAX,
            forall|j: &JointConfigData| #[trigger] encode.requires((j,)),
            forall|j: &JointConfigData, d: Vec<u8>| #[trigger]
                encode.ensures((j,), d) ==> d@.len() + 21 <= u32::MAX,
        ensures
            final(self).well_formed(),
            if old(self)@.state.role != Role::Leader {
                &&& r == Err::<LogIndex, MembershipError>(MembershipError::NotLeader)
                &&& final(self)@ == old(self)@
            } else {
                match changed_members(
                    old(self)@.membership.current,
                    old(self)@.membership.change_in_progress,
                    change@,
                ) {
                    Err(e) => {
                        &&& r == Err::<LogIndex, MembershipError>(e)
                        &&& final(self)@ == old(self)@
                    },
                    Ok(members) => {
                        &&& r == Ok::<LogIndex, MembershipError>(
                            (last_index_of(old(self)@.log) + 1) as LogIndex,
                        )
                        &&& exists|j: JointConfigData, d: Vec<u8>| #[trigger]
                            encode.ensures((&j,), d) && j.old@ == old(self)@.membership.current
                                && j.new@ == members && final(self)@ == proposed(
                                NodeView {
                                    membership: MembershipView {
                                        current: old(self)@.membership.current,
                                        pending: Some(members),
                                        change_in_progress: true,
                                    },
                                    ..old(self)@
                                },
                                d@,
                                EntryType::ConfigChange,
                            )
                    },
                }
            },
            r is Ok ==> exists|d: Seq<u8>|
                final(self)@ == #[trigger] proposed(
                    change_entered(old(self)@, change@),
                    d,
                    EntryType::ConfigChange,
                ),
            r is Ok <==> old(self)@.state.role == Role::Leader && change_begun(
                old(self)@.membership,
                change@,
            ) is Ok,
            vote_kept(old(self)@, final(self)@),
    {
        if self.state.role != Role::Leader {
            return Err(MembershipError::NotLeader);
        }
        let joint: JointConfigData = match self.membership.begin_change(&change) {
            Ok(j) => j,
            Err(e) => {
                return Err(e);
            },
        };
        let data: Vec<u8> = encode(&joint);
        let ghost d = data;
        let index: LogIndex = self.append_own(data, EntryType::ConfigChange);
        assert(encode.ensures((&joint,), d));
        Ok(index)
    }

    /// Takes up a committed configuration entry. A leader ends a joint phase:
    /// it takes over the new configuration and appends the final entry, whose
    /// bytes `encode` makes. Returns the configuration that was taken over.
    pub fn apply_config_change<G: Fn(&ClusterConfig) -> Vec<u8>>(
        &mut self,
        decoded: DecodedConfig,
        encode: G,
    ) -> (r: Option<ClusterConfig>)
        requires
            old(self).well_formed(),
            last_index_of(old(self)@.log) < u64::MAX,
            forall|c: &ClusterConfig| #[trigger] encode.requires((c,)),
            forall|c: &ClusterConfig, d: Vec<u8>| #[trigger]
                encode.ensures((c,), d) ==> d@.len() + 21 <= u32::MAX,
        ensures
            final(self).well_formed(),
            match decoded {
                DecodedConfig::Joint(joint) => if old(self)@.state.role == Role::Leader {
                    &&& r matches Some(c) && c@ == joint.new@ && exists|d: Vec<u8>| #[trigger]
                        encode.ensures((&c,), d) && final(self)@ == proposed(
                            NodeView {
                                membership: MembershipView {
                                    current: joint.new@,
                                    pending: None,
                                    change_in_progress: false,
                                },
                                ..old(self)@
                            },
                            d@,
                            EntryType::ConfigChange,
                        )
                } else {
                    &&& r is None
                    &&& final(self)@ == (NodeView {
                        membership: MembershipView {
                            pending: Some(joint.new@),
                            ..old(self)@.membership
                        },
                        ..old(self)@
                    })
                },
                DecodedConfig::Final(config) => {
                    &&& r matches Some(c) && c@ == config@
                    &&& final(self)@ == (NodeView {
                        membership: MembershipView {
                            current: config@,
                            pending: None,
                            change_in_progress: false,
                        },
                        ..old(self)@
                    })
                },
                DecodedConfig::Invalid => r is None && final(self)@ == old(self)@,
            },
            match decoded {
                DecodedConfig::Joint(joint) => if old(self)@.state.role == Role::Leader {
                    exists|d: Seq<u8>|
                        final(self)@ == #[trigger] proposed(
                            config_taken(old(self)@, joint.new@),
                            d,
                            EntryType::ConfigChange,
                        )
                } else {
                    final(self)@ == joint_taken(old(self)@, joint.new@)
                },
                DecodedConfig::Final(config) => final(self)@ == config_taken(
                    old(self)@,
                    config@,
                ),
                DecodedConfig::Invalid => final(self)@ == old(self)@,
            },
            vote_kept(old(self)@, final(self)@),
    {
        match decoded {
            DecodedConfig::Joint(joint) => {
                self.membership.pending = Some(joint.new);
                if self.state.role == Role::Leader {
                    if let Some(new_config) = self.membership.finalize_joint() {
                        let data: Vec<u8> = encode(&new_config);
                        let ghost d = data;
                        let _ = self.append_own(data, EntryType::ConfigChange);
                        assert(encode.ensures((&new_config,), d));
                        return Some(new_config);
                    }
                }
                None
            },
            DecodedConfig::Final(config) => {
                let copy: ClusterConfig = config.copied();
                self.membership.apply_new_config(config);
                Some(copy)
            },
            DecodedConfig::Invalid => None,
        }
    }

    /// The membership as the node knows it.
    pub fn membership(&self) -> (r: MembershipState)
        ensures
            r@ == self@.membership,
    {
        self.membership.copied()
    }

    /// Whether the node votes.
    pub fn is_voter(&self) -> (r: bool)
        requires
            self.well_formed(),
        ensures
            r == voter_ids(self@.membership).contains(self@.state.id),
    {
        self.membership.is_voter(self.config.id)
    }

    /// Leads from now on.
    pub fn become_leader(&mut self)
        requires
            old(self).well_formed(),
            last_index_of(old(self)@.log) < u64::MAX,
        ensures
            final(self).well_formed(),
            final(self)@ == became_leader(old(self)@),
            vote_kept(old(self)@, final(self)@),
    {
        self.state.role = Role::Leader;
        self.state.leader_id = Some(self.config.id);
        self.election_state = None;
        self.leader_state = Some(
            LeaderState::new(self.config.peers.as_slice(), self.log.last_index()),
        );
        let data: Vec<u8> = Vec::new();
        let _ = self.append_own(data, EntryType::Noop);
    }

    /// Goes on as a follower in a newer term.
    fn step_down(&mut self, new_term: Term)
        requires
            old(self).well_formed(),
        ensures
            final(self).well_formed(),
            final(self)@ == stepped_down(old(self)@, new_term),
    {
        self.state.persistent.current_term = new_term;
        self.state.persistent.voted_for = None;
        self.state.role = Role::Follower;
        self.state.leader_id = None;
        self.leader_state = None;
        self.election_state = None;
        self.read_index_state.clear();
        self.transfer_state = None;
        self.membership.abort_change();
        self.unsaved = true;
    }
}

} // verus!
