//! The server's loop: when to hold elections, what to do with replies.

use std::collections::HashMap;
use vstd::prelude::*;
use crate::consensus::leadership_transfer::TransferView;
use crate::consensus::log::last_index_of;
use crate::consensus::message::{AppendResponse, AppendView, TimeoutNow, VoteRequest, VoteResponse};
use crate::consensus::node::{NodeConfig, RaftNode};
use crate::consensus::read_index::{acked, ReadView};
use crate::consensus::rpc::PeerClient;
use crate::consensus::state::Role;
use crate::consensus::tick::TickConfig;
use crate::consensus::transitions::{
    append_answered, append_handled, append_response_handled, election_decided, election_started,
    pre_vote_ended, snapshot_taken, stepped_down, term_of_node, to_peers, transfer_ready,
    transfer_timed_out, vote_kept, vote_request_of, vote_response_handled, NodeView,
};
use crate::server::apply::{CommandView, KvCommand};
use crate::server::lease::{expired_view, keys_of};
use crate::types::{node_ids, LogIndex, NodeId, Term};

verus! {

broadcast use vstd::std_specs::hash::group_hash_axioms;

/// How a server is set up.
#[derive(Debug)]
pub struct ServerConfig {
    pub node_id: NodeId,
    /// The addresses of all nodes.
    pub cluster: HashMap<NodeId, String>,
    pub data_dir: String,
    pub listen_addr: String,
    /// Where the pages for operators are served, if they are.
    pub http_addr: Option<String>,
    pub election_timeout_min_ms: u64,
    pub election_timeout_max_ms: u64,
    pub heartbeat_interval_ms: u64,
}

impl ServerConfig {
    /// The other nodes, each once.
    pub fn peer_ids(&self) -> (r: Vec<NodeId>)
        ensures
            r@.no_duplicates(),
            r@.to_set() == self.cluster@.dom().remove(self.node_id),
    {
        let all: Vec<NodeId> = node_ids(&self.cluster);
        let mut ids: Vec<NodeId> = Vec::new();
        let mut i: usize = 0;
        assert(all@.take(0) =~= Seq::<NodeId>::empty());
        while i < all.len()
            invariant
                i <= all.len(),
                all@.no_duplicates(),
                ids@.no_duplicates(),
                others_of(ids@, all@.take(i as int), self.node_id),
            decreases all.len() - i,
        {
            let ghost before = ids@;
            let ghost done = all@.take(i as int);
            let id: NodeId = all[i];
            if id != self.node_id {
                ids.push(id);
            }
            proof {
                let more = all@.take(i + 1);
                assert(more =~= done.push(id));
                if done.contains(id) {
                    let j = done.index_of(id);
                    assert(all@[j] == all@[i as int]);
                }
                assert forall|x: NodeId| #[trigger] ids@.contains(x) == (x != self.node_id
                    && more.contains(x)) by {
                    lemma_push_contains(done, id, x);
                    lemma_push_contains(before, id, x);
                    assert(before.contains(x) == (x != self.node_id && done.contains(x)));
                }
                assert(before.contains(id) == (id != self.node_id && done.contains(id)));
            }
            i += 1;
        }
        proof {
            assert(all@.take(i as int) =~= all@);
            assert forall|x: NodeId| #[trigger]
                ids@.to_set().contains(x) == self.cluster@.dom().remove(self.node_id).contains(
                    x,
                ) by {
                assert(ids@.contains(x) == (x != self.node_id && all@.contains(x)));
                assert(all@.to_set().contains(x) == all@.contains(x));
            }
            assert(ids@.to_set() =~= self.cluster@.dom().remove(self.node_id));
        }
        ids
    }

    /// The times of the node.
    pub fn tick_config(&self) -> (r: TickConfig)
        ensures
            r == (TickConfig {
                election_timeout_min: self.election_timeout_min_ms,
                election_timeout_max: self.election_timeout_max_ms,
                heartbeat_interval: self.heartbeat_interval_ms,
            }),
    {
        TickConfig::new(
            self.election_timeout_min_ms,
            self.election_timeout_max_ms,
            self.heartbeat_interval_ms,
        )
    }

    /// How the server's node is set up.
    pub fn node_config(&self) -> (r: NodeConfig)
        ensures
            r.id == self.node_id,
            r.peers@.no_duplicates(),
            r.peers@.to_set() == self.cluster@.dom().remove(self.node_id),
            r.data_dir@ == self.data_dir@,
            r.tick_config == (TickConfig {
                election_timeout_min: self.election_timeout_min_ms,
                election_timeout_max: self.election_timeout_max_ms,
                heartbeat_interval: self.heartbeat_interval_ms,
            }),
    {
        NodeConfig {
            id: self.node_id,
            peers: self.peer_ids(),
            data_dir: self.data_dir.clone(),
            tick_config: self.tick_config(),
        }
    }

    /// The peers that the server calls, in the order of the node's peers.
    pub fn peer_clients(&self, ids: &Vec<NodeId>) -> (r: Vec<PeerClient>)
        requires
            ids@.to_set().subset_of(self.cluster@.dom()),
        ensures
            r@.len() == ids@.len(),
            forall|i: int|
                0 <= i < ids@.len() ==> (#[trigger] r@[i]).node_id == ids@[i] && r@[i].address@
                    == self.cluster@[ids@[i]]@,
    {
        let mut out: Vec<PeerClient> = Vec::new();
        let mut i: usize = 0;
        while i < ids.len()
            invariant
                i <= ids.len(),
                out.len() == i,
                ids@.to_set().subset_of(self.cluster@.dom()),
                forall|j: int|
                    0 <= j < i ==> (#[trigger] out@[j]).node_id == ids@[j] && out@[j].address@
                        == self.cluster@[ids@[j]]@,
            decreases ids.len() - i,
        {
            assert(ids@.contains(ids@[i as int]));
            assert(ids@.to_set().contains(ids@[i as int]));
            match self.cluster.get(&ids[i]) {
                Some(address) => {
                    out.push(PeerClient::new(ids[i], address.clone()));
                },
                None => {},
            }
            i += 1;
        }
        out
    }
}

/// The numbers other than one.
spec fn others_of(ids: Seq<NodeId>, all: Seq<NodeId>, one: NodeId) -> bool {
    forall|x: NodeId| #[trigger] ids.contains(x) == (x != one && all.contains(x))
}

proof fn lemma_push_contains(s: Seq<NodeId>, y: NodeId, x: NodeId)
    ensures
        s.push(y).contains(x) <==> s.contains(x) || x == y,
{
    if s.contains(x) {
        let j = s.index_of(x);
        assert(s.push(y)[j] == x);
    }
    assert(s.push(y)[s.len() as int] == y);
    if s.push(y).contains(x) && x != y {
        let j = s.push(y).index_of(x);
        assert(s[j] == x);
    }
}

/// What a server does when its timer goes off.
#[derive(Debug, Clone, Copy, PartialEq, Eq, Structural)]
pub enum TimerAction {
    /// Send entries, or signs of life, to the peers, and see to a transfer.
    SendAppends,
    /// Ask the peers whether an election could be won.
    StartPreVote,
    /// Stand for election.
    StartElection,
    /// Nothing yet.
    Wait,
}

/// When a node that does not hear from a leader holds an election, in
/// milliseconds on the server's clock.
#[derive(Debug, Clone, Copy, PartialEq, Eq, Structural)]
pub struct ElectionTimer {
    pub deadline: u64,
}

/// What a timer that goes off calls for. A node that heard from its leader
/// within the shortest election timeout puts the deadline off.
pub open spec fn fired(
    deadline: u64,
    tick: TickConfig,
    role: Role,
    now: u64,
    since_heartbeat: u64,
    timeout: u64,
) -> (u64, TimerAction) {
    match role {
        Role::Leader => (deadline, TimerAction::SendAppends),
        Role::Follower | Role::PreCandidate => if since_heartbeat < tick.election_timeout_min {
            ((now + timeout) as u64, TimerAction::Wait)
        } else if now >= deadline {
            (deadline, TimerAction::StartPreVote)
        } else {
            (deadline, TimerAction::Wait)
        },
        Role::Candidate => if now >= deadline {
            (deadline, TimerAction::StartElection)
        } else {
            (deadline, TimerAction::Wait)
        },
    }
}

/// A node that hears from its leader often enough never stands for election.
pub proof fn law_heartbeats_prevent_elections(
    deadline: u64,
    tick: TickConfig,
    role: Role,
    now: u64,
    since_heartbeat: u64,
    timeout: u64,
)
    requires
        role == Role::Follower || role == Role::PreCandidate,
        since_heartbeat < tick.election_timeout_min,
        tick.election_timeout_min <= timeout,
        now + timeout <= u64::MAX,
    ensures
        fired(deadline, tick, role, now, since_heartbeat, timeout).1 == TimerAction::Wait,
        fired(deadline, tick, role, now, since_heartbeat, timeout).0 >= now
            + tick.election_timeout_min,
{
}

impl ElectionTimer {
    /// A timer that goes off after a timeout.
    pub fn new(now: u64, timeout: u64) -> (r: Self)
        requires
            now + timeout <= u64::MAX,
        ensures
            r.deadline == now + timeout,
    {
        ElectionTimer { deadline: now + timeout }
    }

    /// Sets the timer anew, as after an election.
    pub fn rearm(&mut self, now: u64, timeout: u64)
        requires
            now + timeout <= u64::MAX,
        ensures
            final(self).deadline == now + timeout,
    {
        self.deadline = now + timeout;
    }

    /// How long the server sleeps: a leader between two signs of life, any other
    /// node until its deadline.
    pub fn sleep_ms(&self, tick: &TickConfig, role: Role, now: u64) -> (r: u64)
        ensures
            r == if role == Role::Leader {
                tick.heartbeat_interval
            } else if self.deadline > now {
                (self.deadline - now) as u64
            } else {
                0
            },
            r == sleeps(self.deadline, *tick, role, now),
    {
        if role == Role::Leader {
            tick.heartbeat_interval
        } else if self.deadline > now {
            self.deadline - now
        } else {
            0
        }
    }

    /// What the timer calls for when it goes off; `timeout` is the timeout that
    /// a new deadline gets.
    pub fn fire(
        &mut self,
        tick: &TickConfig,
        role: Role,
        now: u64,
        since_heartbeat: u64,
        timeout: u64,
    ) -> (r: TimerAction)
        requires
            now + timeout <= u64::MAX,
        ensures
            (final(self).deadline, r) == fired(
                old(self).deadline,
                *tick,
                role,
                now,
                since_heartbeat,
                timeout,
            ),
    {
        match role {
            Role::Leader => TimerAction::SendAppends,
            Role::Follower | Role::PreCandidate => {
                if since_heartbeat < tick.election_timeout_min {
                    self.deadline = now + timeout;
                    TimerAction::Wait
                } else if now >= self.deadline {
                    TimerAction::StartPreVote
                } else {
                    TimerAction::Wait
                }
            },
            Role::Candidate => {
                if now >= self.deadline {
                    TimerAction::StartElection
                } else {
                    TimerAction::Wait
                }
            },
        }
    }
}

/// How a round of vote requests stands.
#[derive(Debug, Clone, Copy, PartialEq, Eq, Structural)]
pub struct VoteRound {
    /// A peer has answered.
    pub any_success: bool,
    /// The node leads; the round is over.
    pub won: bool,
}

/// Takes up what came of a vote request: an answer, or none, after which the
/// connection to the peer is to be made anew.
pub fn take_vote_reply(
    node: &mut RaftNode,
    round: VoteRound,
    peer: NodeId,
    reply: Option<VoteResponse>,
    is_pre_vote: bool,
) -> (r: VoteRound)
    requires
        old(node).well_formed(),
        last_index_of(old(node)@.log) < u64::MAX,
    ensures
        final(node).well_formed(),
        match reply {
            Some(response) => {
                let (after, won) = vote_response_handled(
                    old(node)@,
                    peer,
                    response,
                    is_pre_vote,
                );
                &&& final(node)@ == after
                &&& r == (VoteRound { any_success: true, won })
            },
            None => final(node)@ == old(node)@ && r == (VoteRound { won: false, ..round }),
        },
        (final(node)@, r) == vote_reply_taken(old(node)@, round, peer, reply, is_pre_vote),
        vote_kept(old(node)@, final(node)@),
{
    match reply {
        Some(response) => {
            let won: bool = node.handle_vote_response(peer, response, is_pre_vote);
            VoteRound { any_success: true, won }
        },
        None => VoteRound { any_success: round.any_success, won: false },
    }
}

/// After a pre-vote round: the requests of the election that it calls for, if
/// a peer has answered and enough would vote for the node.
pub fn after_pre_vote(node: &mut RaftNode, granted: bool) -> (r: Option<
    Vec<(NodeId, VoteRequest)>,
>)
    requires
        old(node).well_formed(),
        term_of_node(old(node)@) < u64::MAX,
        old(node)@.peers.len() < usize::MAX,
    ensures
        final(node).well_formed(),
        if granted && election_decided(old(node)@) {
            &&& final(node)@ == election_started(old(node)@)
            &&& r matches Some(requests) && requests@ == to_peers(
                old(node)@,
                vote_request_of(old(node)@, (term_of_node(old(node)@) + 1) as Term, false),
            )
        } else {
            r is None && final(node)@ == old(node)@
        },
        final(node)@ == pre_vote_ended(old(node)@, granted).0,
        match pre_vote_ended(old(node)@, granted).1 {
            Some(requests) => r matches Some(sent) && sent@ == requests,
            None => r is None,
        },
        vote_kept(old(node)@, final(node)@),
{
    if granted && node.pre_vote_has_quorum() {
        Some(node.start_election())
    } else {
        None
    }
}

/// Takes up what came of a request to append: an answer, which also confirms
/// the leader where the peer has accepted, or none. Returns whether the
/// connection to the peer is to be made anew.
pub fn take_append_reply(
    node: &mut RaftNode,
    peer: NodeId,
    reply: Option<AppendResponse>,
) -> (r: bool)
    requires
        old(node).well_formed(),
        reply matches Some(response) ==> response.match_index < u64::MAX,
    ensures
        final(node).well_formed(),
        r == (reply is None),
        match reply {
            Some(response) => append_response_handled(
                if response.success {
                    NodeView {
                        reads: old(node)@.reads.map_values(|v: ReadView| acked(v, peer)),
                        ..old(node)@
                    }
                } else {
                    old(node)@
                },
                peer,
                response,
                final(node)@,
            ),
            None => final(node)@ == old(node)@,
        },
        reply matches Some(response) ==> append_answered(
            old(node)@,
            peer,
            response,
            final(node)@,
        ),
        vote_kept(old(node)@, final(node)@),
{
    match reply {
        Some(response) => {
            if response.success {
                let _ = node.read_index_ack(peer);
            }
            node.handle_append_response(peer, response);
            false
        },
        None => true,
    }
}

/// A leader after a peer has answered the snapshot that it was sent, or has not:
/// an answer of the leader's term means that the peer has taken the snapshot up,
/// one of a newer term ends the leadership.
pub open spec fn snapshot_answered(
    n: NodeView,
    peer: NodeId,
    index: LogIndex,
    reply: Option<Term>,
) -> NodeView {
    match reply {
        Some(term) => if term > term_of_node(n) {
            stepped_down(n, term)
        } else if term == term_of_node(n) {
            snapshot_taken(n, peer, index)
        } else {
            n
        },
        None => n,
    }
}

/// Takes up what came of a snapshot that was sent to a peer: the term that it
/// answered with, or nothing.
pub fn take_snapshot_reply(
    node: &mut RaftNode,
    peer: NodeId,
    index: LogIndex,
    reply: Option<Term>,
)
    requires
        old(node).well_formed(),
        index < u64::MAX,
    ensures
        final(node).well_formed(),
        final(node)@ == snapshot_answered(old(node)@, peer, index, reply),
        vote_kept(old(node)@, final(node)@),
{
    if let Some(term) = reply {
        if term > node.term() {
            node.handle_append_response(
                peer,
                AppendResponse { term, success: false, match_index: 0 },
            );
        } else if term == node.term() {
            node.snapshot_taken_by(peer, index);
        }
    }
}

/// Whether the answer to a request to append of a term shows that the node has
/// recognised the leader of that term, and so has heard from it.
pub fn leader_heard(response: &AppendResponse, term: Term) -> (r: bool)
    ensures
        r == (response.term == term),
        forall|n: NodeView, request: AppendView|
            #![trigger append_handled(n, request)]
            *response == append_handled(n, request).1 && request.term == term ==> r == (
            request.term >= term_of_node(n)),
{
    response.term == term
}

/// A node after a look at its transfer, which may have taken too long, and whom
/// to tell to start an election, with which message.
pub open spec fn transfer_looked(n: NodeView, timed_out: bool) -> (
    NodeView,
    Option<(NodeId, TimeoutNow)>,
) {
    if timed_out {
        (NodeView { transfer: None, ..n }, None)
    } else if transfer_ready(n) {
        let t = n.transfer->0;
        (
            NodeView { transfer: Some(TransferView { timeout_now_sent: true, ..t }), ..n },
            Some((t.target, TimeoutNow { term: term_of_node(n), leader_id: n.state.id })),
        )
    } else {
        (n, None)
    }
}

/// Sees to a transfer: gives it up when it has taken too long by now, else names
/// the target once it has the whole log, with the message that has it start an
/// election.
pub fn check_transfer(node: &mut RaftNode, timeout_ms: u64) -> (r: Option<(NodeId, TimeoutNow)>)
    requires
        old(node).well_formed(),
    ensures
        final(node).well_formed(),
        exists|now: u128|
            (final(node)@, r) == transfer_looked(
                old(node)@,
                #[trigger] transfer_timed_out(old(node)@, now, timeout_ms),
            ),
{
    if node.check_transfer_timeout(timeout_ms) {
        return None;
    }
    tell_target(node)
}

/// Sees to a transfer at a reading.
pub fn check_transfer_at(node: &mut RaftNode, now: u128, timeout_ms: u64) -> (r: Option<
    (NodeId, TimeoutNow),
>)
    requires
        old(node).well_formed(),
    ensures
        final(node).well_formed(),
        (final(node)@, r) == transfer_looked(
            old(node)@,
            transfer_timed_out(old(node)@, now, timeout_ms),
        ),
{
    if node.expire_transfer(now, timeout_ms) {
        return None;
    }
    tell_target(node)
}

fn tell_target(node: &mut RaftNode) -> (r: Option<(NodeId, TimeoutNow)>)
    requires
        old(node).well_formed(),
    ensures
        final(node).well_formed(),
        (final(node)@, r) == transfer_looked(old(node)@, false),
{
    match node.check_transfer_progress() {
        Some(target) => {
            let msg = TimeoutNow { term: node.term(), leader_id: node.id() };
            Some((target, msg))
        },
        None => None,
    }
}

/// The deletions of all keys of some leases, in order.
pub open spec fn deletions(expired: Seq<(i64, Seq<Seq<u8>>)>) -> Seq<CommandView>
    decreases expired.len(),
{
    if expired.len() == 0 {
        Seq::empty()
    } else {
        deletions(expired.drop_last()) + expired.last().1.map_values(
            |key: Seq<u8>| CommandView::Delete { key },
        )
    }
}

/// Every key of a lease that runs out or is taken back is deleted.
pub proof fn law_leased_keys_are_deleted(
    expired: Seq<(i64, Seq<Seq<u8>>)>,
    lease: int,
    key: Seq<u8>,
)
    requires
        0 <= lease < expired.len(),
        expired[lease].1.contains(key),
    ensures
        deletions(expired).contains(CommandView::Delete { key }),
    decreases expired.len(),
{
    let rest = deletions(expired.drop_last());
    let last = expired.last().1.map_values(|key: Seq<u8>| CommandView::Delete { key });
    let all = deletions(expired);
    if lease == expired.len() - 1 {
        let i = expired[lease].1.index_of(key);
        assert(last[i] == CommandView::Delete { key });
        assert(all[rest.len() + i] == CommandView::Delete { key });
    } else {
        law_leased_keys_are_deleted(expired.drop_last(), lease, key);
        let i = rest.index_of(CommandView::Delete { key });
        assert(all[i] == CommandView::Delete { key });
    }
}

pub open spec fn commands_view(commands: Seq<KvCommand>) -> Seq<CommandView> {
    Seq::new(commands.len(), |i: int| commands[i]@)
}

/// The commands that are proposed for leases that have run out: the deletion of
/// every key of theirs.
pub fn expiry_commands(expired: Vec<(i64, Vec<Vec<u8>>)>) -> (r: Vec<KvCommand>)
    ensures
        commands_view(r@) == deletions(expired_view(expired@)),
{
    let mut out: Vec<KvCommand> = Vec::new();
    let ghost all = expired_view(expired@);
    let mut i: usize = 0;
    assert(all.take(0) =~= Seq::<(i64, Seq<Seq<u8>>)>::empty());
    assert(commands_view(out@) =~= Seq::<CommandView>::empty());
    while i < expired.len()
        invariant
            i <= expired.len(),
            all == expired_view(expired@),
            commands_view(out@) == deletions(all.take(i as int)),
        decreases expired.len() - i,
    {
        let keys: &Vec<Vec<u8>> = &expired[i].1;
        let ghost before = commands_view(out@);
        let ghost all_keys = keys_of(keys@);
        let mut j: usize = 0;
        assert(before + all_keys.take(0).map_values(|key: Seq<u8>| CommandView::Delete { key })
            =~= before);
        while j < keys.len()
            invariant
                j <= keys.len(),
                all_keys == keys_of(keys@),
                commands_view(out@) == before + all_keys.take(j as int).map_values(
                    |key: Seq<u8>| CommandView::Delete { key },
                ),
            decreases keys.len() - j,
        {
            let ghost so_far = commands_view(out@);
            out.push(KvCommand::Delete { key: crate::bytes::copy(keys[j].as_slice()) });
            proof {
                assert(commands_view(out@) =~= so_far.push(
                    CommandView::Delete { key: all_keys[j as int] },
                ));
                assert(before + all_keys.take(j + 1).map_values(
                    |key: Seq<u8>| CommandView::Delete { key },
                ) =~= so_far.push(CommandView::Delete { key: all_keys[j as int] }));
            }
            j += 1;
        }
        proof {
            assert(all_keys.take(j as int) =~= all_keys);
            assert(all.take(i + 1).drop_last() =~= all.take(i as int));
            assert(all.take(i + 1).last().1 == all_keys);
        }
        i += 1;
    }
    assert(all.take(i as int) =~= all);
    out
}

/// How long a server sleeps until its timer fires.
pub open spec fn sleeps(deadline: u64, tick: TickConfig, role: Role, now: u64) -> u64 {
    if role == Role::Leader {
        tick.heartbeat_interval
    } else if deadline > now {
        (deadline - now) as u64
    } else {
        0
    }
}

/// A leader wakes for every heartbeat; any other node sleeps until its deadline, and
/// not at all once that has passed, so that its timer finds the deadline reached.
pub proof fn law_nodes_wake_at_their_deadline(
    deadline: u64,
    tick: TickConfig,
    role: Role,
    now: u64,
)
    ensures
        role == Role::Leader ==> sleeps(deadline, tick, role, now) == tick.heartbeat_interval,
        role != Role::Leader && now <= deadline ==> now + sleeps(deadline, tick, role, now)
            == deadline,
        role != Role::Leader && now > deadline ==> sleeps(deadline, tick, role, now) == 0,
        role == Role::Candidate && now <= deadline ==> fired(
            deadline,
            tick,
            role,
            (now + sleeps(deadline, tick, role, now)) as u64,
            0,
            0,
        ).1 == TimerAction::StartElection,
{
}

/// What came of a request for a vote, answered or not.
pub open spec fn vote_reply_taken(
    n: NodeView,
    round: VoteRound,
    peer: NodeId,
    reply: Option<VoteResponse>,
    is_pre_vote: bool,
) -> (NodeView, VoteRound) {
    match reply {
        Some(response) => {
            let (after, won) = vote_response_handled(n, peer, response, is_pre_vote);
            (after, VoteRound { any_success: true, won })
        },
        None => (n, VoteRound { won: false, ..round }),
    }
}

/// A round of votes has had success as soon as one peer has answered, and keeps it;
/// it is won with the answer that makes the node the leader. A peer that does not
/// answer changes nothing.
pub proof fn law_rounds_collect_answers(
    n: NodeView,
    round: VoteRound,
    peer: NodeId,
    reply: Option<VoteResponse>,
    is_pre_vote: bool,
)
    ensures
        ({
            let (after, next) = vote_reply_taken(n, round, peer, reply, is_pre_vote);
            &&& next.any_success <==> round.any_success || reply is Some
            &&& reply is None ==> after == n && !next.won
            &&& next.won ==> after.state.role == Role::Leader && !is_pre_vote
            &&& reply is Some && n.state.role != Role::Leader && after.state.role == Role::Leader
                ==> next.won
        }),
{
}

} // verus!
