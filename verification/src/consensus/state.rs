//! The state of a node.

use std::collections::{HashMap, HashSet};
use vstd::prelude::*;
use vstd::std_specs::iter::IteratorSpec;
use crate::types::{LogIndex, NodeId, Term};

verus! {

broadcast use vstd::std_specs::hash::group_hash_axioms;

/// What a node does at present.
#[derive(Debug, Clone, Copy, PartialEq, Eq, Structural)]
pub enum Role {
    Follower,
    PreCandidate,
    Candidate,
    Leader,
}

/// What a node must not forget: its term and its vote in that term.
#[derive(Debug, Clone, Copy, PartialEq, Eq, Structural)]
pub struct PersistentState {
    pub current_term: Term,
    pub voted_for: Option<NodeId>,
}

impl Default for PersistentState {
    fn default() -> (r: Self)
        ensures
            r.current_term == 0,
            r.voted_for is None,
    {
        PersistentState { current_term: 0, voted_for: None }
    }
}

/// The state of a node.
#[derive(Debug, Clone, Copy, PartialEq, Eq, Structural)]
pub struct RaftState {
    pub id: NodeId,
    pub role: Role,
    pub persistent: PersistentState,
    pub leader_id: Option<NodeId>,
    pub commit_index: LogIndex,
    pub last_applied: LogIndex,
}

/// The votes that a candidate has got.
#[derive(Debug)]
pub struct ElectionState {
    votes: HashSet<NodeId>,
    cluster_size: usize,
}

/// What an election stands at.
#[verifier::ext_equal]
pub struct ElectionView {
    pub votes: Set<NodeId>,
    pub cluster_size: nat,
}

/// The votes are more than half of the cluster.
pub open spec fn election_won(e: ElectionView) -> bool {
    e.votes.len() >= e.cluster_size / 2 + 1
}

impl View for ElectionState {
    type V = ElectionView;

    closed spec fn view(&self) -> ElectionView {
        ElectionView { votes: self.votes@, cluster_size: self.cluster_size as nat }
    }
}

impl ElectionState {
    /// An election in a cluster of the given size, without votes.
    pub fn new(cluster_size: usize) -> (r: Self)
        ensures
            r@ == (ElectionView { votes: Set::empty(), cluster_size: cluster_size as nat }),
    {
        ElectionState { votes: HashSet::new(), cluster_size }
    }

    /// Counts a vote; returns whether the election is won.
    pub fn record_vote(&mut self, from: NodeId) -> (r: bool)
        ensures
            final(self)@ == (ElectionView {
                votes: old(self)@.votes.insert(from),
                cluster_size: old(self)@.cluster_size,
            }),
            r == election_won(final(self)@),
    {
        self.votes.insert(from);
        self.has_quorum()
    }

    /// The nodes that have voted for the candidate.
    pub fn votes(&self) -> (r: &HashSet<NodeId>)
        ensures
            r@ == self@.votes,
    {
        &self.votes
    }

    /// Whether the election is won.
    pub fn has_quorum(&self) -> (r: bool)
        ensures
            r == election_won(self@),
    {
        self.votes.len() >= self.cluster_size / 2 + 1
    }
}

/// Two elections of one cluster that are both won share a voter.
pub proof fn law_elections_share_voter(a: Set<NodeId>, b: Set<NodeId>, cluster: Set<NodeId>) -> (id:
    NodeId)
    requires
        cluster.finite(),
        a.subset_of(cluster),
        b.subset_of(cluster),
        election_won(ElectionView { votes: a, cluster_size: cluster.len() }),
        election_won(ElectionView { votes: b, cluster_size: cluster.len() }),
    ensures
        a.contains(id),
        b.contains(id),
{
    vstd::set_lib::lemma_len_subset(a, cluster);
    vstd::set_lib::lemma_len_subset(b, cluster);
    if a.disjoint(b) {
        vstd::set_lib::lemma_set_disjoint_lens(a, b);
        let both = a + b;
        assert(both.subset_of(cluster));
        vstd::set_lib::lemma_len_subset(both, cluster);
    }
    choose|id: NodeId| a.contains(id) && b.contains(id)
}

/// At most one node wins an election of a term: where every voter of two
/// elections that are won has given its one vote to the candidate, the
/// candidates are one.
pub proof fn law_one_leader_per_term(
    a: NodeId,
    votes_a: Set<NodeId>,
    b: NodeId,
    votes_b: Set<NodeId>,
    cluster: Set<NodeId>,
    voted_for: Map<NodeId, NodeId>,
)
    requires
        cluster.finite(),
        votes_a.subset_of(cluster),
        votes_b.subset_of(cluster),
        election_won(ElectionView { votes: votes_a, cluster_size: cluster.len() }),
        election_won(ElectionView { votes: votes_b, cluster_size: cluster.len() }),
        forall|v: NodeId| #[trigger] votes_a.contains(v) ==> voted_for[v] == a,
        forall|v: NodeId| #[trigger] votes_b.contains(v) ==> voted_for[v] == b,
    ensures
        a == b,
{
    let v = law_elections_share_voter(votes_a, votes_b, cluster);
    assert(votes_a.contains(v) && votes_b.contains(v));
}

/// How far a leader has brought each peer.
#[derive(Debug)]
pub struct LeaderState {
    /// The next entry to be sent to each peer.
    pub next_index: HashMap<NodeId, LogIndex>,
    /// The last entry that each node is known to have.
    pub match_index: HashMap<NodeId, LogIndex>,
}

/// What a leader knows of its peers.
#[verifier::ext_equal]
pub struct LeaderView {
    pub next_index: Map<NodeId, LogIndex>,
    pub match_index: Map<NodeId, LogIndex>,
}

impl View for LeaderState {
    type V = LeaderView;

    open spec fn view(&self) -> LeaderView {
        LeaderView { next_index: self.next_index@, match_index: self.match_index@ }
    }
}

/// What a new leader with the last entry `last_index` assumes of its peers:
/// that they have all entries, though none is known to be there.
pub open spec fn new_leader(peers: Seq<NodeId>, last_index: LogIndex) -> LeaderView {
    LeaderView {
        next_index: Map::new(
            |p: NodeId| peers.contains(p),
            |p: NodeId| (last_index + 1) as LogIndex,
        ),
        match_index: Map::new(|p: NodeId| peers.contains(p), |p: NodeId| 0 as LogIndex),
    }
}

impl LeaderState {
    pub fn new(peers: &[NodeId], last_index: LogIndex) -> (r: Self)
        requires
            last_index < u64::MAX,
        ensures
            r@ == new_leader(peers@, last_index),
    {
        let mut next_index: HashMap<NodeId, LogIndex> = HashMap::new();
        let mut match_index: HashMap<NodeId, LogIndex> = HashMap::new();
        let mut i: usize = 0;
        proof {
            assert(next_index@ =~= new_leader(peers@.take(0), last_index).next_index);
            assert(match_index@ =~= new_leader(peers@.take(0), last_index).match_index);
        }
        while i < peers.len()
            invariant
                i <= peers.len(),
                last_index < u64::MAX,
                next_index@ == new_leader(peers@.take(i as int), last_index).next_index,
                match_index@ == new_leader(peers@.take(i as int), last_index).match_index,
            decreases peers.len() - i,
        {
            next_index.insert(peers[i], last_index + 1);
            match_index.insert(peers[i], 0);
            proof {
                let a = peers@.take(i as int);
                let b = peers@.take(i + 1);
                assert forall|p: NodeId| b.contains(p) == (a.contains(p) || p == peers@[i as int]) by {
                    if a.contains(p) {
                        assert(b[a.index_of(p)] == p);
                    }
                    if b.contains(p) {
                        let j = b.index_of(p);
                        if j < i {
                            assert(a[j] == p);
                        }
                    }
                    assert(b[i as int] == peers@[i as int]);
                }
                assert(next_index@ =~= new_leader(b, last_index).next_index);
                assert(match_index@ =~= new_leader(b, last_index).match_index);
            }
            i += 1;
        }
        assert(peers@.take(i as int) =~= peers@);
        LeaderState { next_index, match_index }
    }
}

/// The pairs of a map, in no particular order.
pub fn pairs_of(m: &HashMap<NodeId, LogIndex>) -> (r: Vec<(NodeId, LogIndex)>)
    ensures
        forall|i: int|
            0 <= i < r@.len() ==> m@.contains_key((#[trigger] r@[i]).0) && m@[r@[i].0] == r@[i].1,
        forall|k: NodeId| #[trigger] m@.contains_key(k) ==> r@.contains((k, m@[k])),
{
    let mut out: Vec<(NodeId, LogIndex)> = Vec::new();
    let iter = m.iter();
    let ghost all = iter.remaining();
    for x in it: iter
        invariant
            it.seq() == all,
            out@.len() == it.index(),
            forall|j: int|
                0 <= j < it.index() ==> #[trigger] out@[j] == (*all[j].0, *all[j].1),
    {
        out.push((*x.0, *x.1));
    }
    assert forall|k: NodeId| #[trigger] m@.contains_key(k) implies out@.contains((k, m@[k])) by {
        assert(all.contains((&k, &m@[k])));
        let j = all.index_of((&k, &m@[k]));
        assert(out@[j] == (k, m@[k]));
    }
    out
}

} // verus!
