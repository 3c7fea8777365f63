//! A cluster in one process, over a simulated network.

use rand::seq::SliceRandom;
use vstd::prelude::*;
use crate::chaos::network::{links_of, sound_network, FULL_LOSS, NetworkSim, NetworkView};
use crate::consensus::log::{all_loggable, last_index_of, loggable, LogView};
use crate::consensus::membership::{distinct_members, lemma_single_vote};
use crate::consensus::message::{
    AppendRequest, AppendResponse, AppendView, EntryType, EntryView, ProposalResult, VoteRequest,
    VoteResponse,
};
use crate::consensus::node::{new_node, requests_view, NodeConfig, RaftNode};
use crate::consensus::state::{PersistentState, Role};
use crate::consensus::tick::TickConfig;
use crate::consensus::transitions::{
    append_handled, append_request_for, append_requests_of, append_response_handled, became_leader,
    election_decided, election_started, leader_recognised, next_entry, pre_vote_started, proposed,
    resolved, term_of_node, to_peers, vote_counted, vote_request_handled, vote_request_of,
    vote_response_handled, with_entries, NodeView,
};
use crate::storage::wal::valid_records;
use crate::text::{decimal_text, joined};
use crate::types::{LogIndex, NodeId, Term};

verus! {

/// `rand::seq::SliceRandom::choose` with the generator of the thread: some
/// element, or none where there is none.
#[verifier::external_body]
fn random_element(ids: &[NodeId]) -> (r: Option<NodeId>)
    ensures
        match r {
            Some(id) => ids@.contains(id),
            None => ids@.len() == 0,
        },
{
    ids.choose(&mut rand::thread_rng()).copied()
}

/// A node with this number is there.
spec fn has_node(s: Seq<(NodeId, RaftNode)>, id: NodeId) -> bool {
    exists|i: int| 0 <= i < s.len() && (#[trigger] s[i]).0 == id
}

/// The place of the node with this number.
spec fn slot(s: Seq<(NodeId, RaftNode)>, id: NodeId) -> int {
    choose|i: int| 0 <= i < s.len() && (#[trigger] s[i]).0 == id
}

/// The nodes by number.
spec fn node_map(s: Seq<(NodeId, RaftNode)>) -> Map<NodeId, NodeView> {
    Map::new(|id: NodeId| has_node(s, id), |id: NodeId| s[slot(s, id)].1@)
}

/// No two nodes have the same number.
spec fn distinct(s: Seq<(NodeId, RaftNode)>) -> bool {
    forall|i: int, j: int| 0 <= i < j < s.len() ==> (#[trigger] s[i]).0 != (#[trigger] s[j]).0
}

/// The node at a place is the one with its number.
proof fn lemma_slot(s: Seq<(NodeId, RaftNode)>, i: int)
    requires
        distinct(s),
        0 <= i < s.len(),
    ensures
        has_node(s, s[i].0),
        slot(s, s[i].0) == i,
        node_map(s).contains_key(s[i].0),
        node_map(s)[s[i].0] == s[i].1@,
{
    let j = slot(s, s[i].0);
    assert(0 <= j < s.len() && s[j].0 == s[i].0);
    if j < i {
        assert(s[j].0 != s[i].0);
    } else if i < j {
        assert(s[i].0 != s[j].0);
    }
}

/// A change of one node changes the nodes there.
proof fn lemma_slot_changed(s: Seq<(NodeId, RaftNode)>, t: Seq<(NodeId, RaftNode)>, i: int)
    requires
        distinct(s),
        0 <= i < s.len(),
        t.len() == s.len(),
        t[i].0 == s[i].0,
        forall|j: int| 0 <= j < s.len() && j != i ==> #[trigger] t[j] == s[j],
    ensures
        distinct(t),
        node_map(t) == node_map(s).insert(s[i].0, t[i].1@),
{
    assert forall|a: int, b: int| 0 <= a < b < t.len() implies (#[trigger] t[a]).0 != (
    #[trigger] t[b]).0 by {
        assert(s[a].0 != s[b].0);
    }
    lemma_slot(t, i);
    let m = node_map(s).insert(s[i].0, t[i].1@);
    assert forall|id: NodeId| node_map(t).contains_key(id) == m.contains_key(id) by {
        if has_node(t, id) {
            let j = slot(t, id);
            assert(s[j].0 == id);
        }
        if has_node(s, id) {
            let j = slot(s, id);
            assert(t[j].0 == id);
        }
    }
    assert forall|id: NodeId| node_map(t).contains_key(id) implies node_map(t)[id] == m[id] by {
        let j = slot(t, id);
        assert(t[j].0 == id);
        lemma_slot(t, j);
        if j != i {
            assert(s[j].0 == id);
            lemma_slot(s, j);
            if id == s[i].0 {
                assert(t[j].0 == t[i].0);
            }
        }
    }
    assert(node_map(t) =~= m);
}

/// A log whose entries can be sent and recorded, and whose indices leave room.
pub open spec fn fits(n: NodeView) -> bool {
    &&& all_loggable(n.log.entries)
    &&& n.log.snapshot_index < u64::MAX
    &&& forall|i: int| 0 <= i < n.log.entries.len() ==> (#[trigger] n.log.entries[i]).index < u64::MAX
}

pub open spec fn all_fit(m: Map<NodeId, NodeView>) -> bool {
    forall|id: NodeId| m.contains_key(id) ==> fits(#[trigger] m[id])
}

/// Whether a message is delivered can come out like this.
pub open spec fn possible(net: NetworkView, from: NodeId, to: NodeId, outcome: bool) -> bool {
    if outcome {
        !net.partitions.contains((from, to)) && net.loss_rate < FULL_LOSS
    } else {
        net.partitions.contains((from, to)) || net.loss_rate > 0
    }
}

/// The nodes after a candidate asked a peer for its vote, where the request was
/// delivered or not and the answer was or was not; and whether the candidate
/// now leads.
pub open spec fn vote_exchanged(
    nodes: Map<NodeId, NodeView>,
    candidate: NodeId,
    peer: NodeId,
    request: VoteRequest,
    fate: (bool, bool),
) -> (Map<NodeId, NodeView>, bool) {
    if !fate.0 || !nodes.contains_key(peer) {
        (nodes, false)
    } else {
        let (asked, answer) = vote_request_handled(nodes[peer], request);
        let after = nodes.insert(peer, asked);
        if !fate.1 {
            (after, false)
        } else {
            let (told, won) = vote_response_handled(
                after[candidate],
                peer,
                answer,
                request.is_pre_vote,
            );
            (after.insert(candidate, told), won)
        }
    }
}

/// The nodes after a candidate asked the first `k` of its peers, and whether it
/// now leads; who leads asks no more.
pub open spec fn round(
    nodes: Map<NodeId, NodeView>,
    candidate: NodeId,
    requests: Seq<(NodeId, VoteRequest)>,
    fates: Seq<(bool, bool)>,
    k: int,
) -> (Map<NodeId, NodeView>, bool)
    decreases k,
{
    if k <= 0 {
        (nodes, false)
    } else {
        let (m, won) = round(nodes, candidate, requests, fates, k - 1);
        if won {
            (m, true)
        } else {
            vote_exchanged(m, candidate, requests[k - 1].0, requests[k - 1].1, fates[k - 1])
        }
    }
}

/// What became of the messages of a round is what the network allows. The
/// answers of a round before an election are always delivered.
pub open spec fn fates_possible(
    net: NetworkView,
    candidate: NodeId,
    requests: Seq<(NodeId, VoteRequest)>,
    fates: Seq<(bool, bool)>,
) -> bool {
    &&& fates.len() == requests.len()
    &&& forall|i: int|
        0 <= i < requests.len() ==> {
            let (peer, request) = #[trigger] requests[i];
            &&& possible(net, candidate, peer, fates[i].0)
            &&& if request.is_pre_vote {
                fates[i].1
            } else {
                possible(net, peer, candidate, fates[i].1)
            }
        }
}

/// A candidate has asked all its peers, in a round before an election and, if
/// that was won, in the election: `after` are the nodes then and `leader` is
/// the candidate where it leads, else zero.
pub open spec fn election_ran(
    nodes: Map<NodeId, NodeView>,
    net: NetworkView,
    candidate: NodeId,
    pre: Seq<(bool, bool)>,
    main: Seq<(bool, bool)>,
    after: Map<NodeId, NodeView>,
    leader: NodeId,
) -> bool {
    let c = nodes[candidate];
    let questions = to_peers(c, vote_request_of(c, (term_of_node(c) + 1) as Term, true));
    let (asked, _) = round(
        nodes.insert(candidate, pre_vote_started(c)),
        candidate,
        questions,
        pre,
        questions.len() as int,
    );
    let d = asked[candidate];
    let requests = to_peers(d, vote_request_of(d, (term_of_node(d) + 1) as Term, false));
    let (elected, won) = round(
        asked.insert(candidate, election_started(d)),
        candidate,
        requests,
        main,
        requests.len() as int,
    );
    &&& fates_possible(net, candidate, questions, pre)
    &&& if election_decided(d) {
        &&& fates_possible(net, candidate, requests, main)
        &&& after == elected
        &&& leader == if won || elected[candidate].state.role == Role::Leader {
            candidate
        } else {
            0
        }
    } else {
        after == asked && leader == 0
    }
}

/// What one exchange leaves of the candidate: until it leads its log is as it
/// was; a question before an election leaves its term as it was, too, unless
/// it gives the election up.
proof fn lemma_exchange(
    nodes: Map<NodeId, NodeView>,
    candidate: NodeId,
    peer: NodeId,
    request: VoteRequest,
    fate: (bool, bool),
)
    requires
        nodes.contains_key(candidate),
        all_fit(nodes),
        last_index_of(nodes[candidate].log) < u64::MAX - 1,
    ensures
        ({
            let (m, won) = vote_exchanged(nodes, candidate, peer, request, fate);
            &&& m.dom() == nodes.dom()
            &&& all_fit(m)
            &&& !won ==> m[candidate].log == nodes[candidate].log
            &&& m[candidate].peers == nodes[candidate].peers
            &&& request.is_pre_vote ==> !won
            &&& request.is_pre_vote && m[candidate].election is Some ==> term_of_node(m[candidate])
                == term_of_node(nodes[candidate])
        }),
{
    let (m, won) = vote_exchanged(nodes, candidate, peer, request, fate);
    assert(m.dom() =~= nodes.dom());
    if fate.0 && nodes.contains_key(peer) {
        let (asked, answer) = vote_request_handled(nodes[peer], request);
        assert(fits(nodes[peer]));
        assert(asked.log == nodes[peer].log);
        assert(fits(asked));
        let after = nodes.insert(peer, asked);
        let (told, won) = vote_response_handled(
            after[candidate],
            peer,
            answer,
            request.is_pre_vote,
        );
        assert(fits(nodes[candidate]));
        assert(fits(after[candidate]));
        if won {
            lemma_leader_fits(vote_counted(after[candidate], peer));
        }
        assert(fits(told));
        assert forall|id: NodeId| m.contains_key(id) implies fits(#[trigger] m[id]) by {
            assert(nodes.contains_key(id));
            assert(fits(nodes[id]));
        }
    }
}

/// A node that begins to lead, with one empty entry more, fits as before.
proof fn lemma_leader_fits(n: NodeView)
    requires
        fits(n),
        last_index_of(n.log) < u64::MAX - 1,
    ensures
        fits(became_leader(n)),
        last_index_of(became_leader(n).log) == last_index_of(n.log) + 1,
{
    let m = became_leader(n);
    let e = m.log.entries.last();
    assert(m.log.entries =~= n.log.entries.push(e));
    assert(loggable(e));
}

/// A node with one entry more fits as before.
proof fn lemma_proposed_fits(n: NodeView, data: Seq<u8>, entry_type: EntryType)
    requires
        fits(n),
        last_index_of(n.log) < u64::MAX - 1,
        data.len() + 21 <= u32::MAX,
    ensures
        fits(proposed(n, data, entry_type)),
{
    let m = proposed(n, data, entry_type);
    let e = next_entry(n, data, entry_type);
    assert(m.log.entries =~= n.log.entries.push(e));
    assert(loggable(e));
}

/// What a round leaves of the candidate.
proof fn lemma_round(
    nodes: Map<NodeId, NodeView>,
    candidate: NodeId,
    requests: Seq<(NodeId, VoteRequest)>,
    fates: Seq<(bool, bool)>,
    k: int,
    pre: bool,
)
    requires
        nodes.contains_key(candidate),
        all_fit(nodes),
        last_index_of(nodes[candidate].log) < u64::MAX - 1,
        0 <= k <= requests.len(),
        forall|i: int| 0 <= i < requests.len() ==> (#[trigger] requests[i]).1.is_pre_vote == pre,
    ensures
        ({
            let (m, won) = round(nodes, candidate, requests, fates, k);
            &&& m.dom() == nodes.dom()
            &&& all_fit(m)
            &&& !won ==> m[candidate].log == nodes[candidate].log
            &&& m[candidate].peers == nodes[candidate].peers
            &&& pre ==> !won
            &&& pre && m[candidate].election is Some ==> term_of_node(m[candidate])
                == term_of_node(nodes[candidate])
        }),
    decreases k,
{
    if k > 0 {
        lemma_round(nodes, candidate, requests, fates, k - 1, pre);
        let (m, won) = round(nodes, candidate, requests, fates, k - 1);
        if !won {
            assert(requests[k - 1].1.is_pre_vote == pre);
            lemma_exchange(m, candidate, requests[k - 1].0, requests[k - 1].1, fates[k - 1]);
            if pre {
                lemma_lost_stays_lost(
                    m,
                    candidate,
                    requests[k - 1].0,
                    requests[k - 1].1,
                    fates[k - 1],
                );
            }
        }
    }
}

/// A candidate that has given an election up does not take it up again.
proof fn lemma_lost_stays_lost(
    nodes: Map<NodeId, NodeView>,
    candidate: NodeId,
    peer: NodeId,
    request: VoteRequest,
    fate: (bool, bool),
)
    requires
        nodes.contains_key(candidate),
        request.is_pre_vote,
    ensures
        nodes[candidate].election is None ==> vote_exchanged(
            nodes,
            candidate,
            peer,
            request,
            fate,
        ).0[candidate].election is None,
{
}

/// What one exchange of entries between a leader and a peer does.
pub open spec fn append_exchanged(
    before: Map<NodeId, NodeView>,
    leader: NodeId,
    peer: NodeId,
    request: AppendView,
    fate: (bool, bool),
    after: Map<NodeId, NodeView>,
) -> bool {
    if !fate.0 || !before.contains_key(peer) {
        after == before
    } else {
        let (asked, answer) = append_handled(before[peer], request);
        let m = before.insert(peer, asked);
        if !fate.1 {
            after == m
        } else {
            &&& append_response_handled(m[leader], peer, answer, after[leader])
            &&& after == m.insert(leader, after[leader])
        }
    }
}

/// How many of the first `k` exchanges were completed.
pub open spec fn completed(
    nodes: Set<NodeId>,
    requests: Seq<(NodeId, AppendView)>,
    fates: Seq<(bool, bool)>,
    k: int,
) -> nat
    decreases k,
{
    if k <= 0 {
        0
    } else {
        completed(nodes, requests, fates, k - 1) + if fates[k - 1].0 && fates[k - 1].1
            && nodes.contains(requests[k - 1].0) {
            1nat
        } else {
            0
        }
    }
}

/// A leader has exchanged entries with all its peers: `steps` are the nodes
/// before the first exchange and after each.
pub open spec fn replicated(
    leader: NodeId,
    net: NetworkView,
    requests: Seq<(NodeId, AppendView)>,
    fates: Seq<(bool, bool)>,
    steps: Seq<Map<NodeId, NodeView>>,
) -> bool {
    &&& fates.len() == requests.len()
    &&& steps.len() == requests.len() + 1
    &&& forall|i: int|
        0 <= i < requests.len() ==> {
            let (peer, request) = #[trigger] requests[i];
            &&& possible(net, leader, peer, fates[i].0)
            &&& fates[i].0 && steps[i].contains_key(peer) ==> possible(
                net,
                peer,
                leader,
                fates[i].1,
            )
            &&& append_exchanged(steps[i], leader, peer, request, fates[i], steps[i + 1])
        }
}

/// Entries that can be sent and recorded, and whose indices leave room.
pub open spec fn entries_fit(es: Seq<EntryView>) -> bool {
    forall|i: int| 0 <= i < es.len() ==> loggable(#[trigger] es[i]) && es[i].index < u64::MAX
}

/// What a leader sends fits.
proof fn lemma_request_fits(n: NodeView, l: crate::consensus::state::LeaderView, peer: NodeId)
    requires
        fits(n),
    ensures
        entries_fit(append_request_for(n, l, peer).entries),
{
    let es = append_request_for(n, l, peer).entries;
    let next = if l.next_index.contains_key(peer) {
        l.next_index[peer]
    } else {
        1
    };
    let i = next - n.log.snapshot_index - 1;
    assert forall|k: int| 0 <= k < es.len() implies loggable(#[trigger] es[k]) && es[k].index
        < u64::MAX by {
        if i <= 0 {
            assert(es[k] == n.log.entries[k]);
        } else {
            assert(es[k] == n.log.entries[i + k]);
        }
    }
}

/// Entries from a leader leave a log that fits.
proof fn lemma_resolved_fits(l: LogView, es: Seq<EntryView>)
    requires
        all_loggable(l.entries),
        forall|i: int| 0 <= i < l.entries.len() ==> (#[trigger] l.entries[i]).index < u64::MAX,
        entries_fit(es),
    ensures
        ({
            let (m, fresh) = resolved(l, es);
            &&& all_loggable(m.entries)
            &&& forall|i: int|
                0 <= i < m.entries.len() ==> (#[trigger] m.entries[i]).index < u64::MAX
            &&& m.snapshot_index == l.snapshot_index
            &&& entries_fit(fresh)
        }),
    decreases es.len(),
{
    if es.len() > 0 {
        let rest = es.drop_last();
        assert(entries_fit(rest)) by {
            assert forall|i: int| 0 <= i < rest.len() implies loggable(#[trigger] rest[i])
                && rest[i].index < u64::MAX by {
                assert(rest[i] == es[i]);
            }
        }
        lemma_resolved_fits(l, rest);
        let (m, fresh) = resolved(l, rest);
        let e = es.last();
        assert(loggable(es[es.len() - 1]));
        let (m2, fresh2) = resolved(l, es);
        assert forall|i: int| 0 <= i < m2.entries.len() implies loggable(#[trigger] m2.entries[i])
            && m2.entries[i].index < u64::MAX by {
            assert(m2.entries[i] == m.entries[i]);
        }
    }
}

/// A peer that takes entries up fits, and its answer leaves room.
proof fn lemma_append_fits(n: NodeView, r: AppendView)
    requires
        fits(n),
        entries_fit(r.entries),
    ensures
        fits(append_handled(n, r).0),
        append_handled(n, r).1.match_index < u64::MAX,
{
    if r.term >= term_of_node(n) {
        let m = leader_recognised(n, r.term, r.leader_id);
        assert(m.log == n.log);
        lemma_resolved_fits(m.log, r.entries);
        let (cut, fresh) = resolved(m.log, r.entries);
        let after = with_entries(NodeView { log: cut, ..m }, fresh);
        assert forall|i: int| 0 <= i < after.log.entries.len() implies loggable(
            #[trigger] after.log.entries[i],
        ) && after.log.entries[i].index < u64::MAX by {
            if i < cut.entries.len() {
                assert(after.log.entries[i] == cut.entries[i]);
            } else {
                assert(after.log.entries[i] == fresh[i - cut.entries.len()]);
            }
        }
        if after.log.entries.len() > 0 {
            assert(after.log.entries[after.log.entries.len() - 1].index < u64::MAX);
        }
        if m.log.entries.len() > 0 {
            assert(m.log.entries[m.log.entries.len() - 1].index < u64::MAX);
        }
    }
}

/// The numbers of nodes from one on.
pub open spec fn numbers(n: nat) -> Seq<NodeId> {
    Seq::new(n, |i: int| (i + 1) as NodeId)
}

/// A number other than one.
pub open spec fn other_id(id: NodeId) -> spec_fn(NodeId) -> bool {
    |x: NodeId| x != id
}

/// A node at its first start in a cluster of the given nodes.
pub open spec fn fresh_node(id: NodeId, ids: Seq<NodeId>) -> NodeView {
    new_node(
        id,
        ids.filter(other_id(id)),
        PersistentState { current_term: 0, voted_for: None },
        Seq::empty(),
    )
}

/// The numbers other than one, in order.
fn others(ids: &Vec<NodeId>, id: NodeId) -> (r: Vec<NodeId>)
    ensures
        r@ == ids@.filter(other_id(id)),
{
    let mut out: Vec<NodeId> = Vec::new();
    let mut i: usize = 0;
    reveal(Seq::filter);
    while i < ids.len()
        invariant
            i <= ids.len(),
            out@ == ids@.take(i as int).filter(other_id(id)),
        decreases ids.len() - i,
    {
        reveal(Seq::filter);
        assert(ids@.take(i + 1).drop_last() =~= ids@.take(i as int));
        if ids[i] != id {
            out.push(ids[i]);
        }
        i += 1;
    }
    assert(ids@.take(i as int) =~= ids@);
    out
}

/// A node at its first start.
fn start_node(id: NodeId, ids: &Vec<NodeId>, dir: String) -> (r: RaftNode)
    ensures
        r.well_formed(),
        r@ == fresh_node(id, ids@),
{
    let config = NodeConfig {
        id,
        peers: others(ids, id),
        data_dir: dir,
        tick_config: TickConfig::new(150, 300, 50),
    };
    let wal: Vec<u8> = Vec::new();
    assert(valid_records(wal@) =~= Seq::<Seq<u8>>::empty());
    match RaftNode::new(config, PersistentState { current_term: 0, voted_for: None }, wal) {
        Ok(node) => node,
        Err(_) => unreached(),
    }
}

/// A cluster whose nodes call each other directly, through a simulated network.
#[derive(Debug)]
pub struct ChaosCluster {
    nodes: Vec<(NodeId, RaftNode)>,
    pub network: NetworkSim,
    data_dir: String,
    node_ids: Vec<NodeId>,
}

impl ChaosCluster {
    /// The nodes that run, by number.
    pub closed spec fn alive(&self) -> Map<NodeId, NodeView> {
        node_map(self.nodes@)
    }

    /// The state of the network.
    pub closed spec fn net(&self) -> NetworkView {
        self.network@
    }

    /// The numbers of all nodes, also of those that do not run.
    pub closed spec fn ids(&self) -> Seq<NodeId> {
        self.node_ids@
    }

    /// Every node is well-formed and is known by its own number.
    pub closed spec fn well_formed(&self) -> bool {
        &&& distinct(self.nodes@)
        &&& forall|i: int|
            0 <= i < self.nodes@.len() ==> (#[trigger] self.nodes@[i]).1.well_formed()
                && self.nodes@[i].1@.state.id == self.nodes@[i].0
        &&& self.network.well_formed()
    }

    /// A cluster of `n` nodes, numbered from one on, over a sound network.
    pub fn new(n: usize, data_dir: &str) -> (r: Self)
        ensures
            r.well_formed(),
            r.ids() == numbers(n as nat),
            r.net() == sound_network(),
            r.alive().dom() == numbers(n as nat).to_set(),
            forall|id: NodeId| #[trigger]
                r.alive().contains_key(id) ==> r.alive()[id] == fresh_node(id, r.ids()),
            all_fit(r.alive()),
    {
        let mut node_ids: Vec<NodeId> = Vec::new();
        let mut i: usize = 0;
        while i < n
            invariant
                i <= n,
                node_ids@ == numbers(i as nat),
            decreases n - i,
        {
            node_ids.push(i as u64 + 1);
            i += 1;
            assert(node_ids@ =~= numbers(i as nat));
        }
        let mut nodes: Vec<(NodeId, RaftNode)> = Vec::new();
        let mut k: usize = 0;
        while k < n
            invariant
                k <= n,
                nodes@.len() == k,
                node_ids@ == numbers(n as nat),
                forall|j: int|
                    0 <= j < k ==> (#[trigger] nodes@[j]).0 == j + 1 && nodes@[j].1.well_formed()
                        && nodes@[j].1@ == fresh_node((j + 1) as NodeId, node_ids@),
            decreases n - k,
        {
            let id: NodeId = node_ids[k];
            let dir: String = joined(data_dir, "/node-").concat(decimal_text(id).as_str());
            nodes.push((id, start_node(id, &node_ids, dir)));
            k += 1;
        }
        let r = ChaosCluster {
            nodes,
            network: NetworkSim::new(),
            data_dir: data_dir.to_string(),
            node_ids,
        };
        proof {
            let s = r.nodes@;
            assert(distinct(s));
            assert forall|id: NodeId| #[trigger] r.alive().contains_key(id) implies r.alive()[id]
                == fresh_node(id, r.ids()) by {
                let j = slot(s, id);
                assert(s[j].0 == id);
            }
            assert forall|id: NodeId| #[trigger]
                r.alive().dom().contains(id) == numbers(n as nat).to_set().contains(id) by {
                if has_node(s, id) {
                    let j = slot(s, id);
                    assert(s[j].0 == id);
                    assert(numbers(n as nat)[j] == id);
                }
                if numbers(n as nat).contains(id) {
                    let j = numbers(n as nat).index_of(id);
                    assert(s[j].0 == id);
                }
            }
            assert(r.alive().dom() =~= numbers(n as nat).to_set());
        }
        r
    }

    /// The numbers of all nodes.
    pub fn node_ids(&self) -> (r: &[NodeId])
        ensures
            r@ == self.ids(),
    {
        self.node_ids.as_slice()
    }

    /// The place of a node that runs.
    fn position(&self, id: NodeId) -> (r: Option<usize>)
        requires
            self.well_formed(),
        ensures
            match r {
                Some(i) => i < self.nodes@.len() && self.nodes@[i as int].0 == id
                    && self.alive().contains_key(id) && self.alive()[id]
                    == self.nodes@[i as int].1@,
                None => !self.alive().contains_key(id),
            },
    {
        let mut i: usize = 0;
        while i < self.nodes.len()
            invariant
                i <= self.nodes.len(),
                self.well_formed(),
                forall|j: int| 0 <= j < i ==> (#[trigger] self.nodes@[j]).0 != id,
            decreases self.nodes.len() - i,
        {
            if self.nodes[i].0 == id {
                proof {
                    lemma_slot(self.nodes@, i as int);
                }
                return Some(i);
            }
            i += 1;
        }
        None
    }

    /// A node that leads, if there is one.
    pub fn find_leader(&self) -> (r: Option<NodeId>)
        requires
            self.well_formed(),
        ensures
            match r {
                Some(id) => self.alive().contains_key(id) && self.alive()[id].state.role
                    == Role::Leader,
                None => forall|id: NodeId| #[trigger]
                    self.alive().contains_key(id) ==> self.alive()[id].state.role != Role::Leader,
            },
    {
        let mut i: usize = 0;
        while i < self.nodes.len()
            invariant
                i <= self.nodes.len(),
                self.well_formed(),
                forall|j: int|
                    0 <= j < i ==> (#[trigger] self.nodes@[j]).1@.state.role != Role::Leader,
            decreases self.nodes.len() - i,
        {
            if self.nodes[i].1.role() == Role::Leader {
                proof {
                    lemma_slot(self.nodes@, i as int);
                }
                return Some(self.nodes[i].0);
            }
            i += 1;
        }
        proof {
            assert forall|id: NodeId| #[trigger] self.alive().contains_key(id) implies self.alive()[
            id].state.role != Role::Leader by {
                let j = slot(self.nodes@, id);
                assert(self.nodes@[j].0 == id);
            }
        }
        None
    }

    /// Whether a message is delivered.
    fn carried(&self, from: NodeId, to: NodeId) -> (r: bool)
        requires
            self.well_formed(),
        ensures
            possible(self.net(), from, to, r),
    {
        self.network.should_deliver(from, to)
    }

    /// Asks a peer for its vote.
    fn ask(&mut self, c: usize, peer: NodeId, request: VoteRequest, fate: (bool, bool)) -> (r: bool)
        requires
            old(self).well_formed(),
            c < old(self).nodes@.len(),
            last_index_of(old(self).nodes@[c as int].1@.log) < u64::MAX,
        ensures
            final(self).well_formed(),
            final(self).nodes@.len() == old(self).nodes@.len(),
            final(self).nodes@[c as int].0 == old(self).nodes@[c as int].0,
            final(self).network == old(self).network,
            final(self).node_ids == old(self).node_ids,
            (final(self).alive(), r) == vote_exchanged(
                old(self).alive(),
                old(self).nodes@[c as int].0,
                peer,
                request,
                fate,
            ),
    {
        let ghost id = self.nodes@[c as int].0;
        if !fate.0 {
            return false;
        }
        match self.position(peer) {
            Some(p) => {
                let ghost s = self.nodes@;
                let answer: VoteResponse = self.nodes[p].1.handle_vote_request(request);
                proof {
                    lemma_slot_changed(s, self.nodes@, p as int);
                    lemma_slot(self.nodes@, c as int);
                }
                if !fate.1 {
                    return false;
                }
                let ghost t = self.nodes@;
                let won: bool = self.nodes[c].1.handle_vote_response(
                    peer,
                    answer,
                    request.is_pre_vote,
                );
                proof {
                    lemma_slot_changed(t, self.nodes@, c as int);
                }
                won
            },
            None => false,
        }
    }

    /// Asks all peers in turn.
    fn ask_all(&mut self, c: usize, requests: &Vec<(NodeId, VoteRequest)>, pre: bool) -> (r: bool)
        requires
            old(self).well_formed(),
            c < old(self).nodes@.len(),
            all_fit(old(self).alive()),
            last_index_of(old(self).nodes@[c as int].1@.log) < u64::MAX - 1,
            forall|i: int|
                0 <= i < requests@.len() ==> (#[trigger] requests@[i]).1.is_pre_vote == pre,
        ensures
            final(self).well_formed(),
            final(self).nodes@.len() == old(self).nodes@.len(),
            final(self).nodes@[c as int].0 == old(self).nodes@[c as int].0,
            final(self).network == old(self).network,
            final(self).node_ids == old(self).node_ids,
            exists|fates: Seq<(bool, bool)>| #[trigger]
                fates_possible(
                    old(self).net(),
                    old(self).nodes@[c as int].0,
                    requests@,
                    fates,
                ) && (final(self).alive(), r) == round(
                    old(self).alive(),
                    old(self).nodes@[c as int].0,
                    requests@,
                    fates,
                    requests@.len() as int,
                ),
    {
        let id: NodeId = self.nodes[c].0;
        let ghost before = self.alive();
        let ghost net = self.net();
        let ghost mut fates: Seq<(bool, bool)> = Seq::empty();
        let mut won: bool = false;
        let mut i: usize = 0;
        proof {
            lemma_slot(self.nodes@, c as int);
        }
        while i < requests.len()
            invariant
                i <= requests.len(),
                self.well_formed(),
                c < self.nodes@.len(),
                self.nodes@.len() == old(self).nodes@.len(),
                self.nodes@[c as int].0 == id,
                id == old(self).nodes@[c as int].0,
                self.network == old(self).network,
                self.node_ids == old(self).node_ids,
                net == self.net(),
                before.contains_key(id),
                all_fit(before),
                last_index_of(before[id].log) < u64::MAX - 1,
                forall|j: int|
                    0 <= j < requests@.len() ==> (#[trigger] requests@[j]).1.is_pre_vote == pre,
                fates_possible(net, id, requests@.take(i as int), fates),
                (self.alive(), won) == round(before, id, requests@.take(i as int), fates, i as int),
            decreases requests.len() - i,
        {
            let (peer, request): (NodeId, VoteRequest) = requests[i];
            let ghost done = requests@.take(i as int);
            let ghost more = requests@.take(i + 1);
            let mut fate: (bool, bool) = (self.carried(id, peer), true);
            if !pre {
                fate = (fate.0, self.carried(peer, id));
            }
            proof {
                assert forall|j: int| 0 <= j < more.len() implies (
                #[trigger] more[j]).1.is_pre_vote == pre by {
                    assert(more[j] == requests@[j]);
                }
                lemma_round_extends(before, id, done, more, fates, fates.push(fate), i as int);
                lemma_round(before, id, more, fates.push(fate), i as int, pre);
                lemma_slot(self.nodes@, c as int);
                assert(fates_possible(net, id, more, fates.push(fate))) by {
                    assert forall|j: int| 0 <= j < more.len() implies {
                        let (peer, request) = #[trigger] more[j];
                        &&& possible(net, id, peer, fates.push(fate)[j].0)
                        &&& if request.is_pre_vote {
                            fates.push(fate)[j].1
                        } else {
                            possible(net, peer, id, fates.push(fate)[j].1)
                        }
                    } by {
                        if j < i {
                            assert(more[j] == done[j]);
                        }
                    }
                }
            }
            if !won {
                won = self.ask(c, peer, request, fate);
            }
            proof {
                fates = fates.push(fate);
            }
            i += 1;
        }
        assert(requests@.take(i as int) =~= requests@);
        won
    }

    /// Has a node stand for election, after it has asked whether it would win.
    /// Returns its number where it leads then, else zero.
    pub fn elect_leader(&mut self, candidate_id: NodeId) -> (r: NodeId)
        requires
            old(self).well_formed(),
            all_fit(old(self).alive()),
            old(self).alive().contains_key(candidate_id),
            term_of_node(old(self).alive()[candidate_id]) < u64::MAX,
            last_index_of(old(self).alive()[candidate_id].log) < u64::MAX - 1,
            old(self).alive()[candidate_id].peers.len() < usize::MAX,
        ensures
            final(self).well_formed(),
            all_fit(final(self).alive()),
            final(self).alive().dom() == old(self).alive().dom(),
            final(self).net() == old(self).net(),
            final(self).ids() == old(self).ids(),
            exists|pre: Seq<(bool, bool)>, main: Seq<(bool, bool)>| #[trigger]
                election_ran(
                    old(self).alive(),
                    old(self).net(),
                    candidate_id,
                    pre,
                    main,
                    final(self).alive(),
                    r,
                ),
    {
        let ghost before = self.alive();
        let ghost net = self.net();
        let ghost n = before[candidate_id];
        let c: usize = match self.position(candidate_id) {
            Some(c) => c,
            None => {
                return 0;
            },
        };
        let ghost s = self.nodes@;
        let questions: Vec<(NodeId, VoteRequest)> = self.nodes[c].1.start_pre_vote();
        let ghost started = before.insert(candidate_id, pre_vote_started(n));
        proof {
            lemma_slot_changed(s, self.nodes@, c as int);
            assert(fits(n));
            assert(fits(pre_vote_started(n)));
            assert(all_fit(started));
            assert(started.dom() =~= before.dom());
        }
        let _ = self.ask_all(c, &questions, true);
        let ghost pre = choose|fates: Seq<(bool, bool)>| #[trigger]
            fates_possible(net, candidate_id, questions@, fates) && self.alive() == round(
                started,
                candidate_id,
                questions@,
                fates,
                questions@.len() as int,
            ).0;
        let ghost asked = self.alive();
        let ghost d = asked[candidate_id];
        proof {
            lemma_round(
                started,
                candidate_id,
                questions@,
                pre,
                questions@.len() as int,
                true,
            );
            lemma_slot(self.nodes@, c as int);
        }
        if !self.nodes[c].1.pre_vote_has_quorum() {
            assert(election_ran(before, net, candidate_id, pre, pre, asked, 0));
            return 0;
        }
        let ghost t = self.nodes@;
        let requests: Vec<(NodeId, VoteRequest)> = self.nodes[c].1.start_election();
        let ghost standing = asked.insert(candidate_id, election_started(d));
        proof {
            lemma_slot_changed(t, self.nodes@, c as int);
            assert(fits(d));
            assert(fits(election_started(d)));
            assert(all_fit(standing));
            assert(standing.dom() =~= asked.dom());
        }
        let won: bool = self.ask_all(c, &requests, false);
        let ghost main = choose|fates: Seq<(bool, bool)>| #[trigger]
            fates_possible(net, candidate_id, requests@, fates) && (self.alive(), won) == round(
                standing,
                candidate_id,
                requests@,
                fates,
                requests@.len() as int,
            );
        proof {
            lemma_round(standing, candidate_id, requests@, main, requests@.len() as int, false);
            lemma_slot(self.nodes@, c as int);
        }
        let r: NodeId = if won || self.nodes[c].1.role() == Role::Leader {
            candidate_id
        } else {
            0
        };
        assert(election_ran(before, net, candidate_id, pre, main, self.alive(), r));
        r
    }

    /// Sends entries to a peer.
    fn send(
        &mut self,
        l: usize,
        peer: NodeId,
        request: AppendRequest,
        fate: (bool, bool),
    ) -> (r: bool)
        requires
            old(self).well_formed(),
            all_fit(old(self).alive()),
            l < old(self).nodes@.len(),
            entries_fit(request@.entries),
        ensures
            final(self).well_formed(),
            all_fit(final(self).alive()),
            final(self).alive().dom() == old(self).alive().dom(),
            final(self).nodes@.len() == old(self).nodes@.len(),
            final(self).nodes@[l as int].0 == old(self).nodes@[l as int].0,
            final(self).network == old(self).network,
            final(self).node_ids == old(self).node_ids,
            r == (fate.0 && fate.1 && old(self).alive().contains_key(peer)),
            append_exchanged(
                old(self).alive(),
                old(self).nodes@[l as int].0,
                peer,
                request@,
                fate,
                final(self).alive(),
            ),
    {
        let ghost id = self.nodes@[l as int].0;
        let ghost before = self.alive();
        if !fate.0 {
            return false;
        }
        match self.position(peer) {
            Some(p) => {
                let ghost s = self.nodes@;
                proof {
                    assert(fits(before[peer]));
                    lemma_append_fits(before[peer], request@);
                    assert(all_loggable(request@.entries));
                }
                let answer: AppendResponse = self.nodes[p].1.handle_append_entries(request);
                let ghost m = before.insert(peer, append_handled(before[peer], request@).0);
                proof {
                    lemma_slot_changed(s, self.nodes@, p as int);
                    lemma_slot(self.nodes@, l as int);
                    assert(self.alive() == m);
                    assert(m.dom() =~= before.dom());
                    assert(all_fit(m));
                }
                if !fate.1 {
                    return false;
                }
                let ghost t = self.nodes@;
                self.nodes[l].1.handle_append_response(peer, answer);
                proof {
                    lemma_slot_changed(t, self.nodes@, l as int);
                    let after = self.alive();
                    assert(after == m.insert(id, after[id]));
                    assert(fits(m[id]));
                    assert(after[id].log == m[id].log);
                    assert(fits(after[id]));
                    assert(after.dom() =~= before.dom());
                    assert(all_fit(after));
                }
                true
            },
            None => false,
        }
    }

    /// Has a leader send entries to all its peers; returns how many answers came
    /// back. A node that does not lead sends nothing.
    pub fn replicate(&mut self, leader_id: NodeId) -> (r: usize)
        requires
            old(self).well_formed(),
            all_fit(old(self).alive()),
        ensures
            final(self).well_formed(),
            all_fit(final(self).alive()),
            final(self).alive().dom() == old(self).alive().dom(),
            final(self).net() == old(self).net(),
            final(self).ids() == old(self).ids(),
            if old(self).alive().contains_key(leader_id) && old(
                self,
            ).alive()[leader_id].state.role == Role::Leader {
                let requests = append_requests_of(old(self).alive()[leader_id]);
                exists|fates: Seq<(bool, bool)>, steps: Seq<Map<NodeId, NodeView>>| #[trigger]
                    replicated(leader_id, old(self).net(), requests, fates, steps) && steps[0]
                        == old(self).alive() && steps.last() == final(self).alive() && r
                        == completed(
                        old(self).alive().dom(),
                        requests,
                        fates,
                        requests.len() as int,
                    )
            } else {
                r == 0 && final(self).alive() == old(self).alive()
            },
    {
        let ghost before = self.alive();
        let ghost net = self.net();
        let l: usize = match self.position(leader_id) {
            Some(l) => l,
            None => {
                return 0;
            },
        };
        if self.nodes[l].1.role() != Role::Leader {
            return 0;
        }
        let mut pending: Vec<(NodeId, AppendRequest)> = self.nodes[l].1.create_append_requests();
        let ghost requests = append_requests_of(before[leader_id]);
        let total: usize = pending.len();
        let ghost mut fates: Seq<(bool, bool)> = Seq::empty();
        let ghost mut steps: Seq<Map<NodeId, NodeView>> = seq![before];
        let mut count: usize = 0;
        proof {
            assert(requests_view(pending@) == requests);
            assert(fits(before[leader_id]));
            assert forall|i: int| 0 <= i < requests.len() implies entries_fit(
                (#[trigger] requests[i]).1.entries,
            ) by {
                lemma_request_fits(
                    before[leader_id],
                    before[leader_id].leader->0,
                    requests[i].0,
                );
            }
            assert(requests.skip(0) =~= requests);
            assert(requests.take(0) =~= Seq::<(NodeId, AppendView)>::empty());
        }
        while pending.len() > 0
            invariant
                self.well_formed(),
                all_fit(self.alive()),
                self.alive().dom() == before.dom(),
                l < self.nodes@.len(),
                self.nodes@[l as int].0 == leader_id,
                self.network == old(self).network,
                self.node_ids == old(self).node_ids,
                net == self.net(),
                total == requests.len(),
                fates.len() + pending@.len() == total,
                requests_view(pending@) == requests.skip(fates.len() as int),
                forall|i: int|
                    0 <= i < requests.len() ==> entries_fit((#[trigger] requests[i]).1.entries),
                replicated(leader_id, net, requests.take(fates.len() as int), fates, steps),
                steps[0] == before,
                steps.last() == self.alive(),
                count <= fates.len() <= total,
                count == completed(before.dom(), requests, fates, fates.len() as int),
            decreases pending.len(),
        {
            let ghost k = fates.len() as int;
            let ghost waiting = pending@;
            let (peer, request): (NodeId, AppendRequest) = pending.remove(0);
            proof {
                assert(requests_view(waiting)[0] == (peer, request@));
                assert(requests.skip(k)[0] == requests[k]);
                assert(requests[k] == (peer, request@));
                assert forall|i: int| 0 <= i < pending@.len() implies requests_view(pending@)[i]
                    == requests.skip(k + 1)[i] by {
                    assert(pending@[i] == waiting[i + 1]);
                    assert(requests_view(waiting)[i + 1] == requests.skip(k)[i + 1]);
                }
                assert(requests_view(pending@) =~= requests.skip(k + 1));
            }
            let fate: (bool, bool) = (
                self.carried(leader_id, peer),
                self.carried(peer, leader_id),
            );
            let sent: bool = self.send(l, peer, request, fate);
            if sent {
                count += 1;
            }
            proof {
                let old_fates = fates;
                let old_steps = steps;
                fates = fates.push(fate);
                steps = steps.push(self.alive());
                let done = requests.take(k);
                let more = requests.take(k + 1);
                assert forall|i: int| 0 <= i < more.len() implies {
                    let (peer, request) = #[trigger] more[i];
                    &&& possible(net, leader_id, peer, fates[i].0)
                    &&& fates[i].0 && steps[i].contains_key(peer) ==> possible(
                        net,
                        peer,
                        leader_id,
                        fates[i].1,
                    )
                    &&& append_exchanged(
                        steps[i],
                        leader_id,
                        peer,
                        request,
                        fates[i],
                        steps[i + 1],
                    )
                } by {
                    if i < k {
                        assert(more[i] == done[i]);
                        assert(steps[i] == old_steps[i]);
                        assert(steps[i + 1] == old_steps[i + 1]);
                        assert(fates[i] == old_fates[i]);
                    }
                }
                assert(replicated(leader_id, net, more, fates, steps));
                lemma_completed_extends(before.dom(), requests, old_fates, fates, k);
            }
        }
        assert(requests.take(fates.len() as int) =~= requests);
        count
    }

    /// Proposes an entry to a node; returns its index where the node took it.
    pub fn propose(&mut self, leader_id: NodeId, data: Vec<u8>) -> (r: Option<LogIndex>)
        requires
            old(self).well_formed(),
            all_fit(old(self).alive()),
            data@.len() + 21 <= u32::MAX,
            old(self).alive().contains_key(leader_id) ==> last_index_of(
                old(self).alive()[leader_id].log,
            ) < u64::MAX - 1,
        ensures
            final(self).well_formed(),
            all_fit(final(self).alive()),
            final(self).net() == old(self).net(),
            final(self).ids() == old(self).ids(),
            if old(self).alive().contains_key(leader_id) && old(
                self,
            ).alive()[leader_id].state.role == Role::Leader && old(
                self,
            ).alive()[leader_id].transfer is None {
                let n = old(self).alive()[leader_id];
                &&& r == Some((last_index_of(n.log) + 1) as LogIndex)
                &&& final(self).alive() == old(self).alive().insert(
                    leader_id,
                    proposed(n, data@, EntryType::Normal),
                )
            } else {
                r is None && final(self).alive() == old(self).alive()
            },
    {
        let ghost before = self.alive();
        match self.position(leader_id) {
            Some(l) => {
                let ghost s = self.nodes@;
                let ghost n = before[leader_id];
                proof {
                    assert(fits(n));
                    lemma_proposed_fits(n, data@, EntryType::Normal);
                }
                let taken: Result<LogIndex, ProposalResult> = self.nodes[l].1.propose(data);
                proof {
                    lemma_slot_changed(s, self.nodes@, l as int);
                    assert(before.insert(leader_id, n) =~= before);
                }
                match taken {
                    Ok(index) => Some(index),
                    Err(_) => None,
                }
            },
            None => None,
        }
    }

    /// Replicates once; returns the commit index of the leader, or zero where it
    /// does not run.
    pub fn replicate_and_commit(&mut self, leader_id: NodeId) -> (r: LogIndex)
        requires
            old(self).well_formed(),
            all_fit(old(self).alive()),
        ensures
            final(self).well_formed(),
            all_fit(final(self).alive()),
            final(self).alive().dom() == old(self).alive().dom(),
            final(self).net() == old(self).net(),
            final(self).ids() == old(self).ids(),
            r == if final(self).alive().contains_key(leader_id) {
                final(self).alive()[leader_id].state.commit_index
            } else {
                0
            },
            if old(self).alive().contains_key(leader_id) && old(
                self,
            ).alive()[leader_id].state.role == Role::Leader {
                exists|fates: Seq<(bool, bool)>, steps: Seq<Map<NodeId, NodeView>>| #[trigger]
                    replicated(
                        leader_id,
                        old(self).net(),
                        append_requests_of(old(self).alive()[leader_id]),
                        fates,
                        steps,
                    ) && steps[0] == old(self).alive() && steps.last() == final(self).alive()
            } else {
                final(self).alive() == old(self).alive()
            },
    {
        let _ = self.replicate(leader_id);
        match self.position(leader_id) {
            Some(l) => self.nodes[l].1.commit_index(),
            None => 0,
        }
    }

    /// Stops a node by chance; nothing where the one that was picked does not
    /// run.
    pub fn kill_random(&mut self) -> (r: Option<(NodeId, RaftNode)>)
        requires
            old(self).well_formed(),
        ensures
            final(self).well_formed(),
            final(self).ids() == old(self).ids(),
            match r {
                Some((id, node)) => {
                    &&& old(self).ids().contains(id)
                    &&& old(self).alive().contains_key(id)
                    &&& node.well_formed()
                    &&& node@ == old(self).alive()[id]
                    &&& final(self).alive() == old(self).alive().remove(id)
                    &&& final(self).net() == (NetworkView {
                        partitions: old(self).net().partitions.union(
                            links_of(id, old(self).ids()),
                        ),
                        ..old(self).net()
                    })
                },
                None => {
                    &&& final(self).alive() == old(self).alive()
                    &&& final(self).net() == old(self).net()
                    &&& old(self).ids().len() == 0 || exists|id: NodeId| #[trigger]
                        old(self).ids().contains(id) && !old(self).alive().contains_key(id)
                },
            },
    {
        match random_element(self.node_ids.as_slice()) {
            Some(id) => self.kill_node(id),
            None => None,
        }
    }

    /// Stops a node, if it runs, and cuts it off; returns it.
    pub fn kill_node(&mut self, id: NodeId) -> (r: Option<(NodeId, RaftNode)>)
        requires
            old(self).well_formed(),
        ensures
            final(self).well_formed(),
            final(self).ids() == old(self).ids(),
            if old(self).alive().contains_key(id) {
                &&& r matches Some((i, node)) && i == id && node.well_formed() && node@ == old(
                    self,
                ).alive()[id]
                &&& final(self).alive() == old(self).alive().remove(id)
                &&& final(self).net() == (NetworkView {
                    partitions: old(self).net().partitions.union(links_of(id, old(self).ids())),
                    ..old(self).net()
                })
            } else {
                &&& r is None
                &&& final(self).alive() == old(self).alive()
                &&& final(self).net() == old(self).net()
            },
    {
        match self.position(id) {
            Some(i) => {
                let ghost s = self.nodes@;
                let (_, node): (NodeId, RaftNode) = self.nodes.remove(i);
                proof {
                    lemma_slot_removed(s, i as int);
                    assert forall|j: int| 0 <= j < self.nodes@.len() implies (
                    #[trigger] self.nodes@[j]).1.well_formed() && self.nodes@[j].1@.state.id
                        == self.nodes@[j].0 by {
                        if j < i {
                            assert(self.nodes@[j] == s[j]);
                        } else {
                            assert(self.nodes@[j] == s[j + 1]);
                        }
                    }
                }
                self.network.isolate(id, self.node_ids.as_slice());
                Some((id, node))
            },
            None => None,
        }
    }

    /// Starts a node again that was stopped, or puts it in place of the one with
    /// its number, and mends the network.
    pub fn restart_node(&mut self, id: NodeId, node: RaftNode)
        requires
            old(self).well_formed(),
            node.well_formed(),
            node@.state.id == id,
        ensures
            final(self).well_formed(),
            final(self).ids() == old(self).ids(),
            final(self).alive() == old(self).alive().insert(id, node@),
            final(self).net() == (NetworkView { partitions: Set::empty(), ..old(self).net() }),
    {
        self.network.heal_all();
        let _ = self.put_node(id, node);
    }

    /// Puts a node in its place.
    fn put_node(&mut self, id: NodeId, node: RaftNode) -> (r: usize)
        requires
            old(self).well_formed(),
            node.well_formed(),
            node@.state.id == id,
        ensures
            final(self).well_formed(),
            final(self).network == old(self).network,
            final(self).node_ids == old(self).node_ids,
            final(self).alive() == old(self).alive().insert(id, node@),
            r < final(self).nodes@.len(),
            final(self).nodes@[r as int].1 == node,
    {
        let ghost s = self.nodes@;
        match self.position(id) {
            Some(i) => {
                self.nodes.set(i, (id, node));
                proof {
                    lemma_slot_changed(s, self.nodes@, i as int);
                }
                i
            },
            None => {
                let i: usize = self.nodes.len();
                self.nodes.push((id, node));
                proof {
                    lemma_slot_added(s, (id, node));
                }
                i
            },
        }
    }

    /// Starts a node that has lost all it had, and mends the network.
    pub fn create_fresh_node(&mut self, id: NodeId) -> (r: &RaftNode)
        requires
            old(self).well_formed(),
        ensures
            r@ == fresh_node(id, old(self).ids()),
            final(self).well_formed(),
            final(self).ids() == old(self).ids(),
            final(self).alive() == old(self).alive().insert(id, fresh_node(id, old(self).ids())),
            final(self).net() == (NetworkView { partitions: Set::empty(), ..old(self).net() }),
    {
        let dir: String = joined(self.data_dir.as_str(), "/node-").concat(
            decimal_text(id).as_str(),
        ).concat("-fresh");
        let node: RaftNode = start_node(id, &self.node_ids, dir);
        let i: usize = self.put_node(id, node);
        self.network.heal_all();
        &self.nodes[i].1
    }

    /// A node that runs.
    pub fn node(&self, id: NodeId) -> (r: Option<&RaftNode>)
        requires
            self.well_formed(),
        ensures
            match r {
                Some(n) => n.well_formed() && self.alive().contains_key(id) && n@
                    == self.alive()[id],
                None => !self.alive().contains_key(id),
            },
    {
        match self.position(id) {
            Some(i) => Some(&self.nodes[i].1),
            None => None,
        }
    }

    /// How many nodes run.
    pub fn alive_count(&self) -> (r: usize)
        requires
            self.well_formed(),
        ensures
            r == self.alive().dom().len(),
    {
        proof {
            lemma_slot_count(self.nodes@);
        }
        self.nodes.len()
    }
}

/// Nothing is replicated across a partition: a leader that is cut off from all
/// its peers leaves every node as it was.
pub proof fn law_partition_blocks_replication(
    leader: NodeId,
    net: NetworkView,
    requests: Seq<(NodeId, AppendView)>,
    fates: Seq<(bool, bool)>,
    steps: Seq<Map<NodeId, NodeView>>,
    k: int,
)
    requires
        replicated(leader, net, requests, fates, steps),
        forall|i: int|
            0 <= i < requests.len() ==> net.partitions.contains(
                (leader, (#[trigger] requests[i]).0),
            ),
        0 <= k <= requests.len(),
    ensures
        steps[k] == steps[0],
        completed(steps[0].dom(), requests, fates, k) == 0,
    decreases k,
{
    if k > 0 {
        law_partition_blocks_replication(leader, net, requests, fates, steps, k - 1);
        let (peer, request) = requests[k - 1];
        assert(net.partitions.contains((leader, peer)));
        assert(append_exchanged(steps[k - 1], leader, peer, request, fates[k - 1], steps[k]));
    }
}

/// A node that is cut off from all its peers, and is not the only member, is not
/// elected, and no other node changes.
pub proof fn law_partition_blocks_election(
    nodes: Map<NodeId, NodeView>,
    net: NetworkView,
    candidate: NodeId,
    pre: Seq<(bool, bool)>,
    main: Seq<(bool, bool)>,
    after: Map<NodeId, NodeView>,
    leader: NodeId,
)
    requires
        election_ran(nodes, net, candidate, pre, main, after, leader),
        nodes[candidate].membership.current.len() > 1,
        distinct_members(nodes[candidate].membership.current),
        forall|i: int|
            0 <= i < nodes[candidate].peers.len() ==> net.partitions.contains(
                (candidate, #[trigger] nodes[candidate].peers[i]),
            ),
    ensures
        leader == 0,
        after == nodes.insert(candidate, pre_vote_started(nodes[candidate])),
{
    let c = nodes[candidate];
    let started = nodes.insert(candidate, pre_vote_started(c));
    let questions = to_peers(c, vote_request_of(c, (term_of_node(c) + 1) as Term, true));
    assert forall|i: int| 0 <= i < questions.len() implies net.partitions.contains(
        (candidate, (#[trigger] questions[i]).0),
    ) by {
        assert(questions[i].0 == c.peers[i]);
    }
    lemma_cut_round(started, net, candidate, questions, pre, questions.len() as int);
    assert(started[candidate] == pre_vote_started(c));
    lemma_single_vote(c.membership.current, c.state.id);
}

/// A round in which nothing is delivered changes nothing.
proof fn lemma_cut_round(
    nodes: Map<NodeId, NodeView>,
    net: NetworkView,
    candidate: NodeId,
    requests: Seq<(NodeId, VoteRequest)>,
    fates: Seq<(bool, bool)>,
    k: int,
)
    requires
        fates_possible(net, candidate, requests, fates),
        forall|i: int|
            0 <= i < requests.len() ==> net.partitions.contains(
                (candidate, (#[trigger] requests[i]).0),
            ),
        0 <= k <= requests.len(),
    ensures
        round(nodes, candidate, requests, fates, k) == (nodes, false),
    decreases k,
{
    if k > 0 {
        lemma_cut_round(nodes, net, candidate, requests, fates, k - 1);
        let (peer, _) = requests[k - 1];
        assert(net.partitions.contains((candidate, peer)));
        assert(possible(net, candidate, peer, fates[k - 1].0));
    }
}

/// How many exchanges were completed depends only on the fates up to there.
proof fn lemma_completed_extends(
    nodes: Set<NodeId>,
    requests: Seq<(NodeId, AppendView)>,
    f: Seq<(bool, bool)>,
    g: Seq<(bool, bool)>,
    k: int,
)
    requires
        0 <= k <= f.len(),
        k <= g.len(),
        forall|i: int| 0 <= i < k ==> #[trigger] f[i] == g[i],
    ensures
        completed(nodes, requests, f, k) == completed(nodes, requests, g, k),
    decreases k,
{
    if k > 0 {
        lemma_completed_extends(nodes, requests, f, g, k - 1);
        assert(f[k - 1] == g[k - 1]);
    }
}

/// A node that is taken out is gone from the nodes.
proof fn lemma_slot_removed(s: Seq<(NodeId, RaftNode)>, i: int)
    requires
        distinct(s),
        0 <= i < s.len(),
    ensures
        distinct(s.remove(i)),
        node_map(s.remove(i)) == node_map(s).remove(s[i].0),
{
    let t = s.remove(i);
    assert forall|a: int, b: int| 0 <= a < b < t.len() implies (#[trigger] t[a]).0 != (
    #[trigger] t[b]).0 by {
        let x = if a < i {
            a
        } else {
            a + 1
        };
        let y = if b < i {
            b
        } else {
            b + 1
        };
        assert(s[x].0 != s[y].0);
    }
    let m = node_map(s).remove(s[i].0);
    assert forall|id: NodeId| node_map(t).contains_key(id) == m.contains_key(id) by {
        if has_node(t, id) {
            let j = slot(t, id);
            let x = if j < i {
                j
            } else {
                j + 1
            };
            assert(s[x].0 == id);
            if x < i {
                assert(s[x].0 != s[i].0);
            } else {
                assert(s[i].0 != s[x].0);
            }
        }
        if has_node(s, id) && id != s[i].0 {
            let j = slot(s, id);
            let x = if j < i {
                j
            } else {
                j - 1
            };
            assert(t[x].0 == id);
        }
    }
    assert forall|id: NodeId| node_map(t).contains_key(id) implies node_map(t)[id] == m[id] by {
        let j = slot(t, id);
        assert(t[j].0 == id);
        let x = if j < i {
            j
        } else {
            j + 1
        };
        assert(s[x] == t[j]);
        lemma_slot(s, x);
    }
    assert(node_map(t) =~= m);
}

/// A node that is added is one of the nodes.
proof fn lemma_slot_added(s: Seq<(NodeId, RaftNode)>, p: (NodeId, RaftNode))
    requires
        distinct(s),
        !has_node(s, p.0),
    ensures
        distinct(s.push(p)),
        node_map(s.push(p)) == node_map(s).insert(p.0, p.1@),
{
    let t = s.push(p);
    assert forall|a: int, b: int| 0 <= a < b < t.len() implies (#[trigger] t[a]).0 != (
    #[trigger] t[b]).0 by {
        if b < s.len() {
            assert(s[a].0 != s[b].0);
        } else {
            assert(s[a].0 != p.0);
        }
    }
    let m = node_map(s).insert(p.0, p.1@);
    assert forall|id: NodeId| node_map(t).contains_key(id) == m.contains_key(id) by {
        if has_node(t, id) {
            let j = slot(t, id);
            if j < s.len() {
                assert(s[j].0 == id);
            }
        }
        if has_node(s, id) {
            let j = slot(s, id);
            assert(t[j].0 == id);
        }
        assert(t[s.len() as int].0 == p.0);
    }
    assert forall|id: NodeId| node_map(t).contains_key(id) implies node_map(t)[id] == m[id] by {
        let j = slot(t, id);
        assert(t[j].0 == id);
        lemma_slot(t, j);
        if j < s.len() {
            assert(s[j] == t[j]);
            lemma_slot(s, j);
        }
    }
    assert(node_map(t) =~= m);
}

/// There are as many nodes as places.
proof fn lemma_slot_count(s: Seq<(NodeId, RaftNode)>)
    requires
        distinct(s),
    ensures
        node_map(s).dom().finite(),
        node_map(s).dom().len() == s.len(),
    decreases s.len(),
{
    if s.len() == 0 {
        assert(node_map(s).dom() =~= Set::<NodeId>::empty());
    } else {
        let n = (s.len() - 1) as int;
        let rest = s.remove(n);
        lemma_slot_removed(s, n);
        lemma_slot(s, n);
        lemma_slot_count(rest);
        assert(node_map(s).dom() =~= node_map(rest).dom().insert(s[n].0));
    }
}

/// A round depends only on the requests and fates up to its length.
proof fn lemma_round_extends(
    nodes: Map<NodeId, NodeView>,
    candidate: NodeId,
    a: Seq<(NodeId, VoteRequest)>,
    b: Seq<(NodeId, VoteRequest)>,
    f: Seq<(bool, bool)>,
    g: Seq<(bool, bool)>,
    k: int,
)
    requires
        0 <= k <= a.len(),
        k <= b.len(),
        k <= f.len(),
        k <= g.len(),
        forall|i: int| 0 <= i < k ==> #[trigger] a[i] == b[i],
        forall|i: int| 0 <= i < k ==> #[trigger] f[i] == g[i],
    ensures
        round(nodes, candidate, a, f, k) == round(nodes, candidate, b, g, k),
    decreases k,
{
    if k > 0 {
        lemma_round_extends(nodes, candidate, a, b, f, g, k - 1);
    }
}

} // verus!
