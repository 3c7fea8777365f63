//! What happens in a cluster whose network is sound.

use vstd::prelude::*;
use crate::chaos::harness::{election_ran, fates_possible, replicated, round};
use crate::chaos::network::NetworkView;
use crate::consensus::log::{contiguous, LogView};
use crate::consensus::membership::{
    ids, initial_members, law_majority_is_more_than_half, law_more_voters_more_votes,
    law_new_clusters_have_all_nodes, quorum, settled,
};
use crate::consensus::progress::{
    final_term, known_to_hold, law_acceptances_move_up, law_known_entries_change_nothing,
    law_majorities_commit, law_matching_requests_are_accepted, law_new_entries_are_taken_up,
    law_pre_votes_foretell_votes, law_requests_hold_the_rest, law_votes_go_to_recent_logs,
    law_whole_logs_are_voted_for, more_than_half, numbered, reach, terms_rise,
};
use crate::consensus::state::{ElectionView, Role};
use crate::consensus::transitions::{
    append_handled, append_requests_of, append_response_handled, became_leader, consecutive,
    election_decided, election_started, lemma_contiguous_last, lemma_resolved, needs_snapshot,
    pre_vote_started, to_peers, vote_request_handled, vote_request_of, NodeView,
};
use crate::types::{LogIndex, NodeId, Term};

verus! {

/// A log has all that another one has.
pub open spec fn has_all_of(l: LogView, other: LogView) -> bool {
    &&& l.snapshot_index <= reach(other) <= reach(l)
    &&& reach(other) == l.snapshot_index ==> final_term(other) == l.snapshot_term
    &&& reach(other) > l.snapshot_index ==> final_term(other) == l.entries[reach(other)
        - l.snapshot_index - 1].term
}

/// A node stands in a cluster of a fixed membership in which all its peers run,
/// none is in a later term, and none has entries that it lacks.
pub open spec fn electable(nodes: Map<NodeId, NodeView>, candidate: NodeId) -> bool {
    let c = nodes[candidate];
    &&& nodes.contains_key(candidate)
    &&& c.state.id == candidate
    &&& numbered(c.log)
    &&& terms_rise(c.log)
    &&& c.state.persistent.current_term < u64::MAX
    &&& c.peers.len() > 0
    &&& c.peers.no_duplicates()
    &&& !c.peers.contains(candidate)
    &&& c.membership == settled(initial_members(candidate, c.peers))
    &&& forall|i: int|
        0 <= i < c.peers.len() ==> {
            &&& nodes.contains_key(#[trigger] c.peers[i])
            &&& nodes[c.peers[i]].state.persistent.current_term <= c.state.persistent.current_term
            &&& numbered(nodes[c.peers[i]].log)
            &&& has_all_of(c.log, nodes[c.peers[i]].log)
        }
}

/// No message is lost.
pub open spec fn lossless(net: NetworkView) -> bool {
    net.loss_rate == 0 && forall|link: (u64, u64)| !#[trigger] net.partitions.contains(link)
}

/// A node with the votes of some nodes besides its own.
spec fn voted(n: NodeView, peers: Seq<NodeId>) -> NodeView {
    NodeView {
        election: Some(
            ElectionView {
                votes: Set::new(|id: NodeId| id == n.state.id || peers.contains(id)),
                cluster_size: n.peers.len() + 1,
            },
        ),
        ..n
    }
}

/// The votes of all peers decide an election.
proof fn lemma_all_votes_decide(n: NodeView, candidate: NodeId)
    requires
        n.state.id == candidate,
        n.peers.len() > 0,
        n.peers.no_duplicates(),
        !n.peers.contains(candidate),
        n.membership == settled(initial_members(candidate, n.peers)),
    ensures
        election_decided(voted(n, n.peers)),
{
    let members = initial_members(candidate, n.peers);
    let votes = (voted(n, n.peers).election->0).votes;
    law_new_clusters_have_all_nodes(candidate, n.peers, candidate);
    law_majority_is_more_than_half(members, votes);
    assert forall|id: NodeId| ids(members).contains(id) implies votes.contains(id) by {
        law_new_clusters_have_all_nodes(candidate, n.peers, id);
    }
    law_more_voters_more_votes(members, ids(members), votes);
    assert(quorum(n.membership, votes));
}

/// One more of the first peers.
proof fn lemma_one_more(peers: Seq<NodeId>, k: int)
    requires
        0 < k <= peers.len(),
    ensures
        forall|id: NodeId| #[trigger]
            peers.take(k).contains(id) <==> peers.take(k - 1).contains(id) || id == peers[k - 1],
{
    assert forall|id: NodeId| #[trigger] peers.take(k).contains(id) <==> peers.take(
        k - 1,
    ).contains(id) || id == peers[k - 1] by {
        if peers.take(k).contains(id) {
            let i = peers.take(k).index_of(id);
            if i < k - 1 {
                assert(peers.take(k - 1)[i] == id);
            }
        }
        if peers.take(k - 1).contains(id) {
            assert(peers.take(k)[peers.take(k - 1).index_of(id)] == id);
        }
        assert(peers.take(k)[k - 1] == peers[k - 1]);
    }
}

/// The pre-votes of the first peers.
proof fn lemma_pre_votes(
    nodes: Map<NodeId, NodeView>,
    net: NetworkView,
    candidate: NodeId,
    fates: Seq<(bool, bool)>,
    k: int,
)
    requires
        electable(nodes, candidate),
        lossless(net),
        ({
            let c = nodes[candidate];
            let term = (c.state.persistent.current_term + 1) as Term;
            fates_possible(net, candidate, to_peers(c, vote_request_of(c, term, true)), fates)
        }),
        0 <= k <= nodes[candidate].peers.len(),
    ensures
        ({
            let c = nodes[candidate];
            let term = (c.state.persistent.current_term + 1) as Term;
            let asked = pre_vote_started(c);
            round(
                nodes.insert(candidate, asked),
                candidate,
                to_peers(c, vote_request_of(c, term, true)),
                fates,
                k,
            ) == (nodes.insert(candidate, voted(asked, c.peers.take(k))), false)
        }),
    decreases k,
{
    let c = nodes[candidate];
    let term = (c.state.persistent.current_term + 1) as Term;
    let request = vote_request_of(c, term, true);
    let requests = to_peers(c, request);
    let asked = pre_vote_started(c);
    let start = nodes.insert(candidate, asked);
    if k == 0 {
        assert(voted(asked, c.peers.take(0)).election->0 =~= asked.election->0);
        assert(voted(asked, c.peers.take(0)) == asked);
    } else {
        lemma_pre_votes(nodes, net, candidate, fates, k - 1);
        let peer = c.peers[k - 1];
        assert(requests[k - 1] == (peer, request));
        assert(c.peers.contains(peer));
        let before = voted(asked, c.peers.take(k - 1));
        let m = nodes.insert(candidate, before);
        let n = nodes[peer];
        law_whole_logs_are_voted_for(c, n, term, true);
        law_pre_votes_foretell_votes(n, request);
        assert(m[peer] == n);
        assert(m.insert(peer, n) =~= m);
        let after = voted(asked, c.peers.take(k));
        lemma_one_more(c.peers, k);
        assert((before.election->0).votes.insert(peer) =~= (after.election->0).votes);
        assert(m.insert(candidate, after) =~= nodes.insert(candidate, after));
    }
}

/// The votes of the first peers: the candidate leads, or has all of them and the
/// peers after them have not been asked yet.
proof fn lemma_votes(
    nodes: Map<NodeId, NodeView>,
    net: NetworkView,
    candidate: NodeId,
    stood: NodeView,
    fates: Seq<(bool, bool)>,
    k: int,
)
    requires
        electable(nodes, candidate),
        lossless(net),
        stood.state.id == candidate,
        stood.log == nodes[candidate].log,
        stood.peers == nodes[candidate].peers,
        stood.membership == nodes[candidate].membership,
        stood.state.persistent == nodes[candidate].state.persistent,
        ({
            let term = (stood.state.persistent.current_term + 1) as Term;
            fates_possible(
                net,
                candidate,
                to_peers(stood, vote_request_of(stood, term, false)),
                fates,
            )
        }),
        0 <= k <= nodes[candidate].peers.len(),
    ensures
        ({
            let term = (stood.state.persistent.current_term + 1) as Term;
            let (m, won) = round(
                nodes.insert(candidate, election_started(stood)),
                candidate,
                to_peers(stood, vote_request_of(stood, term, false)),
                fates,
                k,
            );
            &&& won ==> m[candidate].state.role == Role::Leader && m[candidate].state.leader_id
                == Some(candidate) && m[candidate].state.persistent.current_term == term
            &&& !won ==> {
                &&& m[candidate] == voted(election_started(stood), stood.peers.take(k))
                &&& k == 0 || !election_decided(m[candidate])
                &&& m.dom() == nodes.dom()
                &&& forall|i: int|
                    k <= i < stood.peers.len() ==> m[#[trigger] stood.peers[i]]
                        == nodes[stood.peers[i]]
            }
        }),
    decreases k,
{
    let term = (stood.state.persistent.current_term + 1) as Term;
    let request = vote_request_of(stood, term, false);
    let requests = to_peers(stood, request);
    let running = election_started(stood);
    let start = nodes.insert(candidate, running);
    let peers = stood.peers;
    if k == 0 {
        assert(voted(running, peers.take(0)).election->0 =~= running.election->0);
        assert(voted(running, peers.take(0)) == running);
        assert(start.dom() =~= nodes.dom());
        assert forall|i: int| 0 <= i < peers.len() implies start[#[trigger] peers[i]]
            == nodes[peers[i]] by {
            assert(peers.contains(peers[i]));
        }
    } else {
        lemma_votes(nodes, net, candidate, stood, fates, k - 1);
        let (m, won) = round(start, candidate, requests, fates, k - 1);
        if !won {
            let peer = peers[k - 1];
            assert(requests[k - 1] == (peer, request));
            assert(peers.contains(peer));
            assert(m.dom().contains(peer));
            let n = nodes[peer];
            assert(m[peer] == n);
            law_whole_logs_are_voted_for(stood, n, term, false);
            law_votes_go_to_recent_logs(n, request);
            let (told, answer) = vote_request_handled(n, request);
            let before = m[candidate];
            let counted = voted(running, peers.take(k));
            lemma_one_more(peers, k);
            assert((before.election->0).votes.insert(peer) =~= (counted.election->0).votes);
            let asked = m.insert(peer, told);
            assert(asked[candidate] == before);
            let (after, _) = round(start, candidate, requests, fates, k);
            if election_decided(counted) {
                assert(after[candidate] == became_leader(counted));
            } else {
                assert(after == asked.insert(candidate, counted));
                assert(after.dom() =~= nodes.dom());
                assert forall|i: int| k <= i < peers.len() implies after[#[trigger] peers[i]]
                    == nodes[peers[i]] by {
                    assert(peers.contains(peers[i]));
                    assert(peers[i] != peer);
                }
            }
        }
    }
}

/// In a network that loses nothing, a node is elected where all its peers run, none
/// is in a later term and none has entries that it lacks: it leads the next term.
pub proof fn law_sound_networks_elect(
    nodes: Map<NodeId, NodeView>,
    net: NetworkView,
    candidate: NodeId,
    pre: Seq<(bool, bool)>,
    main: Seq<(bool, bool)>,
    after: Map<NodeId, NodeView>,
    leader: NodeId,
)
    requires
        electable(nodes, candidate),
        lossless(net),
        election_ran(nodes, net, candidate, pre, main, after, leader),
    ensures
        leader == candidate,
        after[candidate].state.role == Role::Leader,
        after[candidate].state.persistent.current_term
            == nodes[candidate].state.persistent.current_term + 1,
{
    let c = nodes[candidate];
    let term = (c.state.persistent.current_term + 1) as Term;
    let n = c.peers.len() as int;
    assert(c.peers.take(n) =~= c.peers);
    lemma_pre_votes(nodes, net, candidate, pre, n);
    let d = voted(pre_vote_started(c), c.peers);
    lemma_all_votes_decide(pre_vote_started(c), candidate);
    assert(election_decided(d));
    let asked = nodes.insert(candidate, d);
    assert(asked[candidate] == d);
    assert(asked.insert(candidate, election_started(d)) =~= nodes.insert(
        candidate,
        election_started(d),
    ));
    lemma_votes(nodes, net, candidate, d, main, n);
    lemma_all_votes_decide(election_started(d), candidate);
}

/// A leader has the whole log, which ends in its term, and each of its peers runs,
/// is in no later term, and has the log up to the entry that it is to get next.
pub open spec fn in_step(nodes: Map<NodeId, NodeView>, leader: NodeId) -> bool {
    let l = nodes[leader];
    let known = l.leader->0;
    &&& nodes.contains_key(leader)
    &&& l.state.id == leader
    &&& l.state.role == Role::Leader
    &&& l.leader is Some
    &&& numbered(l.log)
    &&& l.log.snapshot_index == 0 && l.log.snapshot_term == 0
    &&& l.log.entries.len() > 0
    &&& l.log.entries.last().term == l.state.persistent.current_term
    &&& forall|i: int, j: int|
        0 <= i <= j < l.log.entries.len() ==> (#[trigger] l.log.entries[i]).term <= (
        #[trigger] l.log.entries[j]).term <= l.state.persistent.current_term
    &&& l.peers.len() > 0
    &&& l.peers.no_duplicates()
    &&& !l.peers.contains(leader)
    &&& l.membership == settled(initial_members(leader, l.peers))
    &&& known.match_index.contains_key(leader)
    &&& known.match_index[leader] == l.log.entries.len()
    &&& forall|p: NodeId| #[trigger]
        known.match_index.contains_key(p) ==> known.match_index[p] <= l.log.entries.len()
    &&& forall|i: int|
        0 <= i < l.peers.len() ==> {
            let f = nodes[#[trigger] l.peers[i]];
            &&& nodes.contains_key(l.peers[i])
            &&& f.state.persistent.current_term <= l.state.persistent.current_term
            &&& f.log.snapshot_index == 0 && f.log.snapshot_term == 0
            &&& known.next_index.contains_key(l.peers[i])
            &&& 1 <= known.next_index[l.peers[i]] <= l.log.entries.len() + 1
            &&& f.log.entries == l.log.entries.take(known.next_index[l.peers[i]] - 1)
        }
}

/// A filter that keeps everything changes nothing.
proof fn lemma_keeps_all(s: Seq<NodeId>, keep: spec_fn(NodeId) -> bool)
    requires
        forall|i: int| 0 <= i < s.len() ==> keep(#[trigger] s[i]),
    ensures
        s.filter(keep) == s,
    decreases s.len(),
{
    reveal(Seq::filter);
    if s.len() > 0 {
        let rest = s.drop_last();
        assert forall|i: int| 0 <= i < rest.len() implies keep(#[trigger] rest[i]) by {
            assert(rest[i] == s[i]);
        }
        lemma_keeps_all(rest, keep);
        assert(s[s.len() - 1] == s.last());
        assert(rest.push(s.last()) =~= s);
    }
}

/// The requests of a leader with the whole log go to its peers, in order.
proof fn lemma_requests_in_order(nodes: Map<NodeId, NodeView>, leader: NodeId)
    requires
        in_step(nodes, leader),
    ensures
        ({
            let l = nodes[leader];
            &&& append_requests_of(l).len() == l.peers.len()
            &&& forall|i: int|
                0 <= i < l.peers.len() ==> (#[trigger] append_requests_of(l)[i]).0 == l.peers[i]
        }),
{
    let l = nodes[leader];
    lemma_keeps_all(
        l.peers,
        |p: NodeId| needs_snapshot(l, l.leader->0, p) == false,
    );
}

/// A peer that has the log up to the entry that it is to get takes up the rest.
proof fn lemma_peer_takes_up(nodes: Map<NodeId, NodeView>, leader: NodeId, i: int)
    requires
        in_step(nodes, leader),
        0 <= i < nodes[leader].peers.len(),
    ensures
        ({
            let l = nodes[leader];
            let f = nodes[l.peers[i]];
            let (after, answer) = append_handled(f, append_requests_of(l)[i].1);
            &&& answer.success
            &&& answer.term == l.state.persistent.current_term
            &&& answer.match_index == l.log.entries.len()
            &&& after.log.entries == l.log.entries
        }),
{
    let l = nodes[leader];
    let peer = l.peers[i];
    let f = nodes[peer];
    lemma_requests_in_order(nodes, leader);
    assert(append_requests_of(l)[i].0 == peer);
    law_requests_hold_the_rest(l, i);
    let r = append_requests_of(l)[i].1;
    let next = (l.leader->0).next_index[peer];
    let start = next - 1;
    assert(contiguous(f.log)) by {
        assert forall|j: int| 0 <= j < f.log.entries.len() implies (
        #[trigger] f.log.entries[j]).index == f.log.snapshot_index + 1 + j by {
            assert(l.log.entries[j].index == j + 1);
        }
    }
    assert(consecutive(r.entries, r.prev_log_index)) by {
        assert forall|j: int| 0 <= j < r.entries.len() implies (#[trigger] r.entries[j]).index
            == r.prev_log_index + 1 + j by {
            assert(l.log.entries[start + j].index == start + j + 1);
        }
    }
    if start > 0 {
        assert(f.log.entries[start - 1] == l.log.entries[start - 1]);
    }
    law_matching_requests_are_accepted(f, r);
    law_new_entries_are_taken_up(f, r);
    let after = append_handled(f, r).0;
    if r.entries.len() == 0 {
        law_known_entries_change_nothing(f, r);
    }
    assert(after.log.entries.len() == l.log.entries.len()) by {
        if after.log == f.log {
            assert(r.entries.len() == 0);
        }
    }
    assert forall|j: int| 0 <= j < l.log.entries.len() implies after.log.entries[j]
        == l.log.entries[j] by {
        if j < start {
            assert(after.log.entries.take(start)[j] == f.log.entries.take(start)[j]);
        } else {
            assert(r.entries[j - start] == l.log.entries[j]);
            assert(after.log.entries[start + (j - start)] == r.entries[j - start]);
        }
    }
    assert(after.log.entries =~= l.log.entries);
    assert(after.log.snapshot_index == 0) by {
        lemma_contiguous_last(f.log);
        lemma_resolved(f.log, r.entries, r.prev_log_index);
    }
}

/// A round of requests has reached the first peers.
spec fn reached(
    nodes: Map<NodeId, NodeView>,
    leader: NodeId,
    m: Map<NodeId, NodeView>,
    k: int,
) -> bool {
    let l = nodes[leader];
    let now = m[leader];
    let known = now.leader->0;
    &&& m.contains_key(leader)
    &&& now.state.role == Role::Leader
    &&& now.leader is Some
    &&& now.log == l.log
    &&& now.state.persistent == l.state.persistent
    &&& now.state.id == leader
    &&& now.membership == l.membership
    &&& known.match_index.contains_key(leader) && known.match_index[leader] == l.log.entries.len()
    &&& forall|p: NodeId| #[trigger]
        known.match_index.contains_key(p) ==> known.match_index[p] <= l.log.entries.len()
    &&& forall|i: int|
        0 <= i < k ==> {
            &&& known.match_index.contains_key(#[trigger] l.peers[i])
            &&& known.match_index[l.peers[i]] == l.log.entries.len()
            &&& m.contains_key(l.peers[i])
            &&& m[l.peers[i]].log.entries == l.log.entries
        }
    &&& forall|i: int|
        k <= i < l.peers.len() ==> m.contains_key(#[trigger] l.peers[i]) && m[l.peers[i]]
            == nodes[l.peers[i]]
}

proof fn lemma_reached(
    nodes: Map<NodeId, NodeView>,
    net: NetworkView,
    leader: NodeId,
    fates: Seq<(bool, bool)>,
    steps: Seq<Map<NodeId, NodeView>>,
    k: int,
)
    requires
        in_step(nodes, leader),
        lossless(net),
        replicated(leader, net, append_requests_of(nodes[leader]), fates, steps),
        steps[0] == nodes,
        0 <= k <= nodes[leader].peers.len(),
    ensures
        reached(nodes, leader, steps[k], k),
        k == nodes[leader].peers.len() ==> steps[k][leader].state.commit_index
            >= nodes[leader].log.entries.len(),
    decreases k,
{
    let l = nodes[leader];
    let requests = append_requests_of(l);
    lemma_requests_in_order(nodes, leader);
    if k > 0 {
        lemma_reached(nodes, net, leader, fates, steps, k - 1);
        let m = steps[k - 1];
        let (peer, request) = requests[k - 1];
        assert(requests[k - 1].0 == l.peers[k - 1]);
        assert(l.peers.contains(peer));
        lemma_peer_takes_up(nodes, leader, k - 1);
        let (told, answer) = append_handled(m[peer], request);
        let asked = m.insert(peer, told);
        let before = asked[leader];
        let after = steps[k][leader];
        assert(before == m[leader]);
        assert(append_response_handled(before, peer, answer, after));
        law_acceptances_move_up(before, peer, answer, after);
        assert(steps[k] == asked.insert(leader, after));
        let known = after.leader->0;
        assert forall|i: int| 0 <= i < k implies {
            &&& known.match_index.contains_key(#[trigger] l.peers[i])
            &&& known.match_index[l.peers[i]] == l.log.entries.len()
            &&& steps[k].contains_key(l.peers[i])
            &&& steps[k][l.peers[i]].log.entries == l.log.entries
        } by {
            assert(l.peers.contains(l.peers[i]));
            if i < k - 1 {
                assert(l.peers[i] != peer);
                assert((before.leader->0).match_index.contains_key(l.peers[i]));
            }
        }
        assert forall|p: NodeId| #[trigger] known.match_index.contains_key(p) implies known.match_index[p]
            <= l.log.entries.len() by {
            if p != peer {
                assert((before.leader->0).match_index.contains_key(p));
            }
        }
        assert forall|i: int| k <= i < l.peers.len() implies steps[k].contains_key(
            #[trigger] l.peers[i],
        ) && steps[k][l.peers[i]] == nodes[l.peers[i]] by {
            assert(l.peers.contains(l.peers[i]));
            assert(l.peers[i] != peer);
        }
        if k == l.peers.len() {
            let n = l.log.entries.len() as LogIndex;
            let held = known_to_hold(known, n);
            let members = initial_members(leader, l.peers);
            law_new_clusters_have_all_nodes(leader, l.peers, leader);
            law_majority_is_more_than_half(members, held);
            assert forall|id: NodeId| ids(members).contains(id) implies held.contains(id) by {
                law_new_clusters_have_all_nodes(leader, l.peers, id);
                if id != leader {
                    let i = l.peers.index_of(id);
                    assert(known.match_index.contains_key(l.peers[i]));
                }
            }
            law_more_voters_more_votes(members, ids(members), held);
            assert(more_than_half(before, held));
            law_majorities_commit(before, peer, answer, after, n);
        }
    }
}

/// In a network that loses nothing, one round of a leader brings every peer that is
/// in step up to its whole log, and commits all of it.
pub proof fn law_sound_networks_commit(
    nodes: Map<NodeId, NodeView>,
    net: NetworkView,
    leader: NodeId,
    fates: Seq<(bool, bool)>,
    steps: Seq<Map<NodeId, NodeView>>,
)
    requires
        in_step(nodes, leader),
        lossless(net),
        replicated(leader, net, append_requests_of(nodes[leader]), fates, steps),
        steps[0] == nodes,
    ensures
        steps.last()[leader].state.commit_index >= nodes[leader].log.entries.len(),
        steps.last()[leader].log == nodes[leader].log,
        forall|i: int|
            0 <= i < nodes[leader].peers.len() ==> steps.last()[#[trigger] nodes[leader].peers[i]].log.entries
                == nodes[leader].log.entries,
{
    lemma_requests_in_order(nodes, leader);
    lemma_reached(nodes, net, leader, fates, steps, nodes[leader].peers.len() as int);
}

} // verus!
