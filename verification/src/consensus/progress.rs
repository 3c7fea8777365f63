//! What moves a cluster forward: a follower catches up with its leader, entries
//! that a majority has are committed, and a candidate that a majority can follow
//! is elected.

use vstd::prelude::*;
use crate::consensus::leadership_transfer::TransferError;
use crate::consensus::log::{
    compacted, contiguous, encode_log_entry, entry_at, extended, last_index_of, last_term_of,
    log_records, suffix_from, term_of, truncated, LogView,
};
use crate::consensus::membership::{
    change_begun, has_member, law_new_clusters_have_all_nodes, majority, quorum, votes_in,
    ChangeView, MemberView,
};
use crate::consensus::message::{
    AppendResponse, AppendView, EntryType, EntryView, ProposalResult, VoteRequest, VoteResponse,
};
use crate::consensus::node::new_node;
use crate::consensus::snapshot::SnapshotMetadata;
use crate::consensus::state::{election_won, ElectionView, LeaderView, PersistentState, Role};
use crate::consensus::transitions::{
    append_answered, append_handled, append_requests_of, append_response_handled, applied_up,
    became_leader, change_entered, committable, config_taken, consecutive, election_started,
    entries_between, holders, joint_taken, lemma_contiguous_last, lemma_resolved, needs_snapshot,
    next_entry, peers_where, pre_vote_ended, pre_vote_started, proposal_handled, proposed, resolved,
    snapshot_due, snapshot_installed, snapshot_of, snapshot_wanted, takeover_handled,
    transfer_begun, transfer_checked, transfer_refusal, transfer_timed_out, vote_request_handled,
    vote_request_of, vote_response_handled, NodeView,
};
use crate::storage::stack::lemma_filter_contains;
use crate::storage::wal::encode_records;
use crate::types::{LogIndex, NodeId, Term};

verus! {

/// A peer that rejects a request is tried one entry earlier next time, though
/// never before the first entry. Nothing else that the leader knows of its peers
/// changes.
pub proof fn law_rejections_back_up(
    n: NodeView,
    from: NodeId,
    response: AppendResponse,
    after: NodeView,
)
    requires
        append_response_handled(n, from, response, after),
        n.state.role == Role::Leader,
        n.leader is Some,
        (n.leader->0).next_index.contains_key(from),
        response.term <= n.state.persistent.current_term,
        !response.success,
    ensures
        after.leader is Some,
        ({
            let old_next = (n.leader->0).next_index[from];
            let new_next = (after.leader->0).next_index[from];
            &&& new_next >= 1
            &&& old_next > 1 ==> new_next < old_next && new_next == old_next - 1
        }),
        (after.leader->0).next_index.dom() == (n.leader->0).next_index.dom(),
        forall|p: NodeId|
            p != from && (n.leader->0).next_index.contains_key(p)
                ==> #[trigger] (after.leader->0).next_index[p] == (n.leader->0).next_index[p],
        (after.leader->0).match_index == (n.leader->0).match_index,
        after.log == n.log,
        after.state.role == Role::Leader,
        after.state.persistent == n.state.persistent,
{
    assert((after.leader->0).next_index.dom() =~= (n.leader->0).next_index.dom());
}

/// A peer that accepts a request is known to have the entries up to the one that
/// it names, and is to get those after it. Nothing else that the leader knows of
/// its peers changes.
pub proof fn law_acceptances_move_up(
    n: NodeView,
    from: NodeId,
    response: AppendResponse,
    after: NodeView,
)
    requires
        append_response_handled(n, from, response, after),
        n.state.role == Role::Leader,
        n.leader is Some,
        response.term <= n.state.persistent.current_term,
        response.success,
        response.match_index < u64::MAX,
    ensures
        after.leader is Some,
        (after.leader->0).match_index.contains_key(from),
        (after.leader->0).match_index[from] == response.match_index,
        (after.leader->0).next_index.contains_key(from),
        (after.leader->0).next_index[from] == response.match_index + 1,
        forall|p: NodeId|
            p != from && (n.leader->0).next_index.contains_key(p)
                ==> #[trigger] (after.leader->0).next_index[p] == (n.leader->0).next_index[p],
        forall|p: NodeId|
            p != from && (n.leader->0).match_index.contains_key(p)
                ==> #[trigger] (after.leader->0).match_index[p] == (n.leader->0).match_index[p],
        after.log == n.log,
        after.state.role == Role::Leader,
        after.state.persistent == n.state.persistent,
{
}

/// An answer from a newer term ends the leadership, whatever it says.
pub proof fn law_newer_answers_depose(
    n: NodeView,
    from: NodeId,
    response: AppendResponse,
    after: NodeView,
)
    requires
        append_response_handled(n, from, response, after),
        response.term > n.state.persistent.current_term,
    ensures
        after.state.role == Role::Follower,
        after.state.persistent.current_term == response.term,
        after.state.persistent.voted_for is None,
        after.leader is None,
        after.log == n.log,
        after.state.commit_index == n.state.commit_index,
{
}

/// The request that goes to a peer holds the leader's entries from the one that
/// the peer is to get next, and names the entry before them.
pub proof fn law_requests_hold_the_rest(n: NodeView, i: int)
    requires
        n.leader is Some,
        contiguous(n.log),
        n.log.snapshot_index + n.log.entries.len() < u64::MAX,
        n.log.snapshot_index == 0 ==> n.log.snapshot_term == 0,
        0 <= i < append_requests_of(n).len(),
        (n.leader->0).next_index.contains_key(append_requests_of(n)[i].0),
        1 <= (n.leader->0).next_index[append_requests_of(n)[i].0] <= n.log.snapshot_index
            + n.log.entries.len() + 1,
    ensures
        ({
            let (peer, r) = append_requests_of(n)[i];
            let next = (n.leader->0).next_index[peer];
            let first = next - n.log.snapshot_index - 1;
            &&& n.peers.contains(peer)
            &&& next > n.log.snapshot_index
            &&& r.term == n.state.persistent.current_term
            &&& r.leader_id == n.state.id
            &&& r.leader_commit == n.state.commit_index
            &&& r.prev_log_index == next - 1
            &&& r.prev_log_term == if first == 0 {
                n.log.snapshot_term
            } else {
                n.log.entries[first - 1].term
            }
            &&& r.entries == n.log.entries.skip(first)
        }),
{
    let (peer, r) = append_requests_of(n)[i];
    let l = n.leader->0;
    lemma_filter_contains(n.peers, |p: NodeId| needs_snapshot(n, l, p) == false);
    assert(peers_where(n, false)[i] == peer);
    assert(peers_where(n, false).contains(peer));
    let first = l.next_index[peer] - n.log.snapshot_index - 1;
    if first > 0 {
        assert(n.log.entries[first - 1].index == n.log.snapshot_index + first);
    }
    assert(r.entries =~= n.log.entries.skip(first));
}

/// Every peer of a leader is served: one whose next entry is in the log gets a
/// request, and one whose next entry is not is among those that need the
/// snapshot.
pub proof fn law_every_peer_is_served(n: NodeView, peer: NodeId)
    requires
        n.state.role == Role::Leader,
        n.leader is Some,
        n.peers.contains(peer),
        (n.leader->0).next_index.contains_key(peer),
        (n.leader->0).next_index[peer] >= 1,
    ensures
        (n.leader->0).next_index[peer] > n.log.snapshot_index ==> exists|i: int|
            0 <= i < append_requests_of(n).len() && (#[trigger] append_requests_of(n)[i]).0 == peer,
        (n.leader->0).next_index[peer] <= n.log.snapshot_index <==> peers_where(n, true).contains(
            peer,
        ),
{
    let l = n.leader->0;
    lemma_filter_contains(n.peers, |p: NodeId| needs_snapshot(n, l, p) == false);
    lemma_filter_contains(n.peers, |p: NodeId| needs_snapshot(n, l, p) == true);
    if l.next_index[peer] > n.log.snapshot_index {
        let to = peers_where(n, false);
        assert(to.contains(peer));
        assert(append_requests_of(n)[to.index_of(peer)].0 == peer);
    }
}

/// A leader sends a peer a request, the peer answers it, and the leader takes
/// the answer.
pub open spec fn exchanged(
    leader: NodeView,
    follower: NodeView,
    peer: NodeId,
    leader_after: NodeView,
    follower_after: NodeView,
) -> bool {
    exists|i: int|
        0 <= i < append_requests_of(leader).len() && (#[trigger] append_requests_of(leader)[i]).0
            == peer && {
            let (node, answer) = append_handled(follower, append_requests_of(leader)[i].1);
            &&& follower_after == node
            &&& append_response_handled(leader, peer, answer, leader_after)
        }
}

/// A log has all entries of a whole log, after its own snapshot.
pub open spec fn caught_up(whole: LogView, l: LogView) -> bool {
    &&& l.snapshot_index + l.entries.len() >= whole.entries.len()
    &&& forall|i: int|
        l.snapshot_index <= i < whole.entries.len() ==> l.entries[i - l.snapshot_index]
            == #[trigger] whole.entries[i]
}

/// A leader that has the whole log leads a follower whose term is not newer. The
/// follower's snapshot is of the leader's entries, logs with an entry of one index
/// and term are the same up to it, and the follower is to get an entry of the log
/// next.
pub open spec fn leads(leader: NodeView, follower: NodeView, peer: NodeId) -> bool {
    let log = leader.log.entries;
    let base = follower.log.snapshot_index;
    &&& leader.state.role == Role::Leader
    &&& leader.leader is Some
    &&& leader.peers.contains(peer)
    &&& leader.log.snapshot_index == 0
    &&& leader.log.snapshot_term == 0
    &&& contiguous(leader.log)
    &&& log.len() < u64::MAX
    &&& contiguous(follower.log)
    &&& base + follower.log.entries.len() < u64::MAX
    &&& base <= log.len()
    &&& follower.log.snapshot_term == (if base == 0 {
        0
    } else {
        log[base - 1].term
    })
    &&& forall|i: int|
        base <= i < log.len() && i - base < follower.log.entries.len()
            && follower.log.entries[i - base].term == (#[trigger] log[i]).term
            ==> follower.log.entries.take(i - base + 1) == log.subrange(base as int, i + 1)
    &&& follower.state.persistent.current_term <= leader.state.persistent.current_term
    &&& (leader.leader->0).next_index.contains_key(peer)
    &&& base < (leader.leader->0).next_index[peer] <= log.len() + 1
}

/// One exchange either brings the follower up to the leader's log, or the next
/// request starts one entry earlier.
pub proof fn law_exchanges_get_closer(
    leader: NodeView,
    follower: NodeView,
    peer: NodeId,
    leader_after: NodeView,
    follower_after: NodeView,
)
    requires
        leads(leader, follower, peer),
        exchanged(leader, follower, peer, leader_after, follower_after),
    ensures
        leader_after.log == leader.log,
        leader_after.state.persistent == leader.state.persistent,
        caught_up(leader.log, follower_after.log) || {
            &&& leads(leader_after, follower_after, peer)
            &&& (leader_after.leader->0).next_index[peer] == (leader.leader->0).next_index[peer] - 1
            &&& follower_after.log == follower.log
        },
{
    let i = choose|i: int|
        0 <= i < append_requests_of(leader).len() && (#[trigger] append_requests_of(leader)[i]).0
            == peer && {
            let (node, answer) = append_handled(follower, append_requests_of(leader)[i].1);
            &&& follower_after == node
            &&& append_response_handled(leader, peer, answer, leader_after)
        };
    let r = append_requests_of(leader)[i].1;
    law_requests_hold_the_rest(leader, i);
    let log = leader.log.entries;
    let base = follower.log.snapshot_index;
    let prev = r.prev_log_index as int;
    let answer = append_handled(follower, r).1;
    lemma_contiguous_last(follower.log);
    if answer.success {
        assert(consecutive(r.entries, r.prev_log_index)) by {
            assert forall|j: int| 0 <= j < r.entries.len() implies (#[trigger] r.entries[j]).index
                == prev + 1 + j by {
                assert(log[prev + j].index == prev + j + 1);
            }
        }
        lemma_resolved(follower.log, r.entries, r.prev_log_index);
        let (cut, fresh) = resolved(follower.log, r.entries);
        let all = cut.entries + fresh;
        assert(follower_after.log.entries == all);
        assert forall|k: int| base <= k < log.len() implies all[k - base] == #[trigger] log[k] by {
            if k < prev {
                assert(all[k - base] == follower.log.entries[k - base]);
                let shared = log.subrange(base as int, prev);
                assert(follower.log.entries[prev - 1 - base].term == log[prev - 1].term);
                assert(follower.log.entries.take(prev - base)[k - base] == shared[k - base]);
            } else {
                assert(r.entries[k - prev] == log[k]);
                assert(all[prev - base + (k - prev)].term == log[k].term);
                if k - base < cut.entries.len() {
                    assert(cut.entries[k - base] == follower.log.entries[k - base]);
                    let shared = log.subrange(base as int, k + 1);
                    assert(follower.log.entries.take(k - base + 1)[k - base] == shared[k - base]);
                } else {
                    assert(fresh[k - base - cut.entries.len()] == log[k]);
                }
            }
        }
    }
}

/// After as many exchanges as there are entries between what the follower has
/// and what it was to get, it has caught up at some point.
pub proof fn law_followers_catch_up(states: Seq<(NodeView, NodeView)>, peer: NodeId)
    requires
        states.len() > 0,
        leads(states[0].0, states[0].1, peer),
        states.len() > (states[0].0.leader->0).next_index[peer]
            - states[0].1.log.snapshot_index,
        forall|i: int|
            0 < i < states.len() ==> exchanged(
                states[i - 1].0,
                states[i - 1].1,
                peer,
                (#[trigger] states[i]).0,
                states[i].1,
            ),
    ensures
        exists|i: int|
            0 < i < states.len() && (#[trigger] states[i]).0.log == states[0].0.log && caught_up(
                states[i].0.log,
                states[i].1.log,
            ),
    decreases states.len(),
{
    let (leader, follower) = states[0];
    let (leader_after, follower_after) = states[1];
    assert(exchanged(states[0].0, states[0].1, peer, states[1].0, states[1].1));
    law_exchanges_get_closer(leader, follower, peer, leader_after, follower_after);
    if !caught_up(leader.log, follower_after.log) {
        let rest = states.drop_first();
        assert forall|i: int| 0 < i < rest.len() implies exchanged(
            rest[i - 1].0,
            rest[i - 1].1,
            peer,
            (#[trigger] rest[i]).0,
            rest[i].1,
        ) by {
            assert(rest[i] == states[i + 1]);
            assert(rest[i - 1] == states[i]);
        }
        assert(rest[0] == states[1]);
        law_followers_catch_up(rest, peer);
        let i = choose|i: int|
            0 < i < rest.len() && (#[trigger] rest[i]).0.log == rest[0].0.log && caught_up(
                rest[i].0.log,
                rest[i].1.log,
            );
        assert(states[i + 1] == rest[i]);
    }
}

/// The nodes that a leader knows to have the entries up to an index.
pub open spec fn known_to_hold(l: LeaderView, index: LogIndex) -> Set<NodeId> {
    Set::new(|id: NodeId| l.match_index.contains_key(id) && index <= l.match_index[id])
}

/// Of each configuration that counts, more than half of the members are in a
/// set.
pub open spec fn more_than_half(n: NodeView, nodes: Set<NodeId>) -> bool {
    &&& 2 * votes_in(n.membership.current, nodes) > n.membership.current.len()
    &&& n.membership.pending matches Some(p) ==> 2 * votes_in(p, nodes) > p.len()
}

/// The least index, from `low` on, up to which some node is known to have the
/// entries.
proof fn lemma_least_match(l: LeaderView, low: LogIndex, id: NodeId) -> (least: NodeId)
    requires
        l.match_index.contains_key(id),
        l.match_index[id] >= low,
    ensures
        l.match_index.contains_key(least),
        l.match_index[least] >= low,
        forall|p: NodeId| #[trigger]
            l.match_index.contains_key(p) && l.match_index[p] >= low ==> l.match_index[p]
                >= l.match_index[least],
    decreases l.match_index[id],
{
    if exists|p: NodeId| #[trigger]
        l.match_index.contains_key(p) && low <= l.match_index[p] < l.match_index[id] {
        let p = choose|p: NodeId| #[trigger]
            l.match_index.contains_key(p) && low <= l.match_index[p] < l.match_index[id];
        lemma_least_match(l, low, p)
    } else {
        id
    }
}

/// Among voters that have a vote there is a member.
proof fn lemma_some_voter(members: Seq<MemberView>, nodes: Set<NodeId>) -> (id: NodeId)
    requires
        votes_in(members, nodes) > 0,
    ensures
        nodes.contains(id),
    decreases members.len(),
{
    if nodes.contains(members.last().0) {
        members.last().0
    } else {
        lemma_some_voter(members.drop_last(), nodes)
    }
}

/// What a majority is known to have is committed: once an answer is taken, the
/// commit index reaches every entry of the leader's term that more than half of
/// the members have, and during a membership change more than half of the new
/// members too.
pub proof fn law_majorities_commit(
    n: NodeView,
    from: NodeId,
    response: AppendResponse,
    after: NodeView,
    index: LogIndex,
)
    requires
        append_response_handled(n, from, response, after),
        n.state.role == Role::Leader,
        n.leader is Some,
        response.term <= n.state.persistent.current_term,
        contiguous(n.log),
        forall|i: int, j: int|
            0 <= i <= j < n.log.entries.len() ==> (#[trigger] n.log.entries[i]).term <= (
            #[trigger] n.log.entries[j]).term <= n.state.persistent.current_term,
        forall|p: NodeId| #[trigger]
            (after.leader->0).match_index.contains_key(p) ==> (after.leader->0).match_index[p]
                <= n.log.snapshot_index + n.log.entries.len(),
        n.log.snapshot_index < index <= n.log.snapshot_index + n.log.entries.len(),
        n.log.entries[index - n.log.snapshot_index - 1].term == n.state.persistent.current_term,
        more_than_half(n, known_to_hold(after.leader->0, index)),
    ensures
        after.state.commit_index >= index,
{
    let l = after.leader->0;
    let noted = NodeView { leader: Some(l), ..n };
    let held = known_to_hold(l, index);
    let some = lemma_some_voter(n.membership.current, held);
    let least = lemma_least_match(l, index, some);
    let m = l.match_index[least];
    assert(holders(l, m) =~= held);
    if m > n.state.commit_index {
        assert(committable(noted, l, m));
    }
}

/// Only what a majority is known to have is committed: where an answer moves the
/// commit index, it moves to an entry of the leader's term that more than half of
/// the members have, and during a membership change more than half of the new
/// members too. It never falls.
pub proof fn law_commits_have_majorities(
    n: NodeView,
    from: NodeId,
    response: AppendResponse,
    after: NodeView,
)
    requires
        append_response_handled(n, from, response, after),
    ensures
        after.state.commit_index >= n.state.commit_index,
        after.state.last_applied == n.state.last_applied,
        after.state.commit_index > n.state.commit_index ==> {
            let i = after.state.commit_index - n.log.snapshot_index - 1;
            &&& n.state.role == Role::Leader
            &&& 0 <= i < n.log.entries.len()
            &&& n.log.entries[i].term == n.state.persistent.current_term
            &&& more_than_half(n, known_to_hold(after.leader->0, after.state.commit_index))
        },
{
    if after.state.commit_index > n.state.commit_index {
        let l = after.leader->0;
        assert(holders(l, after.state.commit_index) =~= known_to_hold(l, after.state.commit_index));
    }
}

/// The index up to which a log reaches, with its snapshot.
pub open spec fn reach(l: LogView) -> nat {
    l.snapshot_index as nat + l.entries.len()
}

/// The term of what a log ends with.
pub open spec fn final_term(l: LogView) -> Term {
    if l.entries.len() > 0 {
        l.entries[l.entries.len() - 1].term
    } else {
        l.snapshot_term
    }
}

/// The terms in a log do not fall, from its snapshot on.
pub open spec fn terms_rise(l: LogView) -> bool {
    &&& forall|i: int, j: int|
        0 <= i <= j < l.entries.len() ==> (#[trigger] l.entries[i]).term <= (
        #[trigger] l.entries[j]).term
    &&& forall|i: int|
        0 <= i < l.entries.len() ==> l.snapshot_term <= (#[trigger] l.entries[i]).term
}

/// A log that is numbered without gaps, in numbers that 64 bits hold.
pub open spec fn numbered(l: LogView) -> bool {
    contiguous(l) && l.snapshot_index + l.entries.len() < u64::MAX
}

/// A vote is given exactly where the candidate's term is not older than the
/// node's, no other candidate has the node's vote in that term, and the
/// candidate's log ends in a later term, or in the same and no earlier. The node
/// is then in the candidate's term, if it was not in a later one, and has voted
/// for the candidate, if it grants the vote.
pub proof fn law_votes_go_to_recent_logs(n: NodeView, request: VoteRequest)
    requires
        numbered(n.log),
        !request.is_pre_vote,
    ensures
        ({
            let term = n.state.persistent.current_term;
            let voted = n.state.persistent.voted_for;
            let (after, answer) = vote_request_handled(n, request);
            &&& answer.vote_granted <==> {
                &&& request.term >= term
                &&& request.term == term ==> voted is None || voted == Some(request.candidate_id)
                &&& request.last_log_term > final_term(n.log) || (request.last_log_term
                    == final_term(n.log) && request.last_log_index >= reach(n.log))
            }
            &&& answer.term >= term && answer.term >= request.term
            &&& answer.term == term || answer.term == request.term
            &&& after.state.persistent.current_term == answer.term
            &&& answer.vote_granted ==> after.state.persistent.voted_for == Some(
                request.candidate_id,
            )
            &&& request.term <= term && !answer.vote_granted ==> after == n
            &&& after.log == n.log
            &&& after.state.commit_index == n.state.commit_index
            &&& after.state.last_applied == n.state.last_applied
        }),
{
    lemma_contiguous_last(n.log);
}

/// A pre-vote foretells a vote: it is granted exactly where the candidate asks
/// for a later term than the node's and would be granted the vote in it, that is
/// where its log ends in a later term than the node's, or in the same and no
/// earlier. The node stays as it is.
pub proof fn law_pre_votes_foretell_votes(n: NodeView, request: VoteRequest)
    requires
        numbered(n.log),
        request.is_pre_vote,
    ensures
        ({
            let term = n.state.persistent.current_term;
            let vote = VoteRequest { is_pre_vote: false, ..request };
            let (after, answer) = vote_request_handled(n, request);
            &&& after == n
            &&& answer.term == term
            &&& answer.vote_granted <==> request.term > term && vote_request_handled(
                n,
                vote,
            ).1.vote_granted
            &&& answer.vote_granted <==> request.term > term && (request.last_log_term > final_term(
                n.log,
            ) || (request.last_log_term == final_term(n.log) && request.last_log_index >= reach(
                n.log,
            )))
        }),
{
    lemma_contiguous_last(n.log);
}

/// A candidate that has the whole log of a node can count on it: in a later term
/// it is granted the pre-vote and the vote.
pub proof fn law_whole_logs_are_voted_for(
    candidate: NodeView,
    n: NodeView,
    term: Term,
    is_pre_vote: bool,
)
    requires
        numbered(candidate.log),
        numbered(n.log),
        terms_rise(candidate.log),
        term > n.state.persistent.current_term,
        reach(candidate.log) >= reach(n.log),
        candidate.log.snapshot_index <= reach(n.log),
        reach(n.log) == candidate.log.snapshot_index ==> final_term(n.log)
            == candidate.log.snapshot_term,
        reach(n.log) > candidate.log.snapshot_index ==> final_term(n.log)
            == candidate.log.entries[reach(n.log) - candidate.log.snapshot_index - 1].term,
    ensures
        vote_request_handled(n, vote_request_of(candidate, term, is_pre_vote)).1.vote_granted,
        vote_request_of(candidate, term, is_pre_vote).candidate_id == candidate.state.id,
        vote_request_of(candidate, term, is_pre_vote).term == term,
{
    lemma_contiguous_last(n.log);
    lemma_contiguous_last(candidate.log);
}

/// A candidate that lacks the end of a node's log cannot count on it: where its
/// log is the beginning of the node's, it is refused.
pub proof fn law_missing_entries_are_refused(
    candidate: NodeView,
    n: NodeView,
    term: Term,
    is_pre_vote: bool,
)
    requires
        numbered(candidate.log),
        numbered(n.log),
        terms_rise(n.log),
        n.log.snapshot_index <= reach(candidate.log) < reach(n.log),
        final_term(candidate.log) == if reach(candidate.log) == n.log.snapshot_index {
            n.log.snapshot_term
        } else {
            n.log.entries[reach(candidate.log) - n.log.snapshot_index - 1].term
        },
    ensures
        !vote_request_handled(n, vote_request_of(candidate, term, is_pre_vote)).1.vote_granted,
{
    lemma_contiguous_last(n.log);
    lemma_contiguous_last(candidate.log);
}

/// A node that stands for election does so in the next term and has its own vote
/// only; one that asks for pre-votes stays in its term.
pub proof fn law_candidates_vote_for_themselves(n: NodeView)
    requires
        n.state.persistent.current_term < u64::MAX,
    ensures
        ({
            let after = election_started(n);
            &&& after.state.role == Role::Candidate
            &&& after.state.persistent.current_term == n.state.persistent.current_term + 1
            &&& after.state.persistent.voted_for == Some(n.state.id)
            &&& after.unsaved
            &&& after.log == n.log
            &&& after.election is Some
            &&& forall|id: NodeId| #[trigger]
                (after.election->0).votes.contains(id) <==> id == n.state.id
        }),
        ({
            let after = pre_vote_started(n);
            &&& after.state.role == Role::PreCandidate
            &&& after.state.persistent == n.state.persistent
            &&& after.log == n.log
            &&& after.election is Some
            &&& forall|id: NodeId| #[trigger]
                (after.election->0).votes.contains(id) <==> id == n.state.id
        }),
{
}

/// A candidate leads as soon as more than half of the members have voted for it,
/// and no sooner; during a membership change more than half of the new members
/// must have too. Granted pre-votes alone make no leader.
pub proof fn law_majorities_elect(
    n: NodeView,
    from: NodeId,
    response: VoteResponse,
    was_pre_vote: bool,
)
    requires
        n.election is Some,
        response.term <= n.state.persistent.current_term,
        numbered(n.log),
    ensures
        ({
            let (after, leads) = vote_response_handled(n, from, response, was_pre_vote);
            let votes = (n.election->0).votes;
            &&& leads <==> response.vote_granted && !was_pre_vote && more_than_half(
                n,
                votes.insert(from),
            )
            &&& leads ==> after.state.role == Role::Leader && after.state.leader_id == Some(
                n.state.id,
            )
            &&& !leads ==> after.state.role == n.state.role && after.log == n.log
            &&& !leads && response.vote_granted ==> after.election is Some && (
            after.election->0).votes == votes.insert(from)
            &&& !response.vote_granted ==> after == n
            &&& after.state.persistent == n.state.persistent
        }),
{
}

/// A new leader appends an empty entry of its term, and assumes that its peers
/// have all entries before it, though none is known to.
pub proof fn law_new_leaders_start_over(n: NodeView, peer: NodeId)
    requires
        numbered(n.log),
    ensures
        ({
            let after = became_leader(n);
            let noop = EntryView {
                index: (reach(n.log) + 1) as LogIndex,
                term: n.state.persistent.current_term,
                data: Seq::empty(),
                entry_type: EntryType::Noop,
            };
            &&& after.state.role == Role::Leader
            &&& after.log.entries == n.log.entries.push(noop)
            &&& after.log.snapshot_index == n.log.snapshot_index
            &&& after.log.snapshot_term == n.log.snapshot_term
            &&& after.leader is Some
            &&& n.peers.contains(peer) ==> {
                &&& (after.leader->0).next_index.contains_key(peer)
                &&& (after.leader->0).next_index[peer] == reach(n.log) + 1
            }
            &&& n.peers.contains(peer) && peer != n.state.id ==> {
                &&& (after.leader->0).match_index.contains_key(peer)
                &&& (after.leader->0).match_index[peer] == 0
            }
            &&& (after.leader->0).match_index.contains_key(n.state.id)
            &&& (after.leader->0).match_index[n.state.id] == reach(n.log) + 1
            &&& after.state.commit_index == n.state.commit_index
        }),
{
    lemma_contiguous_last(n.log);
    assert(became_leader(n).log.entries =~= n.log.entries.push(
        EntryView {
            index: (reach(n.log) + 1) as LogIndex,
            term: n.state.persistent.current_term,
            data: Seq::empty(),
            entry_type: EntryType::Noop,
        },
    ));
}

/// A proposal becomes the next entry of the leader's log, in the leader's term
/// and with the proposed data; what was in the log stays, and the leader counts
/// itself among those that have it.
pub proof fn law_proposals_extend_the_log(n: NodeView, data: Seq<u8>, entry_type: EntryType)
    requires
        numbered(n.log),
    ensures
        ({
            let after = proposed(n, data, entry_type);
            let entry = EntryView {
                index: (reach(n.log) + 1) as LogIndex,
                term: n.state.persistent.current_term,
                data,
                entry_type,
            };
            &&& after.log.entries == n.log.entries.push(entry)
            &&& after.log.snapshot_index == n.log.snapshot_index
            &&& after.log.snapshot_term == n.log.snapshot_term
            &&& after.wal.len() > n.wal.len() && after.wal.take(n.wal.len() as int) == n.wal
            &&& after.state == n.state
            &&& n.leader is Some ==> {
                &&& after.leader is Some
                &&& (after.leader->0).match_index.contains_key(n.state.id)
                &&& (after.leader->0).match_index[n.state.id] == reach(n.log) + 1
                &&& (after.leader->0).next_index == (n.leader->0).next_index
            }
        }),
{
    lemma_contiguous_last(n.log);
    let e = next_entry(n, data, entry_type);
    assert(proposed(n, data, entry_type).log.entries =~= n.log.entries.push(e));
    let added = encode_records(log_records(seq![e]));
    assert(log_records(seq![e]).drop_last() =~= Seq::<Seq<u8>>::empty());
    assert(log_records(seq![e]) =~= seq![encode_log_entry(e)]);
    assert(added.len() > 0);
    assert((n.wal + added).take(n.wal.len() as int) =~= n.wal);
}

/// A request to append is accepted exactly where its term is not older than the
/// node's and the node has the entry before the request's, or its snapshot ends
/// with it, or there is none. The answer tells how far the log reaches then, and
/// is given in the later of the two terms.
pub proof fn law_matching_requests_are_accepted(n: NodeView, r: AppendView)
    requires
        numbered(n.log),
        consecutive(r.entries, r.prev_log_index),
        r.prev_log_index + r.entries.len() < u64::MAX,
        n.log.snapshot_index <= r.prev_log_index || r.prev_log_index > 0,
    ensures
        ({
            let term = n.state.persistent.current_term;
            let place = r.prev_log_index - n.log.snapshot_index - 1;
            let (after, answer) = append_handled(n, r);
            &&& answer.success <==> r.term >= term && (r.prev_log_index == 0 || (place == -1
                && r.prev_log_term == n.log.snapshot_term) || (0 <= place < n.log.entries.len()
                && r.prev_log_term == n.log.entries[place].term))
            &&& answer.success ==> answer.match_index == reach(after.log)
            &&& !answer.success ==> after.log == n.log && after.state.commit_index
                == n.state.commit_index
            &&& r.term >= term ==> answer.term == r.term
            &&& r.term < term ==> answer.term == term && after == n
            &&& after.state.persistent.current_term == answer.term
            &&& r.term >= term ==> after.state.role == Role::Follower && after.state.leader_id
                == Some(r.leader_id)
        }),
{
    lemma_contiguous_last(n.log);
    if append_handled(n, r).1.success {
        lemma_resolved(n.log, r.entries, r.prev_log_index);
        let after = append_handled(n, r).0;
        let (cut, fresh) = resolved(n.log, r.entries);
        assert(after.log.entries == cut.entries + fresh);
        assert(contiguous(after.log)) by {
            assert forall|i: int| 0 <= i < after.log.entries.len() implies (
            #[trigger] after.log.entries[i]).index == after.log.snapshot_index + 1 + i by {}
        }
        lemma_contiguous_last(after.log);
    }
}

/// A request whose entries the node has already leaves its log as it is, however
/// far that reaches. So a heartbeat never shortens a log.
pub proof fn law_known_entries_change_nothing(n: NodeView, r: AppendView)
    requires
        numbered(n.log),
        consecutive(r.entries, r.prev_log_index),
        n.log.snapshot_index <= r.prev_log_index,
        r.prev_log_index + r.entries.len() <= reach(n.log),
        forall|i: int|
            0 <= i < r.entries.len() ==> n.log.entries[r.prev_log_index - n.log.snapshot_index
                + i].term == (#[trigger] r.entries[i]).term,
    ensures
        append_handled(n, r).0.log == n.log,
        append_handled(n, r).0.wal == n.wal,
{
    lemma_contiguous_last(n.log);
    lemma_resolved(n.log, r.entries, r.prev_log_index);
    let (cut, fresh) = resolved(n.log, r.entries);
    if fresh.len() > 0 {
        let k = r.entries.len() - fresh.len();
        assert(n.log.entries[r.prev_log_index - n.log.snapshot_index + k].term
            == r.entries[k].term);
    }
    assert(cut == n.log && fresh =~= Seq::empty());
    assert(n.log.entries + fresh =~= n.log.entries);
    assert(log_records(fresh) =~= Seq::empty());
    assert(n.wal + Seq::<u8>::empty() =~= n.wal);
}

/// Entries that a node does not have are taken up as they were sent, at the
/// places that they name, and go to its write-ahead log.
pub proof fn law_new_entries_are_taken_up(n: NodeView, r: AppendView)
    requires
        numbered(n.log),
        consecutive(r.entries, r.prev_log_index),
        n.log.snapshot_index <= r.prev_log_index,
        r.prev_log_index + r.entries.len() < u64::MAX,
        append_handled(n, r).1.success,
    ensures
        ({
            let after = append_handled(n, r).0;
            let start = r.prev_log_index - n.log.snapshot_index;
            &&& after.log.entries.len() >= start + r.entries.len()
            &&& after.log.entries.take(start) == n.log.entries.take(start)
            &&& forall|i: int|
                0 <= i < r.entries.len() ==> after.log.entries[start + i] == (
                #[trigger] r.entries[i]) || {
                    &&& start + i < n.log.entries.len()
                    &&& n.log.entries[start + i].term == r.entries[i].term
                    &&& after.log.entries[start + i] == n.log.entries[start + i]
                }
            &&& after.log != n.log ==> after.log.entries.len() == start + r.entries.len()
            &&& exists|added: Seq<EntryView>|
                after.wal == n.wal + #[trigger] encode_records(log_records(added)) && added
                    == r.entries.skip(r.entries.len() - added.len()) && (after.log != n.log
                    ==> added.len() > 0)
        }),
{
    lemma_contiguous_last(n.log);
    lemma_resolved(n.log, r.entries, r.prev_log_index);
    let (cut, fresh) = resolved(n.log, r.entries);
    let all = cut.entries + fresh;
    let after = append_handled(n, r).0;
    let start = r.prev_log_index - n.log.snapshot_index;
    assert(after.log.entries == all);
    assert(after.log.entries.take(start) =~= n.log.entries.take(start)) by {
        assert forall|i: int| 0 <= i < start implies all[i] == n.log.entries[i] by {}
    }
    assert forall|i: int| 0 <= i < r.entries.len() implies all[start + i] == (
    #[trigger] r.entries[i]) || {
        &&& start + i < n.log.entries.len()
        &&& n.log.entries[start + i].term == r.entries[i].term
        &&& all[start + i] == n.log.entries[start + i]
    } by {
        assert(all[start + i].term == r.entries[i].term);
        if start + i < cut.entries.len() {
            assert(cut.entries[start + i] == n.log.entries[start + i]);
        }
    }
    if fresh.len() == 0 {
        assert(all =~= n.log.entries);
    }
    assert(after.wal == n.wal + encode_records(log_records(fresh)));
}

/// A follower that accepts a request commits what the leader has committed, as
/// far as its log reaches, and takes nothing back.
pub proof fn law_followers_commit(n: NodeView, r: AppendView)
    requires
        append_handled(n, r).1.success,
    ensures
        ({
            let (after, answer) = append_handled(n, r);
            let commit = after.state.commit_index;
            &&& r.leader_commit <= n.state.commit_index ==> commit == n.state.commit_index
            &&& r.leader_commit > n.state.commit_index && r.leader_commit <= answer.match_index
                ==> commit == r.leader_commit
            &&& r.leader_commit > n.state.commit_index && r.leader_commit > answer.match_index
                ==> commit == answer.match_index
            &&& after.state.last_applied == n.state.last_applied
        }),
{
}

/// Committed entries are handed out in order and without gaps, from the first
/// that was not handed out yet up to the commit index.
pub proof fn law_committed_entries_are_handed_out(l: LogView, from: LogIndex, to: LogIndex)
    requires
        numbered(l),
        l.snapshot_index <= from <= to <= reach(l),
    ensures
        entries_between(l, from, to) == l.entries.subrange(
            from - l.snapshot_index,
            to - l.snapshot_index,
        ),
        forall|i: int|
            0 <= i < entries_between(l, from, to).len() ==> (#[trigger] entries_between(
                l,
                from,
                to,
            )[i]).index == from + 1 + i,
    decreases to,
{
    let a = from - l.snapshot_index;
    let b = to - l.snapshot_index;
    if from < to {
        law_committed_entries_are_handed_out(l, from, (to - 1) as LogIndex);
        assert(l.entries.subrange(a, b) =~= l.entries.subrange(a, b - 1).push(l.entries[b - 1]));
    } else {
        assert(l.entries.subrange(a, b) =~= Seq::empty());
    }
    assert forall|i: int| 0 <= i < b - a implies (#[trigger] l.entries.subrange(a, b)[i]).index
        == from + 1 + i by {
        assert(l.entries[a + i].index == l.snapshot_index + 1 + a + i);
    }
}

/// Every committed entry is handed out once: after the committed entries were
/// taken there are none left, and what two turns hand out is what one would.
pub proof fn law_entries_are_handed_out_once(n: NodeView, later: LogIndex)
    requires
        numbered(n.log),
        n.log.snapshot_index <= n.state.last_applied <= n.state.commit_index <= later <= reach(
            n.log,
        ),
    ensures
        ({
            let l = n.log;
            let taken = applied_up(n);
            let first = entries_between(l, n.state.last_applied, n.state.commit_index);
            &&& taken.log == l
            &&& taken.state.last_applied == n.state.commit_index
            &&& taken.state.commit_index == n.state.commit_index
            &&& entries_between(l, taken.state.last_applied, taken.state.commit_index).len() == 0
            &&& first + entries_between(l, taken.state.last_applied, later) == entries_between(
                l,
                n.state.last_applied,
                later,
            )
        }),
{
    let l = n.log;
    law_committed_entries_are_handed_out(l, n.state.last_applied, n.state.commit_index);
    law_committed_entries_are_handed_out(l, n.state.commit_index, later);
    law_committed_entries_are_handed_out(l, n.state.last_applied, later);
    let base = l.snapshot_index;
    assert(l.entries.subrange(n.state.last_applied - base, n.state.commit_index - base)
        + l.entries.subrange(n.state.commit_index - base, later - base) =~= l.entries.subrange(
        n.state.last_applied - base,
        later - base,
    ));
}

/// A snapshot stands for the entries up to its index and for no other: those
/// after it stay, and where the log reached the index it reaches as far as before.
pub proof fn law_snapshots_keep_the_rest(l: LogView, index: LogIndex, term: Term)
    requires
        numbered(l),
    ensures
        ({
            let after = compacted(l, index, term);
            &&& index <= l.snapshot_index ==> after == l
            &&& index > l.snapshot_index ==> after.snapshot_index == index && after.snapshot_term
                == term
            &&& l.snapshot_index < index <= reach(l) ==> reach(after) == reach(l)
            &&& index > reach(l) ==> after.entries.len() == 0
            &&& l.snapshot_index < index <= reach(l) ==> after.entries == l.entries.skip(
                index - l.snapshot_index,
            )
            &&& contiguous(after)
        }),
{
    let after = compacted(l, index, term);
    if l.snapshot_index < index <= reach(l) {
        assert(after.entries =~= l.entries.skip(index - l.snapshot_index));
        assert forall|i: int| 0 <= i < after.entries.len() implies (#[trigger] after.entries[i]).index
            == after.snapshot_index + 1 + i by {
            assert(after.entries[i] == l.entries[i + index - l.snapshot_index]);
        }
    }
}

/// A follower that stores a newer snapshot of a leader that is not stale goes on
/// from it: the snapshot's entries count as committed and applied, and the log
/// begins after it. Other snapshots leave the log and its progress alone.
pub proof fn law_installed_snapshots_count_as_applied(
    n: NodeView,
    leader_term: Term,
    leader_id: NodeId,
    metadata: SnapshotMetadata,
    stored: bool,
)
    ensures
        ({
            let index = metadata.last_included_index;
            let after = snapshot_installed(n, leader_term, leader_id, metadata, stored);
            let term = n.state.persistent.current_term;
            &&& leader_term < term ==> after == n
            &&& leader_term >= term ==> {
                &&& after.state.role == Role::Follower
                &&& after.state.leader_id == Some(leader_id)
                &&& after.state.persistent.current_term == leader_term
            }
            &&& leader_term >= term && stored && index > n.log.snapshot_index ==> {
                &&& after.log.snapshot_index == index
                &&& after.log.snapshot_term == metadata.last_included_term
                &&& after.state.commit_index >= index
                &&& after.state.last_applied >= index
                &&& after.state.commit_index == index || after.state.commit_index
                    == n.state.commit_index
                &&& after.state.last_applied == index || after.state.last_applied
                    == n.state.last_applied
            }
            &&& !stored || index <= n.log.snapshot_index ==> {
                &&& after.log == n.log
                &&& after.state.commit_index == n.state.commit_index
                &&& after.state.last_applied == n.state.last_applied
            }
            &&& after.state.commit_index >= n.state.commit_index
            &&& after.state.last_applied >= n.state.last_applied
        }),
{
}

/// The target of a transfer is told to take over exactly at the first look at
/// which the leader knows it to have the whole log; after that it is not told
/// again.
pub proof fn law_targets_are_told_once_caught_up(n: NodeView)
    requires
        numbered(n.log),
        n.leader is Some,
    ensures
        ({
            let (after, told) = transfer_checked(n);
            let known = (n.leader->0).match_index;
            &&& told is Some <==> (n.transfer matches Some(t) && !t.timeout_now_sent && (reach(
                n.log,
            ) == 0 || (known.contains_key(t.target) && known[t.target] >= reach(n.log))))
            &&& told is Some ==> n.transfer is Some && told == Some((n.transfer->0).target)
            &&& told is Some ==> transfer_checked(after).1 is None
            &&& told is None ==> after == n
            &&& after.transfer is Some == n.transfer is Some
            &&& after.log == n.log && after.leader == n.leader && after.state == n.state
        }),
{
    lemma_contiguous_last(n.log);
}

/// A leader agrees to hand over exactly to another node that votes, where it is
/// not handing over already.
pub proof fn law_transfers_go_to_voters(n: NodeView, target: NodeId)
    ensures
        transfer_refusal(n, target) is None <==> {
            &&& n.state.role == Role::Leader
            &&& target != n.state.id
            &&& n.transfer is None
            &&& has_member(n.membership.current, target) || (n.membership.pending matches Some(p)
                && has_member(p, target))
        },
        n.state.role != Role::Leader ==> transfer_refusal(n, target) == Some(
            TransferError::NotLeader,
        ),
        n.state.role == Role::Leader && target == n.state.id ==> transfer_refusal(n, target)
            == Some(TransferError::AlreadyLeader),
        forall|now: u128|
            (#[trigger] transfer_begun(n, target, now)).transfer matches Some(t) && t.target
                == target && !t.timeout_now_sent && t.started_at == now,
{
}

/// A transfer is given up once more whole milliseconds have passed than it may
/// take, and no sooner.
pub proof fn law_transfers_time_out(n: NodeView, now: u128, timeout_ms: u64)
    requires
        n.transfer is Some,
        now >= (n.transfer->0).started_at,
        now - (n.transfer->0).started_at < 1_000_000 * 0x1_0000_0000_0000_0000,
    ensures
        transfer_timed_out(n, now, timeout_ms) <==> now - (n.transfer->0).started_at >= 1_000_000
            * (timeout_ms + 1),
{
    let taken = now - (n.transfer->0).started_at;
    assert(taken / 1_000_000 > timeout_ms <==> taken >= 1_000_000 * (timeout_ms + 1));
}

/// A proposal is taken exactly by a leader that is not handing over. It is then
/// the last entry of the log, under the index that is answered, with the data and
/// in the leader's term. A proposal that is refused changes nothing, and a node
/// that does not lead names the leader that it knows.
pub proof fn law_leaders_take_proposals(n: NodeView, data: Seq<u8>)
    requires
        numbered(n.log),
    ensures
        ({
            let (after, answer) = proposal_handled(n, data);
            &&& answer is Ok <==> n.state.role == Role::Leader && n.transfer is None
            &&& answer matches Ok(index) ==> {
                let entry = EntryView {
                    index,
                    term: n.state.persistent.current_term,
                    data,
                    entry_type: EntryType::Normal,
                };
                &&& index == reach(n.log) + 1
                &&& after.log.entries == n.log.entries.push(entry)
                &&& after.state == n.state
            }
            &&& answer is Err ==> after == n
            &&& n.state.role != Role::Leader ==> answer == Err::<LogIndex, ProposalResult>(
                ProposalResult::NotLeader { leader_id: n.state.leader_id },
            )
            &&& n.state.role == Role::Leader && n.transfer is Some ==> answer == Err::<
                LogIndex,
                ProposalResult,
            >(ProposalResult::TransferInProgress)
        }),
{
    lemma_contiguous_last(n.log);
    law_proposals_extend_the_log(n, data, EntryType::Normal);
}

/// A peer that accepts entries confirms the leader to every read that waits, and
/// to no other; one that rejects them confirms nothing. What the answer says of the
/// log is taken either way.
pub proof fn law_acceptances_confirm_reads(
    n: NodeView,
    from: NodeId,
    response: AppendResponse,
    after: NodeView,
    id: u64,
)
    requires
        append_answered(n, from, response, after),
        response.term <= n.state.persistent.current_term,
    ensures
        after.reads.contains_key(id) == n.reads.contains_key(id),
        n.reads.contains_key(id) ==> {
            &&& after.reads[id].read_index == n.reads[id].read_index
            &&& after.reads[id].cluster_size == n.reads[id].cluster_size
            &&& forall|node: NodeId| #[trigger]
                after.reads[id].acks.contains(node) <==> n.reads[id].acks.contains(node) || (node
                    == from && response.success)
        },
        n.state.role == Role::Leader && n.leader is Some && response.success ==> (
        after.leader is Some && (after.leader->0).match_index.contains_key(from) && (
        after.leader->0).match_index[from] == response.match_index),
{
}

/// A node that is told to take over, in a term that is not older than its own,
/// stands for election at once in the next term and asks all its peers; a stale
/// message changes nothing.
pub proof fn law_targets_take_over(n: NodeView, term: Term, i: int)
    requires
        n.state.persistent.current_term < u64::MAX,
        numbered(n.log),
        0 <= i < n.peers.len(),
    ensures
        ({
            let (after, requests) = takeover_handled(n, term);
            &&& term < n.state.persistent.current_term ==> after == n && requests.len() == 0
            &&& term >= n.state.persistent.current_term ==> {
                &&& after.state.role == Role::Candidate
                &&& after.state.persistent.current_term == n.state.persistent.current_term + 1
                &&& after.state.persistent.voted_for == Some(n.state.id)
                &&& requests.len() == n.peers.len()
                &&& requests[i].0 == n.peers[i]
                &&& requests[i].1 == (VoteRequest {
                    term: after.state.persistent.current_term,
                    candidate_id: n.state.id,
                    last_log_index: reach(n.log) as LogIndex,
                    last_log_term: final_term(n.log),
                    is_pre_vote: false,
                })
            }
        }),
{
    lemma_contiguous_last(n.log);
}

/// An election follows exactly on pre-votes that more than half of the members
/// have granted; without them the node stays in its term.
pub proof fn law_pre_votes_lead_to_elections(n: NodeView, answered: bool)
    requires
        n.state.persistent.current_term < u64::MAX,
        n.election is Some,
    ensures
        ({
            let (after, requests) = pre_vote_ended(n, answered);
            &&& requests is Some <==> answered && more_than_half(n, (n.election->0).votes)
            &&& requests is Some ==> {
                &&& after.state.role == Role::Candidate
                &&& after.state.persistent.current_term == n.state.persistent.current_term + 1
                &&& (requests->0).len() == n.peers.len()
            }
            &&& requests is None ==> after == n
        }),
{
}

/// A snapshot is taken at the commit index, with the term of the entry there;
/// there is none before anything is committed.
pub proof fn law_snapshots_are_of_what_is_committed(n: NodeView, data: Seq<u8>)
    requires
        numbered(n.log),
    ensures
        snapshot_of(n, data) is Some <==> n.state.commit_index > 0,
        snapshot_of(n, data) matches Some(metadata) ==> {
            let place = n.state.commit_index - n.log.snapshot_index - 1;
            &&& metadata.last_included_index == n.state.commit_index
            &&& 0 <= place < n.log.entries.len() ==> metadata.last_included_term
                == n.log.entries[place].term
            &&& place == -1 ==> metadata.last_included_term == n.log.snapshot_term
        },
{
}

/// A leader that begins a membership change asks both configurations from then
/// on. A node that takes up the joint entry does so too, and one that takes over
/// the new configuration asks that alone. Nothing else of the node changes.
pub proof fn law_members_decide_together(
    n: NodeView,
    change: ChangeView,
    next: Seq<MemberView>,
    voters: Set<NodeId>,
)
    ensures
        change_begun(n.membership, change) is Ok ==> {
            let joint = change_entered(n, change);
            &&& joint.membership.pending is Some
            &&& quorum(joint.membership, voters) <==> majority(n.membership.current, voters)
                && majority(joint.membership.pending->0, voters)
            &&& joint.log == n.log && joint.state == n.state && joint.leader == n.leader
        },
        quorum(joint_taken(n, next).membership, voters) <==> majority(n.membership.current, voters)
            && majority(next, voters),
        quorum(config_taken(n, next).membership, voters) <==> majority(next, voters),
        config_taken(n, next).membership.current == next,
        !config_taken(n, next).membership.change_in_progress,
        joint_taken(n, next).log == n.log && joint_taken(n, next).state == n.state,
        config_taken(n, next).log == n.log && config_taken(n, next).state == n.state,
{
}

/// A message of a newer term makes a follower of any node, whatever it was: its
/// vote is free again unless it grants it at once, and what it did as a leader or
/// candidate is over. Its log, and what it has committed, stay.
pub proof fn law_newer_terms_make_followers(
    n: NodeView,
    from: NodeId,
    answer: VoteResponse,
    was_pre_vote: bool,
    request: VoteRequest,
)
    ensures
        answer.term > n.state.persistent.current_term ==> {
            let (after, leads) = vote_response_handled(n, from, answer, was_pre_vote);
            &&& !leads
            &&& after.state.role == Role::Follower
            &&& after.state.persistent.current_term == answer.term
            &&& after.state.persistent.voted_for is None
            &&& after.leader is None && after.election is None && after.transfer is None
            &&& after.unsaved
            &&& after.log == n.log && after.state.commit_index == n.state.commit_index
        },
        request.term > n.state.persistent.current_term && !request.is_pre_vote ==> {
            let (after, reply) = vote_request_handled(n, request);
            &&& after.state.role == Role::Follower
            &&& after.state.persistent.current_term == request.term
            &&& !reply.vote_granted ==> after.state.persistent.voted_for is None
            &&& after.leader is None && after.election is None && after.transfer is None
            &&& after.unsaved
        },
{
}

/// A restarted node remembers its term, its vote and its log; it follows, and has
/// to learn anew what is committed.
pub proof fn law_restarted_nodes_remember(
    id: NodeId,
    peers: Seq<NodeId>,
    persistent: PersistentState,
    entries: Seq<EntryView>,
)
    ensures
        ({
            let n = new_node(id, peers, persistent, entries);
            &&& n.state.id == id && n.peers == peers
            &&& n.state.persistent == persistent
            &&& n.log.entries == entries && n.log.snapshot_index == 0
            &&& n.state.role == Role::Follower && n.state.leader_id is None
            &&& n.state.commit_index == 0 && n.state.last_applied == 0
            &&& n.leader is None && n.election is None && n.transfer is None
            &&& n.membership.pending is None
            &&& forall|other: NodeId| #[trigger]
                has_member(n.membership.current, other) <==> other == id || peers.contains(other)
        }),
{
    let n = new_node(id, peers, persistent, entries);
    assert forall|other: NodeId| #[trigger] has_member(n.membership.current, other) <==> other == id
        || peers.contains(other) by {
        law_new_clusters_have_all_nodes(id, peers, other);
    }
}

/// A log is read by index: each entry after the snapshot is found under its number,
/// with its term; at the end stands the last of them.
pub proof fn law_logs_are_read_by_index(l: LogView, index: LogIndex)
    requires
        numbered(l),
    ensures
        l.snapshot_index < index <= reach(l) ==> {
            let e = l.entries[index - l.snapshot_index - 1];
            &&& entry_at(l, index) == Some(e)
            &&& e.index == index
            &&& term_of(l, index) == Some(e.term)
        },
        index <= l.snapshot_index || index > reach(l) ==> entry_at(l, index) is None,
        index > reach(l) ==> term_of(l, index) is None,
        0 < index < l.snapshot_index ==> term_of(l, index) is None,
        index == l.snapshot_index && index > 0 ==> term_of(l, index) == Some(l.snapshot_term),
        last_index_of(l) == reach(l),
        last_term_of(l) == final_term(l),
{
    lemma_contiguous_last(l);
}

/// The entries from an index on are those with that number or a greater one; a log
/// that is cut after an index keeps those up to it, and the two make up the whole.
pub proof fn law_logs_can_be_cut(l: LogView, index: LogIndex)
    requires
        numbered(l),
        l.snapshot_index <= index < u64::MAX,
    ensures
        ({
            let kept = truncated(l, index);
            let rest = suffix_from(l, (index + 1) as LogIndex);
            &&& kept.entries + rest == l.entries
            &&& kept.snapshot_index == l.snapshot_index && kept.snapshot_term == l.snapshot_term
            &&& forall|i: int| 0 <= i < kept.entries.len() ==> (#[trigger] kept.entries[i]).index
                <= index
            &&& forall|i: int| 0 <= i < rest.len() ==> (#[trigger] rest[i]).index > index
            &&& extended(kept, rest) == l
        }),
{
    let kept = truncated(l, index);
    let rest = suffix_from(l, (index + 1) as LogIndex);
    assert(kept.entries + rest =~= l.entries);
    assert forall|i: int| 0 <= i < kept.entries.len() implies (#[trigger] kept.entries[i]).index
        <= index by {
        assert(kept.entries[i] == l.entries[i]);
    }
    assert forall|i: int| 0 <= i < rest.len() implies (#[trigger] rest[i]).index > index by {
        assert(rest[i] == l.entries[kept.entries.len() + i]);
    }
}

/// An election by head count is won with more than half of the cluster, and not
/// with less.
pub proof fn law_elections_need_more_than_half(e: ElectionView)
    ensures
        election_won(e) <==> 2 * e.votes.len() > e.cluster_size,
{
}

/// A snapshot is due exactly where the log holds more entries than the threshold,
/// and once everything in the log is in a snapshot, none is due.
pub proof fn law_long_logs_call_for_snapshots(n: NodeView, threshold: u64, term: Term)
    requires
        numbered(n.log),
    ensures
        snapshot_due(n, threshold) <==> reach(n.log) - n.log.snapshot_index > threshold,
        !snapshot_due(
            NodeView { log: compacted(n.log, reach(n.log) as LogIndex, term), ..n },
            threshold,
        ),
{
}

/// A node wants exactly the snapshots that would bring its log on.
pub proof fn law_wanted_snapshots_bring_nodes_on(
    n: NodeView,
    leader_term: Term,
    leader_id: NodeId,
    metadata: SnapshotMetadata,
)
    ensures
        ({
            let after = snapshot_installed(n, leader_term, leader_id, metadata, true);
            &&& snapshot_wanted(n, leader_term, metadata) ==> after.log.snapshot_index
                == metadata.last_included_index && after.log.snapshot_index
                > n.log.snapshot_index
            &&& !snapshot_wanted(n, leader_term, metadata) ==> after.log == n.log
        }),
{
}

} // verus!
