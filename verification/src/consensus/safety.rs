//! What is committed in a cluster stays: every later leader has it.
//!
//! The run of a cluster with a fixed membership is recorded as it goes: the logs
//! of the leaders, the votes with the logs that the voters had, and what each
//! node has acknowledged. The laws say that every step keeps the record sound,
//! and what follows of a sound record.

use vstd::prelude::*;
use crate::consensus::log::{compacted, last_index_of, last_term_of, term_of, LogView};
use crate::consensus::matching::{
    drawn, holds, is_history, law_append_keeps_matching, law_compaction_keeps_matching,
    law_elections_keep_matching, law_proposals_keep_matching, law_requests_are_drawn,
    lemma_stands_for, lemma_with_led, stands_for, traced, traced_at, with_led,
};
use crate::consensus::membership::{has_member, law_majorities_intersect, majority, MemberView};
use crate::consensus::message::{AppendResponse, AppendView, EntryType, EntryView, VoteRequest};
use crate::consensus::snapshot::SnapshotMetadata;
use crate::consensus::state::LeaderView;
use crate::consensus::transitions::{
    append_handled, append_request_for, append_requests_of, became_leader, committable,
    election_decided, election_started, holders, needs_snapshot, next_entry, peers_where,
    progress_noted, proposed, resolved, snapshot_installed, snapshot_taken, stepped_down,
    term_of_node, vote_request_handled, NodeView,
};
use crate::storage::stack::lemma_filter_contains;
use crate::types::{LogIndex, NodeId, Term};

verus! {

/// A vote: whom it was given to, how that candidate's log ended, and the log of
/// the voter.
#[verifier::ext_equal]
pub struct VoteRecord {
    pub candidate: NodeId,
    pub last_term: Term,
    pub last_index: nat,
    pub log: Seq<EntryView>,
}

/// The record of a run.
#[verifier::ext_equal]
pub struct RunView {
    /// The log of the leader of each term.
    pub history: Map<Term, Seq<EntryView>>,
    /// How long the log of each leader was when it was elected.
    pub starts: Map<Term, nat>,
    pub leaders: Map<Term, NodeId>,
    /// The nodes that have elected the leader of each term.
    pub voters: Map<Term, Set<NodeId>>,
    pub votes: Map<(Term, NodeId), VoteRecord>,
    /// A node has told the leader of a term that it has so many of its entries.
    pub acks: Set<(NodeId, Term, nat)>,
    /// The log of each node.
    pub logs: Map<NodeId, Seq<EntryView>>,
    /// The term of each node.
    pub terms: Map<NodeId, Term>,
}

/// The term in which a log ends.
pub open spec fn end_term(log: Seq<EntryView>) -> Term {
    if log.len() == 0 {
        0
    } else {
        log.last().term
    }
}

/// The terms of a log never fall.
pub open spec fn rising(log: Seq<EntryView>) -> bool {
    forall|i: int, j: int| 0 <= i <= j < log.len() ==> #[trigger] log[i].term <= #[trigger] log[j].term
}

/// The log that the leader of a term was elected with.
pub open spec fn elected_log(run: RunView, t: Term) -> Seq<EntryView> {
    run.history[t].take(run.starts[t] as int)
}

/// The leader of a term was elected, by a majority, with a log that lacks the
/// first entries of the leader of an earlier one.
pub open spec fn overruled(run: RunView, t: Term, k: nat, bound: int) -> bool {
    exists|u: Term|
        #![trigger run.history.contains_key(u)]
        run.history.contains_key(u) && t < u < bound && !holds(
            elected_log(run, u),
            run.history[t].take(k as int),
        )
}

/// A log still has the first entries of the leader of a term, unless another
/// leader did not have them.
pub open spec fn kept(run: RunView, log: Seq<EntryView>, t: Term, k: nat, bound: int) -> bool {
    holds(log, run.history[t].take(k as int)) || overruled(run, t, k, bound)
}

/// The log of the leader of a term: entries of earlier terms up to its election,
/// and of its own from there on. It is the log of that node as long as its term
/// lasts.
pub open spec fn leader_sound(run: RunView, t: Term) -> bool {
    let log = run.history[t];
    let leader = run.leaders[t];
    &&& t > 0
    &&& run.starts[t] < log.len()
    &&& rising(log)
    &&& forall|i: int|
        0 <= i < log.len() ==> if i < run.starts[t] {
            #[trigger] log[i].term < t
        } else {
            log[i].term == t
        }
    &&& run.terms[leader] >= t
    &&& run.terms[leader] == t ==> run.logs[leader] == log
}

/// The leader of a term was elected by a majority that had voted for it.
pub open spec fn election_sound(run: RunView, members: Seq<MemberView>, t: Term) -> bool {
    &&& majority(members, run.voters[t])
    &&& forall|v: NodeId| #[trigger]
        run.voters[t].contains(v) ==> {
            &&& run.votes.contains_key((t, v))
            &&& run.votes[(t, v)].candidate == run.leaders[t]
            &&& run.votes[(t, v)].last_term == end_term(elected_log(run, t))
            &&& run.votes[(t, v)].last_index == run.starts[t]
        }
}

/// A vote was given to a log at least as recent as the voter's, which still had
/// all that the voter had acknowledged before.
pub open spec fn vote_sound(run: RunView, t: Term, v: NodeId) -> bool {
    let vote = run.votes[(t, v)];
    &&& run.terms[v] >= t
    &&& traced(run.history, vote.log)
    &&& vote.last_term > end_term(vote.log) || (vote.last_term == end_term(vote.log)
        && vote.last_index >= vote.log.len())
    &&& !run.history.contains_key(t) || run.voters[t].contains(v) ==> forall|s: Term, m: nat, k: nat|
        #![trigger run.acks.contains((v, s, m)), kept(run, vote.log, s, k, t as int)]
        run.acks.contains((v, s, m)) && s < t && 0 < k <= m ==> kept(run, vote.log, s, k, t as int)
}

/// The log of a node is from the leaders' logs, and not ahead of its term.
pub open spec fn log_sound(run: RunView, q: NodeId) -> bool {
    &&& traced(run.history, run.logs[q])
    &&& forall|i: int|
        0 <= i < run.logs[q].len() ==> (#[trigger] run.logs[q][i]).term <= run.terms[q]
}

/// What a node has acknowledged is still in its log.
pub open spec fn ack_sound(run: RunView, q: NodeId, s: Term, m: nat) -> bool {
    &&& run.history.contains_key(s)
    &&& m <= run.history[s].len()
    &&& s <= run.terms[q]
    &&& forall|k: nat|
        #![trigger kept(run, run.logs[q], s, k, run.terms[q] + 1)]
        0 < k <= m ==> kept(run, run.logs[q], s, k, run.terms[q] + 1)
}

/// The record of a run is sound.
pub open spec fn run_sound(run: RunView, members: Seq<MemberView>) -> bool {
    &&& is_history(run.history)
    &&& forall|t: Term| #[trigger]
        run.history.contains_key(t) ==> leader_sound(run, t) && election_sound(run, members, t)
    &&& forall|t: Term, v: NodeId| #[trigger]
        run.votes.contains_key((t, v)) ==> vote_sound(run, t, v)
    &&& forall|q: NodeId| #[trigger] has_member(members, q) ==> log_sound(run, q)
    &&& forall|q: NodeId, s: Term, m: nat| #[trigger]
        run.acks.contains((q, s, m)) ==> has_member(members, q) && ack_sound(run, q, s, m)
}

/// The record shows a node as it is.
pub open spec fn shows(run: RunView, n: NodeView) -> bool {
    let id = n.state.id;
    let term = term_of_node(n);
    &&& run.terms[id] == term
    &&& stands_for(n.log, run.logs[id])
    &&& run.votes.contains_key((term, id)) ==> n.state.persistent.voted_for == Some(
        run.votes[(term, id)].candidate,
    )
}

/// The first entries of the log of a leader are committed: the last of them is
/// of its term, and a majority has acknowledged them.
pub open spec fn committed(run: RunView, members: Seq<MemberView>, t: Term, k: nat) -> bool {
    &&& run.history.contains_key(t)
    &&& 0 < k <= run.history[t].len()
    &&& run.history[t][k - 1].term == t
    &&& exists|q: Set<NodeId>| #[trigger] acknowledged(run, members, t, k, q)
}

/// A majority has acknowledged the first entries of the log of a leader.
pub open spec fn acknowledged(
    run: RunView,
    members: Seq<MemberView>,
    t: Term,
    k: nat,
    q: Set<NodeId>,
) -> bool {
    &&& majority(members, q)
    &&& forall|id: NodeId| #[trigger]
        q.contains(id) ==> exists|m: nat| m >= k && #[trigger] run.acks.contains((id, t, m))
}

proof fn lemma_traced_rises(run: RunView, members: Seq<MemberView>, log: Seq<EntryView>)
    requires
        run_sound(run, members),
        traced(run.history, log),
    ensures
        rising(log),
        log.len() > 0 ==> run.history.contains_key(end_term(log)) && log.len()
            <= run.history[end_term(log)].len() && log == run.history[end_term(log)].take(
            log.len() as int,
        ),
        forall|i: int|
            0 <= i < log.len() ==> run.history.contains_key((#[trigger] log[i]).term),
        forall|i: int| 0 <= i < log.len() ==> (#[trigger] log[i]).term > 0,
{
    assert forall|i: int| 0 <= i < log.len() implies run.history.contains_key(
        (#[trigger] log[i]).term,
    ) && log[i].term > 0 by {
        assert(traced_at(run.history, log, i));
        assert(leader_sound(run, log[i].term));
    }
    if log.len() > 0 {
        let last = log.len() - 1;
        let u = log[last].term;
        assert(traced_at(run.history, log, last));
        assert(log.take(log.len() as int) =~= log);
        let led = run.history[u];
        assert(leader_sound(run, u));
        assert forall|i: int, j: int| 0 <= i <= j < log.len() implies #[trigger] log[i].term
            <= #[trigger] log[j].term by {
            assert(led.take(log.len() as int)[i] == led[i]);
            assert(led.take(log.len() as int)[j] == led[j]);
        }
    }
}

/// Every later leader was elected with a log that has what is committed.
pub proof fn law_later_leaders_have_committed(
    run: RunView,
    members: Seq<MemberView>,
    t: Term,
    k: nat,
    later: Term,
)
    requires
        run_sound(run, members),
        committed(run, members, t, k),
        later > t,
        run.history.contains_key(later),
    ensures
        holds(elected_log(run, later), run.history[t].take(k as int)),
        holds(run.history[later], run.history[t].take(k as int)),
    decreases later,
{
    let h = run.history;
    let p = h[t].take(k as int);
    let q = choose|q: Set<NodeId>| #[trigger] acknowledged(run, members, t, k, q);
    assert(election_sound(run, members, later));
    assert(leader_sound(run, later));
    let v = law_majorities_intersect(members, q, run.voters[later]);
    assert(q.contains(v) && run.voters[later].contains(v));
    let m = choose|m: nat| m >= k && #[trigger] run.acks.contains((v, t, m));
    let vote = run.votes[(later, v)];
    assert(vote_sound(run, later, v));
    assert(kept(run, vote.log, t, k, later as int));
    let w = elected_log(run, later);
    if overruled(run, t, k, later as int) {
        let u = choose|u: Term|
            #![trigger run.history.contains_key(u)]
            run.history.contains_key(u) && t < u < later && !holds(elected_log(run, u), p);
        law_later_leaders_have_committed(run, members, t, k, u);
    }
    assert(holds(vote.log, p));
    let l = vote.log;
    assert(traced(h, w)) by {
        assert forall|i: int| 0 <= i < w.len() implies traced_at(h, w, i) by {
            assert(traced_at(h, h[later], i));
            assert(w.take(i + 1) =~= h[later].take(i + 1));
        }
    }
    lemma_traced_rises(run, members, l);
    lemma_traced_rises(run, members, w);
    assert(l.take(k as int)[k - 1] == p[k - 1]);
    assert(l[k - 1].term == t);
    assert(end_term(l) >= t);
    let u = end_term(w);
    assert(w.len() > 0);
    if u == end_term(l) {
        assert(h[u].take(w.len() as int).take(k as int) =~= h[u].take(l.len() as int).take(k as int));
    } else {
        assert(w[w.len() - 1].term < later);
        law_later_leaders_have_committed(run, members, t, k, u);
        assert(leader_sound(run, u));
        assert(h[u].take(w.len() as int)[w.len() - 1] == h[u][w.len() - 1]);
        assert(w.len() > run.starts[u]);
        assert(w.take(k as int) =~= elected_log(run, u).take(k as int));
    }
    assert(h[later].take(k as int) =~= w.take(k as int));
}

/// Two leaders have committed the same entries, as far as both have committed
/// any.
pub proof fn law_committed_entries_agree(
    run: RunView,
    members: Seq<MemberView>,
    t: Term,
    k: nat,
    u: Term,
    m: nat,
    i: int,
)
    requires
        run_sound(run, members),
        committed(run, members, t, k),
        committed(run, members, u, m),
        0 <= i < k,
        i < m,
    ensures
        run.history[t][i] == run.history[u][i],
{
    if t < u {
        law_later_leaders_have_committed(run, members, t, k, u);
        assert(run.history[u].take(k as int)[i] == run.history[t].take(k as int)[i]);
    } else if u < t {
        law_later_leaders_have_committed(run, members, u, m, t);
        assert(run.history[t].take(m as int)[i] == run.history[u].take(m as int)[i]);
    }
}

/// The record of a run in which nothing has happened yet.
pub open spec fn new_run() -> RunView {
    RunView {
        history: Map::empty(),
        starts: Map::empty(),
        leaders: Map::empty(),
        voters: Map::empty(),
        votes: Map::empty(),
        acks: Set::empty(),
        logs: Map::new(|q: NodeId| true, |q: NodeId| Seq::empty()),
        terms: Map::new(|q: NodeId| true, |q: NodeId| 0),
    }
}

/// The record of a new run is sound, and shows nodes in term zero with empty
/// logs.
pub proof fn law_new_run_is_sound(members: Seq<MemberView>)
    ensures
        run_sound(new_run(), members),
        forall|n: NodeView|
            term_of_node(n) == 0 && n.log.entries.len() == 0 && n.log.snapshot_index == 0
                && n.log.snapshot_term == 0 ==> #[trigger] shows(new_run(), n),
{
    assert forall|n: NodeView|
        term_of_node(n) == 0 && n.log.entries.len() == 0 && n.log.snapshot_index == 0
            && n.log.snapshot_term == 0 implies #[trigger] shows(new_run(), n) by {
        assert(n.log.entries =~= Seq::<EntryView>::empty().skip(0));
    }
}

/// A record goes on from another one: the logs of the leaders have only grown,
/// and what was acknowledged still is.
pub open spec fn extends(run: RunView, after: RunView) -> bool {
    &&& forall|t: Term| #[trigger]
        run.history.contains_key(t) ==> {
            &&& after.history.contains_key(t)
            &&& after.starts[t] == run.starts[t]
            &&& holds(after.history[t], run.history[t])
        }
    &&& run.acks.subset_of(after.acks)
}

proof fn lemma_extends_same(run: RunView, after: RunView)
    requires
        after.history == run.history,
        after.starts == run.starts,
        run.acks.subset_of(after.acks),
    ensures
        extends(run, after),
{
    assert forall|t: Term| #[trigger] run.history.contains_key(t) implies holds(
        after.history[t],
        run.history[t],
    ) by {
        assert(run.history[t].take(run.history[t].len() as int) =~= run.history[t]);
    }
}

/// The record shows the other nodes as before.
pub open spec fn others_shown(before: RunView, after: RunView, id: NodeId) -> bool {
    forall|m: NodeView| m.state.id != id && #[trigger] shows(before, m) ==> shows(after, m)
}

/// A node is in a newer term.
pub open spec fn with_term(run: RunView, id: NodeId, term: Term) -> RunView {
    RunView { terms: run.terms.insert(id, term), ..run }
}

proof fn lemma_kept_longer(
    run: RunView,
    after: RunView,
    log: Seq<EntryView>,
    s: Term,
    k: nat,
    bound: int,
    later: int,
)
    requires
        after.history == run.history,
        after.starts == run.starts,
        bound <= later,
        kept(run, log, s, k, bound),
    ensures
        kept(after, log, s, k, later),
{
    if overruled(run, s, k, bound) {
        let u = choose|u: Term|
            #![trigger run.history.contains_key(u)]
            run.history.contains_key(u) && s < u < bound && !holds(
                elected_log(run, u),
                run.history[s].take(k as int),
            );
        assert(after.history.contains_key(u));
        assert(elected_log(after, u) == elected_log(run, u));
    }
}

proof fn lemma_with_term(run: RunView, members: Seq<MemberView>, id: NodeId, term: Term)
    requires
        run_sound(run, members),
        term >= run.terms[id],
    ensures
        run_sound(with_term(run, id, term), members),
        others_shown(run, with_term(run, id, term), id),
{
    let after = with_term(run, id, term);
    assert forall|t: Term| #[trigger] after.history.contains_key(t) implies leader_sound(after, t)
        && election_sound(after, members, t) by {
        assert(leader_sound(run, t));
        assert(election_sound(run, members, t));
        assert(elected_log(after, t) == elected_log(run, t));
    }
    assert forall|t: Term, v: NodeId| #[trigger] after.votes.contains_key((t, v)) implies vote_sound(
        after,
        t,
        v,
    ) by {
        assert(vote_sound(run, t, v));
        let log = run.votes[(t, v)].log;
        assert forall|s: Term, m: nat, k: nat|
            #![trigger after.acks.contains((v, s, m)), kept(after, log, s, k, t as int)]
            (!run.history.contains_key(t) || run.voters[t].contains(v)) && after.acks.contains(
                (v, s, m),
            ) && s < t && 0 < k <= m implies kept(after, log, s, k, t as int) by {
            assert(run.acks.contains((v, s, m)));
            assert(kept(run, log, s, k, t as int));
            lemma_kept_longer(run, after, log, s, k, t as int, t as int);
        }
    }
    assert forall|q: NodeId| #[trigger] has_member(members, q) implies log_sound(after, q) by {
        assert(log_sound(run, q));
    }
    assert forall|q: NodeId, s: Term, m: nat| #[trigger] after.acks.contains((q, s, m)) implies
        has_member(members, q) && ack_sound(after, q, s, m) by {
        assert(run.acks.contains((q, s, m)));
        assert(ack_sound(run, q, s, m));
        assert forall|k: nat|
            #![trigger kept(after, after.logs[q], s, k, after.terms[q] + 1)]
            0 < k <= m implies kept(after, after.logs[q], s, k, after.terms[q] + 1) by {
            assert(kept(run, run.logs[q], s, k, run.terms[q] + 1));
            lemma_kept_longer(
                run,
                after,
                run.logs[q],
                s,
                k,
                run.terms[q] + 1,
                after.terms[q] + 1,
            );
        }
    }
}

/// A node in a term has voted for a candidate whose log ends as given; the first
/// vote of a term counts.
pub open spec fn with_vote(
    run: RunView,
    id: NodeId,
    term: Term,
    candidate: NodeId,
    last_term: Term,
    last_index: nat,
) -> RunView {
    let later = with_term(run, id, term);
    if run.votes.contains_key((term, id)) {
        later
    } else {
        RunView {
            votes: run.votes.insert(
                (term, id),
                VoteRecord { candidate, last_term, last_index, log: run.logs[id] },
            ),
            ..later
        }
    }
}

proof fn lemma_with_vote(
    run: RunView,
    members: Seq<MemberView>,
    id: NodeId,
    term: Term,
    candidate: NodeId,
    last_term: Term,
    last_index: nat,
)
    requires
        run_sound(run, members),
        has_member(members, id),
        term >= run.terms[id],
        last_term > end_term(run.logs[id]) || (last_term == end_term(run.logs[id]) && last_index
            >= run.logs[id].len()),
    ensures
        run_sound(with_vote(run, id, term, candidate, last_term, last_index), members),
        others_shown(run, with_vote(run, id, term, candidate, last_term, last_index), id),
{
    let base = with_term(run, id, term);
    let after = with_vote(run, id, term, candidate, last_term, last_index);
    lemma_with_term(run, members, id, term);
    if !run.votes.contains_key((term, id)) {
        let log = run.logs[id];
        assert forall|t: Term| #[trigger] after.history.contains_key(t) implies leader_sound(after, t)
            && election_sound(after, members, t) by {
            assert(base.history.contains_key(t));
            assert(leader_sound(base, t));
            assert(election_sound(base, members, t));
            assert(elected_log(after, t) == elected_log(base, t));
        }
        assert forall|t: Term, v: NodeId| #[trigger] after.votes.contains_key((t, v)) implies
            vote_sound(after, t, v) by {
            let vote = after.votes[(t, v)];
            if t == term && v == id {
                assert(log_sound(base, id));
                assert(!base.history.contains_key(t) || base.voters[t].contains(v) ==>
                    !base.history.contains_key(t)) by {
                    if base.history.contains_key(t) {
                        assert(election_sound(base, members, t));
                    }
                }
            } else {
                assert(base.votes.contains_key((t, v)));
                assert(vote_sound(base, t, v));
            }
            assert forall|s: Term, m: nat, k: nat|
                #![trigger after.acks.contains((v, s, m)), kept(after, vote.log, s, k, t as int)]
                (!after.history.contains_key(t) || after.voters[t].contains(v))
                    && after.acks.contains((v, s, m)) && s < t && 0 < k <= m implies kept(
                after,
                vote.log,
                s,
                k,
                t as int,
            ) by {
                assert(base.acks.contains((v, s, m)));
                if t == term && v == id {
                    assert(ack_sound(run, v, s, m)) by {
                        assert(run.acks.contains((v, s, m)));
                    }
                    assert(kept(run, run.logs[v], s, k, run.terms[v] + 1));
                    if !holds(log, run.history[s].take(k as int)) {
                        let u = choose|u: Term|
                            #![trigger run.history.contains_key(u)]
                            run.history.contains_key(u) && s < u < run.terms[v] + 1 && !holds(
                                elected_log(run, u),
                                run.history[s].take(k as int),
                            );
                        assert(u != term);
                        assert(after.history.contains_key(u));
                        assert(elected_log(after, u) == elected_log(run, u));
                    }
                } else {
                    assert(kept(base, vote.log, s, k, t as int));
                    lemma_kept_longer(base, after, vote.log, s, k, t as int, t as int);
                }
            }
        }
        assert forall|q: NodeId| #[trigger] has_member(members, q) implies log_sound(after, q) by {
            assert(log_sound(base, q));
        }
        assert forall|q: NodeId, s: Term, m: nat| #[trigger] after.acks.contains((q, s, m)) implies
            has_member(members, q) && ack_sound(after, q, s, m) by {
            assert(base.acks.contains((q, s, m)));
            assert(ack_sound(base, q, s, m));
            assert forall|k: nat|
                #![trigger kept(after, after.logs[q], s, k, after.terms[q] + 1)]
                0 < k <= m implies kept(after, after.logs[q], s, k, after.terms[q] + 1) by {
                assert(kept(base, base.logs[q], s, k, base.terms[q] + 1));
                lemma_kept_longer(
                    base,
                    after,
                    base.logs[q],
                    s,
                    k,
                    base.terms[q] + 1,
                    base.terms[q] + 1,
                );
            }
        }
    }
}

proof fn lemma_shown_end(run: RunView, members: Seq<MemberView>, n: NodeView)
    requires
        run_sound(run, members),
        has_member(members, n.state.id),
        shows(run, n),
    ensures
        last_index_of(n.log) == run.logs[n.state.id].len(),
        last_term_of(n.log) == end_term(run.logs[n.state.id]),
{
    assert(log_sound(run, n.state.id));
    lemma_stands_for(n.log, run.logs[n.state.id], run.history);
}

/// The record after a node has handled a request for its vote.
pub open spec fn after_vote_request(run: RunView, n: NodeView, request: VoteRequest) -> RunView {
    let (after, response) = vote_request_handled(n, request);
    if response.vote_granted {
        with_vote(
            run,
            n.state.id,
            term_of_node(after),
            request.candidate_id,
            request.last_log_term,
            request.last_log_index as nat,
        )
    } else {
        with_term(run, n.state.id, term_of_node(after))
    }
}

/// A request for a vote keeps the record sound. A vote that is granted stands in
/// it, with the candidate that asked.
pub proof fn law_votes_keep_run(
    run: RunView,
    members: Seq<MemberView>,
    n: NodeView,
    request: VoteRequest,
)
    requires
        run_sound(run, members),
        has_member(members, n.state.id),
        shows(run, n),
        !request.is_pre_vote,
    ensures
        ({
            let (node, response) = vote_request_handled(n, request);
            let after = after_vote_request(run, n, request);
            &&& run_sound(after, members)
            &&& shows(after, node)
            &&& others_shown(run, after, n.state.id)
            &&& extends(run, after)
            &&& response.vote_granted ==> after.votes.contains_key((request.term, n.state.id))
                && after.votes[(request.term, n.state.id)].candidate == request.candidate_id
        }),
{
    let id = n.state.id;
    let (node, response) = vote_request_handled(n, request);
    let term = term_of_node(node);
    lemma_shown_end(run, members, n);
    lemma_extends_same(run, after_vote_request(run, n, request));
    if run.votes.contains_key((term, id)) {
        assert(vote_sound(run, term, id));
    }
    if response.vote_granted {
        lemma_with_vote(
            run,
            members,
            id,
            term,
            request.candidate_id,
            request.last_log_term,
            request.last_log_index as nat,
        );
    } else {
        lemma_with_term(run, members, id, term);
    }
}

/// The record after a node has begun an election: it has voted for itself.
pub open spec fn after_candidacy(run: RunView, n: NodeView) -> RunView {
    with_vote(
        run,
        n.state.id,
        (term_of_node(n) + 1) as Term,
        n.state.id,
        end_term(run.logs[n.state.id]),
        run.logs[n.state.id].len(),
    )
}

/// A node that begins an election keeps the record sound; its own vote stands in
/// it.
pub proof fn law_candidacies_keep_run(run: RunView, members: Seq<MemberView>, n: NodeView)
    requires
        run_sound(run, members),
        has_member(members, n.state.id),
        shows(run, n),
        term_of_node(n) < u64::MAX,
    ensures
        run_sound(after_candidacy(run, n), members),
        shows(after_candidacy(run, n), election_started(n)),
        others_shown(run, after_candidacy(run, n), n.state.id),
        extends(run, after_candidacy(run, n)),
        after_candidacy(run, n).votes[((term_of_node(n) + 1) as Term, n.state.id)] == (VoteRecord {
            candidate: n.state.id,
            last_term: end_term(run.logs[n.state.id]),
            last_index: run.logs[n.state.id].len(),
            log: run.logs[n.state.id],
        }),
{
    let id = n.state.id;
    let term = (term_of_node(n) + 1) as Term;
    lemma_extends_same(run, after_candidacy(run, n));
    if run.votes.contains_key((term, id)) {
        assert(vote_sound(run, term, id));
    }
    lemma_with_vote(
        run,
        members,
        id,
        term,
        id,
        end_term(run.logs[id]),
        run.logs[id].len(),
    );
}

/// The leader of a term has one more entry in its log.
pub open spec fn with_entry(run: RunView, id: NodeId, e: EntryView) -> RunView {
    let longer = run.logs[id].push(e);
    RunView {
        history: with_led(run.history, run.logs[id], e),
        logs: run.logs.insert(id, longer),
        acks: run.acks.insert((id, e.term, longer.len())),
        ..run
    }
}

/// A node is elected in its term, by the given voters.
pub open spec fn with_leader(run: RunView, id: NodeId, term: Term, voters: Set<NodeId>) -> RunView {
    RunView {
        starts: run.starts.insert(term, run.logs[id].len()),
        leaders: run.leaders.insert(term, id),
        voters: run.voters.insert(term, voters),
        ..run
    }
}

proof fn lemma_kept_grown(
    run: RunView,
    after: RunView,
    log: Seq<EntryView>,
    longer: Seq<EntryView>,
    s: Term,
    k: nat,
    bound: int,
)
    requires
        extends(run, after),
        forall|t: Term| #[trigger] run.history.contains_key(t) ==> leader_sound(run, t),
        run.history.contains_key(s),
        k <= run.history[s].len(),
        holds(longer, log),
        kept(run, log, s, k, bound),
    ensures
        kept(after, longer, s, k, bound),
{
    let p = run.history[s].take(k as int);
    assert(after.history[s].take(k as int) =~= p) by {
        assert(after.history[s].take(run.history[s].len() as int).take(k as int) =~= p);
        assert(after.history[s].take(run.history[s].len() as int).take(k as int)
            =~= after.history[s].take(k as int));
    }
    if holds(log, p) {
        assert(longer.take(k as int) =~= longer.take(log.len() as int).take(k as int));
    } else {
        let u = choose|u: Term|
            #![trigger run.history.contains_key(u)]
            run.history.contains_key(u) && s < u < bound && !holds(elected_log(run, u), p);
        assert(leader_sound(run, u));
        lemma_elected_grown(run, after, u);
        assert(after.history.contains_key(u));
    }
}

proof fn lemma_elected_grown(run: RunView, after: RunView, u: Term)
    requires
        extends(run, after),
        run.history.contains_key(u),
        leader_sound(run, u),
    ensures
        elected_log(after, u) == elected_log(run, u),
{
    assert(holds(after.history[u], run.history[u]));
    assert(after.history[u].take(run.history[u].len() as int).take(run.starts[u] as int)
        =~= after.history[u].take(run.starts[u] as int));
}

/// One more entry of a leader, which was just elected or led before, keeps the
/// record sound.
#[verifier::rlimit(40)]
proof fn lemma_with_entry(
    run: RunView,
    base: RunView,
    members: Seq<MemberView>,
    id: NodeId,
    e: EntryView,
)
    requires
        run_sound(run, members),
        has_member(members, id),
        run.terms[id] == e.term,
        e.term > 0,
        e.index == run.logs[id].len() + 1,
        run.history.contains_key(e.term) ==> base == run && run.leaders[e.term] == id,
        !run.history.contains_key(e.term) ==> exists|voters: Set<NodeId>|
            base == #[trigger] with_leader(run, id, e.term, voters) && majority(members, voters)
                && forall|v: NodeId| #[trigger]
                voters.contains(v) ==> run.votes.contains_key((e.term, v))
                    && run.votes[(e.term, v)].candidate == id && run.votes[(e.term, v)].last_term
                    == end_term(run.logs[id]) && run.votes[(e.term, v)].last_index
                    == run.logs[id].len(),
    ensures
        run_sound(with_entry(base, id, e), members),
        extends(run, with_entry(base, id, e)),
{
    let after = with_entry(base, id, e);
    let log = run.logs[id];
    let longer = log.push(e);
    let t0 = e.term;
    assert(log_sound(run, id));
    if run.history.contains_key(t0) {
        assert(leader_sound(run, t0));
    }
    lemma_with_led(run.history, log, e);
    lemma_traced_rises(run, members, log);
    assert(longer.take(log.len() as int) =~= log);
    assert(extends(run, after)) by {
        assert forall|t: Term| #[trigger] run.history.contains_key(t) implies {
            &&& after.history.contains_key(t)
            &&& after.starts[t] == run.starts[t]
            &&& holds(after.history[t], run.history[t])
        } by {
            if t != t0 {
                assert(after.history[t].take(run.history[t].len() as int) =~= run.history[t]);
            }
        }
    }
    assert forall|t: Term| #[trigger] after.history.contains_key(t) implies leader_sound(after, t)
        && election_sound(after, members, t) by {
        if t == t0 {
            if run.history.contains_key(t0) {
                assert(election_sound(run, members, t0));
                lemma_elected_grown(run, after, t0);
            } else {
                let voters = choose|voters: Set<NodeId>|
                    base == #[trigger] with_leader(run, id, e.term, voters) && majority(
                        members,
                        voters,
                    ) && forall|v: NodeId| #[trigger]
                        voters.contains(v) ==> run.votes.contains_key((e.term, v))
                            && run.votes[(e.term, v)].candidate == id
                            && run.votes[(e.term, v)].last_term == end_term(run.logs[id])
                            && run.votes[(e.term, v)].last_index == run.logs[id].len();
                assert(elected_log(after, t0) =~= log);
                assert forall|i: int| 0 <= i < log.len() implies (#[trigger] log[i]).term < t0 by {
                    assert(run.history.contains_key(log[i].term));
                }
            }
        } else {
            assert(run.history.contains_key(t));
            assert(leader_sound(run, t));
            assert(election_sound(run, members, t));
            lemma_elected_grown(run, after, t);
        }
    }
    assert forall|t: Term, v: NodeId| #[trigger] after.votes.contains_key((t, v)) implies vote_sound(
        after,
        t,
        v,
    ) by {
        assert(run.votes.contains_key((t, v)));
        assert(vote_sound(run, t, v));
        let vote = run.votes[(t, v)].log;
        assert(holds(vote, vote)) by {
            assert(vote.take(vote.len() as int) =~= vote);
        }
        assert forall|s: Term, m: nat, k: nat|
            #![trigger after.acks.contains((v, s, m)), kept(after, vote, s, k, t as int)]
            (!after.history.contains_key(t) || after.voters[t].contains(v)) && after.acks.contains(
                (v, s, m),
            ) && s < t && 0 < k <= m implies kept(after, vote, s, k, t as int) by {
            assert(run.acks.contains((v, s, m)));
            assert(ack_sound(run, v, s, m));
            assert(kept(run, vote, s, k, t as int));
            lemma_kept_grown(run, after, vote, vote, s, k, t as int);
        }
    }
    assert forall|q: NodeId| #[trigger] has_member(members, q) implies log_sound(after, q) by {
        assert(log_sound(run, q));
    }
    assert forall|q: NodeId, s: Term, m: nat| #[trigger] after.acks.contains((q, s, m)) implies
        has_member(members, q) && ack_sound(after, q, s, m) by {
        if q == id && s == t0 && m == longer.len() {
            assert forall|k: nat|
                #![trigger kept(after, after.logs[q], s, k, after.terms[q] + 1)]
                0 < k <= m implies kept(after, after.logs[q], s, k, after.terms[q] + 1) by {
                assert(holds(longer, longer.take(k as int)));
            }
        } else {
            assert(run.acks.contains((q, s, m)));
            assert(ack_sound(run, q, s, m));
            assert(holds(after.logs[q], run.logs[q])) by {
                if q != id {
                    assert(run.logs[q].take(run.logs[q].len() as int) =~= run.logs[q]);
                }
            }
            assert(holds(after.history[s], run.history[s]));
            assert forall|k: nat|
                #![trigger kept(after, after.logs[q], s, k, after.terms[q] + 1)]
                0 < k <= m implies kept(after, after.logs[q], s, k, after.terms[q] + 1) by {
                assert(kept(run, run.logs[q], s, k, run.terms[q] + 1));
                lemma_kept_grown(
                    run,
                    after,
                    run.logs[q],
                    after.logs[q],
                    s,
                    k,
                    run.terms[q] + 1,
                );
            }
        }
    }
}

/// What a leader knows of its peers was acknowledged.
pub open spec fn progress_known(run: RunView, n: NodeView) -> bool {
    n.leader matches Some(l) ==> forall|p: NodeId|
        #[trigger] l.match_index.contains_key(p) && l.match_index[p] > 0 ==> run.acks.contains(
            (p, term_of_node(n), l.match_index[p] as nat),
        )
}

/// The votes of a term that were given to a node, for the log that it has.
pub open spec fn elected_by(run: RunView, id: NodeId, term: Term, voters: Set<NodeId>) -> bool {
    forall|v: NodeId| #[trigger]
        voters.contains(v) ==> {
            &&& run.votes.contains_key((term, v))
            &&& run.votes[(term, v)].candidate == id
            &&& run.votes[(term, v)].last_term == end_term(run.logs[id])
            &&& run.votes[(term, v)].last_index == run.logs[id].len()
        }
}

/// The record after a node was elected and has appended its first entry.
pub open spec fn after_election(run: RunView, n: NodeView, voters: Set<NodeId>) -> RunView {
    with_entry(
        with_leader(run, n.state.id, term_of_node(n), voters),
        n.state.id,
        next_entry(n, Seq::empty(), EntryType::Noop),
    )
}

/// A node that a majority has elected is the only leader of its term, and keeps
/// the record sound.
pub proof fn law_elections_keep_run(
    run: RunView,
    members: Seq<MemberView>,
    n: NodeView,
    voters: Set<NodeId>,
)
    requires
        run_sound(run, members),
        has_member(members, n.state.id),
        shows(run, n),
        term_of_node(n) > 0,
        n.log.snapshot_index + n.log.entries.len() + 1 < u64::MAX,
        majority(members, voters),
        elected_by(run, n.state.id, term_of_node(n), voters),
        run.history.contains_key(term_of_node(n)) ==> run.leaders[term_of_node(n)] != n.state.id,
    ensures
        !run.history.contains_key(term_of_node(n)),
        run_sound(after_election(run, n, voters), members),
        shows(after_election(run, n, voters), became_leader(n)),
        others_shown(run, after_election(run, n, voters), n.state.id),
        extends(run, after_election(run, n, voters)),
        after_election(run, n, voters).history.contains_key(term_of_node(n)),
        after_election(run, n, voters).leaders[term_of_node(n)] == n.state.id,
        progress_known(after_election(run, n, voters), became_leader(n)),
{
    let id = n.state.id;
    let term = term_of_node(n);
    if run.history.contains_key(term) {
        assert(election_sound(run, members, term));
        let v = law_majorities_intersect(members, voters, run.voters[term]);
        assert(voters.contains(v) && run.voters[term].contains(v));
    }
    lemma_shown_end(run, members, n);
    assert(log_sound(run, id));
    let e = next_entry(n, Seq::empty(), EntryType::Noop);
    let base = with_leader(run, id, term, voters);
    lemma_with_entry(run, base, members, id, e);
    law_elections_keep_matching(run.history, n, run.logs[id]);
    lemma_stands_for(
        became_leader(n).log,
        run.logs[id].push(e),
        after_election(run, n, voters).history,
    );
}

/// A leader that proposes keeps the record sound.
pub proof fn law_proposals_keep_run(
    run: RunView,
    members: Seq<MemberView>,
    n: NodeView,
    data: Seq<u8>,
    entry_type: EntryType,
)
    requires
        run_sound(run, members),
        has_member(members, n.state.id),
        shows(run, n),
        n.log.snapshot_index + n.log.entries.len() + 1 < u64::MAX,
        run.history.contains_key(term_of_node(n)),
        run.leaders[term_of_node(n)] == n.state.id,
        progress_known(run, n),
    ensures
        ({
            let after = with_entry(run, n.state.id, next_entry(n, data, entry_type));
            let node = proposed(n, data, entry_type);
            &&& run_sound(after, members)
            &&& shows(after, node)
            &&& others_shown(run, after, n.state.id)
            &&& extends(run, after)
            &&& progress_known(after, node)
        }),
{
    let id = n.state.id;
    let term = term_of_node(n);
    lemma_shown_end(run, members, n);
    assert(log_sound(run, id));
    assert(leader_sound(run, term));
    let e = next_entry(n, data, entry_type);
    lemma_with_entry(run, run, members, id, e);
    law_proposals_keep_matching(run.history, n, run.logs[id], data, entry_type);
    lemma_stands_for(
        proposed(n, data, entry_type).log,
        run.logs[id].push(e),
        with_entry(run, id, e).history,
    );
}

/// A request to append as the leader of its term sends it: its last entry, or
/// the one before where it carries none, is of that term.
pub open spec fn complete(run: RunView, r: AppendView) -> bool {
    let log = run.history[r.term];
    let end = r.prev_log_index + r.entries.len();
    &&& run.history.contains_key(r.term)
    &&& 0 < end < u64::MAX
    &&& drawn(run.history, r)
    &&& r.entries.len() > 0 ==> log[end - 1].term == r.term
    &&& r.entries.len() == 0 ==> r.prev_log_term == 0 || (r.prev_log_term == r.term && end
        <= log.len() && log[end - 1].term == r.term)
}

/// A request that was sent stays one of its leader.
pub proof fn law_requests_stay_complete(run: RunView, after: RunView, r: AppendView)
    requires
        extends(run, after),
        complete(run, r),
    ensures
        complete(after, r),
{
    let log = run.history[r.term];
    let longer = after.history[r.term];
    let end = r.prev_log_index + r.entries.len();
    assert forall|i: int| 0 <= i < log.len() implies #[trigger] longer[i] == log[i] by {
        assert(longer.take(log.len() as int)[i] == log[i]);
    }
    if r.entries.len() > 0 {
        assert(longer.subrange(r.prev_log_index as int, end) =~= log.subrange(
            r.prev_log_index as int,
            end,
        ));
    }
}

/// A leader's request to a peer that needs no snapshot is complete.
pub proof fn law_requests_are_complete(
    run: RunView,
    members: Seq<MemberView>,
    n: NodeView,
    l: LeaderView,
    peer: NodeId,
)
    requires
        run_sound(run, members),
        has_member(members, n.state.id),
        shows(run, n),
        run.history.contains_key(term_of_node(n)),
        run.leaders[term_of_node(n)] == n.state.id,
        n.log.snapshot_index <= append_request_for(n, l, peer).prev_log_index,
        l.next_index.contains_key(peer) ==> 0 < l.next_index[peer] < u64::MAX,
    ensures
        complete(run, append_request_for(n, l, peer)),
{
    let term = term_of_node(n);
    let full = run.logs[n.state.id];
    let r = append_request_for(n, l, peer);
    assert(leader_sound(run, term));
    assert(log_sound(run, n.state.id));
    lemma_stands_for(n.log, full, run.history);
    law_requests_are_drawn(run.history, n, full, l, peer);
    let last = full.len() - 1;
    assert(full[last].term == term);
    if r.entries.len() > 0 {
        assert(r.prev_log_index + r.entries.len() == full.len());
    } else {
        assert(r.prev_log_index >= full.len());
    }
}

/// All requests that a leader sends are complete: the peers that need its
/// snapshot are left out.
pub proof fn law_sent_requests_are_complete(
    run: RunView,
    members: Seq<MemberView>,
    n: NodeView,
    i: int,
)
    requires
        run_sound(run, members),
        has_member(members, n.state.id),
        shows(run, n),
        run.history.contains_key(term_of_node(n)),
        run.leaders[term_of_node(n)] == n.state.id,
        0 <= i < append_requests_of(n).len(),
        forall|p: NodeId| #[trigger] (n.leader->0).next_index.contains_key(p) ==> 0 < (
        n.leader->0).next_index[p] < u64::MAX,
    ensures
        complete(run, append_requests_of(n)[i].1),
{
    let l = n.leader->0;
    let to = peers_where(n, false);
    lemma_filter_contains(n.peers, |p: NodeId| needs_snapshot(n, l, p) == false);
    assert(to.contains(to[i]));
    law_requests_are_complete(run, members, n, l, to[i]);
}

/// That a peer has taken up the leader's snapshot changes nothing in the record.
pub proof fn law_taken_snapshots_keep_run(run: RunView, n: NodeView, peer: NodeId, index: LogIndex)
    requires
        shows(run, n),
        progress_known(run, n),
    ensures
        shows(run, snapshot_taken(n, peer, index)),
        progress_known(run, snapshot_taken(n, peer, index)),
{
}

/// A node in a term has a log, and may have acknowledged it to the leader of the
/// term.
pub open spec fn with_log(
    run: RunView,
    id: NodeId,
    log: Seq<EntryView>,
    term: Term,
    acked: bool,
) -> RunView {
    RunView {
        logs: run.logs.insert(id, log),
        terms: run.terms.insert(id, term),
        acks: if acked {
            run.acks.insert((id, term, log.len()))
        } else {
            run.acks
        },
        ..run
    }
}

#[verifier::rlimit(40)]
proof fn lemma_with_log(
    run: RunView,
    members: Seq<MemberView>,
    id: NodeId,
    log: Seq<EntryView>,
    term: Term,
    acked: bool,
)
    requires
        run_sound(run, members),
        has_member(members, id),
        term >= run.terms[id],
        traced(run.history, log),
        acked || log != run.logs[id] ==> {
            &&& run.history.contains_key(term)
            &&& run.leaders[term] != id
            &&& holds(run.history[term], log)
            &&& forall|k: int|
                0 <= k <= run.history[term].len() && #[trigger] holds(
                    run.logs[id],
                    run.history[term].take(k),
                ) ==> holds(log, run.history[term].take(k))
        },
    ensures
        run_sound(with_log(run, id, log, term, acked), members),
        others_shown(run, with_log(run, id, log, term, acked), id),
        extends(run, with_log(run, id, log, term, acked)),
{
    let h = run.history;
    let full = run.logs[id];
    let led = h[term];
    let after = with_log(run, id, log, term, acked);
    assert(log_sound(run, id));
    lemma_extends_same(run, after);
    if h.contains_key(term) {
        assert(leader_sound(run, term));
    }
    assert forall|t: Term| #[trigger] after.history.contains_key(t) implies leader_sound(after, t)
        && election_sound(after, members, t) by {
        assert(run.history.contains_key(t));
        assert(leader_sound(run, t));
        assert(election_sound(run, members, t));
        assert(elected_log(after, t) == elected_log(run, t));
    }
    assert forall|t: Term, v: NodeId| #[trigger] after.votes.contains_key((t, v)) implies vote_sound(
        after,
        t,
        v,
    ) by {
        assert(run.votes.contains_key((t, v)));
        assert(vote_sound(run, t, v));
        let vote = run.votes[(t, v)].log;
        assert forall|u: Term, m: nat, k: nat|
            #![trigger after.acks.contains((v, u, m)), kept(after, vote, u, k, t as int)]
            (!after.history.contains_key(t) || after.voters[t].contains(v)) && after.acks.contains(
                (v, u, m),
            ) && u < t && 0 < k <= m implies kept(after, vote, u, k, t as int) by {
            assert(run.acks.contains((v, u, m)));
            assert(kept(run, vote, u, k, t as int));
            lemma_kept_longer(run, after, vote, u, k, t as int, t as int);
        }
    }
    assert forall|q: NodeId| #[trigger] has_member(members, q) implies log_sound(after, q) by {
        assert(log_sound(run, q));
        if q == id && log != full {
            assert forall|i: int| 0 <= i < log.len() implies (#[trigger] log[i]).term <= term by {
                assert(led.take(log.len() as int)[i] == led[i]);
            }
        }
    }
    assert forall|q: NodeId, u: Term, m: nat| #[trigger] after.acks.contains((q, u, m)) implies
        has_member(members, q) && ack_sound(after, q, u, m) by {
        if run.acks.contains((q, u, m)) {
            assert(ack_sound(run, q, u, m));
            assert forall|k: nat|
                #![trigger kept(after, after.logs[q], u, k, after.terms[q] + 1)]
                0 < k <= m implies kept(after, after.logs[q], u, k, after.terms[q] + 1) by {
                assert(kept(run, run.logs[q], u, k, run.terms[q] + 1));
                let p = h[u].take(k as int);
                if q != id || log == full || !holds(full, p) {
                    lemma_kept_longer(
                        run,
                        after,
                        run.logs[q],
                        u,
                        k,
                        run.terms[q] + 1,
                        after.terms[q] + 1,
                    );
                } else if u == term {
                    assert(holds(full, led.take(k as int)));
                } else if holds(elected_log(run, term), p) {
                    assert(led.take(k as int) =~= elected_log(run, term).take(k as int));
                    assert(holds(full, led.take(k as int)));
                } else {
                    assert(after.history.contains_key(term));
                    assert(elected_log(after, term) == elected_log(run, term));
                }
            }
        } else {
            assert forall|k: nat|
                #![trigger kept(after, after.logs[q], u, k, after.terms[q] + 1)]
                0 < k <= m implies kept(after, after.logs[q], u, k, after.terms[q] + 1) by {
                assert(log.take(k as int) =~= led.take(log.len() as int).take(k as int));
                assert(led.take(log.len() as int).take(k as int) =~= led.take(k as int));
            }
        }
    }
}

/// The log of a node that accepts a complete request is the beginning of the
/// leader's, and what is acknowledged is its length.
#[verifier::rlimit(60)]
#[verifier::spinoff_prover]
proof fn lemma_append_log(run: RunView, members: Seq<MemberView>, n: NodeView, r: AppendView) -> (log:
    Seq<EntryView>)
    requires
        run_sound(run, members),
        has_member(members, n.state.id),
        shows(run, n),
        complete(run, r),
        n.log.snapshot_index <= r.prev_log_index || r.prev_log_index > 0,
    ensures
        log == run.logs[n.state.id].take(n.log.snapshot_index as int) + append_handled(
            n,
            r,
        ).0.log.entries,
        stands_for(append_handled(n, r).0.log, log),
        traced(run.history, log),
        append_handled(n, r).1.success ==> holds(run.history[r.term], log),
        append_handled(n, r).1.success ==> append_handled(n, r).1.match_index == log.len(),
        !append_handled(n, r).1.success ==> log == run.logs[n.state.id],
        forall|k: int|
            0 <= k <= run.history[r.term].len() && #[trigger] holds(
                run.logs[n.state.id],
                run.history[r.term].take(k),
            ) ==> holds(log, run.history[r.term].take(k)),
{
    let id = n.state.id;
    let h = run.history;
    let full = run.logs[id];
    let led = h[r.term];
    let (node, response) = append_handled(n, r);
    let s = n.log.snapshot_index as int;
    assert(log_sound(run, id));
    lemma_stands_for(n.log, full, h);
    if n.log.snapshot_index > r.prev_log_index {
        assert(term_of(n.log, r.prev_log_index) is None);
        assert(full =~= full.take(s) + full.skip(s));
        return full;
    }
    let log = law_append_keeps_matching(h, n, full, r);
    assert(node.log.snapshot_index == s) by {
        if response.success {
            lemma_snapshot_stays(n.log, r.entries);
        }
    }
    assert(log =~= log.take(s) + log.skip(s));
    lemma_stands_for(node.log, log, h);
    lemma_traced_rises(run, members, full);
    if response.success && log == full {
        let end = r.prev_log_index + r.entries.len();
        if r.entries.len() == 0 {
            assert(full[end - 1].term == r.prev_log_term);
        } else {
            assert(full.take(end)[end - 1] == led.take(end)[end - 1]);
        }
        assert(full[end - 1].term == r.term);
        assert(full[full.len() - 1].term <= run.terms[id]);
        assert(full[end - 1].term <= full[full.len() - 1].term);
        assert(end_term(full) == r.term);
    }
    log
}

/// The record after a node has handled a request to append.
pub open spec fn after_append(run: RunView, n: NodeView, r: AppendView) -> RunView {
    let (node, response) = append_handled(n, r);
    with_log(
        run,
        n.state.id,
        run.logs[n.state.id].take(n.log.snapshot_index as int) + node.log.entries,
        term_of_node(node),
        response.success,
    )
}

/// A request to append keeps the record sound. The log of a node that accepts it
/// is the beginning of the leader's, and the answer acknowledges all of it. One
/// that starts inside the snapshot of the node is refused.
pub proof fn law_appends_keep_run(
    run: RunView,
    members: Seq<MemberView>,
    n: NodeView,
    r: AppendView,
)
    requires
        run_sound(run, members),
        has_member(members, n.state.id),
        shows(run, n),
        complete(run, r),
        run.leaders[r.term] != n.state.id,
        n.log.snapshot_index <= r.prev_log_index || r.prev_log_index > 0,
    ensures
        ({
            let (node, response) = append_handled(n, r);
            let after = after_append(run, n, r);
            &&& run_sound(after, members)
            &&& shows(after, node)
            &&& others_shown(run, after, n.state.id)
            &&& extends(run, after)
            &&& response.success ==> holds(run.history[r.term], after.logs[n.state.id])
            &&& response.success ==> after.acks.contains(
                (n.state.id, r.term, response.match_index as nat),
            )
        }),
{
    let id = n.state.id;
    let (node, response) = append_handled(n, r);
    let log = lemma_append_log(run, members, n, r);
    lemma_with_log(run, members, id, log, term_of_node(node), response.success);
    let term = term_of_node(node);
    if run.votes.contains_key((term, id)) {
        assert(vote_sound(run, term, id));
    }
}

proof fn lemma_snapshot_stays(l: LogView, es: Seq<EntryView>)
    ensures
        resolved(l, es).0.snapshot_index == l.snapshot_index,
        resolved(l, es).0.snapshot_term == l.snapshot_term,
    decreases es.len(),
{
    if es.len() > 0 {
        lemma_snapshot_stays(l, es.drop_last());
    }
}

/// A node that learns of a newer term keeps the record sound.
pub proof fn law_newer_terms_keep_run(
    run: RunView,
    members: Seq<MemberView>,
    n: NodeView,
    term: Term,
)
    requires
        run_sound(run, members),
        has_member(members, n.state.id),
        shows(run, n),
        term > term_of_node(n),
    ensures
        run_sound(with_term(run, n.state.id, term), members),
        shows(with_term(run, n.state.id, term), stepped_down(n, term)),
        others_shown(run, with_term(run, n.state.id, term), n.state.id),
        extends(run, with_term(run, n.state.id, term)),
{
    lemma_with_term(run, members, n.state.id, term);
    lemma_extends_same(run, with_term(run, n.state.id, term));
    if run.votes.contains_key((term, n.state.id)) {
        assert(vote_sound(run, term, n.state.id));
    }
}

/// The record after a node has handled a snapshot of the leader of a term.
pub open spec fn after_snapshot(
    run: RunView,
    n: NodeView,
    leader_term: Term,
    leader_id: NodeId,
    metadata: SnapshotMetadata,
    stored: bool,
) -> RunView {
    let id = n.state.id;
    let node = snapshot_installed(n, leader_term, leader_id, metadata, stored);
    let log = run.logs[id];
    let index = metadata.last_included_index as int;
    with_log(
        run,
        id,
        if node.log.snapshot_index == n.log.snapshot_index || index <= log.len() {
            log
        } else {
            run.history[leader_term].take(index)
        },
        term_of_node(node),
        false,
    )
}

/// A snapshot of a leader's log keeps the record sound where it reaches beyond
/// the log of the node, or meets it in an entry of the same term.
pub proof fn law_snapshots_keep_run(
    run: RunView,
    members: Seq<MemberView>,
    n: NodeView,
    leader_term: Term,
    leader_id: NodeId,
    metadata: SnapshotMetadata,
    stored: bool,
)
    requires
        run_sound(run, members),
        has_member(members, n.state.id),
        shows(run, n),
        run.history.contains_key(leader_term),
        run.leaders[leader_term] != n.state.id,
        0 < metadata.last_included_index <= run.history[leader_term].len(),
        metadata.last_included_index < u64::MAX,
        metadata.last_included_term == run.history[leader_term][metadata.last_included_index
            - 1].term,
        metadata.last_included_index <= run.logs[n.state.id].len() ==> run.logs[n.state.id][
            metadata.last_included_index - 1
        ].term == metadata.last_included_term,
    ensures
        ({
            let after = after_snapshot(run, n, leader_term, leader_id, metadata, stored);
            &&& run_sound(after, members)
            &&& shows(after, snapshot_installed(n, leader_term, leader_id, metadata, stored))
            &&& others_shown(run, after, n.state.id)
            &&& extends(run, after)
        }),
{
    let id = n.state.id;
    let h = run.history;
    let led = h[leader_term];
    let full = run.logs[id];
    let index = metadata.last_included_index as int;
    let node = snapshot_installed(n, leader_term, leader_id, metadata, stored);
    let term = term_of_node(node);
    let after = after_snapshot(run, n, leader_term, leader_id, metadata, stored);
    let log = after.logs[id];
    assert(log_sound(run, id));
    assert(leader_sound(run, leader_term));
    lemma_stands_for(n.log, full, h);
    if log != full {
        assert(traced(h, log)) by {
            assert forall|i: int| 0 <= i < log.len() implies traced_at(h, log, i) by {
                assert(traced_at(h, led, i));
                assert(log.take(i + 1) =~= led.take(i + 1));
            }
        }
        assert forall|k: int|
            0 <= k <= led.len() && #[trigger] holds(full, led.take(k)) implies holds(
            log,
            led.take(k),
        ) by {
            assert(log.take(k) =~= led.take(k));
        }
        assert(led.take(log.len() as int) =~= log);
    }
    lemma_with_log(run, members, id, log, term, false);
    if node.log.snapshot_index != n.log.snapshot_index {
        assert(node.log.entries =~= log.skip(index));
    }
    if run.votes.contains_key((term, id)) {
        assert(vote_sound(run, term, id));
    }
}

/// A snapshot that a node takes of its own log changes nothing in the record.
pub proof fn law_own_snapshots_keep_run(run: RunView, n: NodeView, index: LogIndex)
    requires
        shows(run, n),
        n.log.snapshot_index < index <= run.logs[n.state.id].len(),
    ensures
        shows(
            run,
            NodeView {
                log: compacted(n.log, index, run.logs[n.state.id][index - 1].term),
                ..n
            },
        ),
{
    law_compaction_keeps_matching(n.log, run.logs[n.state.id], index);
}

/// The votes that win an election are a majority of the members and, during a
/// membership change, of the new members too.
pub proof fn law_won_elections_are_majorities(n: NodeView)
    requires
        election_decided(n),
    ensures
        majority(n.membership.current, (n.election->0).votes),
        n.membership.pending matches Some(p) ==> majority(p, (n.election->0).votes),
{
}

/// What a leader knows of its peers stays known after an answer that was
/// acknowledged.
pub proof fn law_answers_keep_progress(
    run: RunView,
    n: NodeView,
    from: NodeId,
    response: AppendResponse,
)
    requires
        n.leader is Some,
        progress_known(run, n),
        response.success ==> run.acks.contains(
            (from, term_of_node(n), response.match_index as nat),
        ),
    ensures
        progress_known(
            run,
            NodeView { leader: Some(progress_noted(n.leader->0, from, response)), ..n },
        ),
{
}

/// What a leader may commit is committed: a majority has acknowledged it.
pub proof fn law_leaders_commit_committed(
    run: RunView,
    members: Seq<MemberView>,
    n: NodeView,
    index: LogIndex,
)
    requires
        run_sound(run, members),
        has_member(members, n.state.id),
        shows(run, n),
        run.history.contains_key(term_of_node(n)),
        run.leaders[term_of_node(n)] == n.state.id,
        n.membership.current == members,
        n.leader is Some,
        progress_known(run, n),
        committable(n, n.leader->0, index),
    ensures
        committed(run, members, term_of_node(n), index as nat),
{
    let term = term_of_node(n);
    let l = n.leader->0;
    assert(leader_sound(run, term));
    assert(log_sound(run, n.state.id));
    lemma_stands_for(n.log, run.logs[n.state.id], run.history);
    let q = holders(l, index);
    assert forall|id: NodeId| #[trigger] q.contains(id) implies exists|m: nat|
        m >= index && #[trigger] run.acks.contains((id, term, m)) by {
        assert(run.acks.contains((id, term, l.match_index[id] as nat)));
    }
    assert(acknowledged(run, members, term, index as nat, q));
}

/// What is committed stays committed.
pub proof fn law_committed_stays(
    run: RunView,
    after: RunView,
    members: Seq<MemberView>,
    t: Term,
    k: nat,
)
    requires
        extends(run, after),
        committed(run, members, t, k),
    ensures
        committed(after, members, t, k),
        after.history[t].take(k as int) == run.history[t].take(k as int),
{
    let q = choose|q: Set<NodeId>| #[trigger] acknowledged(run, members, t, k, q);
    let len = run.history[t].len() as int;
    assert(after.history[t].take(len).take(k as int) =~= after.history[t].take(k as int));
    assert(after.history[t].take(len)[k - 1] == after.history[t][k - 1]);
    assert forall|id: NodeId| #[trigger] q.contains(id) implies exists|m: nat|
        m >= k && #[trigger] after.acks.contains((id, t, m)) by {
        let m = choose|m: nat| m >= k && #[trigger] run.acks.contains((id, t, m));
        assert(after.acks.contains((id, t, m)));
    }
    assert(acknowledged(after, members, t, k, q));
}

/// The first entries of a log were committed by a leader of the term or an
/// earlier one.
pub open spec fn settled(
    run: RunView,
    members: Seq<MemberView>,
    log: Seq<EntryView>,
    count: nat,
    term: Term,
) -> bool {
    count == 0 || exists|t: Term, k: nat|
        {
            &&& #[trigger] committed(run, members, t, k)
            &&& t <= term
            &&& count <= k
            &&& holds(log, run.history[t].take(count as int))
        }
}

/// No two nodes ever have different entries at a place up to which both have
/// committed.
pub proof fn law_settled_entries_agree(
    run: RunView,
    members: Seq<MemberView>,
    a: Seq<EntryView>,
    count_a: nat,
    term_a: Term,
    b: Seq<EntryView>,
    count_b: nat,
    term_b: Term,
    i: int,
)
    requires
        run_sound(run, members),
        settled(run, members, a, count_a, term_a),
        settled(run, members, b, count_b, term_b),
        0 <= i < count_a,
        i < count_b,
    ensures
        a[i] == b[i],
{
    let (t, k) = choose|t: Term, k: nat|
        {
            &&& #[trigger] committed(run, members, t, k)
            &&& t <= term_a
            &&& count_a <= k
            &&& holds(a, run.history[t].take(count_a as int))
        };
    let (u, m) = choose|u: Term, m: nat|
        {
            &&& #[trigger] committed(run, members, u, m)
            &&& u <= term_b
            &&& count_b <= m
            &&& holds(b, run.history[u].take(count_b as int))
        };
    law_committed_entries_agree(run, members, t, k, u, m, i);
    assert(a.take(count_a as int)[i] == run.history[t].take(count_a as int)[i]);
    assert(b.take(count_b as int)[i] == run.history[u].take(count_b as int)[i]);
}

/// What a log has settled stays settled as the run goes on.
pub proof fn law_settled_stays(
    run: RunView,
    after: RunView,
    members: Seq<MemberView>,
    log: Seq<EntryView>,
    count: nat,
    term: Term,
    later: Term,
)
    requires
        run_sound(run, members),
        extends(run, after),
        settled(run, members, log, count, term),
        term <= later,
    ensures
        settled(after, members, log, count, later),
{
    lemma_still_settled(run, after, members, log, log, count, term, later);
}

/// A leader that commits has settled its log up to the commit index.
pub proof fn law_leaders_settle(
    run: RunView,
    members: Seq<MemberView>,
    n: NodeView,
    index: LogIndex,
)
    requires
        run_sound(run, members),
        has_member(members, n.state.id),
        shows(run, n),
        run.history.contains_key(term_of_node(n)),
        run.leaders[term_of_node(n)] == n.state.id,
        n.membership.current == members,
        n.leader is Some,
        progress_known(run, n),
        committable(n, n.leader->0, index),
    ensures
        settled(run, members, run.logs[n.state.id], index as nat, term_of_node(n)),
{
    law_leaders_commit_committed(run, members, n, index);
    assert(leader_sound(run, term_of_node(n)));
}

proof fn lemma_still_settled(
    run: RunView,
    after: RunView,
    members: Seq<MemberView>,
    full: Seq<EntryView>,
    log: Seq<EntryView>,
    count: nat,
    term: Term,
    later: Term,
)
    requires
        run_sound(run, members),
        extends(run, after),
        settled(run, members, full, count, term),
        term <= later,
        log != full ==> run.history.contains_key(later) && forall|k: int|
            0 <= k <= run.history[later].len() && #[trigger] holds(
                full,
                run.history[later].take(k),
            ) ==> holds(log, run.history[later].take(k)),
    ensures
        settled(after, members, log, count, later),
{
    if count > 0 {
        let h = run.history;
        let c = count as int;
        let (t, k) = choose|t: Term, k: nat|
            {
                &&& #[trigger] committed(run, members, t, k)
                &&& t <= term
                &&& count <= k
                &&& holds(full, h[t].take(c))
            };
        law_committed_stays(run, after, members, t, k);
        assert(h[t].take(k as int).take(c) =~= h[t].take(c));
        assert(after.history[t].take(k as int).take(c) =~= after.history[t].take(c));
        if log != full {
            if t < later {
                law_later_leaders_have_committed(run, members, t, k, later);
                assert(h[later].take(k as int).take(c) =~= h[later].take(c));
            }
            assert(holds(full, h[later].take(c)));
        }
    }
}

proof fn lemma_newly_settled(
    run: RunView,
    after: RunView,
    members: Seq<MemberView>,
    led: Seq<EntryView>,
    log: Seq<EntryView>,
    count: nat,
    fewer: nat,
    term: Term,
)
    requires
        extends(run, after),
        settled(run, members, led, count, term),
        holds(led, log),
        fewer <= count,
        fewer <= log.len(),
    ensures
        settled(after, members, log, fewer, term),
{
    if fewer > 0 {
        let h = run.history;
        let (t, k) = choose|t: Term, k: nat|
            {
                &&& #[trigger] committed(run, members, t, k)
                &&& t <= term
                &&& count <= k
                &&& holds(led, h[t].take(count as int))
            };
        law_committed_stays(run, after, members, t, k);
        let c = fewer as int;
        assert(led.take(log.len() as int).take(c) =~= led.take(c));
        assert(led.take(count as int).take(c) =~= led.take(c));
        assert(h[t].take(count as int).take(c) =~= h[t].take(c));
        assert(h[t].take(k as int).take(c) =~= h[t].take(c));
        assert(after.history[t].take(k as int).take(c) =~= after.history[t].take(c));
    }
}

/// A node that follows a leader has settled its log up to its commit index, where
/// it had before and the leader has.
pub proof fn law_followers_settle(
    run: RunView,
    members: Seq<MemberView>,
    n: NodeView,
    r: AppendView,
)
    requires
        run_sound(run, members),
        has_member(members, n.state.id),
        shows(run, n),
        complete(run, r),
        run.leaders[r.term] != n.state.id,
        n.log.snapshot_index <= r.prev_log_index || r.prev_log_index > 0,
        settled(
            run,
            members,
            run.logs[n.state.id],
            n.state.commit_index as nat,
            term_of_node(n),
        ),
        settled(run, members, run.history[r.term], r.leader_commit as nat, r.term),
    ensures
        ({
            let node = append_handled(n, r).0;
            let after = after_append(run, n, r);
            settled(
                after,
                members,
                after.logs[n.state.id],
                node.state.commit_index as nat,
                term_of_node(node),
            )
        }),
{
    let id = n.state.id;
    let led = run.history[r.term];
    let full = run.logs[id];
    let (node, response) = append_handled(n, r);
    let after = after_append(run, n, r);
    let commit = node.state.commit_index;
    law_appends_keep_run(run, members, n, r);
    let log = lemma_append_log(run, members, n, r);
    lemma_stands_for(node.log, log, run.history);
    if commit == n.state.commit_index {
        lemma_still_settled(
            run,
            after,
            members,
            full,
            log,
            commit as nat,
            term_of_node(n),
            term_of_node(node),
        );
    } else {
        lemma_newly_settled(
            run,
            after,
            members,
            led,
            log,
            r.leader_commit as nat,
            commit as nat,
            r.term,
        );
    }
}

} // verus!
