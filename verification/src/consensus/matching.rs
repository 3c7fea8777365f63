//! Logs of a cluster that agree wherever they share an entry.
//!
//! The leader of a term only ever appends to its log. What the leaders' logs
//! have become, by term, is the history of a cluster; every log is traced to it
//! entry by entry.

use vstd::prelude::*;
use crate::consensus::log::{
    compacted, contiguous, entry_at, last_index_of, suffix_from, term_of, LogView,
};
use crate::consensus::message::{AppendView, EntryType, EntryView};
use crate::consensus::state::LeaderView;
use crate::consensus::transitions::{
    append_handled, append_request_for, became_leader, consecutive, leader_recognised,
    lemma_contiguous_last, lemma_resolved, next_entry, proposed, resolved, term_of_node, NodeView,
};
use crate::types::{LogIndex, NodeId, Term};

verus! {

/// All entries of a log, with those that its snapshot stands for.
pub open spec fn stands_for(l: LogView, full: Seq<EntryView>) -> bool {
    &&& full.len() == l.snapshot_index + l.entries.len()
    &&& full.len() < u64::MAX
    &&& l.entries == full.skip(l.snapshot_index as int)
    &&& l.snapshot_term == (if l.snapshot_index > 0 {
        full[l.snapshot_index - 1].term
    } else {
        0
    })
}

/// Whether a log begins with some entries.
pub open spec fn holds(log: Seq<EntryView>, entries: Seq<EntryView>) -> bool {
    log.len() >= entries.len() && log.take(entries.len() as int) == entries
}

/// Every entry of a log, with all before it, is from the log of the leader of
/// its term.
pub open spec fn traced(h: Map<Term, Seq<EntryView>>, full: Seq<EntryView>) -> bool {
    forall|i: int| 0 <= i < full.len() ==> traced_at(h, full, i)
}

pub open spec fn traced_at(h: Map<Term, Seq<EntryView>>, full: Seq<EntryView>, i: int) -> bool {
    let e = full[i];
    &&& e.index == i + 1
    &&& h.contains_key(e.term)
    &&& i < h[e.term].len()
    &&& h[e.term].take(i + 1) == full.take(i + 1)
}

/// The logs of the leaders are traced themselves.
pub open spec fn is_history(h: Map<Term, Seq<EntryView>>) -> bool {
    forall|t: Term| #[trigger] h.contains_key(t) ==> traced(h, h[t])
}

/// A request to append carries entries of the log of the leader of its term.
pub open spec fn drawn(h: Map<Term, Seq<EntryView>>, r: AppendView) -> bool {
    r.entries.len() > 0 ==> {
        &&& h.contains_key(r.term)
        &&& r.prev_log_index + r.entries.len() <= h[r.term].len()
        &&& r.entries == h[r.term].subrange(
            r.prev_log_index as int,
            r.prev_log_index + r.entries.len(),
        )
        &&& r.prev_log_index > 0 ==> h[r.term][r.prev_log_index - 1].term == r.prev_log_term
    }
}

/// Two logs of a cluster that hold an entry of the same term at the same place
/// agree on it and on every entry before it.
pub proof fn law_logs_match(
    h: Map<Term, Seq<EntryView>>,
    a: Seq<EntryView>,
    b: Seq<EntryView>,
    i: int,
)
    requires
        traced(h, a),
        traced(h, b),
        0 <= i < a.len(),
        i < b.len(),
        a[i].term == b[i].term,
    ensures
        a.take(i + 1) == b.take(i + 1),
        a[i] == b[i],
{
    assert(traced_at(h, a, i));
    assert(traced_at(h, b, i));
    assert(a.take(i + 1)[i] == b.take(i + 1)[i]);
}

pub proof fn lemma_stands_for(l: LogView, full: Seq<EntryView>, h: Map<Term, Seq<EntryView>>)
    requires
        stands_for(l, full),
        traced(h, full),
    ensures
        contiguous(l),
        last_index_of(l) == full.len(),
        forall|i: LogIndex|
            #![trigger entry_at(l, i)]
            l.snapshot_index < i <= full.len() ==> entry_at(l, i) == Some(full[i - 1]),
        forall|i: LogIndex|
            #![trigger term_of(l, i)]
            i > 0 && i >= l.snapshot_index && term_of(l, i) is Some ==> i <= full.len()
                && term_of(l, i) == Some(full[i - 1].term),
{
    assert forall|i: int| 0 <= i < l.entries.len() implies (#[trigger] l.entries[i]).index
        == l.snapshot_index + 1 + i by {
        assert(traced_at(h, full, l.snapshot_index + i));
    }
    lemma_contiguous_last(l);
}

/// What a follower has of a leader's log after a successful request to append
/// is the leader's log itself: its log stays traced, and where the request
/// carries entries it agrees with the leader's log up to the last of them. What
/// the two logs had in common stays.
#[verifier::rlimit(60)]
#[verifier::spinoff_prover]
pub proof fn law_append_keeps_matching(
    h: Map<Term, Seq<EntryView>>,
    n: NodeView,
    full: Seq<EntryView>,
    r: AppendView,
) -> (after: Seq<EntryView>)
    requires
        is_history(h),
        stands_for(n.log, full),
        traced(h, full),
        drawn(h, r),
        n.log.snapshot_index <= r.prev_log_index,
        r.prev_log_index + r.entries.len() < u64::MAX,
    ensures
        stands_for(append_handled(n, r).0.log, after),
        traced(h, after),
        append_handled(n, r).1.success && r.entries.len() > 0 ==> after.len() >= r.prev_log_index
            + r.entries.len() && after.take(r.prev_log_index + r.entries.len()) == h[r.term].take(
            r.prev_log_index + r.entries.len(),
        ),
        !append_handled(n, r).1.success || r.entries.len() == 0 ==> after == full,
        after.take(n.log.snapshot_index as int) == full.take(n.log.snapshot_index as int),
        after != full ==> after == h[r.term].take(r.prev_log_index + r.entries.len()),
        forall|k: int|
            0 <= k <= h[r.term].len() && #[trigger] holds(full, h[r.term].take(k)) ==> holds(
                after,
                h[r.term].take(k),
            ),
{
    if !append_handled(n, r).1.success {
        return full;
    }
    let m = leader_recognised(n, r.term, r.leader_id);
    assert(m.log == n.log);
    lemma_stands_for(n.log, full, h);
    let l = n.log;
    let s = l.snapshot_index as int;
    let (cut, fresh) = resolved(l, r.entries);
    assert(append_handled(n, r).0.log.entries == cut.entries + fresh);
    if r.entries.len() == 0 {
        assert(cut.entries + fresh =~= l.entries);
        return full;
    }
    let prev = r.prev_log_index as int;
    let led = h[r.term];
    let end = prev + r.entries.len();
    assert(traced(h, led));
    assert(consecutive(r.entries, r.prev_log_index)) by {
        assert forall|i: int| 0 <= i < r.entries.len() implies (#[trigger] r.entries[i]).index
            == r.prev_log_index + 1 + i by {
            assert(traced_at(h, led, prev + i));
        }
    }
    assert(prev <= full.len() && full.take(prev) == led.take(prev)) by {
        if prev > 0 {
            assert(term_of(l, r.prev_log_index) == Some(r.prev_log_term));
            assert(full[prev - 1].term == led[prev - 1].term);
            law_logs_match(h, full, led, prev - 1);
        } else {
            assert(full.take(0) =~= led.take(0));
        }
    }
    lemma_resolved(l, r.entries, r.prev_log_index);
    let all = cut.entries + fresh;
    if fresh.len() == 0 {
        assert(all =~= l.entries);
        assert(full.len() >= end);
        assert(all[end - 1 - s] == full[end - 1]);
        assert(all[prev - s + (r.entries.len() - 1)].term == r.entries[r.entries.len() - 1].term);
        assert(full[end - 1].term == led[end - 1].term);
        law_logs_match(h, full, led, end - 1);
        return full;
    }
    let after = full.take(s) + all;
    assert(after.take(s) =~= full.take(s));
    let kept = s + cut.entries.len();
    assert(after =~= led.take(end)) by {
        assert forall|i: int| 0 <= i < end implies after[i] == led[i] by {
            if i < prev {
                assert(full.take(prev)[i] == led.take(prev)[i]);
                if i >= s {
                    assert(all[i - s] == l.entries[i - s]);
                }
            } else if i < kept {
                assert(all[i - s] == cut.entries[i - s]);
                assert(cut.entries[i - s] == l.entries[i - s]);
                assert(all[prev - s + (i - prev)].term == r.entries[i - prev].term);
                assert(full[i].term == led[i].term);
                law_logs_match(h, full, led, i);
            } else {
                assert(all[i - s] == fresh[i - kept]);
                assert(fresh[i - kept] == r.entries[i - prev]);
            }
        }
    }
    assert forall|i: int| 0 <= i < after.len() implies traced_at(h, after, i) by {
        assert(traced_at(h, led, i));
        assert(led.take(i + 1) =~= after.take(i + 1));
    }
    assert(append_handled(n, r).0.log.entries =~= after.skip(s));
    if s > 0 {
        assert(after[s - 1] == full[s - 1]);
    }
    assert forall|k: int|
        0 <= k <= led.len() && #[trigger] holds(full, led.take(k)) implies holds(
        after,
        led.take(k),
    ) by {
        if k <= end {
            assert(after.take(k) =~= led.take(k));
        } else {
            assert(l.entries[kept - s] == full[kept]);
            assert(r.entries[kept - prev] == led[kept]);
            assert(full.take(k)[kept] == led.take(k)[kept]);
        }
    }
    after
}

/// A request of a leader to a peer that needs no snapshot carries entries of the
/// leader's log.
pub proof fn law_requests_are_drawn(
    h: Map<Term, Seq<EntryView>>,
    n: NodeView,
    full: Seq<EntryView>,
    l: LeaderView,
    peer: NodeId,
)
    requires
        is_history(h),
        stands_for(n.log, full),
        h.contains_key(term_of_node(n)),
        h[term_of_node(n)] == full,
        n.log.snapshot_index <= append_request_for(n, l, peer).prev_log_index,
        l.next_index.contains_key(peer) ==> l.next_index[peer] > 0,
    ensures
        drawn(h, append_request_for(n, l, peer)),
{
    let r = append_request_for(n, l, peer);
    lemma_stands_for(n.log, full, h);
    if r.entries.len() > 0 {
        let next = (r.prev_log_index + 1) as LogIndex;
        let s = n.log.snapshot_index;
        assert(r.entries == suffix_from(n.log, next));
        assert(r.entries =~= full.subrange(
            r.prev_log_index as int,
            r.prev_log_index + r.entries.len(),
        ));
        if r.prev_log_index > 0 {
            if r.prev_log_index > s {
                assert(entry_at(n.log, r.prev_log_index) == Some(full[r.prev_log_index - 1]));
            }
        }
    }
}

/// The history after a leader has appended an entry to its log.
pub open spec fn with_led(h: Map<Term, Seq<EntryView>>, full: Seq<EntryView>, e: EntryView) -> Map<
    Term,
    Seq<EntryView>,
> {
    h.insert(e.term, full.push(e))
}

/// One more entry of the leader of a term keeps everything traced that was.
pub proof fn lemma_with_led(h: Map<Term, Seq<EntryView>>, full: Seq<EntryView>, e: EntryView)
    requires
        is_history(h),
        traced(h, full),
        h.contains_key(e.term) ==> h[e.term] == full,
        e.index == full.len() + 1,
    ensures
        is_history(with_led(h, full, e)),
        forall|other: Seq<EntryView>| #[trigger] traced(h, other) ==> traced(
            with_led(h, full, e),
            other,
        ),
        traced(with_led(h, full, e), full.push(e)),
{
    let g = with_led(h, full, e);
    assert forall|other: Seq<EntryView>| #[trigger] traced(h, other) implies traced(g, other) by {
        assert forall|i: int| 0 <= i < other.len() implies traced_at(g, other, i) by {
            assert(traced_at(h, other, i));
            if other[i].term == e.term {
                assert(full.push(e).take(i + 1) =~= full.take(i + 1));
            }
        }
    }
    let longer = full.push(e);
    assert(traced(g, full));
    assert forall|i: int| 0 <= i < longer.len() implies traced_at(g, longer, i) by {
        if i < full.len() {
            assert(traced_at(g, full, i));
            assert(longer.take(i + 1) =~= full.take(i + 1));
        }
    }
    assert forall|t: Term| #[trigger] g.contains_key(t) implies traced(g, g[t]) by {
        if t != e.term {
            assert(h.contains_key(t));
            assert(traced(h, h[t]));
        }
    }
}

/// A leader that proposes extends the history of its term, and every log stays
/// traced.
pub proof fn law_proposals_keep_matching(
    h: Map<Term, Seq<EntryView>>,
    n: NodeView,
    full: Seq<EntryView>,
    data: Seq<u8>,
    entry_type: EntryType,
)
    requires
        is_history(h),
        stands_for(n.log, full),
        full.len() + 1 < u64::MAX,
        h.contains_key(term_of_node(n)),
        h[term_of_node(n)] == full,
    ensures
        ({
            let e = next_entry(n, data, entry_type);
            let g = with_led(h, full, e);
            &&& is_history(g)
            &&& stands_for(proposed(n, data, entry_type).log, full.push(e))
            &&& g[term_of_node(n)] == full.push(e)
            &&& traced(g, full.push(e))
            &&& forall|other: Seq<EntryView>| #[trigger] traced(h, other) ==> traced(g, other)
        }),
{
    let e = next_entry(n, data, entry_type);
    lemma_stands_for(n.log, full, h);
    lemma_with_led(h, full, e);
    assert(proposed(n, data, entry_type).log.entries =~= full.push(e).skip(
        n.log.snapshot_index as int,
    ));
}

/// A node that becomes the first leader of its term begins the history of that
/// term, and every log stays traced.
pub proof fn law_elections_keep_matching(
    h: Map<Term, Seq<EntryView>>,
    n: NodeView,
    full: Seq<EntryView>,
)
    requires
        is_history(h),
        stands_for(n.log, full),
        traced(h, full),
        full.len() + 1 < u64::MAX,
        !h.contains_key(term_of_node(n)),
    ensures
        ({
            let e = next_entry(n, Seq::empty(), EntryType::Noop);
            let g = with_led(h, full, e);
            &&& is_history(g)
            &&& stands_for(became_leader(n).log, full.push(e))
            &&& g[term_of_node(n)] == full.push(e)
            &&& traced(g, full.push(e))
            &&& forall|other: Seq<EntryView>| #[trigger] traced(h, other) ==> traced(g, other)
        }),
{
    let e = next_entry(n, Seq::empty(), EntryType::Noop);
    lemma_stands_for(n.log, full, h);
    lemma_with_led(h, full, e);
    assert(became_leader(n).log.entries =~= full.push(e).skip(n.log.snapshot_index as int));
}

/// A snapshot of entries that a log holds leaves it standing for the same
/// entries.
pub proof fn law_compaction_keeps_matching(l: LogView, full: Seq<EntryView>, index: LogIndex)
    requires
        stands_for(l, full),
        index <= full.len(),
    ensures
        index > l.snapshot_index ==> stands_for(compacted(l, index, full[index - 1].term), full),
{
    if index > l.snapshot_index {
        let c = compacted(l, index, full[index - 1].term);
        assert(c.entries =~= full.skip(index as int));
    }
}

} // verus!
