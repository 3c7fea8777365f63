//! Reads that wait until the leader has made sure that it still leads.

use std::collections::HashSet;
use vstd::prelude::*;
use crate::types::{LogIndex, NodeId};

verus! {

broadcast use vstd::std_specs::hash::group_hash_axioms;

/// A read that waits for a quorum to confirm the leader.
#[derive(Debug)]
pub struct ReadIndexRequest {
    /// The commit index when the read was requested.
    pub read_index: LogIndex,
    /// The nodes that have confirmed the leader.
    pub acks: HashSet<NodeId>,
    /// The size of the cluster.
    pub cluster_size: usize,
}

/// What a waiting read stands at.
#[verifier::ext_equal]
pub struct ReadView {
    pub read_index: LogIndex,
    pub acks: Set<NodeId>,
    pub cluster_size: nat,
}

impl View for ReadIndexRequest {
    type V = ReadView;

    open spec fn view(&self) -> ReadView {
        ReadView {
            read_index: self.read_index,
            acks: self.acks@,
            cluster_size: self.cluster_size as nat,
        }
    }
}

/// More than half of the cluster has confirmed the leader.
pub open spec fn confirmed(r: ReadView) -> bool {
    r.acks.len() >= r.cluster_size / 2 + 1
}

/// A read after one more node confirmed the leader.
pub open spec fn acked(r: ReadView, from: NodeId) -> ReadView {
    ReadView { acks: r.acks.insert(from), ..r }
}

/// A read that only the leader itself has confirmed.
pub open spec fn new_read(read_index: LogIndex, self_id: NodeId, cluster_size: nat) -> ReadView {
    ReadView { read_index, acks: Set::empty().insert(self_id), cluster_size }
}

/// A read is confirmed exactly where more than half of the cluster has confirmed
/// the leader, each node counted once; a confirmation adds the node that gave it
/// and changes nothing else.
pub proof fn law_reads_need_a_majority(r: ReadView, from: NodeId)
    requires
        r.acks.finite(),
    ensures
        confirmed(r) <==> 2 * r.acks.len() > r.cluster_size,
        forall|id: NodeId| #[trigger]
            acked(r, from).acks.contains(id) <==> r.acks.contains(id) || id == from,
        acked(r, from).read_index == r.read_index,
        acked(r, from).cluster_size == r.cluster_size,
        r.acks.contains(from) ==> acked(r, from) == r,
        confirmed(r) ==> confirmed(acked(r, from)),
{
    if r.acks.contains(from) {
        assert(acked(r, from).acks =~= r.acks);
    }
}

impl ReadIndexRequest {
    pub fn new(read_index: LogIndex, self_id: NodeId, cluster_size: usize) -> (r: Self)
        ensures
            r@ == new_read(read_index, self_id, cluster_size as nat),
    {
        let mut acks: HashSet<NodeId> = HashSet::new();
        acks.insert(self_id);
        ReadIndexRequest { read_index, acks, cluster_size }
    }

    /// Records that a node has confirmed the leader; returns whether enough
    /// have.
    pub fn record_ack(&mut self, from: NodeId) -> (r: bool)
        ensures
            final(self)@ == acked(old(self)@, from),
            r == confirmed(final(self)@),
    {
        self.acks.insert(from);
        self.has_quorum()
    }

    /// Whether enough nodes have confirmed the leader.
    pub fn has_quorum(&self) -> (r: bool)
        ensures
            r == confirmed(self@),
    {
        self.acks.len() >= self.quorum_size()
    }

    fn quorum_size(&self) -> (r: usize)
        ensures
            r == self.cluster_size / 2 + 1,
    {
        self.cluster_size / 2 + 1
    }
}

/// The reads that wait, by number. Numbers are given out in ascending order.
#[derive(Debug)]
pub struct ReadIndexState {
    next_id: u64,
    pending: Vec<(u64, ReadIndexRequest)>,
}

impl View for ReadIndexState {
    type V = Map<u64, ReadView>;

    closed spec fn view(&self) -> Map<u64, ReadView> {
        reads_map(self.pending@)
    }
}

/// A read with this number waits.
pub open spec fn has_read(pending: Seq<(u64, ReadIndexRequest)>, id: u64) -> bool {
    exists|i: int| 0 <= i < pending.len() && (#[trigger] pending[i]).0 == id
}

/// Waiting reads by number.
pub open spec fn reads_map(pending: Seq<(u64, ReadIndexRequest)>) -> Map<u64, ReadView> {
    Map::new(
        |id: u64| has_read(pending, id),
        |id: u64|
            pending[choose|i: int| 0 <= i < pending.len() && (#[trigger] pending[i]).0 == id].1@,
    )
}

/// Numbers ascend.
pub open spec fn numbered(pending: Seq<(u64, ReadIndexRequest)>, next_id: u64) -> bool {
    &&& forall|i: int, j: int|
        0 <= i < j < pending.len() ==> (#[trigger] pending[i]).0 < (#[trigger] pending[j]).0
    &&& forall|i: int| 0 <= i < pending.len() ==> (#[trigger] pending[i]).0 < next_id
}

proof fn lemma_read_at(pending: Seq<(u64, ReadIndexRequest)>, next_id: u64, i: int)
    requires
        numbered(pending, next_id),
        0 <= i < pending.len(),
    ensures
        reads_map(pending).contains_key(pending[i].0),
        reads_map(pending)[pending[i].0] == pending[i].1@,
{
    let j = choose|j: int| 0 <= j < pending.len() && (#[trigger] pending[j]).0 == pending[i].0;
    assert(pending[i].0 == pending[i].0);
    if i < j {
        assert(pending[i].0 < pending[j].0);
    } else if j < i {
        assert(pending[j].0 < pending[i].0);
    }
}

impl ReadIndexState {
    /// The number that the next read gets.
    pub closed spec fn next(&self) -> u64 {
        self.next_id
    }

    pub closed spec fn well_formed(&self) -> bool {
        numbered(self.pending@, self.next_id)
    }

    /// The numbers of the reads that wait are below that of the next one, which
    /// no operation makes smaller.
    pub proof fn law_numbers_below_next(&self)
        requires
            self.well_formed(),
        ensures
            forall|id: u64| #[trigger] self@.contains_key(id) ==> id < self.next(),
    {
    }

    pub fn new() -> (r: Self)
        ensures
            r.well_formed(),
            r@ == Map::<u64, ReadView>::empty(),
            r.next() == 1,
    {
        let r = ReadIndexState { next_id: 1, pending: Vec::new() };
        assert(r@ =~= Map::<u64, ReadView>::empty());
        r
    }

    /// Adds a read; returns its number.
    pub fn register(&mut self, read_index: LogIndex, self_id: NodeId, cluster_size: usize) -> (r:
        u64)
        requires
            old(self).well_formed(),
            old(self).next() < u64::MAX,
        ensures
            final(self).well_formed(),
            r == old(self).next(),
            !old(self)@.contains_key(r),
            final(self).next() == r + 1,
            final(self)@ == old(self)@.insert(
                r,
                new_read(read_index, self_id, cluster_size as nat),
            ),
    {
        let id: u64 = self.next_id;
        self.next_id = id + 1;
        let ghost before = self.pending@;
        self.pending.push((id, ReadIndexRequest::new(read_index, self_id, cluster_size)));
        proof {
            let after = self.pending@;
            assert(numbered(after, self.next_id));
            assert forall|k: u64| has_read(after, k) == (has_read(before, k) || k == id) by {
                if has_read(before, k) {
                    let i = choose|i: int| 0 <= i < before.len() && (#[trigger] before[i]).0 == k;
                    assert(after[i].0 == k);
                }
                if has_read(after, k) {
                    let i = choose|i: int| 0 <= i < after.len() && (#[trigger] after[i]).0 == k;
                    if i < before.len() {
                        assert(before[i].0 == k);
                    }
                }
                assert(after[before.len() as int].0 == id);
            }
            assert forall|k: u64| has_read(after, k) implies reads_map(after)[k] == reads_map(
                before,
            ).insert(id, new_read(read_index, self_id, cluster_size as nat))[k] by {
                let i = choose|i: int| 0 <= i < after.len() && (#[trigger] after[i]).0 == k;
                lemma_read_at(after, self.next_id, i);
                if i < before.len() {
                    assert(before[i] == after[i]);
                    lemma_read_at(before, id, i);
                }
            }
            assert(self@ =~= old(self)@.insert(
                id,
                new_read(read_index, self_id, cluster_size as nat),
            ));
        }
        id
    }

    /// Records for all waiting reads that a node has confirmed the leader;
    /// returns, in ascending order, the numbers of those that are confirmed.
    pub fn record_ack(&mut self, from: NodeId) -> (r: Vec<u64>)
        requires
            old(self).well_formed(),
        ensures
            final(self).well_formed(),
            final(self).next() == old(self).next(),
            final(self)@ == old(self)@.map_values(|v: ReadView| acked(v, from)),
            forall|i: int, j: int| 0 <= i < j < r@.len() ==> r@[i] < r@[j],
            forall|id: u64| #[trigger]
                r@.contains(id) <==> final(self)@.contains_key(id) && confirmed(final(self)@[id]),
    {
        let ghost before = self.pending@;
        let mut ids: Vec<u64> = Vec::new();
        let mut i: usize = 0;
        while i < self.pending.len()
            invariant
                i <= self.pending.len(),
                self.next_id == old(self).next_id,
                before == old(self).pending@,
                numbered(before, self.next_id),
                self.pending@.len() == before.len(),
                forall|j: int| 0 <= j < before.len() ==> (#[trigger] self.pending@[j]).0 == before[j].0,
                forall|j: int|
                    0 <= j < i ==> (#[trigger] self.pending@[j]).1@ == acked(before[j].1@, from),
                forall|j: int| i <= j < before.len() ==> #[trigger] self.pending@[j] == before[j],
                forall|x: int, y: int| 0 <= x < y < ids@.len() ==> ids@[x] < ids@[y],
                forall|x: int| 0 <= x < ids@.len() ==> listed_by(
                    #[trigger] ids@[x],
                    self.pending@,
                    i as int,
                ),
                forall|j: int|
                    0 <= j < i && confirmed((#[trigger] self.pending@[j]).1@) ==> ids@.contains(
                        self.pending@[j].0,
                    ),
            decreases self.pending.len() - i,
        {
            let ghost mid = self.pending@;
            let ghost listed = ids@;
            let id: u64 = self.pending[i].0;
            let done: bool = self.pending[i].1.record_ack(from);
            if done {
                ids.push(id);
            }
            proof {
                let now = self.pending@;
                assert forall|x: int| 0 <= x < ids@.len() implies listed_by(
                    #[trigger] ids@[x],
                    now,
                    i + 1,
                ) by {
                    if x < listed.len() {
                        assert(listed_by(listed[x], mid, i as int));
                        let j = choose|j: int|
                            0 <= j < i && (#[trigger] mid[j]).0 == listed[x] && confirmed(mid[j].1@);
                        assert(now[j] == mid[j]);
                    } else {
                        assert(now[i as int].0 == id);
                    }
                }
                assert forall|x: int, y: int| 0 <= x < y < ids@.len() implies ids@[x] < ids@[y] by {
                    if y == listed.len() {
                        assert(listed_by(listed[x], mid, i as int));
                        let j = choose|j: int|
                            0 <= j < i && (#[trigger] mid[j]).0 == listed[x] && confirmed(mid[j].1@);
                        assert(before[j].0 < before[i as int].0);
                    }
                }
                assert forall|j: int| 0 <= j < i + 1 && confirmed((#[trigger] now[j]).1@) implies ids@.contains(
                    now[j].0,
                ) by {
                    if j < i {
                        assert(now[j] == mid[j]);
                        assert(listed.contains(mid[j].0));
                        assert(ids@[listed.index_of(mid[j].0)] == now[j].0);
                    } else {
                        assert(ids@[listed.len() as int] == id);
                    }
                }
            }
            i += 1;
        }
        proof {
            let after = self.pending@;
            assert(numbered(after, self.next_id)) by {
                assert forall|x: int, y: int| 0 <= x < y < after.len() implies (
                #[trigger] after[x]).0 < (#[trigger] after[y]).0 by {
                    assert(before[x].0 < before[y].0);
                }
                assert forall|x: int| 0 <= x < after.len() implies (#[trigger] after[x]).0
                    < self.next_id by {
                    assert(before[x].0 < self.next_id);
                }
            }
            assert forall|k: u64| has_read(after, k) == has_read(before, k) by {
                if has_read(after, k) {
                    let j = choose|j: int| 0 <= j < after.len() && (#[trigger] after[j]).0 == k;
                    assert(before[j].0 == k);
                }
                if has_read(before, k) {
                    let j = choose|j: int| 0 <= j < before.len() && (#[trigger] before[j]).0 == k;
                    assert(after[j].0 == k);
                }
            }
            assert forall|k: u64| has_read(after, k) implies reads_map(after)[k] == acked(
                reads_map(before)[k],
                from,
            ) by {
                let j = choose|j: int| 0 <= j < after.len() && (#[trigger] after[j]).0 == k;
                lemma_read_at(after, self.next_id, j);
                lemma_read_at(before, self.next_id, j);
            }
            assert(self@ =~= old(self)@.map_values(|v: ReadView| acked(v, from)));
            assert forall|id: u64| #[trigger] ids@.contains(id) <==> self@.contains_key(id)
                && confirmed(self@[id]) by {
                if ids@.contains(id) {
                    let x = ids@.index_of(id);
                    assert(listed_by(ids@[x], after, i as int));
                    let j = choose|j: int|
                        0 <= j < i && (#[trigger] after[j]).0 == id && confirmed(after[j].1@);
                    lemma_read_at(after, self.next_id, j);
                }
                if self@.contains_key(id) && confirmed(self@[id]) {
                    let j = choose|j: int| 0 <= j < after.len() && (#[trigger] after[j]).0 == id;
                    lemma_read_at(after, self.next_id, j);
                }
            }
        }
        ids
    }

    /// The place of a read.
    fn position(&self, id: u64) -> (r: Option<usize>)
        ensures
            match r {
                Some(i) => i < self.pending@.len() && self.pending@[i as int].0 == id,
                None => !has_read(self.pending@, id),
            },
    {
        let mut i: usize = 0;
        while i < self.pending.len()
            invariant
                i <= self.pending.len(),
                forall|j: int| 0 <= j < i ==> (#[trigger] self.pending@[j]).0 != id,
            decreases self.pending.len() - i,
        {
            if self.pending[i].0 == id {
                return Some(i);
            }
            i += 1;
        }
        None
    }

    /// Takes a read out; returns its read index.
    pub fn take_confirmed(&mut self, id: u64) -> (r: Option<LogIndex>)
        requires
            old(self).well_formed(),
        ensures
            final(self).well_formed(),
            final(self).next() == old(self).next(),
            final(self)@ == old(self)@.remove(id),
            r == if old(self)@.contains_key(id) {
                Some(old(self)@[id].read_index)
            } else {
                None
            },
    {
        match self.remove(id) {
            Some(req) => Some(req.read_index),
            None => None,
        }
    }

    /// The read index of a waiting read.
    pub fn get_read_index(&self, id: u64) -> (r: Option<LogIndex>)
        requires
            self.well_formed(),
        ensures
            r == if self@.contains_key(id) {
                Some(self@[id].read_index)
            } else {
                None
            },
    {
        match self.position(id) {
            Some(i) => {
                proof {
                    lemma_read_at(self.pending@, self.next_id, i as int);
                }
                Some(self.pending[i].1.read_index)
            },
            None => None,
        }
    }

    /// Takes a read out.
    pub fn remove(&mut self, id: u64) -> (r: Option<ReadIndexRequest>)
        requires
            old(self).well_formed(),
        ensures
            final(self).well_formed(),
            final(self).next() == old(self).next(),
            final(self)@ == old(self)@.remove(id),
            match r {
                Some(req) => old(self)@.contains_key(id) && old(self)@[id] == req@,
                None => !old(self)@.contains_key(id),
            },
    {
        let ghost before = self.pending@;
        match self.position(id) {
            Some(i) => {
                proof {
                    lemma_read_at(before, self.next_id, i as int);
                }
                let removed: (u64, ReadIndexRequest) = self.pending.remove(i);
                proof {
                    let after = self.pending@;
                    assert(forall|j: int| 0 <= j < i ==> after[j] == before[j]);
                    assert(forall|j: int| i <= j < after.len() ==> after[j] == before[j + 1]);
                    assert(numbered(after, self.next_id)) by {
                        assert forall|x: int, y: int| 0 <= x < y < after.len() implies (
                        #[trigger] after[x]).0 < (#[trigger] after[y]).0 by {
                            let a = if x < i {
                                x
                            } else {
                                x + 1
                            };
                            let b = if y < i {
                                y
                            } else {
                                y + 1
                            };
                            assert(before[a].0 < before[b].0);
                        }
                        assert forall|x: int| 0 <= x < after.len() implies (
                        #[trigger] after[x]).0 < self.next_id by {
                            let a = if x < i {
                                x
                            } else {
                                x + 1
                            };
                            assert(before[a].0 < self.next_id);
                        }
                    }
                    assert forall|k: u64| has_read(after, k) == (has_read(before, k) && k != id) by {
                        if has_read(after, k) {
                            let j = choose|j: int|
                                0 <= j < after.len() && (#[trigger] after[j]).0 == k;
                            let a = if j < i {
                                j
                            } else {
                                j + 1
                            };
                            assert(before[a].0 == k);
                            if a < i {
                                assert(before[a].0 < before[i as int].0);
                            } else {
                                assert(before[i as int].0 < before[a].0);
                            }
                        }
                        if has_read(before, k) && k != id {
                            let j = choose|j: int|
                                0 <= j < before.len() && (#[trigger] before[j]).0 == k;
                            if j < i {
                                assert(after[j].0 == k);
                            } else {
                                assert(after[j - 1].0 == k);
                            }
                        }
                    }
                    assert forall|k: u64| has_read(after, k) implies reads_map(after)[k]
                        == reads_map(before)[k] by {
                        let j = choose|j: int| 0 <= j < after.len() && (#[trigger] after[j]).0 == k;
                        lemma_read_at(after, self.next_id, j);
                        lemma_read_at(
                            before,
                            self.next_id,
                            if j < i {
                                j
                            } else {
                                j + 1
                            },
                        );
                    }
                    assert(self@ =~= old(self)@.remove(id));
                }
                Some(removed.1)
            },
            None => {
                assert(self@ =~= old(self)@.remove(id));
                None
            },
        }
    }

    /// Drops all waiting reads.
    pub fn clear(&mut self)
        ensures
            final(self).well_formed(),
            final(self).next() == old(self).next(),
            final(self)@ == Map::<u64, ReadView>::empty(),
    {
        self.pending.clear();
        assert(self@ =~= Map::<u64, ReadView>::empty());
    }

    /// The number of waiting reads.
    pub fn pending_count(&self) -> (r: usize)
        requires
            self.well_formed(),
        ensures
            r == self@.dom().len(),
            self@.dom().finite(),
    {
        proof {
            lemma_count(self.pending@, self.next_id);
        }
        self.pending.len()
    }

    /// The number that the next read gets.
    pub fn next_id(&self) -> (r: u64)
        ensures
            r == self.next(),
    {
        self.next_id
    }

    /// Whether a read waits and is confirmed.
    pub fn is_confirmed(&self, id: u64) -> (r: bool)
        requires
            self.well_formed(),
        ensures
            r == (self@.contains_key(id) && confirmed(self@[id])),
    {
        match self.position(id) {
            Some(i) => {
                proof {
                    lemma_read_at(self.pending@, self.next_id, i as int);
                }
                self.pending[i].1.has_quorum()
            },
            None => false,
        }
    }
}

/// A confirmed read with this number is among the first `n`.
spec fn listed_by(id: u64, pending: Seq<(u64, ReadIndexRequest)>, n: int) -> bool {
    exists|j: int| 0 <= j < n && (#[trigger] pending[j]).0 == id && confirmed(pending[j].1@)
}

proof fn lemma_count(pending: Seq<(u64, ReadIndexRequest)>, next_id: u64)
    requires
        numbered(pending, next_id),
    ensures
        reads_map(pending).dom().finite(),
        reads_map(pending).dom().len() == pending.len(),
    decreases pending.len(),
{
    let dom = reads_map(pending).dom();
    if pending.len() == 0 {
        assert(dom =~= Set::<u64>::empty());
    } else {
        let rest = pending.drop_last();
        let last = pending.last().0;
        assert(numbered(rest, next_id)) by {
            assert forall|x: int, y: int| 0 <= x < y < rest.len() implies (#[trigger] rest[x]).0 < (
            #[trigger] rest[y]).0 by {
                assert(pending[x].0 < pending[y].0);
            }
            assert forall|x: int| 0 <= x < rest.len() implies (#[trigger] rest[x]).0 < next_id by {
                assert(pending[x].0 < next_id);
            }
        }
        lemma_count(rest, next_id);
        assert forall|k: u64| has_read(pending, k) == (has_read(rest, k) || k == last) by {
            if has_read(rest, k) {
                let j = choose|j: int| 0 <= j < rest.len() && (#[trigger] rest[j]).0 == k;
                assert(pending[j].0 == k);
            }
            if has_read(pending, k) {
                let j = choose|j: int| 0 <= j < pending.len() && (#[trigger] pending[j]).0 == k;
                if j < rest.len() {
                    assert(rest[j].0 == k);
                }
            }
            assert(pending[pending.len() - 1].0 == last);
        }
        assert(!has_read(rest, last)) by {
            if has_read(rest, last) {
                let j = choose|j: int| 0 <= j < rest.len() && (#[trigger] rest[j]).0 == last;
                assert(pending[j].0 < pending[pending.len() - 1].0);
            }
        }
        assert(dom =~= reads_map(rest).dom().insert(last));
    }
}

impl Default for ReadIndexState {
    fn default() -> (r: Self)
        ensures
            r.well_formed(),
            r@ == Map::<u64, ReadView>::empty(),
            r.next() == 1,
    {
        ReadIndexState::new()
    }
}

} // verus!
