//! What clients saw, and whether it can have happened.

use vstd::prelude::*;
use crate::bytes::{copy, equal};
use crate::server::http::{lossy_text, to_text};
use crate::text::joined;
use crate::words::{quote, quoted};

verus! {

/// What an operation does.
#[derive(Debug, Clone, Copy, PartialEq, Eq, Structural)]
pub enum OpType {
    Read,
    Write,
}

/// How an operation ended.
#[derive(Debug, PartialEq, Eq)]
pub enum OpResult {
    Success,
    Error(String),
}

/// An operation of a client. Times are readings of one clock in nanoseconds.
#[derive(Debug)]
pub struct Operation {
    pub op_type: OpType,
    pub key: Vec<u8>,
    pub value: Vec<u8>,
    pub start_time: u128,
    pub end_time: u128,
    pub result: OpResult,
}

/// What an operation says.
pub struct OperationView {
    pub op_type: OpType,
    pub key: Seq<u8>,
    pub value: Seq<u8>,
    pub end_time: u128,
    pub succeeded: bool,
}

impl View for Operation {
    type V = OperationView;

    open spec fn view(&self) -> OperationView {
        OperationView {
            op_type: self.op_type,
            key: self.key@,
            value: self.value@,
            end_time: self.end_time,
            succeeded: self.result is Success,
        }
    }
}

pub open spec fn operations_view(ops: Seq<Operation>) -> Seq<OperationView> {
    Seq::new(ops.len(), |i: int| ops[i]@)
}

/// How many operations at the beginning of a row ended no later than `time`,
/// up to the last that did.
pub open spec fn place_for(ops: Seq<OperationView>, time: u128) -> nat
    decreases ops.len(),
{
    if ops.len() == 0 || ops.last().end_time <= time {
        ops.len()
    } else {
        place_for(ops.drop_last(), time)
    }
}

/// The operations by the time at which they ended; those that ended together
/// stay in the order in which they were recorded.
pub open spec fn by_end(ops: Seq<OperationView>) -> Seq<OperationView>
    decreases ops.len(),
{
    if ops.len() == 0 {
        Seq::empty()
    } else {
        let rest = by_end(ops.drop_last());
        rest.insert(place_for(rest, ops.last().end_time) as int, ops.last())
    }
}

/// What the last successful write to a key among the first `n` operations has
/// written.
pub open spec fn last_written(ops: Seq<OperationView>, n: int, key: Seq<u8>) -> Option<Seq<u8>>
    decreases n,
{
    if n <= 0 {
        None
    } else {
        let op = ops[n - 1];
        if op.succeeded && op.op_type == OpType::Write && op.key == key {
            Some(op.value)
        } else {
            last_written(ops, n - 1, key)
        }
    }
}

/// The operation at a place is a successful read of something else than what
/// was last written.
pub open spec fn is_stale(ops: Seq<OperationView>, i: int) -> bool {
    &&& ops[i].succeeded
    &&& ops[i].op_type == OpType::Read
    &&& last_written(ops, i, ops[i].key) matches Some(v) && v != ops[i].value
}

/// The first stale read from `from` on.
pub open spec fn first_stale(ops: Seq<OperationView>, from: int) -> Option<int>
    decreases ops.len() - from,
{
    if from < 0 || from >= ops.len() {
        None
    } else if is_stale(ops, from) {
        Some(from)
    } else {
        first_stale(ops, from + 1)
    }
}

/// The message of a stale read.
pub open spec fn stale_message(key: Seq<char>, expected: Seq<char>, got: Seq<char>) -> Seq<char> {
    "Stale read: key="@ + key + " expected="@ + expected + " got="@ + got
}

/// The message of a stale read of the given texts.
pub fn stale_text(key: &str, expected: &str, got: &str) -> (r: String)
    ensures
        r@ == stale_message(key@, expected@, got@),
{
    joined("Stale read: key=", key).concat(" expected=").concat(expected).concat(" got=").concat(
        got,
    )
}

/// How many operations succeeded, or how many did not.
pub open spec fn count_of(ops: Seq<OperationView>, succeeded: bool) -> nat
    decreases ops.len(),
{
    if ops.len() == 0 {
        0
    } else {
        count_of(ops.drop_last(), succeeded) + if ops.last().succeeded == succeeded {
            1nat
        } else {
            0
        }
    }
}

/// Every operation succeeded or failed.
pub proof fn law_counts_add_up(ops: Seq<OperationView>)
    ensures
        count_of(ops, true) + count_of(ops, false) == ops.len(),
    decreases ops.len(),
{
    if ops.len() > 0 {
        law_counts_add_up(ops.drop_last());
    }
}

/// A history without a stale read is one in which every successful read of a
/// key that was written before returned what was written last.
pub proof fn law_consistent_reads(ops: Seq<OperationView>, i: int)
    requires
        first_stale(ops, 0) is None,
        0 <= i < ops.len(),
        ops[i].succeeded,
        ops[i].op_type == OpType::Read,
    ensures
        last_written(ops, i, ops[i].key) matches Some(v) ==> v == ops[i].value,
{
    lemma_none_stale(ops, 0, i);
}

proof fn lemma_none_stale(ops: Seq<OperationView>, from: int, i: int)
    requires
        first_stale(ops, from) is None,
        0 <= from <= i < ops.len(),
    ensures
        !is_stale(ops, i),
    decreases i - from,
{
    if from < i {
        lemma_none_stale(ops, from + 1, i);
    }
}

/// The operations that the places name, in order.
spec fn picked(ops: Seq<OperationView>, order: Seq<usize>) -> Seq<OperationView> {
    Seq::new(order.len(), |i: int| ops[order[i] as int])
}

/// A record of what clients saw.
#[derive(Debug)]
pub struct OperationHistory {
    pub operations: Vec<Operation>,
}

impl View for OperationHistory {
    type V = Seq<OperationView>;

    open spec fn view(&self) -> Seq<OperationView> {
        operations_view(self.operations@)
    }
}

impl OperationHistory {
    pub fn new() -> (r: Self)
        ensures
            r@ == Seq::<OperationView>::empty(),
    {
        let r = OperationHistory { operations: Vec::new() };
        assert(r@ =~= Seq::<OperationView>::empty());
        r
    }

    /// Records an operation.
    pub fn record(&mut self, op: Operation)
        ensures
            final(self)@ == old(self)@.push(op@),
    {
        self.operations.push(op);
        assert(self@ =~= old(self)@.push(op@));
    }

    /// The places of the operations by the time at which they ended.
    fn order(&self) -> (r: Vec<usize>)
        ensures
            picked(self@, r@) == by_end(self@),
            forall|i: int| 0 <= i < r@.len() ==> (#[trigger] r@[i]) < self@.len(),
    {
        let ghost ops = self@;
        let mut order: Vec<usize> = Vec::new();
        let mut n: usize = 0;
        assert(picked(ops, order@) =~= by_end(ops.take(0)));
        while n < self.operations.len()
            invariant
                n <= self.operations.len(),
                ops == self@,
                picked(ops, order@) == by_end(ops.take(n as int)),
                forall|i: int| 0 <= i < order@.len() ==> (#[trigger] order@[i]) < n,
            decreases self.operations.len() - n,
        {
            let ghost rest = picked(ops, order@);
            let time: u128 = self.operations[n].end_time;
            let mut at: usize = order.len();
            assert(rest.take(at as int) =~= rest);
            while at > 0 && self.operations[order[at - 1]].end_time > time
                invariant
                    at <= order@.len(),
                    n < self.operations.len(),
                    ops == self@,
                    rest == picked(ops, order@),
                    forall|i: int| 0 <= i < order@.len() ==> (#[trigger] order@[i]) < n,
                    place_for(rest, time) == place_for(rest.take(at as int), time),
                ensures
                    at <= order@.len(),
                    at == place_for(rest, time),
                decreases at,
            {
                assert(order@[at - 1] < n);
                assert(rest.take(at as int).last() == ops[order@[at - 1] as int]);
                assert(rest.take(at as int).drop_last() =~= rest.take(at - 1));
                at -= 1;
            }
            let ghost before = order@;
            order.insert(at, n);
            proof {
                assert(ops.take(n + 1).drop_last() =~= ops.take(n as int));
                assert(ops.take(n + 1).last() == ops[n as int]);
                assert(picked(ops, order@) =~= rest.insert(at as int, ops[n as int]));
                assert forall|i: int| 0 <= i < order@.len() implies (#[trigger] order@[i]) < n
                    + 1 by {
                    if i < at {
                        assert(order@[i] == before[i]);
                    } else if i > at {
                        assert(order@[i] == before[i - 1]);
                    }
                }
            }
            n += 1;
        }
        assert(ops.take(n as int) =~= ops);
        order
    }

    /// Checks that every successful read returned what the last successful
    /// write to its key before it has written; in the order in which operations
    /// ended, the first read that did not is named.
    pub fn check_consistency(&self) -> (r: Result<(), String>)
        ensures
            match first_stale(by_end(self@), 0) {
                None => r is Ok,
                Some(i) => {
                    let ops = by_end(self@);
                    &&& last_written(ops, i, ops[i].key) matches Some(expected)
                    &&& r matches Err(message) && message@ == stale_message(
                        quoted(lossy_text(ops[i].key)),
                        quoted(lossy_text(expected)),
                        quoted(lossy_text(ops[i].value)),
                    )
                },
            },
    {
        let order: Vec<usize> = self.order();
        let ghost ops = by_end(self@);
        let mut i: usize = 0;
        while i < order.len()
            invariant
                i <= order.len(),
                ops == by_end(self@),
                ops == picked(self@, order@),
                forall|j: int| 0 <= j < order@.len() ==> (#[trigger] order@[j]) < self@.len(),
                first_stale(ops, 0) == first_stale(ops, i as int),
            decreases order.len() - i,
        {
            assert(order@[i as int] < self@.len());
            let op: &Operation = &self.operations[order[i]];
            assert(ops[i as int] == op@);
            let ok: bool = match op.result {
                OpResult::Success => true,
                OpResult::Error(_) => false,
            };
            if ok && op.op_type == OpType::Read {
                match self.written_before(&order, i, op.key.as_slice()) {
                    Some(expected) => {
                        if !equal(expected.as_slice(), op.value.as_slice()) {
                            assert(is_stale(ops, i as int));
                            let key: String = quote(to_text(op.key.as_slice()).as_str());
                            let wanted: String = quote(to_text(expected.as_slice()).as_str());
                            let got: String = quote(to_text(op.value.as_slice()).as_str());
                            return Err(
                                stale_text(key.as_str(), wanted.as_str(), got.as_str()),
                            );
                        }
                    },
                    None => {},
                }
            }
            i += 1;
        }
        Ok(())
    }

    /// What the last successful write to a key among the first `n` operations
    /// of an order has written.
    fn written_before(&self, order: &Vec<usize>, n: usize, key: &[u8]) -> (r: Option<Vec<u8>>)
        requires
            n <= order@.len(),
            forall|j: int| 0 <= j < order@.len() ==> (#[trigger] order@[j]) < self@.len(),
        ensures
            match last_written(picked(self@, order@), n as int, key@) {
                Some(v) => r matches Some(w) && w@ == v,
                None => r is None,
            },
    {
        let ghost ops = picked(self@, order@);
        let mut i: usize = n;
        while i > 0
            invariant
                i <= n <= order@.len(),
                ops == picked(self@, order@),
                forall|j: int| 0 <= j < order@.len() ==> (#[trigger] order@[j]) < self@.len(),
                last_written(ops, n as int, key@) == last_written(ops, i as int, key@),
            decreases i,
        {
            assert(order@[i - 1] < self@.len());
            let op: &Operation = &self.operations[order[i - 1]];
            assert(ops[i - 1] == op@);
            let ok: bool = match op.result {
                OpResult::Success => true,
                OpResult::Error(_) => false,
            };
            if ok && op.op_type == OpType::Write && equal(op.key.as_slice(), key) {
                return Some(copy(op.value.as_slice()));
            }
            i -= 1;
        }
        None
    }

    /// How many operations succeeded.
    pub fn successful_ops(&self) -> (r: usize)
        ensures
            r == count_of(self@, true),
    {
        self.count(true)
    }

    /// How many operations failed.
    pub fn failed_ops(&self) -> (r: usize)
        ensures
            r == count_of(self@, false),
    {
        self.count(false)
    }

    fn count(&self, succeeded: bool) -> (r: usize)
        ensures
            r == count_of(self@, succeeded),
    {
        let ghost ops = self@;
        let mut n: usize = 0;
        let mut i: usize = 0;
        assert(ops.take(0) =~= Seq::<OperationView>::empty());
        while i < self.operations.len()
            invariant
                i <= self.operations.len(),
                n <= i,
                ops == self@,
                n == count_of(ops.take(i as int), succeeded),
            decreases self.operations.len() - i,
        {
            let ok: bool = match self.operations[i].result {
                OpResult::Success => true,
                OpResult::Error(_) => false,
            };
            proof {
                assert(ops.take(i + 1).drop_last() =~= ops.take(i as int));
                assert(ops.take(i + 1).last() == ops[i as int]);
            }
            if ok == succeeded {
                n += 1;
            }
            i += 1;
        }
        assert(ops.take(i as int) =~= ops);
        n
    }
}

impl Default for OperationHistory {
    fn default() -> (r: Self)
        ensures
            r@ == Seq::<OperationView>::empty(),
    {
        OperationHistory::new()
    }
}

/// The last value that was written to a key before an operation is that of a
/// write that succeeded and that no other such write follows.
pub proof fn law_last_write_counts(ops: Seq<OperationView>, n: int, key: Seq<u8>)
    requires
        0 <= n <= ops.len(),
    ensures
        match last_written(ops, n, key) {
            Some(value) => exists|j: int|
                #![trigger ops[j]]
                0 <= j < n && ops[j].succeeded && ops[j].op_type == OpType::Write && ops[j].key
                    == key && ops[j].value == value && (forall|k: int|
                    j < k < n ==> !((#[trigger] ops[k]).succeeded && ops[k].op_type == OpType::Write
                        && ops[k].key == key)),
            None => forall|j: int|
                0 <= j < n ==> !((#[trigger] ops[j]).succeeded && ops[j].op_type == OpType::Write
                    && ops[j].key == key),
        },
    decreases n,
{
    if n > 0 {
        let op = ops[n - 1];
        if !(op.succeeded && op.op_type == OpType::Write && op.key == key) {
            law_last_write_counts(ops, n - 1, key);
        }
    }
}

/// A history is faulted exactly where it has a read that succeeded and returned
/// another value than the last write before it had stored; the first such read is
/// named.
pub proof fn law_stale_reads_are_found(ops: Seq<OperationView>, from: int)
    requires
        0 <= from <= ops.len(),
    ensures
        match first_stale(ops, from) {
            Some(i) => {
                &&& from <= i < ops.len()
                &&& ops[i].succeeded && ops[i].op_type == OpType::Read
                &&& last_written(ops, i, ops[i].key) is Some
                &&& last_written(ops, i, ops[i].key) != Some(ops[i].value)
                &&& forall|j: int| from <= j < i ==> !#[trigger] is_stale(ops, j)
            },
            None => forall|j: int|
                from <= j < ops.len() && (#[trigger] ops[j]).succeeded && ops[j].op_type
                    == OpType::Read && last_written(ops, j, ops[j].key) is Some ==> last_written(
                    ops,
                    j,
                    ops[j].key,
                ) == Some(ops[j].value),
        },
    decreases ops.len() - from,
{
    if from < ops.len() {
        law_stale_reads_are_found(ops, from + 1);
        if first_stale(ops, from) is None {
            assert forall|j: int|
                from <= j < ops.len() && (#[trigger] ops[j]).succeeded && ops[j].op_type
                    == OpType::Read && last_written(ops, j, ops[j].key) is Some implies last_written(
                ops,
                j,
                ops[j].key,
            ) == Some(ops[j].value) by {
                if j == from {
                    assert(!is_stale(ops, from));
                }
            }
        }
    }
}

/// Operations are judged in the order in which they ended, and none is lost.
pub proof fn law_histories_are_ordered(ops: Seq<OperationView>)
    ensures
        by_end(ops).len() == ops.len(),
        by_end(ops).to_multiset() == ops.to_multiset(),
        forall|i: int, j: int|
            0 <= i <= j < by_end(ops).len() ==> (#[trigger] by_end(ops)[i]).end_time <= (
            #[trigger] by_end(ops)[j]).end_time,
    decreases ops.len(),
{
    if ops.len() > 0 {
        let rest = by_end(ops.drop_last());
        let last = ops.last();
        law_histories_are_ordered(ops.drop_last());
        lemma_place_for(rest, last.end_time);
        let place = place_for(rest, last.end_time) as int;
        let all = by_end(ops);
        assert(all.remove(place) =~= rest);
        all.to_multiset_ensures();
        assert(all[place] == last);
        assert(all.contains(last));
        assert(all.to_multiset() =~= rest.to_multiset().insert(last));
        ops.drop_last().to_multiset_ensures();
        assert(ops =~= ops.drop_last().push(last));
        assert forall|i: int, j: int| 0 <= i <= j < all.len() implies (#[trigger] all[i]).end_time
            <= (#[trigger] all[j]).end_time by {
            if i != place && j != place {
                let a = if i < place {
                    i
                } else {
                    i - 1
                };
                let b = if j < place {
                    j
                } else {
                    j - 1
                };
                assert(rest[a].end_time <= rest[b].end_time);
            } else if i == place && j > place {
                assert(rest[j - 1] == all[j]);
            } else if j == place && i < place {
                assert(rest[i] == all[i]);
            }
        }
    } else {
        assert(ops =~= Seq::empty());
    }
}

/// The place for a time in an ordered row.
proof fn lemma_place_for(ops: Seq<OperationView>, time: u128)
    requires
        forall|i: int, j: int|
            0 <= i <= j < ops.len() ==> (#[trigger] ops[i]).end_time <= (
            #[trigger] ops[j]).end_time,
    ensures
        place_for(ops, time) <= ops.len(),
        forall|i: int| 0 <= i < place_for(ops, time) ==> (#[trigger] ops[i]).end_time <= time,
        forall|i: int| place_for(ops, time) <= i < ops.len() ==> (#[trigger] ops[i]).end_time > time,
    decreases ops.len(),
{
    if ops.len() > 0 && ops.last().end_time > time {
        let rest = ops.drop_last();
        assert forall|i: int, j: int| 0 <= i <= j < rest.len() implies (
        #[trigger] rest[i]).end_time <= (#[trigger] rest[j]).end_time by {
            assert(ops[i].end_time <= ops[j].end_time);
        }
        lemma_place_for(rest, time);
        assert forall|i: int| place_for(ops, time) <= i < ops.len() implies (
        #[trigger] ops[i]).end_time > time by {
            if i < rest.len() {
                assert(rest[i] == ops[i]);
            }
        }
        assert forall|i: int| 0 <= i < place_for(ops, time) implies (#[trigger] ops[i]).end_time
            <= time by {
            assert(rest[i] == ops[i]);
        }
    } else if ops.len() > 0 {
        assert forall|i: int| 0 <= i < ops.len() implies (#[trigger] ops[i]).end_time <= time by {
            assert(ops[i].end_time <= ops[ops.len() - 1].end_time);
        }
    }
}

} // verus!
