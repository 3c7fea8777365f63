//! Optimistic transactions: reads from a snapshot, buffered writes, and a check
//! at commit that nothing that was read has changed.

use vstd::prelude::*;
use crate::bytes::{copy, equal};
use crate::error::Error;
use crate::mvcc::store::{
    changed_after, has_version, law_write_keeps_snapshots, lemma_keys_differ, lemma_stays_durable,
    recordable, restorable, stays_durable, version_at, visible, with_version, Contents, KeyValue,
    MvccStore,
};
use crate::mvcc::version::{
    encode_version, law_version_round_trip, version_key, VersionView, VersionedValue,
};
use crate::storage::engine::StorageEngine;
use crate::storage::run::{copy_value, value_view};

verus! {

/// A key and the value to be written, or `None` for a deletion.
pub type Write = (Seq<u8>, Option<Seq<u8>>);

/// A transaction that reads as of the revision at which it began.
#[derive(Debug)]
pub struct Transaction {
    start_revision: u64,
    read_set: Vec<Vec<u8>>,
    write_set: Vec<(Vec<u8>, Option<Vec<u8>>)>,
}

/// What the writes so far say of a key: the last one counts.
pub open spec fn last_write(ws: Seq<Write>, key: Seq<u8>) -> Option<Option<Seq<u8>>>
    decreases ws.len(),
{
    if ws.len() == 0 {
        None
    } else if ws.last().0 == key {
        Some(ws.last().1)
    } else {
        last_write(ws.drop_last(), key)
    }
}

/// Some key that was read was written or deleted after the transaction began.
pub open spec fn conflicts(m: Contents, start: u64, reads: Seq<Seq<u8>>) -> bool {
    exists|i: int| 0 <= i < reads.len() && changed_after(m, #[trigger] reads[i], start)
}

/// Any write or deletion of a key that was read, made after the transaction
/// began, is a conflict, and later writes do not undo it; writes of keys that
/// were not read are none.
pub proof fn law_changed_reads_conflict(
    m: Contents,
    start: u64,
    reads: Seq<Seq<u8>>,
    key: Seq<u8>,
    revision: u64,
    v: VersionView,
)
    requires
        revision > start,
    ensures
        conflicts(with_version(m, key, revision, v), start, reads) == (conflicts(m, start, reads)
            || reads.contains(key)),
{
    let n = with_version(m, key, revision, v);
    assert forall|k: Seq<u8>, r: u64| #[trigger] has_version(n, k, r) == (has_version(m, k, r) || (k
        == key && r == revision)) by {
        lemma_keys_differ(k, r, key, revision);
    }
    assert(has_version(n, key, revision));
    assert forall|i: int| 0 <= i < reads.len() implies changed_after(n, #[trigger] reads[i], start)
        == (changed_after(m, reads[i], start) || reads[i] == key) by {
        if changed_after(m, reads[i], start) {
            let r = choose|r: u64| r > start && #[trigger] has_version(m, reads[i], r);
            assert(has_version(n, reads[i], r));
        }
        if changed_after(n, reads[i], start) {
            let r = choose|r: u64| r > start && #[trigger] has_version(n, reads[i], r);
            if reads[i] != key {
                assert(has_version(m, reads[i], r));
            }
        }
    }
    if reads.contains(key) {
        let i = reads.index_of(key);
        assert(changed_after(n, reads[i], start));
    }
    if conflicts(m, start, reads) {
        let i = choose|i: int| 0 <= i < reads.len() && changed_after(m, #[trigger] reads[i], start);
        assert(changed_after(n, reads[i], start));
    }
    if conflicts(n, start, reads) {
        let i = choose|i: int| 0 <= i < reads.len() && changed_after(n, #[trigger] reads[i], start);
        assert(changed_after(n, reads[i], start));
        if reads[i] != key {
            assert(changed_after(m, reads[i], start));
        }
    }
}

/// The version that a write makes.
pub open spec fn written_version(m: Contents, w: Write, revision: u64) -> VersionView {
    VersionView {
        value: w.1,
        create_revision: match w.1 {
            Some(_) => match visible(m, w.0, u64::MAX) {
                Some(kv) => kv.create_revision,
                None => revision,
            },
            None => 0,
        },
        mod_revision: revision,
        lease_id: 0,
        ttl_seconds: 0,
    }
}

/// What an engine holds after writes that share a revision.
pub open spec fn apply_writes(m: Contents, ws: Seq<Write>, revision: u64) -> Contents
    decreases ws.len(),
{
    if ws.len() == 0 {
        m
    } else {
        let n = apply_writes(m, ws.drop_last(), revision);
        with_version(n, ws.last().0, revision, written_version(n, ws.last(), revision))
    }
}

/// A write that can be recorded.
pub open spec fn write_recordable(w: Write) -> bool {
    recordable(
        w.0,
        match w.1 {
            Some(v) => v,
            None => Seq::empty(),
        },
    )
}

/// A write whose log record can be read back.
pub open spec fn write_restorable(w: Write) -> bool {
    restorable(
        w.0,
        match w.1 {
            Some(v) => v,
            None => Seq::empty(),
        },
    )
}

/// All writes of a transaction become visible at its revision, the last write
/// of each key counting; reads at earlier revisions see none of them.
pub proof fn law_commit_is_atomic(
    m: Contents,
    ws: Seq<Write>,
    revision: u64,
    key: Seq<u8>,
    bound: u64,
)
    requires
        forall|k: Seq<u8>, r: u64| #[trigger] has_version(m, k, r) ==> r < revision,
        forall|i: int| 0 <= i < ws.len() ==> write_recordable(#[trigger] ws[i]),
    ensures
        bound < revision ==> version_at(apply_writes(m, ws, revision), key, bound) == version_at(
            m,
            key,
            bound,
        ),
        bound >= revision ==> match last_write(ws, key) {
            None => version_at(apply_writes(m, ws, revision), key, bound) == version_at(
                m,
                key,
                bound,
            ),
            Some(value) => {
                let v = version_at(apply_writes(m, ws, revision), key, bound);
                v matches Some(x) && x.value == value && x.mod_revision == revision
            },
        },
        forall|k: Seq<u8>, r: u64| #[trigger]
            has_version(apply_writes(m, ws, revision), k, r) ==> r <= revision,
    decreases ws.len(),
{
    if ws.len() > 0 {
        let rest = ws.drop_last();
        assert forall|i: int| 0 <= i < rest.len() implies write_recordable(#[trigger] rest[i]) by {
            assert(write_recordable(ws[i]));
        }
        law_commit_is_atomic(m, rest, revision, key, bound);
        let n = apply_writes(m, rest, revision);
        let w = ws.last();
        assert(write_recordable(ws[ws.len() - 1]));
        let v = written_version(n, w, revision);
        law_version_round_trip(v);
        law_write_keeps_snapshots(n, w.0, revision, encode_version(v), key, bound);
        assert forall|k: Seq<u8>, r: u64| #[trigger]
            has_version(apply_writes(m, ws, revision), k, r) implies r <= revision by {
            lemma_keys_differ(k, r, w.0, revision);
            if version_key(k, r) != version_key(w.0, revision) {
                assert(has_version(n, k, r));
            }
        }
    }
}

/// What a transaction sees of a key: its own last write of it, or else what the
/// store held when it began.
pub open spec fn seen_by(m: Contents, start: u64, writes: Seq<Write>, key: Seq<u8>) -> Option<
    Seq<u8>,
> {
    match last_write(writes, key) {
        Some(value) => value,
        None => match visible(m, key, start) {
            Some(kv) => Some(kv.value),
            None => None,
        },
    }
}

/// What a commit leaves in the store, the revision after it, and the revision that
/// it returns; none where it is refused.
pub open spec fn commit_result(
    m: Contents,
    current: u64,
    start: u64,
    reads: Seq<Seq<u8>>,
    writes: Seq<Write>,
) -> (Contents, u64, Option<u64>) {
    if writes.len() == 0 {
        (m, current, Some(start))
    } else if conflicts(m, start, reads) {
        (m, current, None)
    } else {
        let revision = (current + 1) as u64;
        (apply_writes(m, writes, revision), revision, Some(revision))
    }
}

impl Transaction {
    /// The revision at which the transaction began.
    pub closed spec fn start(&self) -> u64 {
        self.start_revision
    }

    /// The keys that were read from the store so far.
    pub closed spec fn reads(&self) -> Seq<Seq<u8>> {
        Seq::new(self.read_set@.len(), |i: int| self.read_set@[i]@)
    }

    /// What is to be written.
    pub closed spec fn writes(&self) -> Seq<Write> {
        Seq::new(
            self.write_set@.len(),
            |i: int| (self.write_set@[i].0@, value_view(self.write_set@[i].1)),
        )
    }

    /// A transaction that reads what the store holds now.
    pub fn begin<E: StorageEngine>(store: &MvccStore<E>) -> (r: Self)
        ensures
            r.start() == store.current(),
            r.reads() == Seq::<Seq<u8>>::empty(),
            r.writes() == Seq::<Write>::empty(),
    {
        let r = Transaction {
            start_revision: store.revision(),
            read_set: Vec::new(),
            write_set: Vec::new(),
        };
        assert(r.reads() =~= Seq::<Seq<u8>>::empty());
        assert(r.writes() =~= Seq::<Write>::empty());
        r
    }

    /// Reads a key: what the transaction itself wrote last, else what the store
    /// held when it began.
    pub fn get<E: StorageEngine>(&mut self, store: &MvccStore<E>, key: &[u8]) -> (r: Result<
        Option<Vec<u8>>,
        Error,
    >)
        requires
            store.sound(),
        ensures
            final(self).start() == old(self).start(),
            final(self).writes() == old(self).writes(),
            match last_write(old(self).writes(), key@) {
                Some(value) => {
                    &&& r matches Ok(v) && value_view(v) == value
                    &&& final(self).reads() == old(self).reads()
                },
                None => {
                    let seen = visible(store.contents(), key@, old(self).start());
                    &&& r matches Ok(v) && value_view(v) == match seen {
                        Some(kv) => Some(kv.value),
                        None => None,
                    }
                    &&& final(self).reads() == old(self).reads().push(key@)
                },
            },
            r matches Ok(v) && value_view(v) == seen_by(
                store.contents(),
                old(self).start(),
                old(self).writes(),
                key@,
            ),
    {
        let ghost ws = self.writes();
        let mut i: usize = self.write_set.len();
        assert(ws.take(i as int) =~= ws);
        while i > 0
            invariant
                i <= self.write_set.len(),
                ws == self.writes(),
                *self == *old(self),
                last_write(ws, key@) == last_write(ws.take(i as int), key@),
            decreases i,
        {
            i -= 1;
            assert(ws.take(i + 1).drop_last() =~= ws.take(i as int));
            assert(ws.take(i + 1).last() == ws[i as int]);
            if equal(self.write_set[i].0.as_slice(), key) {
                return Ok(copy_value(&self.write_set[i].1));
            }
        }
        let found: Option<KeyValue> = match store.get_at_revision(key, self.start_revision) {
            Ok(f) => f,
            Err(e) => {
                return Err(e);
            },
        };
        self.read_set.push(copy(key));
        assert(self.reads() =~= old(self).reads().push(key@));
        assert(self.writes() =~= old(self).writes());
        match found {
            Some(kv) => Ok(Some(kv.value)),
            None => Ok(None),
        }
    }

    /// Buffers a write.
    pub fn put(&mut self, key: Vec<u8>, value: Vec<u8>)
        ensures
            final(self).start() == old(self).start(),
            final(self).reads() == old(self).reads(),
            final(self).writes() == old(self).writes().push((key@, Some(value@))),
    {
        self.write_set.push((key, Some(value)));
        assert(self.reads() =~= old(self).reads());
        assert(self.writes() =~= old(self).writes().push((key@, Some(value@))));
    }

    /// Buffers a deletion.
    pub fn delete(&mut self, key: Vec<u8>)
        ensures
            final(self).start() == old(self).start(),
            final(self).reads() == old(self).reads(),
            final(self).writes() == old(self).writes().push((key@, None)),
    {
        self.write_set.push((key, None));
        assert(self.reads() =~= old(self).reads());
        assert(self.writes() =~= old(self).writes().push((key@, None)));
    }

    /// Commits: without writes there is nothing to do; where something that was
    /// read was written or deleted since the transaction began, nothing is
    /// written; else all writes are made at one
    /// new revision, which is returned.
    pub fn commit<E: StorageEngine>(self, store: &mut MvccStore<E>) -> (r: Result<u64, Error>)
        requires
            old(store).sound(),
            self.writes().len() > 0 && !conflicts(
                old(store).contents(),
                self.start(),
                self.reads(),
            ) ==> {
                &&& old(store).current() < u64::MAX
                &&& forall|i: int|
                    0 <= i < self.writes().len() ==> write_recordable(#[trigger] self.writes()[i])
            },
        ensures
            final(store).sound(),
            (forall|i: int|
                0 <= i < self.writes().len() ==> write_restorable(#[trigger] self.writes()[i]))
                ==> stays_durable(*old(store), *final(store)),
            if self.writes().len() == 0 {
                &&& r == Ok::<u64, Error>(self.start())
                &&& final(store).contents() == old(store).contents()
                &&& final(store).current() == old(store).current()
            } else if conflicts(old(store).contents(), self.start(), self.reads()) {
                &&& r == Err::<u64, Error>(Error::TransactionConflict)
                &&& final(store).contents() == old(store).contents()
                &&& final(store).current() == old(store).current()
            } else {
                &&& r == Ok::<u64, Error>((old(store).current() + 1) as u64)
                &&& final(store).current() == old(store).current() + 1
                &&& final(store).contents() == apply_writes(
                    old(store).contents(),
                    self.writes(),
                    (old(store).current() + 1) as u64,
                )
            },
            ({
                let (contents, current, revision) = commit_result(
                    old(store).contents(),
                    old(store).current(),
                    self.start(),
                    self.reads(),
                    self.writes(),
                );
                &&& final(store).contents() == contents
                &&& final(store).current() == current
                &&& match revision {
                    Some(returned) => r == Ok::<u64, Error>(returned),
                    None => r == Err::<u64, Error>(Error::TransactionConflict),
                }
            }),
    {
        if self.write_set.is_empty() {
            return Ok(self.start_revision);
        }
        let ghost m = store.contents();
        let ghost rs = self.reads();
        let mut i: usize = 0;
        while i < self.read_set.len()
            invariant
                i <= self.read_set.len(),
                store.sound(),
                *store == *old(store),
                m == store.contents(),
                rs == self.reads(),
                self.writes().len() > 0,
                forall|j: int|
                    0 <= j < i ==> !changed_after(m, #[trigger] rs[j], self.start_revision),
            decreases self.read_set.len() - i,
        {
            assert(rs[i as int] == self.read_set@[i as int]@);
            match store.changed_since(self.read_set[i].as_slice(), self.start_revision) {
                Ok(changed) => {
                    if changed {
                        return Err(Error::TransactionConflict);
                    }
                },
                Err(e) => {
                    return Err(e);
                },
            }
            i += 1;
        }
        let commit_revision: u64 = store.allocate_revision();
        let ghost ws = self.writes();
        let mut j: usize = 0;
        assert(ws.take(0) =~= Seq::<Write>::empty());
        while j < self.write_set.len()
            invariant
                j <= self.write_set.len(),
                store.sound(),
                store.current() == commit_revision,
                ws == self.writes(),
                forall|x: int| 0 <= x < ws.len() ==> write_recordable(#[trigger] ws[x]),
                store.contents() == apply_writes(m, ws.take(j as int), commit_revision),
                (forall|x: int| 0 <= x < ws.len() ==> write_restorable(#[trigger] ws[x]))
                    ==> stays_durable(*old(store), *store),
            decreases self.write_set.len() - j,
        {
            let ghost n = store.contents();
            let ghost w = ws[j as int];
            assert(write_recordable(ws[j as int]));
            assert(ws.take(j + 1).drop_last() =~= ws.take(j as int));
            let key: &[u8] = self.write_set[j].0.as_slice();
            let create_revision: u64 = if self.write_set[j].1.is_some() {
                match store.get(key) {
                    Ok(Some(kv)) => kv.create_revision,
                    Ok(None) => commit_revision,
                    Err(e) => {
                        return Err(e);
                    },
                }
            } else {
                0
            };
            let v = VersionedValue {
                value: copy_value(&self.write_set[j].1),
                create_revision,
                mod_revision: commit_revision,
                lease_id: 0,
                ttl_seconds: 0,
            };
            assert(v@ == written_version(n, w, commit_revision));
            let ghost before = *store;
            match store.put_versioned(key, &v, commit_revision) {
                Ok(()) => {
                    proof {
                        if forall|x: int| 0 <= x < ws.len() ==> write_restorable(#[trigger] ws[x]) {
                            assert(write_restorable(ws[j as int]));
                            lemma_stays_durable(*old(store), before, *store);
                        }
                    }
                },
                Err(e) => {
                    return Err(e);
                },
            }
            j += 1;
        }
        assert(ws.take(j as int) =~= ws);
        Ok(commit_revision)
    }
}

} // verus!
