//! The multi-version store over a storage engine.

use vstd::prelude::*;
use crate::bytes::{
    be_bytes, copy, equal, lemma_be_zero, lemma_lex_asymmetric, lemma_lex_at,
    lemma_lex_common_prefix, lemma_lex_irreflexive, lemma_lex_prefix, lemma_lex_split,
    lemma_lex_total, lemma_lex_transitive, lemma_ones_greatest, lemma_zeros_least, lex_le, lex_lt,
    precedes,
};
use crate::error::Error;
use crate::mvcc::select::{is_first, lemma_first_is_newest, mark_firsts};
use crate::mvcc::version::{
    decode_key, decode_version, encode_key, encode_key_prefix_start, encode_version,
    law_key_round_trip, law_newest_first, law_version_round_trip, lemma_key_of_parts, revision_of,
    user_key_of, version_key, VersionView, VersionedValue,
};
use crate::storage::bloom::BloomSize;
use crate::storage::disk::{actions_view, apply_all, DiskAction, DiskView};
use crate::storage::engine::{readable_back, StorageEngine};
use crate::storage::layers::{lists_range, rows_view};
use crate::storage::lsm::LsmTree;
use crate::storage::run::in_range;
use crate::storage::wal::MAX_RECORD_SIZE;

verus! {

/// What an engine holds.
pub type Contents = Map<Seq<u8>, Seq<u8>>;

/// A key with its value and what is recorded with it.
#[derive(Debug, PartialEq, Eq)]
pub struct KeyValue {
    pub key: Vec<u8>,
    pub value: Vec<u8>,
    pub create_revision: u64,
    pub mod_revision: u64,
    pub lease_id: i64,
}

/// What a key and its value say.
pub struct KeyValueView {
    pub key: Seq<u8>,
    pub value: Seq<u8>,
    pub create_revision: u64,
    pub mod_revision: u64,
    pub lease_id: i64,
}

impl View for KeyValue {
    type V = KeyValueView;

    open spec fn view(&self) -> KeyValueView {
        KeyValueView {
            key: self.key@,
            value: self.value@,
            create_revision: self.create_revision,
            mod_revision: self.mod_revision,
            lease_id: self.lease_id,
        }
    }
}

/// There is a version of `key` at `revision`.
pub open spec fn has_version(m: Contents, key: Seq<u8>, revision: u64) -> bool {
    m.contains_key(version_key(key, revision))
}

/// `revision` is that of the newest version of `key` up to `bound`.
pub open spec fn is_newest(m: Contents, key: Seq<u8>, bound: u64, revision: u64) -> bool {
    &&& revision <= bound
    &&& has_version(m, key, revision)
    &&& forall|r: u64| r <= bound && #[trigger] has_version(m, key, r) ==> r <= revision
}

/// There is a version of `key`, be it a deletion, that is newer than `revision`.
pub open spec fn changed_after(m: Contents, key: Seq<u8>, revision: u64) -> bool {
    exists|r: u64| r > revision && #[trigger] has_version(m, key, r)
}

/// The newest version of `key` up to `bound`, where there is one.
pub open spec fn version_at(m: Contents, key: Seq<u8>, bound: u64) -> Option<VersionView> {
    if exists|r: u64| is_newest(m, key, bound, r) {
        let r = choose|r: u64| is_newest(m, key, bound, r);
        decode_version(m[version_key(key, r)])
    } else {
        None
    }
}

/// What a read of `key` at `bound` sees: nothing where there is no version or
/// the newest one is a deletion.
pub open spec fn visible(m: Contents, key: Seq<u8>, bound: u64) -> Option<KeyValueView> {
    match version_at(m, key, bound) {
        Some(v) => match v.value {
            Some(value) => Some(
                KeyValueView {
                    key,
                    value,
                    create_revision: v.create_revision,
                    mod_revision: v.mod_revision,
                    lease_id: v.lease_id,
                },
            ),
            None => None,
        },
        None => None,
    }
}

/// Every entry of an engine is a version that can be read, with a key short
/// enough for a deletion of it to be recorded.
pub open spec fn all_versions(m: Contents) -> bool {
    forall|k: Seq<u8>| #[trigger]
        m.contains_key(k) ==> 8 <= k.len() <= u32::MAX - 46 && decode_version(m[k]) is Some
}

/// At most one revision is that of the newest version.
pub proof fn lemma_newest(m: Contents, key: Seq<u8>, bound: u64, revision: u64)
    requires
        is_newest(m, key, bound, revision),
    ensures
        version_at(m, key, bound) == decode_version(m[version_key(key, revision)]),
{
    let r = choose|r: u64| is_newest(m, key, bound, r);
    assert(is_newest(m, key, bound, r));
    assert(has_version(m, key, r) && has_version(m, key, revision));
}

/// Where there is a version up to a bound there is a newest one.
pub proof fn lemma_newest_exists(m: Contents, key: Seq<u8>, bound: u64, r: u64) -> (n: u64)
    requires
        r <= bound,
        has_version(m, key, r),
    ensures
        is_newest(m, key, bound, n),
    decreases bound - r,
{
    if is_newest(m, key, bound, r) {
        r
    } else {
        let s = choose|s: u64| s <= bound && #[trigger] has_version(m, key, s) && s > r;
        lemma_newest_exists(m, key, bound, s)
    }
}

/// Without a version up to a bound nothing is seen.
pub proof fn lemma_no_version(m: Contents, key: Seq<u8>, bound: u64)
    requires
        forall|r: u64| r <= bound ==> !#[trigger] has_version(m, key, r),
    ensures
        version_at(m, key, bound) is None,
        visible(m, key, bound) is None,
{
}

/// Internal keys are equal only where user keys and revisions are.
pub proof fn lemma_keys_differ(a: Seq<u8>, r: u64, b: Seq<u8>, s: u64)
    ensures
        version_key(a, r) == version_key(b, s) <==> a == b && r == s,
{
    law_key_round_trip(a, r);
    law_key_round_trip(b, s);
}

/// A version of a key, no older than every other one, is what reads from its
/// revision on see; reads at earlier revisions and reads of other keys see what
/// they saw.
pub proof fn law_write_keeps_snapshots(
    m: Contents,
    key: Seq<u8>,
    revision: u64,
    data: Seq<u8>,
    other: Seq<u8>,
    bound: u64,
)
    requires
        forall|r: u64| #[trigger] has_version(m, key, r) ==> r <= revision,
    ensures
        bound >= revision ==> version_at(
            m.insert(version_key(key, revision), data),
            key,
            bound,
        ) == decode_version(data),
        bound < revision ==> version_at(m.insert(version_key(key, revision), data), key, bound)
            == version_at(m, key, bound),
        other != key ==> version_at(m.insert(version_key(key, revision), data), other, bound)
            == version_at(m, other, bound),
{
    let n = m.insert(version_key(key, revision), data);
    let c = version_key(key, revision);
    assert(n.remove(c) =~= m.remove(c));
    assert forall|k: Seq<u8>, r: u64| #[trigger] has_version(n, k, r) == (has_version(m, k, r) || (k
        == key && r == revision)) by {
        lemma_keys_differ(k, r, key, revision);
    }
    if bound >= revision {
        assert(is_newest(n, key, bound, revision));
        lemma_newest(n, key, bound, revision);
    } else {
        lemma_same_versions(m, n, key, bound, key, revision);
    }
    if other != key {
        lemma_same_versions(m, n, other, bound, key, revision);
    }
}

/// An entry that is no version of a key up to a bound does not matter to it.
pub proof fn lemma_same_versions(
    m: Contents,
    n: Contents,
    key: Seq<u8>,
    bound: u64,
    changed: Seq<u8>,
    revision: u64,
)
    requires
        key != changed || bound < revision,
        n.remove(version_key(changed, revision)) == m.remove(version_key(changed, revision)),
    ensures
        version_at(n, key, bound) == version_at(m, key, bound),
        visible(n, key, bound) == visible(m, key, bound),
{
    let c = version_key(changed, revision);
    assert forall|r: u64| r <= bound implies #[trigger] has_version(n, key, r) == has_version(
        m,
        key,
        r,
    ) && n[version_key(key, r)] == m[version_key(key, r)] by {
        lemma_keys_differ(key, r, changed, revision);
        let k = version_key(key, r);
        assert(n.remove(c).contains_key(k) == n.contains_key(k));
        assert(m.remove(c).contains_key(k) == m.contains_key(k));
        assert(n.remove(c)[k] == n[k]);
        assert(m.remove(c)[k] == m[k]);
    }
    assert forall|r: u64| is_newest(n, key, bound, r) == is_newest(m, key, bound, r) by {
        if is_newest(n, key, bound, r) {
            assert(has_version(n, key, r));
            assert forall|s: u64| s <= bound && #[trigger] has_version(m, key, s) implies s <= r by {
                assert(has_version(n, key, s));
            }
        }
        if is_newest(m, key, bound, r) {
            assert(has_version(m, key, r));
            assert forall|s: u64| s <= bound && #[trigger] has_version(n, key, s) implies s <= r by {
                assert(has_version(m, key, s));
            }
        }
    }
    if exists|r: u64| is_newest(m, key, bound, r) {
        let r = choose|r: u64| is_newest(m, key, bound, r);
        assert(is_newest(n, key, bound, r));
        lemma_newest(m, key, bound, r);
        lemma_newest(n, key, bound, r);
        assert(has_version(n, key, r));
    } else {
        assert(!exists|r: u64| is_newest(n, key, bound, r));
    }
}

/// A store of versions over an engine, with the revision of the last write.
pub struct MvccStore<E: StorageEngine> {
    engine: E,
    current_revision: u64,
}

/// What a written value has as its creation revision: that of the key where the
/// key has a value, else the revision of the write.
pub open spec fn creation(m: Contents, key: Seq<u8>, revision: u64) -> u64 {
    match visible(m, key, u64::MAX) {
        Some(kv) => kv.create_revision,
        None => revision,
    }
}

/// The version that a deletion writes.
pub open spec fn deletion_marker(revision: u64) -> VersionView {
    VersionView {
        value: None,
        create_revision: 0,
        mod_revision: revision,
        lease_id: 0,
        ttl_seconds: 0,
    }
}

/// What an engine holds after a version was written.
pub open spec fn with_version(m: Contents, key: Seq<u8>, revision: u64, v: VersionView) -> Contents {
    m.insert(version_key(key, revision), encode_version(v))
}

/// What an engine holds after a value was written under a revision.
pub open spec fn value_put(
    m: Contents,
    key: Seq<u8>,
    value: Seq<u8>,
    revision: u64,
    lease_id: i64,
    ttl_seconds: i64,
) -> Contents {
    with_version(
        m,
        key,
        revision,
        VersionView {
            value: Some(value),
            create_revision: creation(m, key, revision),
            mod_revision: revision,
            lease_id,
            ttl_seconds,
        },
    )
}

/// What an engine holds after a key was deleted under a revision, and whether the
/// key had a value.
pub open spec fn key_deleted(m: Contents, key: Seq<u8>, revision: u64) -> (Contents, bool) {
    (with_version(m, key, revision, deletion_marker(revision)), visible(m, key, u64::MAX) is Some)
}

/// A key and a value whose version can be recorded.
pub open spec fn recordable(key: Seq<u8>, value: Seq<u8>) -> bool {
    key.len() + value.len() + 54 <= u32::MAX
}

/// A key and a value whose version leaves a log record that can be read back.
pub open spec fn restorable(key: Seq<u8>, value: Seq<u8>) -> bool {
    key.len() + value.len() + 54 <= MAX_RECORD_SIZE
}

/// Every disk that is enough to restore the store before is enough after.
pub open spec fn stays_durable<E: StorageEngine>(before: MvccStore<E>, after: MvccStore<E>) -> bool {
    forall|d: DiskView| #[trigger] before.durable(d) ==> after.durable(d)
}

/// The keys are short enough for log records of their deletion to be read back.
pub open spec fn short_keys(m: Contents) -> bool {
    forall|k: Seq<u8>| #[trigger] m.contains_key(k) ==> k.len() + 46 <= MAX_RECORD_SIZE
}

/// Durability is kept from step to step.
pub proof fn lemma_stays_durable<E: StorageEngine>(
    a: MvccStore<E>,
    b: MvccStore<E>,
    c: MvccStore<E>,
)
    requires
        stays_durable(a, b),
        stays_durable(b, c),
    ensures
        stays_durable(a, c),
{
    assert forall|d: DiskView| #[trigger] a.durable(d) implies c.durable(d) by {
        assert(b.durable(d));
    }
}

/// No version is newer than `revision`.
pub open spec fn dated(m: Contents, revision: u64) -> bool {
    forall|k: Seq<u8>, r: u64| #[trigger] has_version(m, k, r) ==> r <= revision
}

/// What a version gives to reads of its key.
pub open spec fn shown(key: Seq<u8>, v: VersionView) -> Option<KeyValueView> {
    match v.value {
        Some(value) => Some(
            KeyValueView {
                key,
                value,
                create_revision: v.create_revision,
                mod_revision: v.mod_revision,
                lease_id: v.lease_id,
            },
        ),
        None => None,
    }
}

/// A read gives back what was written last: from the revision of a write on,
/// reads of its key see its value, or nothing after a deletion; reads at earlier
/// revisions and reads of other keys see what they saw. Revisions that grow
/// with every write stay the newest.
pub proof fn law_read_returns_write(
    m: Contents,
    current: u64,
    key: Seq<u8>,
    revision: u64,
    v: VersionView,
    other: Seq<u8>,
    bound: u64,
)
    requires
        dated(m, current),
        current <= revision,
        v.value matches Some(x) ==> x.len() <= u32::MAX,
    ensures
        dated(with_version(m, key, revision, v), revision),
        visible(with_version(m, key, revision, v), key, bound) == if bound >= revision {
            shown(key, v)
        } else {
            visible(m, key, bound)
        },
        other != key ==> visible(with_version(m, key, revision, v), other, bound) == visible(
            m,
            other,
            bound,
        ),
{
    law_version_round_trip(v);
    law_write_keeps_snapshots(m, key, revision, encode_version(v), other, bound);
    let n = with_version(m, key, revision, v);
    assert forall|k: Seq<u8>, r: u64| #[trigger] has_version(n, k, r) implies r <= revision by {
        lemma_keys_differ(k, r, key, revision);
        if !(k == key && r == revision) {
            assert(has_version(m, k, r));
        }
    }
}

/// A key and its version as they are read.
pub open spec fn same_pair(found: Option<KeyValue>, s: Option<KeyValueView>) -> bool {
    match s {
        Some(v) => found matches Some(kv) && kv@ == v,
        None => found is None,
    }
}

impl<E: StorageEngine> MvccStore<E> {
    /// What the engine holds.
    pub closed spec fn contents(&self) -> Contents {
        self.engine.contents()
    }

    /// The revision of the last write.
    pub closed spec fn current(&self) -> u64 {
        self.current_revision
    }

    /// The disk `d`, once the engine's pending actions are carried out, holds
    /// what the engine needs to be restored.
    pub closed spec fn durable(&self, d: DiskView) -> bool {
        self.engine.durable(d)
    }

    /// The engine the store writes to.
    pub closed spec fn engine_of(&self) -> E {
        self.engine
    }

    /// The engine is sound and holds versions only.
    pub closed spec fn sound(&self) -> bool {
        self.engine.sound() && all_versions(self.engine.contents())
    }

    /// A store at revision zero.
    pub fn new(engine: E) -> (r: Self)
        requires
            engine.sound(),
            all_versions(engine.contents()),
        ensures
            r.sound(),
            r.contents() == engine.contents(),
            r.current() == 0,
            forall|d: DiskView| #[trigger] r.durable(d) == engine.durable(d),
    {
        MvccStore { engine, current_revision: 0 }
    }

    /// Sets the revision, as after a restart.
    pub fn set_revision(&mut self, revision: u64)
        ensures
            final(self).current() == revision,
            final(self).contents() == old(self).contents(),
            final(self).sound() == old(self).sound(),
            stays_durable(*old(self), *final(self)),
    {
        self.current_revision = revision;
    }

    /// The revision of the last write.
    pub fn revision(&self) -> (r: u64)
        ensures
            r == self.current(),
    {
        self.current_revision
    }

    fn next_revision(&mut self) -> (r: u64)
        requires
            old(self).current_revision < u64::MAX,
        ensures
            r == old(self).current_revision + 1,
            final(self).current_revision == r,
            final(self).engine == old(self).engine,
    {
        self.current_revision = self.current_revision + 1;
        self.current_revision
    }

    /// The newest version of a key up to a revision, with its own revision.
    fn find_version(&self, key: &[u8], revision: u64) -> (r: Result<
        Option<(u64, VersionedValue)>,
        Error,
    >)
        requires
            self.sound(),
        ensures
            r matches Ok(f) && match f {
                Some((rev, x)) => is_newest(self.contents(), key@, revision, rev) && version_at(
                    self.contents(),
                    key@,
                    revision,
                ) == Some(x@),
                None => version_at(self.contents(), key@, revision) is None && forall|n: u64|
                    n <= revision ==> !#[trigger] has_version(self.contents(), key@, n),
            },
    {
        let ghost m = self.engine.contents();
        let start: Vec<u8> = encode_key_prefix_start(key);
        let mut end: Vec<u8> = encode_key(key, 0);
        let ghost last = end@;
        end.push(0x00);
        proof {
            lemma_lex_prefix(last, seq![0u8]);
            assert(last + seq![0u8] =~= end@);
        }
        let rows: Vec<(Vec<u8>, Vec<u8>)> = match self.engine.scan(start.as_slice(), end.as_slice()) {
            Ok(rows) => rows,
            Err(e) => {
                return Err(e);
            },
        };
        let ghost rs = rows_view(rows@);
        proof {
            assert forall|r: u64| #[trigger] has_version(m, key@, r) implies rs.contains(
                (version_key(key@, r), m[version_key(key@, r)]),
            ) by {
                law_newest_first(key@, u64::MAX, r);
                law_newest_first(key@, r, 0);
                let k = version_key(key@, r);
                if k != last {
                    lemma_lex_transitive(k, last, end@);
                }
                assert(in_range(k, start@, end@));
            }
        }
        let mut i: usize = 0;
        while i < rows.len()
            invariant
                i <= rows.len(),
                m == self.engine.contents(),
                all_versions(m),
                rs == rows_view(rows@),
                lists_range(rs, m, start@, end@),
                forall|r: u64| #[trigger]
                    has_version(m, key@, r) ==> rs.contains(
                        (version_key(key@, r), m[version_key(key@, r)]),
                    ),
                forall|j: int|
                    0 <= j < i ==> (user_key_of((#[trigger] rs[j]).0) != key@ || revision_of(rs[j].0)
                        > revision),
            decreases rows.len() - i,
        {
            let ghost row = rs[i as int];
            assert(m.contains_key(row.0));
            let (user_key, rev) = decode_key(rows[i].0.as_slice());
            if equal(user_key, key) && rev <= revision {
                let v: VersionedValue = VersionedValue::decode(rows[i].1.as_slice());
                proof {
                    lemma_key_of_parts(row.0);
                    assert(row.0 == version_key(key@, rev));
                    assert forall|r: u64| r <= revision && #[trigger] has_version(
                        m,
                        key@,
                        r,
                    ) implies r <= rev by {
                        let k = version_key(key@, r);
                        let j = rs.index_of((k, m[k]));
                        assert(rs[j].0 == k);
                        law_key_round_trip(key@, r);
                        assert(j >= i);
                        if j > i {
                            assert(lex_lt(rs[i as int].0, rs[j].0));
                            law_newest_first(key@, rev, r);
                        } else {
                            lemma_keys_differ(key@, r, key@, rev);
                        }
                    }
                    assert(is_newest(m, key@, revision, rev));
                    lemma_newest(m, key@, revision, rev);
                }
                return Ok(Some((rev, v)));
            }
            i += 1;
        }
        proof {
            assert forall|r: u64| r <= revision implies !#[trigger] has_version(m, key@, r) by {
                if has_version(m, key@, r) {
                    let k = version_key(key@, r);
                    let j = rs.index_of((k, m[k]));
                    assert(rs[j].0 == k);
                    law_key_round_trip(key@, r);
                }
            }
            lemma_no_version(m, key@, revision);
        }
        Ok(None)
    }

    /// The newest version of a key up to a revision.
    fn read_version(&self, key: &[u8], revision: u64) -> (r: Result<Option<VersionedValue>, Error>)
        requires
            self.sound(),
        ensures
            r matches Ok(v) && match version_at(self.contents(), key@, revision) {
                Some(s) => v matches Some(x) && x@ == s,
                None => v is None,
            },
    {
        match self.find_version(key, revision) {
            Ok(Some((_, v))) => Ok(Some(v)),
            Ok(None) => Ok(None),
            Err(e) => Err(e),
        }
    }

    /// Whether a key was written or deleted after a revision.
    pub fn changed_since(&self, key: &[u8], revision: u64) -> (r: Result<bool, Error>)
        requires
            self.sound(),
        ensures
            r == Ok::<bool, Error>(changed_after(self.contents(), key@, revision)),
    {
        match self.find_version(key, u64::MAX) {
            Ok(Some((newest, _))) => {
                proof {
                    if newest > revision {
                        assert(has_version(self.contents(), key@, newest));
                    }
                }
                Ok(newest > revision)
            },
            Ok(None) => Ok(false),
            Err(e) => Err(e),
        }
    }

    /// The newest value of a key.
    pub fn get(&self, key: &[u8]) -> (r: Result<Option<KeyValue>, Error>)
        requires
            self.sound(),
        ensures
            r matches Ok(kv) && same_pair(kv, visible(self.contents(), key@, u64::MAX)),
    {
        self.get_at_revision(key, u64::MAX)
    }

    /// The value of a key as of a revision.
    pub fn get_at_revision(&self, key: &[u8], revision: u64) -> (r: Result<
        Option<KeyValue>,
        Error,
    >)
        requires
            self.sound(),
        ensures
            r matches Ok(kv) && same_pair(kv, visible(self.contents(), key@, revision)),
    {
        match self.read_version(key, revision) {
            Ok(Some(v)) => match v.value {
                Some(value) => Ok(
                    Some(
                        KeyValue {
                            key: copy(key),
                            value,
                            create_revision: v.create_revision,
                            mod_revision: v.mod_revision,
                            lease_id: v.lease_id,
                        },
                    ),
                ),
                None => Ok(None),
            },
            Ok(None) => Ok(None),
            Err(e) => Err(e),
        }
    }

    /// Writes a value; returns the revision of the write.
    pub fn put(&mut self, key: &[u8], value: &[u8]) -> (r: Result<u64, Error>)
        requires
            old(self).sound(),
            old(self).current() < u64::MAX,
            recordable(key@, value@),
        ensures
            r == Ok::<u64, Error>((old(self).current() + 1) as u64),
            final(self).sound(),
            final(self).current() == old(self).current() + 1,
            restorable(key@, value@) ==> stays_durable(*old(self), *final(self)),
            final(self).contents() == with_version(
                old(self).contents(),
                key@,
                (old(self).current() + 1) as u64,
                VersionView {
                    value: Some(value@),
                    create_revision: creation(
                        old(self).contents(),
                        key@,
                        (old(self).current() + 1) as u64,
                    ),
                    mod_revision: (old(self).current() + 1) as u64,
                    lease_id: 0,
                    ttl_seconds: 0,
                },
            ),
            final(self).contents() == value_put(
                old(self).contents(),
                key@,
                value@,
                (old(self).current() + 1) as u64,
                0,
                0,
            ),
    {
        self.put_with_options(key, value, 0, 0)
    }

    /// Writes a value with a lease and a time to live; returns the revision of
    /// the write.
    pub fn put_with_options(
        &mut self,
        key: &[u8],
        value: &[u8],
        lease_id: i64,
        ttl_seconds: i64,
    ) -> (r: Result<u64, Error>)
        requires
            old(self).sound(),
            old(self).current() < u64::MAX,
            recordable(key@, value@),
        ensures
            r == Ok::<u64, Error>((old(self).current() + 1) as u64),
            final(self).sound(),
            final(self).current() == old(self).current() + 1,
            restorable(key@, value@) ==> stays_durable(*old(self), *final(self)),
            final(self).contents() == with_version(
                old(self).contents(),
                key@,
                (old(self).current() + 1) as u64,
                VersionView {
                    value: Some(value@),
                    create_revision: creation(
                        old(self).contents(),
                        key@,
                        (old(self).current() + 1) as u64,
                    ),
                    mod_revision: (old(self).current() + 1) as u64,
                    lease_id,
                    ttl_seconds,
                },
            ),
            final(self).contents() == value_put(
                old(self).contents(),
                key@,
                value@,
                (old(self).current() + 1) as u64,
                lease_id,
                ttl_seconds,
            ),
    {
        let revision: u64 = self.next_revision();
        let create_revision: u64 = match self.get(key) {
            Ok(Some(kv)) => kv.create_revision,
            Ok(None) => revision,
            Err(e) => {
                return Err(e);
            },
        };
        let v = VersionedValue {
            value: Some(copy(value)),
            create_revision,
            mod_revision: revision,
            lease_id,
            ttl_seconds,
        };
        let ghost counted = *self;
        assert(stays_durable(*old(self), counted));
        match self.put_versioned(key, &v, revision) {
            Ok(()) => {
                proof {
                    if restorable(key@, value@) {
                        lemma_stays_durable(*old(self), counted, *self);
                    }
                }
                Ok(revision)
            },
            Err(e) => Err(e),
        }
    }

    /// Deletes a key; returns the revision of the deletion and whether the key
    /// had a value.
    pub fn delete(&mut self, key: &[u8]) -> (r: Result<(u64, bool), Error>)
        requires
            old(self).sound(),
            old(self).current() < u64::MAX,
            recordable(key@, Seq::empty()),
        ensures
            r == Ok::<(u64, bool), Error>(
                (
                    (old(self).current() + 1) as u64,
                    visible(old(self).contents(), key@, u64::MAX) is Some,
                ),
            ),
            final(self).sound(),
            final(self).current() == old(self).current() + 1,
            restorable(key@, Seq::empty()) ==> stays_durable(*old(self), *final(self)),
            final(self).contents() == with_version(
                old(self).contents(),
                key@,
                (old(self).current() + 1) as u64,
                deletion_marker((old(self).current() + 1) as u64),
            ),
            r matches Ok((revision, existed)) && revision == old(self).current() + 1 && (
                final(self).contents(),
                existed,
            ) == key_deleted(old(self).contents(), key@, revision),
    {
        let existed: bool = match self.get(key) {
            Ok(Some(_)) => true,
            Ok(None) => false,
            Err(e) => {
                return Err(e);
            },
        };
        let revision: u64 = self.next_revision();
        let v = VersionedValue {
            value: None,
            create_revision: 0,
            mod_revision: revision,
            lease_id: 0,
            ttl_seconds: 0,
        };
        let ghost counted = *self;
        assert(stays_durable(*old(self), counted));
        match self.put_versioned(key, &v, revision) {
            Ok(()) => {
                proof {
                    if restorable(key@, Seq::empty()) {
                        lemma_stays_durable(*old(self), counted, *self);
                    }
                }
                Ok((revision, existed))
            },
            Err(e) => Err(e),
        }
    }

    /// Writes a version at a revision.
    pub fn put_versioned(&mut self, key: &[u8], v: &VersionedValue, revision: u64) -> (r: Result<
        (),
        Error,
    >)
        requires
            old(self).sound(),
            recordable(
                key@,
                match v.value {
                    Some(x) => x@,
                    None => Seq::empty(),
                },
            ),
        ensures
            r is Ok,
            final(self).sound(),
            final(self).current() == old(self).current(),
            final(self).contents() == with_version(old(self).contents(), key@, revision, v@),
            restorable(
                key@,
                match v.value {
                    Some(x) => x@,
                    None => Seq::empty(),
                },
            ) ==> stays_durable(*old(self), *final(self)),
    {
        proof {
            law_key_round_trip(key@, revision);
            law_version_round_trip(v@);
        }
        let internal_key: Vec<u8> = encode_key(key, revision);
        let encoded: Vec<u8> = v.encode();
        self.engine.put(internal_key.as_slice(), encoded.as_slice())
    }

    /// Takes the next revision, for writes that share one.
    pub fn allocate_revision(&mut self) -> (r: u64)
        requires
            old(self).current() < u64::MAX,
        ensures
            r == old(self).current() + 1,
            final(self).current() == r,
            final(self).contents() == old(self).contents(),
            final(self).sound() == old(self).sound(),
            stays_durable(*old(self), *final(self)),
    {
        self.next_revision()
    }

    /// The engine.
    pub fn engine(&self) -> (r: &E)
        ensures
            *r == self.engine_of(),
            r.contents() == self.contents(),
            self.sound() ==> r.sound() && all_versions(r.contents()),
    {
        &self.engine
    }
}

/// The byte string 255 repeated.
pub open spec fn ones(n: nat) -> Seq<u8> {
    Seq::new(n, |i: int| 0xFFu8)
}

/// The internal keys of all user keys in a range lie between these bounds.
pub open spec fn spans(from: Seq<u8>, to: Seq<u8>, start: Seq<u8>, end: Seq<u8>) -> bool {
    forall|u: Seq<u8>, r: u64|
        in_range(u, start, end) ==> in_range(#[trigger] version_key(u, r), from, to)
}

/// The smallest internal key of a user key does not exceed those of the user
/// keys that come after it.
proof fn lemma_span_start(start: Seq<u8>, u: Seq<u8>, r: u64)
    requires
        lex_le(start, u),
    ensures
        lex_le(version_key(start, u64::MAX), version_key(u, r)),
{
    law_newest_first(start, u64::MAX, r);
    law_key_round_trip(u, r);
    lemma_be_zero(8);
    let zeros = be_bytes(0, 8);
    let a = version_key(start, u64::MAX);
    let b = version_key(u, r);
    assert(a == start + zeros);
    if start != u {
        let n = lemma_lex_split(start, u);
        if n < start.len() {
            assert(a.take(n) =~= start.take(n));
            assert(b.take(n) =~= u.take(n));
            lemma_lex_at(a, b, n);
        } else {
            assert(start.take(n) =~= start);
            let rest = b.skip(n);
            assert(b =~= start + rest) by {
                assert forall|i: int| 0 <= i < n implies b[i] == start[i] by {
                    assert(start.take(n)[i] == u.take(n)[i]);
                }
            }
            lemma_zeros_least(zeros, rest);
            lemma_lex_common_prefix(start, zeros, rest);
        }
    }
}

/// A byte string, followed by enough bytes 255, bounds what starts with it.
proof fn lemma_span_prefix(p: Seq<u8>, t: Seq<u8>, n: nat)
    requires
        t.len() < n,
    ensures
        lex_lt(p + t, p + ones(n)),
{
    lemma_ones_greatest(t, ones(n));
    lemma_lex_common_prefix(p, t, ones(n));
}

/// The upper bound for a scan: `end`, unless a proper prefix of it lies in the
/// range; then the shortest such prefix, followed by bytes 255.
fn scan_end(start: &[u8], end: &[u8]) -> (r: Vec<u8>)
    ensures
        spans(version_key(start@, u64::MAX), r@, start@, end@),
{
    let ghost s = start@;
    let ghost e = end@;
    let mut n: usize = 0;
    while n < end.len() && precedes(&end[0..n], start)
        invariant
            n <= end.len(),
            s == start@,
            e == end@,
            forall|x: int| 0 <= x < n ==> lex_lt(#[trigger] e.take(x), s),
        decreases end.len() - n,
    {
        assert(e.subrange(0, n as int) =~= e.take(n as int));
        n += 1;
    }
    let mut bound: Vec<u8> = copy(&end[0..n]);
    assert(e.subrange(0, n as int) =~= e.take(n as int));
    let ghost p = e.take(n as int);
    let ghost width = (e.len() + 9) as nat;
    if n < end.len() {
        let mut i: usize = 0;
        let ghost head = bound@;
        assert(head + ones(0) =~= head);
        while i < end.len()
            invariant
                i <= end.len(),
                e == end@,
                bound@ == head + ones(i as nat),
            decreases end.len() - i,
        {
            bound.push(0xFF);
            i += 1;
            assert(bound@ =~= head + ones(i as nat));
        }
        let mut j: usize = 0;
        while j < 9
            invariant
                j <= 9,
                bound@ == head + ones((e.len() + j) as nat),
            decreases 9 - j,
        {
            bound.push(0xFF);
            j += 1;
            assert(bound@ =~= head + ones((e.len() + j) as nat));
        }
    }
    proof {
        let to = bound@;
        assert forall|u: Seq<u8>, r: u64| in_range(u, s, e) implies in_range(
            #[trigger] version_key(u, r),
            version_key(s, u64::MAX),
            to,
        ) by {
            let k = version_key(u, r);
            law_key_round_trip(u, r);
            lemma_span_start(s, u, r);
            let x = lemma_lex_split(u, e);
            if x < u.len() {
                assert(k.take(x) =~= u.take(x));
                lemma_lex_at(k, e, x);
                if n < e.len() {
                    assert(e =~= p + e.skip(n as int));
                    lemma_span_prefix(p, e.skip(n as int), width);
                    lemma_lex_transitive(k, e, to);
                } else {
                    assert(to =~= e);
                }
            } else {
                // `u` is a proper prefix of `end`.
                assert(u =~= e.take(x)) by {
                    assert(u.take(x) =~= u);
                }
                lemma_lex_irreflexive(u);
                if lex_lt(u, s) {
                    lemma_lex_asymmetric(u, s);
                }
                assert(x >= n);
                let t = k.skip(n as int);
                assert(k =~= p + t) by {
                    assert forall|i: int| 0 <= i < n implies k[i] == p[i] by {
                        assert(u[i] == e.take(x)[i]);
                    }
                }
                lemma_span_prefix(p, t, width);
            }
        }
    }
    bound
}

/// The revision of the newest version of a key up to a bound.
pub open spec fn newest_revision(m: Contents, key: Seq<u8>, bound: u64) -> u64 {
    choose|r: u64| is_newest(m, key, bound, r)
}

/// The rows are what a read at `bound` sees of the keys in a range, in the
/// order of the internal keys of the versions that are seen.
pub open spec fn lists_visible(
    kvs: Seq<KeyValueView>,
    m: Contents,
    start: Seq<u8>,
    end: Seq<u8>,
    bound: u64,
) -> bool {
    &&& forall|i: int|
        0 <= i < kvs.len() ==> in_range((#[trigger] kvs[i]).key, start, end) && visible(
            m,
            kvs[i].key,
            bound,
        ) == Some(kvs[i])
    &&& forall|u: Seq<u8>|
        in_range(u, start, end) && (#[trigger] visible(m, u, bound)) is Some ==> kvs.contains(
            visible(m, u, bound)->0,
        )
    &&& forall|i: int, j: int|
        0 <= i < j < kvs.len() ==> lex_lt(
            version_key((#[trigger] kvs[i]).key, newest_revision(m, kvs[i].key, bound)),
            version_key((#[trigger] kvs[j]).key, newest_revision(m, kvs[j].key, bound)),
        )
}

pub open spec fn pairs_view(kvs: Seq<KeyValue>) -> Seq<KeyValueView> {
    Seq::new(kvs.len(), |i: int| kvs[i]@)
}

/// What the first version of a key among rows in key order says of the key.
proof fn lemma_first_visible(
    m: Contents,
    rows: Seq<(Seq<u8>, Seq<u8>)>,
    from: Seq<u8>,
    to: Seq<u8>,
    start: Seq<u8>,
    end: Seq<u8>,
    bound: u64,
    i: int,
)
    requires
        all_versions(m),
        lists_range(rows, m, from, to),
        spans(from, to, start, end),
        0 <= i < rows.len(),
        is_first(rows, i, bound),
        in_range(user_key_of(rows[i].0), start, end),
    ensures
        is_newest(m, user_key_of(rows[i].0), bound, revision_of(rows[i].0)),
        version_at(m, user_key_of(rows[i].0), bound) == decode_version(rows[i].1),
        version_key(
            user_key_of(rows[i].0),
            newest_revision(m, user_key_of(rows[i].0), bound),
        ) == rows[i].0,
{
    let u = user_key_of(rows[i].0);
    let rev = revision_of(rows[i].0);
    assert(m.contains_key(rows[i].0));
    lemma_key_of_parts(rows[i].0);
    assert forall|r: u64| r <= bound && #[trigger] has_version(m, u, r) implies r <= rev by {
        let k = version_key(u, r);
        assert(in_range(k, from, to));
        assert(rows.contains((k, m[k])));
        let j = rows.index_of((k, m[k]));
        assert(rows[j].0 == k);
        law_key_round_trip(u, r);
        lemma_first_is_newest(rows, i, j, bound);
    }
    assert(is_newest(m, u, bound, rev));
    lemma_newest(m, u, bound, rev);
    let n = newest_revision(m, u, bound);
    assert(is_newest(m, u, bound, n));
    assert(has_version(m, u, n) && has_version(m, u, rev));
}

/// Every key of a range that has a version up to a bound has a first one among
/// the rows.
proof fn lemma_visible_first(
    m: Contents,
    rows: Seq<(Seq<u8>, Seq<u8>)>,
    from: Seq<u8>,
    to: Seq<u8>,
    start: Seq<u8>,
    end: Seq<u8>,
    bound: u64,
    u: Seq<u8>,
) -> (i: int)
    requires
        all_versions(m),
        lists_range(rows, m, from, to),
        spans(from, to, start, end),
        in_range(u, start, end),
        version_at(m, u, bound) is Some,
    ensures
        0 <= i < rows.len(),
        is_first(rows, i, bound),
        user_key_of(rows[i].0) == u,
{
    let r = newest_revision(m, u, bound);
    assert(is_newest(m, u, bound, r));
    assert(has_version(m, u, r));
    let k = version_key(u, r);
    assert(in_range(k, from, to));
    assert(rows.contains((k, m[k])));
    let i = rows.index_of((k, m[k]));
    law_key_round_trip(u, r);
    assert forall|j: int| 0 <= j < i implies !(user_key_of((#[trigger] rows[j]).0) == user_key_of(
        rows[i].0,
    ) && revision_of(rows[j].0) <= bound) by {
        if user_key_of(rows[j].0) == u && revision_of(rows[j].0) <= bound {
            assert(m.contains_key(rows[j].0));
            lemma_key_of_parts(rows[j].0);
            let s = revision_of(rows[j].0);
            assert(has_version(m, u, s));
            assert(lex_lt(rows[j].0, rows[i].0));
            law_newest_first(u, s, r);
        }
    }
    i
}

impl<E: StorageEngine> MvccStore<E> {
    /// The keys in the half-open range from `start_key` to `end_key` with their
    /// newest values.
    pub fn scan(&self, start_key: &[u8], end_key: &[u8]) -> (r: Result<Vec<KeyValue>, Error>)
        requires
            self.sound(),
        ensures
            r matches Ok(kvs) && lists_visible(
                pairs_view(kvs@),
                self.contents(),
                start_key@,
                end_key@,
                u64::MAX,
            ),
    {
        self.scan_at_revision(start_key, end_key, u64::MAX)
    }

    /// The keys in the half-open range from `start_key` to `end_key` with their
    /// values as of a revision.
    pub fn scan_at_revision(&self, start_key: &[u8], end_key: &[u8], revision: u64) -> (r: Result<
        Vec<KeyValue>,
        Error,
    >)
        requires
            self.sound(),
        ensures
            r matches Ok(kvs) && lists_visible(
                pairs_view(kvs@),
                self.contents(),
                start_key@,
                end_key@,
                revision,
            ),
    {
        let ghost m = self.engine.contents();
        let ghost start = start_key@;
        let ghost end = end_key@;
        let from: Vec<u8> = encode_key_prefix_start(start_key);
        let to: Vec<u8> = scan_end(start_key, end_key);
        let rows: Vec<(Vec<u8>, Vec<u8>)> = match self.engine.scan(from.as_slice(), to.as_slice()) {
            Ok(rows) => rows,
            Err(e) => {
                return Err(e);
            },
        };
        let ghost rs = rows_view(rows@);
        proof {
            assert forall|i: int| 0 <= i < rows@.len() implies (#[trigger] rs[i]).0.len() >= 8 by {
                assert(m.contains_key(rs[i].0));
            }
        }
        let firsts: Vec<bool> = mark_firsts(&rows, revision);
        let mut out: Vec<KeyValue> = Vec::new();
        let ghost mut origin: Seq<int> = Seq::empty();
        let mut i: usize = 0;
        while i < rows.len()
            invariant
                i <= rows.len(),
                m == self.engine.contents(),
                all_versions(m),
                rs == rows_view(rows@),
                start == start_key@,
                end == end_key@,
                lists_range(rs, m, from@, to@),
                spans(from@, to@, start, end),
                firsts@.len() == rows@.len(),
                forall|j: int| 0 <= j < rs.len() ==> #[trigger] firsts@[j] == is_first(rs, j, revision),
                origin.len() == out@.len(),
                forall|x: int, y: int| 0 <= x < y < origin.len() ==> #[trigger] origin[x]
                    < #[trigger] origin[y],
                forall|x: int|
                    0 <= x < origin.len() ==> {
                        &&& 0 <= #[trigger] origin[x] < i
                        &&& is_first(rs, origin[x], revision)
                        &&& out@[x].key@ == user_key_of(rs[origin[x]].0)
                        &&& in_range(out@[x].key@, start, end)
                        &&& visible(m, out@[x].key@, revision) == Some(out@[x]@)
                    },
                forall|j: int|
                    0 <= j < i && #[trigger] firsts@[j] && in_range(
                        user_key_of(rs[j].0),
                        start,
                        end,
                    ) && visible(m, user_key_of(rs[j].0), revision) is Some ==> origin.contains(j),
            decreases rows.len() - i,
        {
            let ghost row = rs[i as int];
            let ghost before = origin;
            assert(m.contains_key(row.0));
            let (user_key, _rev) = decode_key(rows[i].0.as_slice());
            let inside: bool = !precedes(user_key, start_key) && precedes(user_key, end_key);
            proof {
                lemma_lex_total(start, user_key@);
                lemma_lex_irreflexive(start);
                if lex_lt(start, user_key@) {
                    lemma_lex_asymmetric(start, user_key@);
                }
            }
            let mut chosen: bool = false;
            if firsts[i] && inside {
                proof {
                    lemma_first_visible(m, rs, from@, to@, start, end, revision, i as int);
                }
                let v: VersionedValue = VersionedValue::decode(rows[i].1.as_slice());
                if let Some(value) = v.value {
                    out.push(
                        KeyValue {
                            key: copy(user_key),
                            value,
                            create_revision: v.create_revision,
                            mod_revision: v.mod_revision,
                            lease_id: v.lease_id,
                        },
                    );
                    proof {
                        origin = before.push(i as int);
                    }
                    chosen = true;
                }
            }
            proof {
                assert forall|j: int|
                    0 <= j < i + 1 && #[trigger] firsts@[j] && in_range(
                        user_key_of(rs[j].0),
                        start,
                        end,
                    ) && visible(m, user_key_of(rs[j].0), revision) is Some implies origin.contains(
                    j,
                ) by {
                    if j < i {
                        assert(before.contains(j));
                        let x = before.index_of(j);
                        assert(origin[x] == j);
                    } else {
                        assert(chosen);
                        assert(origin[before.len() as int] == i);
                    }
                }
            }
            i += 1;
        }
        proof {
            let kvs = pairs_view(out@);
            assert forall|x: int| 0 <= x < kvs.len() implies in_range(
                (#[trigger] kvs[x]).key,
                start,
                end,
            ) && visible(m, kvs[x].key, revision) == Some(kvs[x]) by {
                assert(0 <= origin[x] < i);
            }
            assert forall|u: Seq<u8>|
                in_range(u, start, end) && (#[trigger] visible(m, u, revision)) is Some implies kvs.contains(
                visible(m, u, revision)->0,
            ) by {
                let j = lemma_visible_first(m, rs, from@, to@, start, end, revision, u);
                assert(firsts@[j]);
                assert(origin.contains(j));
                let x = origin.index_of(j);
                assert(kvs[x] == visible(m, u, revision)->0);
            }
            assert forall|x: int, y: int| 0 <= x < y < kvs.len() implies lex_lt(
                version_key((#[trigger] kvs[x]).key, newest_revision(m, kvs[x].key, revision)),
                version_key((#[trigger] kvs[y]).key, newest_revision(m, kvs[y].key, revision)),
            ) by {
                assert(origin[x] < origin[y]);
                lemma_first_visible(m, rs, from@, to@, start, end, revision, origin[x]);
                lemma_first_visible(m, rs, from@, to@, start, end, revision, origin[y]);
                assert(lex_lt(rs[origin[x]].0, rs[origin[y]].0));
            }
        }
        Ok(out)
    }
}

impl<E: StorageEngine> MvccStore<E> {
    /// Removes versions by their internal keys.
    pub fn remove_versions(&mut self, keys: &Vec<Vec<u8>>) -> (r: Result<(), Error>)
        requires
            old(self).sound(),
            forall|i: int|
                0 <= i < keys@.len() ==> old(self).contents().contains_key((#[trigger] keys@[i])@),
        ensures
            r is Ok,
            final(self).sound(),
            final(self).current() == old(self).current(),
            final(self).contents() == old(self).contents().remove_keys(
                Set::new(|k: Seq<u8>| exists|i: int| 0 <= i < keys@.len() && (#[trigger] keys@[i])@ == k),
            ),
            (forall|i: int|
                0 <= i < keys@.len() ==> readable_back((#[trigger] keys@[i])@, Seq::empty()))
                ==> stays_durable(*old(self), *final(self)),
    {
        let ghost m = self.engine.contents();
        let mut i: usize = 0;
        proof {
            assert(m =~= m.remove_keys(
                Set::new(|k: Seq<u8>| exists|j: int| 0 <= j < 0 && (#[trigger] keys@[j])@ == k),
            ));
        }
        while i < keys.len()
            invariant
                i <= keys.len(),
                self.sound(),
                self.current_revision == old(self).current_revision,
                m == old(self).engine.contents(),
                all_versions(m),
                forall|j: int|
                    0 <= j < keys@.len() ==> m.contains_key((#[trigger] keys@[j])@),
                (forall|j: int|
                    0 <= j < keys@.len() ==> readable_back((#[trigger] keys@[j])@, Seq::empty()))
                    ==> stays_durable(*old(self), *self),
                self.engine.contents() == m.remove_keys(
                    Set::new(|k: Seq<u8>| exists|j: int| 0 <= j < i && (#[trigger] keys@[j])@ == k),
                ),
            decreases keys.len() - i,
        {
            let ghost before = self.engine.contents();
            assert(m.contains_key(keys@[i as int]@));
            match self.engine.delete(keys[i].as_slice()) {
                Ok(()) => {},
                Err(e) => {
                    return Err(e);
                },
            }
            proof {
                let gone = Set::new(
                    |k: Seq<u8>| exists|j: int| 0 <= j < i && (#[trigger] keys@[j])@ == k,
                );
                let more = Set::new(
                    |k: Seq<u8>| exists|j: int| 0 <= j < i + 1 && (#[trigger] keys@[j])@ == k,
                );
                assert forall|k: Seq<u8>| more.contains(k) == (gone.contains(k) || k
                    == keys@[i as int]@) by {
                    if gone.contains(k) {
                        let j = choose|j: int| 0 <= j < i && (#[trigger] keys@[j])@ == k;
                        assert(0 <= j < i + 1);
                    }
                    if more.contains(k) {
                        let j = choose|j: int| 0 <= j < i + 1 && (#[trigger] keys@[j])@ == k;
                        if j < i {
                            assert(gone.contains(k));
                        }
                    }
                }
                assert(self.engine.contents() =~= m.remove_keys(more));
            }
            i += 1;
        }
        Ok(())
    }
}

impl<F: Fn(usize) -> BloomSize> MvccStore<LsmTree<F>> {
    /// Hands out the actions that the disk has to carry out, in order.
    pub fn take_actions(&mut self) -> (r: Vec<DiskAction>)
        requires
            old(self).sound(),
        ensures
            actions_view(r@) == old(self).engine_of().actions(),
            final(self).sound(),
            final(self).contents() == old(self).contents(),
            final(self).current() == old(self).current(),
            forall|d: DiskView| #[trigger]
                old(self).durable(d) ==> final(self).durable(apply_all(d, actions_view(r@))),
    {
        self.engine.take_actions()
    }
}

} // verus!
