//! What readers see of writes, deletions, transactions, collections and sweeps.

use vstd::prelude::*;
use crate::bytes::{lemma_lex_irreflexive, lex_lt};
use crate::mvcc::gc::{collected, is_garbage};
use crate::mvcc::store::{
    changed_after, creation, dated, deletion_marker, has_version, is_newest, key_deleted,
    law_read_returns_write, law_write_keeps_snapshots, lemma_keys_differ, lemma_newest,
    lists_visible, newest_revision, value_put, version_at, visible, with_version, Contents,
    KeyValueView,
};
use crate::mvcc::transaction::{
    apply_writes, commit_result, conflicts, last_write, law_commit_is_atomic, seen_by,
    write_recordable, written_version, Write,
};
use crate::mvcc::ttl::{delete_all, key_expired, lists_expired};
use crate::mvcc::version::{
    encode_version, law_key_round_trip, law_version_round_trip, version_key, VersionView,
};
use crate::storage::run::in_range;

verus! {

/// A written value is read back with all that was recorded of it: from its
/// revision on, and not before.
pub proof fn law_writes_are_read_back(
    m: Contents,
    current: u64,
    key: Seq<u8>,
    revision: u64,
    value: Seq<u8>,
    create_revision: u64,
    lease_id: i64,
    ttl_seconds: i64,
    bound: u64,
)
    requires
        dated(m, current),
        current < revision,
        value.len() <= u32::MAX,
    ensures
        ({
            let v = VersionView {
                value: Some(value),
                create_revision,
                mod_revision: revision,
                lease_id,
                ttl_seconds,
            };
            let seen = visible(with_version(m, key, revision, v), key, bound);
            &&& bound >= revision ==> seen is Some && (seen->0).key == key && (seen->0).value
                == value && (seen->0).mod_revision == revision && (seen->0).create_revision
                == create_revision && (seen->0).lease_id == lease_id
            &&& bound < revision ==> seen == visible(m, key, bound)
        }),
{
    let v = VersionView {
        value: Some(value),
        create_revision,
        mod_revision: revision,
        lease_id,
        ttl_seconds,
    };
    law_read_returns_write(m, current, key, revision, v, key, bound);
}

/// A deleted key has no value from the revision of the deletion on; reads at
/// earlier revisions still see the value that it had, and other keys stay.
pub proof fn law_deleted_keys_are_gone(
    m: Contents,
    current: u64,
    key: Seq<u8>,
    revision: u64,
    other: Seq<u8>,
    bound: u64,
)
    requires
        dated(m, current),
        current < revision,
    ensures
        ({
            let n = with_version(m, key, revision, deletion_marker(revision));
            &&& bound >= revision ==> visible(n, key, bound) is None
            &&& bound < revision ==> visible(n, key, bound) == visible(m, key, bound)
            &&& other != key ==> visible(n, other, bound) == visible(m, other, bound)
            &&& changed_after(n, key, current)
        }),
{
    law_read_returns_write(m, current, key, revision, deletion_marker(revision), other, bound);
    let n = with_version(m, key, revision, deletion_marker(revision));
    assert(has_version(n, key, revision));
}

/// A key keeps the revision of its creation when it is overwritten; a key that
/// has no value, also one that was deleted, is created by the write.
pub proof fn law_keys_are_created_once(
    m: Contents,
    current: u64,
    key: Seq<u8>,
    revision: u64,
    value: Seq<u8>,
    later: u64,
)
    requires
        dated(m, current),
        current < revision,
        value.len() <= u32::MAX,
    ensures
        (forall|r: u64| !#[trigger] has_version(m, key, r)) ==> creation(m, key, revision)
            == revision,
        ({
            let v = VersionView {
                value: Some(value),
                create_revision: creation(m, key, revision),
                mod_revision: revision,
                lease_id: 0,
                ttl_seconds: 0,
            };
            let n = with_version(m, key, revision, v);
            &&& creation(n, key, later) == creation(m, key, revision)
            &&& written_version(n, (key, Some(value)), later).create_revision == creation(
                m,
                key,
                revision,
            )
        }),
        ({
            let n = with_version(m, key, revision, deletion_marker(revision));
            &&& creation(n, key, later) == later
            &&& written_version(n, (key, Some(value)), later).create_revision == later
        }),
{
    let v = VersionView {
        value: Some(value),
        create_revision: creation(m, key, revision),
        mod_revision: revision,
        lease_id: 0,
        ttl_seconds: 0,
    };
    law_read_returns_write(m, current, key, revision, v, key, u64::MAX);
    law_read_returns_write(m, current, key, revision, deletion_marker(revision), key, u64::MAX);
}

/// A scan finds what reads of single keys find: each key from `start` up to, but
/// not including, `end` that has a value is listed with it, once, and no other.
pub proof fn law_scans_agree_with_reads(
    kvs: Seq<KeyValueView>,
    m: Contents,
    start: Seq<u8>,
    end: Seq<u8>,
    bound: u64,
    key: Seq<u8>,
)
    requires
        lists_visible(kvs, m, start, end, bound),
    ensures
        (key == start || lex_lt(start, key)) && lex_lt(key, end) && visible(m, key, bound) is Some
            ==> exists|i: int|
            0 <= i < kvs.len() && #[trigger] kvs[i] == visible(m, key, bound)->0,
        forall|i: int|
            0 <= i < kvs.len() ==> {
                &&& visible(m, (#[trigger] kvs[i]).key, bound) == Some(kvs[i])
                &&& kvs[i].key == start || lex_lt(start, kvs[i].key)
                &&& lex_lt(kvs[i].key, end)
            },
        forall|i: int, j: int|
            0 <= i < j < kvs.len() ==> (#[trigger] kvs[i]).key != (#[trigger] kvs[j]).key,
{
    if in_range(key, start, end) && visible(m, key, bound) is Some {
        let i = kvs.index_of(visible(m, key, bound)->0);
        assert(kvs[i] == visible(m, key, bound)->0);
    }
    assert forall|i: int, j: int| 0 <= i < j < kvs.len() implies (#[trigger] kvs[i]).key != (
    #[trigger] kvs[j]).key by {
        if kvs[i].key == kvs[j].key {
            lemma_lex_irreflexive(
                version_key(kvs[i].key, newest_revision(m, kvs[i].key, bound)),
            );
        }
    }
}

/// A transaction that nobody has interfered with commits: where no version is
/// newer than its start, nothing that it read is in conflict.
pub proof fn law_undisturbed_transactions_commit(m: Contents, start: u64, reads: Seq<Seq<u8>>)
    requires
        dated(m, start),
    ensures
        !conflicts(m, start, reads),
{
    if conflicts(m, start, reads) {
        let i = choose|i: int| 0 <= i < reads.len() && changed_after(m, #[trigger] reads[i], start);
        let r = choose|r: u64| r > start && #[trigger] has_version(m, reads[i], r);
        assert(has_version(m, reads[i], r));
    }
}

/// A conflict is a version of a key that was read, made after the transaction
/// began; and each such version is a conflict.
pub proof fn law_conflicts_are_newer_versions(
    m: Contents,
    start: u64,
    reads: Seq<Seq<u8>>,
    key: Seq<u8>,
    revision: u64,
)
    requires
        reads.contains(key),
        has_version(m, key, revision),
        revision > start,
    ensures
        conflicts(m, start, reads),
{
    assert(changed_after(m, reads[reads.index_of(key)], start));
}

/// A transaction reads its own last write of a key, and no write of another key.
pub proof fn law_own_writes_are_read(
    writes: Seq<Write>,
    key: Seq<u8>,
    value: Option<Seq<u8>>,
    other: Seq<u8>,
)
    ensures
        last_write(writes.push((key, value)), key) == Some(value),
        other != key ==> last_write(writes.push((key, value)), other) == last_write(writes, other),
        last_write(Seq::<Write>::empty(), key) is None,
{
    assert(writes.push((key, value)).drop_last() =~= writes);
}

/// A committed transaction is seen as a whole from its revision on: each key that
/// it wrote has its last value, a key that it deleted last has none, and all other
/// keys are as they were.
pub proof fn law_committed_writes_are_seen(
    m: Contents,
    writes: Seq<Write>,
    current: u64,
    key: Seq<u8>,
    bound: u64,
)
    requires
        dated(m, current),
        current < u64::MAX,
        forall|i: int| 0 <= i < writes.len() ==> write_recordable(#[trigger] writes[i]),
    ensures
        ({
            let revision = (current + 1) as u64;
            let n = apply_writes(m, writes, revision);
            let seen = visible(n, key, bound);
            &&& dated(n, revision)
            &&& bound < revision ==> seen == visible(m, key, bound)
            &&& (forall|i: int| 0 <= i < writes.len() ==> (#[trigger] writes[i]).0 != key) ==> seen
                == visible(m, key, bound)
            &&& bound >= revision ==> forall|i: int|
                #![trigger writes[i]]
                0 <= i < writes.len() && writes[i].0 == key && (forall|j: int|
                    i < j < writes.len() ==> (#[trigger] writes[j]).0 != key) ==> match writes[i].1 {
                    Some(value) => seen is Some && (seen->0).key == key && (seen->0).value == value
                        && (seen->0).mod_revision == revision,
                    None => seen is None,
                }
        }),
{
    let revision = (current + 1) as u64;
    let n = apply_writes(m, writes, revision);
    assert forall|k: Seq<u8>, r: u64| #[trigger] has_version(m, k, r) implies r < revision by {}
    law_commit_is_atomic(m, writes, revision, key, bound);
    lemma_last_write(writes, key);
}

/// The last write of a key, by its place.
proof fn lemma_last_write(writes: Seq<Write>, key: Seq<u8>)
    ensures
        (forall|i: int| 0 <= i < writes.len() ==> (#[trigger] writes[i]).0 != key) ==> last_write(
            writes,
            key,
        ) is None,
        forall|i: int|
            #![trigger writes[i]]
            0 <= i < writes.len() && writes[i].0 == key && (forall|j: int|
                i < j < writes.len() ==> (#[trigger] writes[j]).0 != key) ==> last_write(writes, key)
                == Some(writes[i].1),
    decreases writes.len(),
{
    if writes.len() > 0 {
        let rest = writes.drop_last();
        lemma_last_write(rest, key);
        let last = writes.len() - 1;
        assert(writes[last] == writes.last());
        if forall|i: int| 0 <= i < writes.len() ==> (#[trigger] writes[i]).0 != key {
            assert forall|i: int| 0 <= i < rest.len() implies (#[trigger] rest[i]).0 != key by {
                assert(rest[i] == writes[i]);
            }
        }
        assert forall|i: int|
            #![trigger writes[i]]
            0 <= i < writes.len() && writes[i].0 == key && (forall|j: int|
                i < j < writes.len() ==> (#[trigger] writes[j]).0 != key) implies last_write(
            writes,
            key,
        ) == Some(writes[i].1) by {
            if i < last {
                assert(rest[i] == writes[i]);
                assert forall|j: int| i < j < rest.len() implies (#[trigger] rest[j]).0 != key by {
                    assert(rest[j] == writes[j]);
                }
            }
        }
    }
}

/// A collection removes exactly the versions that are older than the given
/// revision and not the newest of their key; the others stay as they are.
pub proof fn law_collections_take_old_versions(
    m: Contents,
    min_revision: u64,
    key: Seq<u8>,
    revision: u64,
)
    ensures
        has_version(collected(m, min_revision), key, revision) <==> has_version(m, key, revision)
            && (revision >= min_revision || forall|newer: u64|
            newer > revision ==> !#[trigger] has_version(m, key, newer)),
        has_version(collected(m, min_revision), key, revision) ==> collected(
            m,
            min_revision,
        )[version_key(key, revision)] == m[version_key(key, revision)],
{
    law_key_round_trip(key, revision);
    let k = version_key(key, revision);
    if has_version(m, key, revision) && revision < min_revision && exists|newer: u64|
        newer > revision && #[trigger] has_version(m, key, newer) {
        let newer = choose|newer: u64| newer > revision && #[trigger] has_version(m, key, newer);
        assert(has_version(m, key, newer));
        assert(is_garbage(m, k, min_revision));
    }
    if is_garbage(m, k, min_revision) {
        let newer = choose|r: u64| r > revision && #[trigger] has_version(m, key, r);
        assert(has_version(m, key, newer));
    }
}

/// A value with a time to live has expired exactly from that many seconds after
/// its write on; a value without one, and a deletion, never expire.
pub proof fn law_values_expire(
    m: Contents,
    current: u64,
    key: Seq<u8>,
    revision: u64,
    v: VersionView,
    now: i64,
)
    requires
        dated(m, current),
        current < revision,
        v.mod_revision == revision,
        revision <= i64::MAX,
        v.value matches Some(x) ==> x.len() <= u32::MAX,
    ensures
        v.value is Some && v.ttl_seconds > 0 ==> (key_expired(
            with_version(m, key, revision, v),
            key,
            now,
        ) <==> now - revision >= v.ttl_seconds),
        v.value is None || v.ttl_seconds <= 0 ==> !key_expired(
            with_version(m, key, revision, v),
            key,
            now,
        ),
{
    let n = with_version(m, key, revision, v);
    law_version_round_trip(v);
    assert forall|r: u64| #[trigger] has_version(n, key, r) implies r <= revision by {
        lemma_keys_differ(key, r, key, revision);
        if r != revision {
            assert(has_version(m, key, r));
        }
    }
    assert(is_newest(n, key, u64::MAX, revision));
    lemma_newest(n, key, u64::MAX, revision);
}

/// A sweep deletes exactly the keys that have expired: they have no value then,
/// all other keys read as before, and a second sweep finds nothing.
pub proof fn law_sweeps_delete_expired_keys(
    m: Contents,
    current: u64,
    ks: Seq<Seq<u8>>,
    now: i64,
    key: Seq<u8>,
)
    requires
        dated(m, current),
        current + ks.len() <= u64::MAX,
        lists_expired(ks, m, now),
    ensures
        ({
            let n = delete_all(m, ks, current);
            &&& key_expired(m, key, now) ==> visible(n, key, u64::MAX) is None
            &&& !key_expired(m, key, now) ==> visible(n, key, u64::MAX) == visible(
                m,
                key,
                u64::MAX,
            )
            &&& !key_expired(n, key, now)
            &&& visible(n, key, current) == visible(m, key, current)
        }),
{
    lemma_delete_all(m, ks, current, key, u64::MAX);
    lemma_delete_all(m, ks, current, key, current);
    assert(ks.contains(key) <==> key_expired(m, key, now));
}

/// What is seen of a key after deletions.
proof fn lemma_delete_all(
    m: Contents,
    ks: Seq<Seq<u8>>,
    current: u64,
    key: Seq<u8>,
    bound: u64,
)
    requires
        dated(m, current),
        current + ks.len() <= u64::MAX,
        bound == current || bound == u64::MAX,
    ensures
        dated(delete_all(m, ks, current), (current + ks.len()) as u64),
        bound == current || !ks.contains(key) ==> visible(delete_all(m, ks, current), key, bound)
            == visible(m, key, bound) && version_at(delete_all(m, ks, current), key, bound)
            == version_at(m, key, bound),
        bound == u64::MAX && ks.contains(key) ==> {
            let v = version_at(delete_all(m, ks, current), key, bound);
            v is Some && (v->0).value is None
        },
    decreases ks.len(),
{
    if ks.len() > 0 {
        let rest = ks.drop_last();
        let last = ks.last();
        let r = (current + ks.len()) as u64;
        lemma_delete_all(m, rest, current, key, bound);
        let n = delete_all(m, rest, current);
        let v = deletion_marker(r);
        law_version_round_trip(v);
        law_read_returns_write(n, (current + rest.len()) as u64, last, r, v, key, bound);
        law_write_keeps_snapshots(n, last, r, encode_version(v), key, bound);
        if ks.contains(key) && key != last {
            let i = ks.index_of(key);
            assert(rest[i] == key);
        }
        if rest.contains(key) {
            assert(ks[rest.index_of(key)] == key);
        }
        assert(ks[ks.len() - 1] == last);
        if bound == current {
            assert(bound < r);
        }
    }
}

/// A value that is put is what reads see from its revision on, under the lease that
/// was named, with the revision of the key's creation; it expires after the time
/// that was given, and earlier reads and other keys stay.
pub proof fn law_puts_are_seen(
    m: Contents,
    current: u64,
    key: Seq<u8>,
    value: Seq<u8>,
    lease_id: i64,
    ttl_seconds: i64,
    other: Seq<u8>,
    bound: u64,
    now: i64,
)
    requires
        dated(m, current),
        current < i64::MAX,
        value.len() <= u32::MAX,
    ensures
        ({
            let revision = (current + 1) as u64;
            let n = value_put(m, key, value, revision, lease_id, ttl_seconds);
            let before = visible(m, key, u64::MAX);
            let seen = visible(n, key, bound);
            &&& bound >= revision ==> {
                &&& seen is Some
                &&& (seen->0).key == key
                &&& (seen->0).value == value
                &&& (seen->0).mod_revision == revision
                &&& (seen->0).lease_id == lease_id
                &&& before is Some ==> (seen->0).create_revision == (before->0).create_revision
                &&& before is None ==> (seen->0).create_revision == revision
            }
            &&& bound < revision ==> seen == visible(m, key, bound)
            &&& other != key ==> visible(n, other, bound) == visible(m, other, bound)
            &&& key_expired(n, key, now) <==> ttl_seconds > 0 && now - revision >= ttl_seconds
        }),
{
    let revision = (current + 1) as u64;
    let v = VersionView {
        value: Some(value),
        create_revision: creation(m, key, revision),
        mod_revision: revision,
        lease_id,
        ttl_seconds,
    };
    law_read_returns_write(m, current, key, revision, v, other, bound);
    law_values_expire(m, current, key, revision, v, now);
}

/// A deletion tells whether the key had a value; a second one tells that it has
/// none any more.
pub proof fn law_deletions_tell_what_was(
    m: Contents,
    current: u64,
    key: Seq<u8>,
    value: Seq<u8>,
)
    requires
        dated(m, current),
        current + 3 <= i64::MAX,
        value.len() <= u32::MAX,
    ensures
        ({
            let one = (current + 1) as u64;
            let two = (current + 2) as u64;
            let (after, existed) = key_deleted(m, key, one);
            let put = value_put(m, key, value, one, 0, 0);
            &&& existed == visible(m, key, u64::MAX) is Some
            &&& visible(after, key, u64::MAX) is None
            &&& !key_deleted(after, key, two).1
            &&& key_deleted(put, key, two).1
        }),
{
    let one = (current + 1) as u64;
    law_deleted_keys_are_gone(m, current, key, one, key, u64::MAX);
    law_puts_are_seen(m, current, key, value, 0, 0, key, u64::MAX, 0);
}

/// A transaction sees the store as it was when it began, however much is written
/// since, and its own writes above that.
pub proof fn law_transactions_read_a_snapshot(
    m: Contents,
    current: u64,
    start: u64,
    writes: Seq<Write>,
    key: Seq<u8>,
    changed: Seq<u8>,
    revision: u64,
    v: VersionView,
)
    requires
        dated(m, current),
        start <= current < revision,
        v.value matches Some(x) ==> x.len() <= u32::MAX,
    ensures
        seen_by(with_version(m, changed, revision, v), start, writes, key) == seen_by(
            m,
            start,
            writes,
            key,
        ),
        forall|i: int|
            #![trigger writes[i]]
            0 <= i < writes.len() && writes[i].0 == key && (forall|j: int|
                i < j < writes.len() ==> (#[trigger] writes[j]).0 != key) ==> seen_by(
                m,
                start,
                writes,
                key,
            ) == writes[i].1,
        (forall|i: int| 0 <= i < writes.len() ==> (#[trigger] writes[i]).0 != key) ==> seen_by(
            m,
            start,
            writes,
            key,
        ) == match visible(m, key, start) {
            Some(kv) => Some(kv.value),
            None => None,
        },
{
    law_read_returns_write(m, current, changed, revision, v, key, start);
    lemma_last_write(writes, key);
}

/// A transaction commits exactly where nothing that it read was written since it
/// began, or where it writes nothing itself. A commit that writes takes the next
/// revision; one that is refused, or writes nothing, leaves the store as it is.
pub proof fn law_commits_are_all_or_nothing(
    m: Contents,
    current: u64,
    start: u64,
    reads: Seq<Seq<u8>>,
    writes: Seq<Write>,
)
    requires
        current < u64::MAX,
    ensures
        ({
            let (after, revision, returned) = commit_result(m, current, start, reads, writes);
            let disturbed = exists|i: int, r: u64|
                0 <= i < reads.len() && r > start && #[trigger] has_version(m, reads[i], r);
            &&& returned is None <==> writes.len() > 0 && disturbed
            &&& returned is None || writes.len() == 0 ==> after == m && revision == current
            &&& writes.len() == 0 ==> returned == Some(start)
            &&& writes.len() > 0 && returned is Some ==> returned == Some(revision) && revision
                == current + 1 && after == apply_writes(m, writes, revision)
        }),
{
    if conflicts(m, start, reads) {
        let i = choose|i: int| 0 <= i < reads.len() && changed_after(m, #[trigger] reads[i], start);
        let r = choose|r: u64| r > start && #[trigger] has_version(m, reads[i], r);
        assert(has_version(m, reads[i], r));
    } else {
        assert forall|i: int, r: u64| 0 <= i < reads.len() && r > start implies !#[trigger] has_version(
            m,
            reads[i],
            r,
        ) by {
            assert(!changed_after(m, reads[i], start));
        }
    }
}

} // verus!
