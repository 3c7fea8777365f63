//! Keys that expire.

use vstd::prelude::*;
use crate::bytes::{copy, lex_lt};
use crate::error::Error;
use crate::mvcc::gc::{all_rows, keys_view, lists_all};
use crate::mvcc::select::{is_first, mark_firsts};
use crate::mvcc::store::{
    all_versions, deletion_marker, has_version, is_newest, lemma_newest, lemma_stays_durable,
    newest_revision, recordable, restorable, short_keys, stays_durable, version_at, with_version,
    Contents, MvccStore,
};
use crate::mvcc::version::{
    decode_key, decode_version, law_key_round_trip, law_newest_first, lemma_key_of_parts,
    revision_of, user_key_of, version_key, VersionView, VersionedValue,
};
use crate::storage::engine::StorageEngine;
use crate::storage::layers::rows_view;

verus! {

/// A version has a value that has expired: its revision, taken as a time, and
/// its time to live do not reach past `now`.
pub open spec fn version_expired(v: VersionView, now: i64) -> bool {
    &&& v.value is Some
    &&& v.ttl_seconds > 0
    &&& (v.mod_revision as i64) + v.ttl_seconds <= now
}

/// The newest version of a key has expired.
pub open spec fn key_expired(m: Contents, key: Seq<u8>, now: i64) -> bool {
    version_at(m, key, u64::MAX) matches Some(v) && version_expired(v, now)
}

/// The newest version of a key as it is stored.
pub open spec fn newest_key(m: Contents, key: Seq<u8>) -> Seq<u8> {
    version_key(key, newest_revision(m, key, u64::MAX))
}

/// The keys are exactly those that have expired, each once, in the order in
/// which their newest versions are stored.
pub open spec fn lists_expired(ks: Seq<Seq<u8>>, m: Contents, now: i64) -> bool {
    &&& ks.no_duplicates()
    &&& forall|i: int, j: int|
        0 <= i < j < ks.len() ==> lex_lt(
            newest_key(m, #[trigger] ks[i]),
            newest_key(m, #[trigger] ks[j]),
        )
    &&& forall|k: Seq<u8>| #[trigger] ks.contains(k) <==> key_expired(m, k, now)
}

/// What an engine holds after keys were deleted one after another, each at the
/// next revision.
pub open spec fn delete_all(m: Contents, ks: Seq<Seq<u8>>, revision: u64) -> Contents
    decreases ks.len(),
{
    if ks.len() == 0 {
        m
    } else {
        let r = (revision + ks.len()) as u64;
        with_version(
            delete_all(m, ks.drop_last(), revision),
            ks.last(),
            r,
            deletion_marker(r),
        )
    }
}

/// A key that has expired is short where all keys are.
proof fn lemma_expired_short(ks: Seq<Seq<u8>>, m: Contents, now: i64, i: int)
    requires
        lists_expired(ks, m, now),
        short_keys(m),
        0 <= i < ks.len(),
    ensures
        restorable(ks[i], Seq::empty()),
{
    let key = ks[i];
    assert(ks.contains(key));
    assert(key_expired(m, key, now));
    let r = choose|r: u64| is_newest(m, key, u64::MAX, r);
    assert(is_newest(m, key, u64::MAX, r));
    assert(m.contains_key(version_key(key, r)));
    law_key_round_trip(key, r);
}

/// Deletes keys that have expired.
#[derive(Debug, Clone, Copy)]
pub struct TtlManager;

impl TtlManager {
    pub fn new() -> (r: Self)
        ensures
            r == TtlManager,
    {
        TtlManager
    }

    /// Deletes every key whose newest version has expired, in the order in which
    /// those versions are stored; returns how many. Nothing is deleted where
    /// there are not that many revisions left.
    pub fn sweep_expired<E: StorageEngine>(&self, store: &mut MvccStore<E>, now_secs: i64) -> (r:
        Result<usize, Error>)
        requires
            old(store).sound(),
        ensures
            final(store).sound(),
            short_keys(old(store).contents()) ==> stays_durable(*old(store), *final(store)),
            exists|ks: Seq<Seq<u8>>| #[trigger]
                lists_expired(ks, old(store).contents(), now_secs) && if old(store).current()
                    + ks.len() <= u64::MAX {
                    &&& r matches Ok(n) && n == ks.len()
                    &&& final(store).contents() == delete_all(
                        old(store).contents(),
                        ks,
                        old(store).current(),
                    )
                    &&& final(store).current() == old(store).current() + ks.len()
                } else {
                    &&& r matches Err(Error::Storage(m)) && m@ == "no more revisions"@
                    &&& final(store).contents() == old(store).contents()
                    &&& final(store).current() == old(store).current()
                },
    {
        let keys: Vec<Vec<u8>> = match Self::find_expired(store.engine(), now_secs) {
            Ok(k) => k,
            Err(e) => {
                return Err(e);
            },
        };
        let count: u64 = keys.len() as u64;
        assert(lists_expired(keys_view(keys@), store.contents(), now_secs));
        if count > u64::MAX - store.revision() {
            return Err(Error::Storage("no more revisions".to_string()));
        }
        let ghost m = store.contents();
        let ghost revision = store.current();
        let ghost ks = keys_view(keys@);
        let mut i: usize = 0;
        proof {
            assert(lists_expired(ks, m, now_secs));
            assert(ks.take(0) =~= Seq::<Seq<u8>>::empty());
        }
        while i < keys.len()
            invariant
                i <= keys.len(),
                store.sound(),
                ks == keys_view(keys@),
                revision + ks.len() <= u64::MAX,
                store.current() == revision + i,
                store.contents() == delete_all(m, ks.take(i as int), revision),
                forall|j: int| 0 <= j < ks.len() ==> recordable(#[trigger] ks[j], Seq::empty()),
                m == old(store).contents(),
                lists_expired(ks, m, now_secs),
                short_keys(m) ==> stays_durable(*old(store), *store),
            decreases keys.len() - i,
        {
            assert(ks[i as int] == keys@[i as int]@);
            assert(recordable(ks[i as int], Seq::empty()));
            let ghost before = *store;
            match store.delete(keys[i].as_slice()) {
                Ok(_) => {
                    proof {
                        if short_keys(m) {
                            lemma_expired_short(ks, m, now_secs, i as int);
                            lemma_stays_durable(*old(store), before, *store);
                        }
                    }
                },
                Err(e) => {
                    return Err(e);
                },
            }
            assert(ks.take(i + 1).drop_last() =~= ks.take(i as int));
            i += 1;
        }
        assert(ks.take(i as int) =~= ks);
        Ok(keys.len())
    }

    /// The keys that have expired.
    fn find_expired<E: StorageEngine>(engine: &E, now_secs: i64) -> (r: Result<Vec<Vec<u8>>, Error>)
        requires
            engine.sound(),
            all_versions(engine.contents()),
        ensures
            r matches Ok(keys) && lists_expired(keys_view(keys@), engine.contents(), now_secs)
                && forall|j: int|
                0 <= j < keys@.len() ==> recordable(
                    #[trigger] keys_view(keys@)[j],
                    Seq::empty(),
                ),
    {
        let ghost m = engine.contents();
        let rows: Vec<(Vec<u8>, Vec<u8>)> = match all_rows(engine) {
            Ok(rows) => rows,
            Err(e) => {
                return Err(e);
            },
        };
        let ghost rs = rows_view(rows@);
        proof {
            assert forall|i: int| 0 <= i < rows@.len() implies (#[trigger] rs[i]).0.len() >= 8 by {
                assert(m.contains_key(rs[i].0));
            }
        }
        let firsts: Vec<bool> = mark_firsts(&rows, u64::MAX);
        let mut out: Vec<Vec<u8>> = Vec::new();
        let ghost mut origin: Seq<int> = Seq::empty();
        let mut i: usize = 0;
        while i < rows.len()
            invariant
                i <= rows.len(),
                m == engine.contents(),
                all_versions(m),
                rs == rows_view(rows@),
                lists_all(rs, m),
                firsts@.len() == rows@.len(),
                forall|j: int| 0 <= j < rs.len() ==> #[trigger] firsts@[j] == is_first(rs, j, u64::MAX),
                origin.len() == out@.len(),
                forall|x: int, y: int| 0 <= x < y < origin.len() ==> #[trigger] origin[x]
                    < #[trigger] origin[y],
                forall|x: int|
                    0 <= x < origin.len() ==> {
                        &&& 0 <= #[trigger] origin[x] < i
                        &&& firsts@[origin[x]]
                        &&& row_expired(rs[origin[x]].1, now_secs)
                        &&& out@[x]@ == user_key_of(rs[origin[x]].0)
                    },
                forall|j: int|
                    0 <= j < i && #[trigger] firsts@[j] && row_expired(rs[j].1, now_secs)
                        ==> origin.contains(j),
            decreases rows.len() - i,
        {
            let ghost before = origin;
            let ghost row = rs[i as int];
            assert(m.contains_key(row.0));
            let (user_key, _rev) = decode_key(rows[i].0.as_slice());
            let v: VersionedValue = VersionedValue::decode(rows[i].1.as_slice());
            if firsts[i] && v.value.is_some() && v.ttl_seconds > 0 {
                let written: i64 = #[verifier::truncate] (v.mod_revision as i64);
                let expiry: i128 = written as i128 + v.ttl_seconds as i128;
                if expiry <= now_secs as i128 {
                    out.push(copy(user_key));
                    proof {
                        origin = before.push(i as int);
                    }
                }
            }
            proof {
                assert forall|j: int|
                    0 <= j < i + 1 && #[trigger] firsts@[j] && row_expired(
                        rs[j].1,
                        now_secs,
                    ) implies origin.contains(j) by {
                    if j < i {
                        assert(origin[before.index_of(j)] == j);
                    } else {
                        assert(origin[before.len() as int] == j);
                    }
                }
            }
            i += 1;
        }
        proof {
            let ks = keys_view(out@);
            assert forall|x: int, y: int| 0 <= x < ks.len() && 0 <= y < ks.len() && x != y implies ks[x]
                != ks[y] by {
                assert(is_first(rs, origin[x], u64::MAX));
                assert(is_first(rs, origin[y], u64::MAX));
                if x < y {
                    assert(origin[x] < origin[y]);
                } else {
                    assert(origin[y] < origin[x]);
                }
            }
            assert forall|x: int, y: int| 0 <= x < y < ks.len() implies lex_lt(
                newest_key(m, #[trigger] ks[x]),
                newest_key(m, #[trigger] ks[y]),
            ) by {
                assert(origin[x] < origin[y]);
                assert(is_first(rs, origin[x], u64::MAX));
                assert(is_first(rs, origin[y], u64::MAX));
                lemma_first_newest(m, rs, origin[x]);
                lemma_first_newest(m, rs, origin[y]);
                assert(lex_lt(rs[origin[x]].0, rs[origin[y]].0));
            }
            assert forall|k: Seq<u8>| #[trigger] ks.contains(k) <==> key_expired(m, k, now_secs) by {
                if ks.contains(k) {
                    let x = ks.index_of(k);
                    lemma_first_newest(m, rs, origin[x]);
                }
                if key_expired(m, k, now_secs) {
                    let j = lemma_newest_first(m, rs, k);
                    lemma_first_newest(m, rs, j);
                    assert(firsts@[j]);
                    let x = origin.index_of(j);
                    assert(ks[x] == k);
                }
            }
            assert forall|x: int| 0 <= x < ks.len() implies recordable(
                #[trigger] ks[x],
                Seq::empty(),
            ) by {
                assert(m.contains_key(rs[origin[x]].0));
            }
        }
        Ok(out)
    }
}

/// The stored version has expired.
pub open spec fn row_expired(data: Seq<u8>, now: i64) -> bool {
    decode_version(data) matches Some(v) && version_expired(v, now)
}

/// The first version of a key among the rows of a sweep is its newest one.
proof fn lemma_first_newest(m: Contents, rows: Seq<(Seq<u8>, Seq<u8>)>, i: int)
    requires
        all_versions(m),
        lists_all(rows, m),
        0 <= i < rows.len(),
        is_first(rows, i, u64::MAX),
    ensures
        version_at(m, user_key_of(rows[i].0), u64::MAX) == decode_version(rows[i].1),
        version_key(
            user_key_of(rows[i].0),
            newest_revision(m, user_key_of(rows[i].0), u64::MAX),
        ) == rows[i].0,
{
    let k = rows[i].0;
    let u = user_key_of(k);
    let rev = revision_of(k);
    assert(m.contains_key(k));
    lemma_key_of_parts(k);
    assert forall|r: u64| #[trigger] has_version(m, u, r) implies r <= rev by {
        if r > rev {
            let n = version_key(u, r);
            law_newest_first(u, r, rev);
            law_key_round_trip(u, r);
            assert(rows.contains((n, m[n])));
            let j = rows.index_of((n, m[n]));
            crate::mvcc::select::lemma_first_is_newest(rows, i, j, u64::MAX);
        }
    }
    assert(is_newest(m, u, u64::MAX, rev));
    lemma_newest(m, u, u64::MAX, rev);
    let n = newest_revision(m, u, u64::MAX);
    assert(is_newest(m, u, u64::MAX, n));
    assert(has_version(m, u, n) && has_version(m, u, rev));
}

/// The newest version of a key is the first of its key among all rows.
proof fn lemma_newest_first(m: Contents, rows: Seq<(Seq<u8>, Seq<u8>)>, u: Seq<u8>) -> (i: int)
    requires
        all_versions(m),
        lists_all(rows, m),
        version_at(m, u, u64::MAX) is Some,
    ensures
        0 <= i < rows.len(),
        is_first(rows, i, u64::MAX),
        user_key_of(rows[i].0) == u,
{
    let r = newest_revision(m, u, u64::MAX);
    assert(is_newest(m, u, u64::MAX, r));
    assert(has_version(m, u, r));
    let k = version_key(u, r);
    law_key_round_trip(u, r);
    assert(rows.contains((k, m[k])));
    let i = rows.index_of((k, m[k]));
    assert forall|j: int| 0 <= j < i implies !(user_key_of((#[trigger] rows[j]).0) == user_key_of(
        rows[i].0,
    ) && revision_of(rows[j].0) <= u64::MAX) by {
        if user_key_of(rows[j].0) == u {
            assert(m.contains_key(rows[j].0));
            lemma_key_of_parts(rows[j].0);
            let s = revision_of(rows[j].0);
            assert(has_version(m, u, s));
            assert(lex_lt(rows[j].0, rows[i].0));
            law_newest_first(u, s, r);
        }
    }
    i
}

} // verus!
