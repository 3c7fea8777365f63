//! Removing versions that no longer matter.

use vstd::prelude::*;
use crate::bytes::{copy, lex_lt};
use crate::error::Error;
use crate::mvcc::select::{is_first, lemma_first_is_newest, mark_firsts};
use crate::mvcc::store::{
    all_versions, has_version, is_newest, lemma_newest, lemma_newest_exists, lemma_no_version,
    short_keys, stays_durable, version_at, visible, Contents, MvccStore,
};
use crate::mvcc::version::{
    decode_key, law_key_round_trip, law_newest_first, lemma_key_of_parts, revision_of, user_key_of,
    version_key,
};
use crate::storage::engine::StorageEngine;
use crate::storage::layers::{rows_sorted, rows_view};
use crate::storage::run::in_range;

verus! {

/// The rows are all entries of a map, in ascending key order.
pub open spec fn lists_all(rows: Seq<(Seq<u8>, Seq<u8>)>, m: Contents) -> bool {
    &&& rows_sorted(rows)
    &&& forall|i: int|
        0 <= i < rows.len() ==> m.contains_key(#[trigger] rows[i].0) && m[rows[i].0] == rows[i].1
    &&& forall|k: Seq<u8>| #[trigger] m.contains_key(k) ==> rows.contains((k, m[k]))
}

/// All entries of an engine.
pub fn all_rows<E: StorageEngine>(engine: &E) -> (r: Result<Vec<(Vec<u8>, Vec<u8>)>, Error>)
    requires
        engine.sound(),
    ensures
        r matches Ok(rows) && lists_all(rows_view(rows@), engine.contents()),
{
    let start: Vec<u8> = Vec::new();
    let end: Vec<u8> = engine.upper_bound();
    proof {
        assert forall|k: Seq<u8>| #[trigger] engine.contents().contains_key(k) implies in_range(
            k,
            start@,
            end@,
        ) by {
            if k.len() == 0 {
                assert(k =~= start@);
            }
        }
    }
    engine.scan(start.as_slice(), end.as_slice())
}

/// A version with this internal key goes: it is older than `min_revision`, and
/// its key has a newer version.
pub open spec fn is_garbage(m: Contents, k: Seq<u8>, min_revision: u64) -> bool {
    &&& m.contains_key(k)
    &&& revision_of(k) < min_revision
    &&& exists|r: u64| r > revision_of(k) && #[trigger] has_version(m, user_key_of(k), r)
}

/// What is left after the versions that go are gone.
pub open spec fn collected(m: Contents, min_revision: u64) -> Contents {
    m.remove_keys(Set::new(|k: Seq<u8>| is_garbage(m, k, min_revision)))
}

/// Collecting garbage does not change what a read of the newest version sees.
pub proof fn law_collection_keeps_newest(m: Contents, min_revision: u64, key: Seq<u8>)
    ensures
        version_at(collected(m, min_revision), key, u64::MAX) == version_at(m, key, u64::MAX),
        visible(collected(m, min_revision), key, u64::MAX) == visible(m, key, u64::MAX),
{
    let n = collected(m, min_revision);
    assert forall|r: u64| #[trigger] has_version(n, key, r) implies has_version(m, key, r) by {}
    if exists|r: u64| #[trigger] has_version(m, key, r) {
        let r = choose|r: u64| #[trigger] has_version(m, key, r);
        let t = lemma_newest_exists(m, key, u64::MAX, r);
        let k = version_key(key, t);
        law_key_round_trip(key, t);
        assert(has_version(m, key, t));
        assert(!is_garbage(m, k, min_revision));
        assert(has_version(n, key, t));
        assert(is_newest(n, key, u64::MAX, t));
        lemma_newest(m, key, u64::MAX, t);
        lemma_newest(n, key, u64::MAX, t);
    } else {
        lemma_no_version(m, key, u64::MAX);
        lemma_no_version(n, key, u64::MAX);
    }
}

/// A second collection finds nothing.
pub proof fn law_collection_is_complete(m: Contents, min_revision: u64)
    ensures
        forall|k: Seq<u8>| !#[trigger] is_garbage(collected(m, min_revision), k, min_revision),
        collected(collected(m, min_revision), min_revision) == collected(m, min_revision),
{
    let n = collected(m, min_revision);
    assert forall|k: Seq<u8>| !#[trigger] is_garbage(n, k, min_revision) by {
        if is_garbage(n, k, min_revision) {
            let r = choose|r: u64| r > revision_of(k) && #[trigger] has_version(n, user_key_of(k), r);
            assert(has_version(m, user_key_of(k), r));
            assert(is_garbage(m, k, min_revision));
        }
    }
    assert(collected(n, min_revision) =~= n);
}

/// Collects versions that no longer matter.
#[derive(Debug, Clone, Copy)]
pub struct GarbageCollector;

/// The keys are exactly those of the versions that go, each once.
pub open spec fn lists_garbage(ks: Seq<Seq<u8>>, m: Contents, min_revision: u64) -> bool {
    &&& ks.no_duplicates()
    &&& forall|k: Seq<u8>| #[trigger] ks.contains(k) <==> is_garbage(m, k, min_revision)
}

pub open spec fn keys_view(keys: Seq<Vec<u8>>) -> Seq<Seq<u8>> {
    Seq::new(keys.len(), |i: int| keys[i]@)
}

impl GarbageCollector {
    pub fn new() -> (r: Self)
        ensures
            r == GarbageCollector,
    {
        GarbageCollector
    }

    /// Removes all versions with a revision below `min_revision`, except the
    /// newest one of each key; returns how many were removed.
    pub fn collect<E: StorageEngine>(&self, store: &mut MvccStore<E>, min_revision: u64) -> (r:
        Result<usize, Error>)
        requires
            old(store).sound(),
        ensures
            final(store).sound(),
            final(store).current() == old(store).current(),
            short_keys(old(store).contents()) ==> stays_durable(*old(store), *final(store)),
            exists|ks: Seq<Seq<u8>>| #[trigger]
                lists_garbage(ks, old(store).contents(), min_revision) && (r matches Ok(n) && n
                    == ks.len()),
            final(store).contents() == collected(old(store).contents(), min_revision),
    {
        let keys: Vec<Vec<u8>> = match Self::find_garbage(store.engine(), min_revision) {
            Ok(k) => k,
            Err(e) => {
                return Err(e);
            },
        };
        assert(lists_garbage(keys_view(keys@), store.contents(), min_revision));
        let count: usize = keys.len();
        let ghost m = store.contents();
        let ghost ks = keys_view(keys@);
        proof {
            assert(lists_garbage(ks, m, min_revision));
            assert forall|i: int| 0 <= i < keys@.len() implies m.contains_key(
                (#[trigger] keys@[i])@,
            ) by {
                assert(ks[i] == keys@[i]@);
                assert(ks.contains(ks[i]));
            }
        }
        match store.remove_versions(&keys) {
            Ok(()) => {},
            Err(e) => {
                return Err(e);
            },
        }
        proof {
            assert forall|k: Seq<u8>| is_garbage(m, k, min_revision) == (exists|i: int|
                0 <= i < keys@.len() && (#[trigger] keys@[i])@ == k) by {
                if is_garbage(m, k, min_revision) {
                    assert(ks.contains(k));
                    let i = ks.index_of(k);
                    assert(keys@[i]@ == k);
                }
                if exists|i: int| 0 <= i < keys@.len() && (#[trigger] keys@[i])@ == k {
                    let i = choose|i: int| 0 <= i < keys@.len() && (#[trigger] keys@[i])@ == k;
                    assert(ks[i] == k);
                    assert(ks.contains(k));
                }
            }
            assert(store.contents() =~= collected(m, min_revision));
        }
        Ok(count)
    }

    /// The internal keys of the versions that go.
    fn find_garbage<E: StorageEngine>(engine: &E, min_revision: u64) -> (r: Result<
        Vec<Vec<u8>>,
        Error,
    >)
        requires
            engine.sound(),
            all_versions(engine.contents()),
        ensures
            r matches Ok(keys) && lists_garbage(
                keys_view(keys@),
                engine.contents(),
                min_revision,
            ),
    {
        let ghost m = engine.contents();
        let rows: Vec<(Vec<u8>, Vec<u8>)> = match all_rows(engine) {
            Ok(rows) => rows,
            Err(e) => {
                return Err(e);
            },
        };
        let ghost rs = rows_view(rows@);
        proof {
            assert forall|i: int| 0 <= i < rows@.len() implies (#[trigger] rs[i]).0.len() >= 8 by {
                assert(m.contains_key(rs[i].0));
            }
        }
        let firsts: Vec<bool> = mark_firsts(&rows, u64::MAX);
        let mut out: Vec<Vec<u8>> = Vec::new();
        let ghost mut origin: Seq<int> = Seq::empty();
        let mut i: usize = 0;
        while i < rows.len()
            invariant
                i <= rows.len(),
                m == engine.contents(),
                all_versions(m),
                rs == rows_view(rows@),
                lists_all(rs, m),
                firsts@.len() == rows@.len(),
                forall|j: int| 0 <= j < rs.len() ==> #[trigger] firsts@[j] == is_first(rs, j, u64::MAX),
                origin.len() == out@.len(),
                forall|x: int, y: int| 0 <= x < y < origin.len() ==> #[trigger] origin[x]
                    < #[trigger] origin[y],
                forall|x: int|
                    0 <= x < origin.len() ==> {
                        &&& 0 <= #[trigger] origin[x] < i
                        &&& !firsts@[origin[x]]
                        &&& revision_of(rs[origin[x]].0) < min_revision
                        &&& out@[x]@ == rs[origin[x]].0
                    },
                forall|j: int|
                    0 <= j < i && !(#[trigger] firsts@[j]) && revision_of(rs[j].0) < min_revision
                        ==> origin.contains(j),
            decreases rows.len() - i,
        {
            let ghost before = origin;
            assert(m.contains_key(rs[i as int].0));
            let (_user_key, rev) = decode_key(rows[i].0.as_slice());
            if !firsts[i] && rev < min_revision {
                out.push(copy(rows[i].0.as_slice()));
                proof {
                    origin = before.push(i as int);
                }
            }
            proof {
                assert forall|j: int|
                    0 <= j < i + 1 && !(#[trigger] firsts@[j]) && revision_of(rs[j].0)
                        < min_revision implies origin.contains(j) by {
                    if j < i {
                        assert(origin[before.index_of(j)] == j);
                    } else {
                        assert(origin[before.len() as int] == j);
                    }
                }
            }
            i += 1;
        }
        proof {
            let ks = keys_view(out@);
            assert forall|x: int, y: int| 0 <= x < ks.len() && 0 <= y < ks.len() && x != y implies ks[x]
                != ks[y] by {
                if x < y {
                    assert(origin[x] < origin[y]);
                    assert(lex_lt(rs[origin[x]].0, rs[origin[y]].0));
                    crate::bytes::lemma_lex_irreflexive(ks[x]);
                } else {
                    assert(origin[y] < origin[x]);
                    assert(lex_lt(rs[origin[y]].0, rs[origin[x]].0));
                    crate::bytes::lemma_lex_irreflexive(ks[x]);
                }
            }
            assert forall|k: Seq<u8>| #[trigger] ks.contains(k) <==> is_garbage(
                m,
                k,
                min_revision,
            ) by {
                if ks.contains(k) {
                    let x = ks.index_of(k);
                    lemma_older_row(m, rs, origin[x]);
                }
                if is_garbage(m, k, min_revision) {
                    assert(rs.contains((k, m[k])));
                    let j = rs.index_of((k, m[k]));
                    lemma_not_first(m, rs, j);
                    assert(!firsts@[j]);
                    let x = origin.index_of(j);
                    assert(ks[x] == k);
                }
            }
        }
        Ok(out)
    }
}

/// A row that is not the first of its key has a newer version before it.
proof fn lemma_older_row(m: Contents, rows: Seq<(Seq<u8>, Seq<u8>)>, i: int)
    requires
        all_versions(m),
        lists_all(rows, m),
        0 <= i < rows.len(),
        !is_first(rows, i, u64::MAX),
    ensures
        m.contains_key(rows[i].0),
        exists|r: u64|
            r > revision_of(rows[i].0) && #[trigger] has_version(m, user_key_of(rows[i].0), r),
{
    let u = user_key_of(rows[i].0);
    let j = choose|j: int|
        0 <= j < i && user_key_of((#[trigger] rows[j]).0) == u && revision_of(rows[j].0) <= u64::MAX;
    assert(m.contains_key(rows[i].0));
    assert(m.contains_key(rows[j].0));
    lemma_key_of_parts(rows[i].0);
    lemma_key_of_parts(rows[j].0);
    assert(lex_lt(rows[j].0, rows[i].0));
    law_newest_first(u, revision_of(rows[j].0), revision_of(rows[i].0));
    assert(has_version(m, u, revision_of(rows[j].0)));
}

/// A version with a newer one is not the first of its key.
proof fn lemma_not_first(m: Contents, rows: Seq<(Seq<u8>, Seq<u8>)>, i: int)
    requires
        all_versions(m),
        lists_all(rows, m),
        0 <= i < rows.len(),
        exists|r: u64|
            r > revision_of(rows[i].0) && #[trigger] has_version(m, user_key_of(rows[i].0), r),
    ensures
        !is_first(rows, i, u64::MAX),
{
    let k = rows[i].0;
    let u = user_key_of(k);
    let r = choose|r: u64| r > revision_of(k) && #[trigger] has_version(m, u, r);
    let n = version_key(u, r);
    assert(m.contains_key(k));
    lemma_key_of_parts(k);
    law_newest_first(u, r, revision_of(k));
    law_key_round_trip(u, r);
    assert(rows.contains((n, m[n])));
    let j = rows.index_of((n, m[n]));
    if is_first(rows, i, u64::MAX) {
        lemma_first_is_newest(rows, i, j, u64::MAX);
    }
}

} // verus!
