//! Picking the newest version of each key out of rows in key order.

use vstd::prelude::*;
use crate::bytes::{copy, lex_lt};
use crate::mvcc::version::{
    decode_key, law_newest_first, lemma_key_of_parts, revision_of, user_key_of,
};
use crate::storage::layers::{rows_sorted, rows_view};
use crate::storage::run::{insert, layer, lemma_layer_empty, pairs, sorted, BlockEntry};

verus! {

/// The row at `i` is a version up to `bound`, and no earlier row is one of the
/// same key.
pub open spec fn is_first(rows: Seq<(Seq<u8>, Seq<u8>)>, i: int, bound: u64) -> bool {
    &&& revision_of(rows[i].0) <= bound
    &&& forall|j: int|
        0 <= j < i ==> !(user_key_of((#[trigger] rows[j]).0) == user_key_of(rows[i].0)
            && revision_of(rows[j].0) <= bound)
}

/// A key occurs in an earlier row with a version up to `bound`.
spec fn occurs(rows: Seq<(Seq<u8>, Seq<u8>)>, n: int, bound: u64, key: Seq<u8>) -> bool {
    exists|j: int|
        0 <= j < n && user_key_of((#[trigger] rows[j]).0) == key && revision_of(rows[j].0) <= bound
}

/// Marks the rows that are the first versions of their keys up to `bound`.
pub fn mark_firsts(rows: &Vec<(Vec<u8>, Vec<u8>)>, bound: u64) -> (r: Vec<bool>)
    requires
        forall|i: int| 0 <= i < rows@.len() ==> (#[trigger] rows_view(rows@)[i]).0.len() >= 8,
    ensures
        r@.len() == rows@.len(),
        forall|i: int|
            0 <= i < r@.len() ==> #[trigger] r@[i] == is_first(rows_view(rows@), i, bound),
{
    let ghost rs = rows_view(rows@);
    let mut marks: Vec<bool> = Vec::new();
    let mut seen: Vec<BlockEntry> = Vec::new();
    proof {
        lemma_layer_empty(pairs(seen@));
    }
    let mut i: usize = 0;
    while i < rows.len()
        invariant
            i <= rows.len(),
            rs == rows_view(rows@),
            forall|j: int| 0 <= j < rs.len() ==> (#[trigger] rs[j]).0.len() >= 8,
            marks@.len() == i,
            forall|j: int| 0 <= j < i ==> #[trigger] marks@[j] == is_first(rs, j, bound),
            sorted(pairs(seen@)),
            forall|k: Seq<u8>| #[trigger]
                layer(pairs(seen@)).contains_key(k) == occurs(rs, i as int, bound, k),
        decreases rows.len() - i,
    {
        let ghost row = rs[i as int];
        assert(row.0 == rows@[i as int].0@);
        let (user_key, rev) = decode_key(rows[i].0.as_slice());
        let ghost before = layer(pairs(seen@));
        let mut first: bool = false;
        if rev <= bound {
            let old_value: Option<Option<Vec<u8>>> = insert(&mut seen, copy(user_key), None);
            first = old_value.is_none();
            proof {
                assert(before.contains_key(user_key@) == occurs(rs, i as int, bound, user_key@));
            }
        }
        marks.push(first);
        proof {
            assert(first == is_first(rs, i as int, bound)) by {
                if revision_of(row.0) <= bound {
                    assert(first == !occurs(rs, i as int, bound, user_key_of(row.0)));
                    if !occurs(rs, i as int, bound, user_key_of(row.0)) {
                        assert forall|j: int| 0 <= j < i implies !(user_key_of(
                            (#[trigger] rs[j]).0,
                        ) == user_key_of(rs[i as int].0) && revision_of(rs[j].0) <= bound) by {}
                    }
                }
            }
            assert forall|k: Seq<u8>| #[trigger] layer(pairs(seen@)).contains_key(k) == occurs(
                rs,
                i + 1,
                bound,
                k,
            ) by {
                assert(before.contains_key(k) == occurs(rs, i as int, bound, k));
                if occurs(rs, i as int, bound, k) {
                    let j = choose|j: int|
                        0 <= j < i && user_key_of((#[trigger] rs[j]).0) == k && revision_of(
                            rs[j].0,
                        ) <= bound;
                    assert(0 <= j < i + 1);
                }
                if occurs(rs, i + 1, bound, k) {
                    let j = choose|j: int|
                        0 <= j < i + 1 && user_key_of((#[trigger] rs[j]).0) == k && revision_of(
                            rs[j].0,
                        ) <= bound;
                    if j < i {
                        assert(occurs(rs, i as int, bound, k));
                    }
                }
                if rev <= bound && k == user_key@ {
                    assert(user_key_of(rs[i as int].0) == k);
                }
            }
        }
        i += 1;
    }
    marks
}

/// In rows in key order, the first version of a key up to a bound is its
/// newest one.
pub proof fn lemma_first_is_newest(
    rows: Seq<(Seq<u8>, Seq<u8>)>,
    i: int,
    j: int,
    bound: u64,
)
    requires
        rows_sorted(rows),
        0 <= i < rows.len(),
        0 <= j < rows.len(),
        rows[i].0.len() >= 8,
        rows[j].0.len() >= 8,
        is_first(rows, i, bound),
        user_key_of(rows[j].0) == user_key_of(rows[i].0),
        revision_of(rows[j].0) <= bound,
    ensures
        revision_of(rows[j].0) <= revision_of(rows[i].0),
        i <= j,
{
    assert(!(j < i));
    lemma_key_of_parts(rows[i].0);
    lemma_key_of_parts(rows[j].0);
    if i < j {
        assert(lex_lt(rows[i].0, rows[j].0));
        law_newest_first(
            user_key_of(rows[i].0),
            revision_of(rows[i].0),
            revision_of(rows[j].0),
        );
    }
}

} // verus!
