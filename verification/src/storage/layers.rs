//! Stacks of layers: a key has the value that the topmost layer with it says.

use vstd::prelude::*;
use crate::bytes::lex_lt;
use crate::storage::run::{in_range, layer_range, Layer};
use crate::storage::sstable::lookup;

verus! {

/// What the topmost layer that has a key says of it; the first is the topmost.
pub open spec fn find(layers: Seq<Layer>, k: Seq<u8>) -> Option<Option<Seq<u8>>>
    decreases layers.len(),
{
    if layers.len() == 0 {
        None
    } else if layers[0].contains_key(k) {
        Some(layers[0][k])
    } else {
        find(layers.drop_first(), k)
    }
}

/// The value of a key, where it has one.
pub open spec fn live(found: Option<Option<Seq<u8>>>) -> Option<Seq<u8>> {
    match found {
        Some(Some(v)) => Some(v),
        _ => None,
    }
}

/// The keys that have values, with their values.
pub open spec fn contents_of(layers: Seq<Layer>) -> Map<Seq<u8>, Seq<u8>> {
    Map::new(
        |k: Seq<u8>| live(find(layers, k)) is Some,
        |k: Seq<u8>| live(find(layers, k))->0,
    )
}

/// A stack of layers as one layer.
pub open spec fn overlay(layers: Seq<Layer>) -> Layer {
    Map::new(|k: Seq<u8>| find(layers, k) is Some, |k: Seq<u8>| find(layers, k)->0)
}

/// `i` is the topmost layer with the key `k`.
pub open spec fn topmost(layers: Seq<Layer>, k: Seq<u8>, i: int) -> bool {
    &&& 0 <= i < layers.len()
    &&& layers[i].contains_key(k)
    &&& forall|j: int| 0 <= j < i ==> !(#[trigger] layers[j]).contains_key(k)
}

/// No layer has the key `k`.
pub open spec fn nowhere(layers: Seq<Layer>, k: Seq<u8>) -> bool {
    forall|j: int| 0 <= j < layers.len() ==> !(#[trigger] layers[j]).contains_key(k)
}

/// A lookup finds the topmost layer with the key.
pub proof fn lemma_find_topmost(layers: Seq<Layer>, k: Seq<u8>, i: int)
    requires
        topmost(layers, k, i),
    ensures
        find(layers, k) == Some(layers[i][k]),
    decreases i,
{
    if i > 0 {
        assert(!layers[0].contains_key(k));
        let rest = layers.drop_first();
        assert forall|j: int| 0 <= j < i - 1 implies !(#[trigger] rest[j]).contains_key(k) by {
            assert(!layers[j + 1].contains_key(k));
        }
        lemma_find_topmost(rest, k, i - 1);
    }
}

/// A lookup of a key that no layer has finds nothing.
pub proof fn lemma_find_nowhere(layers: Seq<Layer>, k: Seq<u8>)
    requires
        nowhere(layers, k),
    ensures
        find(layers, k) is None,
    decreases layers.len(),
{
    if layers.len() > 0 {
        assert(!layers[0].contains_key(k));
        let rest = layers.drop_first();
        assert forall|j: int| 0 <= j < rest.len() implies !(#[trigger] rest[j]).contains_key(k) by {
            assert(!layers[j + 1].contains_key(k));
        }
        lemma_find_nowhere(rest, k);
    }
}

/// Either no layer has a key, or there is a topmost one that has it.
pub proof fn lemma_find_where(layers: Seq<Layer>, k: Seq<u8>) -> (i: int)
    ensures
        nowhere(layers, k) || topmost(layers, k, i),
        topmost(layers, k, i) ==> find(layers, k) == Some(layers[i][k]),
        nowhere(layers, k) ==> find(layers, k) is None,
    decreases layers.len(),
{
    if layers.len() == 0 {
        0
    } else if layers[0].contains_key(k) {
        lemma_find_topmost(layers, k, 0);
        0
    } else {
        let rest = layers.drop_first();
        let i = lemma_find_where(rest, k);
        if topmost(rest, k, i) {
            assert forall|j: int| 0 <= j < i + 1 implies !(#[trigger] layers[j]).contains_key(
                k,
            ) by {
                if j > 0 {
                    assert(!rest[j - 1].contains_key(k));
                }
            }
            assert(layers[i + 1] == rest[i]);
            lemma_find_topmost(layers, k, i + 1);
        } else {
            assert forall|j: int| 0 <= j < layers.len() implies !(
            #[trigger] layers[j]).contains_key(k) by {
                if j > 0 {
                    assert(!rest[j - 1].contains_key(k));
                }
            }
            lemma_find_nowhere(layers, k);
        }
        i + 1
    }
}

/// A layer below a stack is asked where the stack says nothing.
pub proof fn lemma_find_push(layers: Seq<Layer>, m: Layer, k: Seq<u8>)
    ensures
        find(layers.push(m), k) == (if find(layers, k) is Some {
            find(layers, k)
        } else {
            lookup(m, k)
        }),
    decreases layers.len(),
{
    let all = layers.push(m);
    if layers.len() == 0 {
        assert(all.drop_first() =~= Seq::<Layer>::empty());
        assert(find(Seq::<Layer>::empty(), k) is None);
    } else {
        lemma_find_push(layers.drop_first(), m, k);
        assert(all.drop_first() =~= layers.drop_first().push(m));
    }
}

/// The overlay of a stack with one more layer below it.
pub proof fn lemma_overlay_push(layers: Seq<Layer>, m: Layer)
    ensures
        overlay(layers.push(m)) == m.union_prefer_right(overlay(layers)),
{
    let all = overlay(layers.push(m));
    let joined = m.union_prefer_right(overlay(layers));
    assert forall|k: Seq<u8>| #[trigger] find(layers.push(m), k) == (if find(layers, k) is Some {
        find(layers, k)
    } else {
        lookup(m, k)
    }) by {
        lemma_find_push(layers, m, k);
    }
    assert(all =~= joined);
}

/// Restricting every layer to a range restricts the overlay to it.
pub proof fn lemma_overlay_range(layers: Seq<Layer>, start: Seq<u8>, end: Seq<u8>)
    ensures
        overlay(Seq::new(layers.len(), |i: int| layer_range(layers[i], start, end)))
            == layer_range(overlay(layers), start, end),
{
    let cut = Seq::new(layers.len(), |i: int| layer_range(layers[i], start, end));
    let a = overlay(cut);
    let b = layer_range(overlay(layers), start, end);
    assert forall|k: Seq<u8>| #[trigger] find(cut, k) == (if in_range(k, start, end) {
        find(layers, k)
    } else {
        None
    }) by {
        lemma_find_range(layers, cut, start, end, k);
    }
    assert(a =~= b);
}

proof fn lemma_find_range(
    layers: Seq<Layer>,
    cut: Seq<Layer>,
    start: Seq<u8>,
    end: Seq<u8>,
    k: Seq<u8>,
)
    requires
        cut.len() == layers.len(),
        forall|i: int|
            0 <= i < cut.len() ==> #[trigger] cut[i] == layer_range(layers[i], start, end),
    ensures
        find(cut, k) == (if in_range(k, start, end) {
            find(layers, k)
        } else {
            None
        }),
    decreases layers.len(),
{
    if layers.len() > 0 {
        assert(cut[0] == layer_range(layers[0], start, end));
        assert forall|i: int| 0 <= i < cut.drop_first().len() implies #[trigger] cut.drop_first()[i]
            == layer_range(layers.drop_first()[i], start, end) by {
            assert(cut[i + 1] == layer_range(layers[i + 1], start, end));
        }
        lemma_find_range(layers.drop_first(), cut.drop_first(), start, end, k);
    }
}

/// Rows of keys and values in ascending key order.
pub open spec fn rows_sorted(rows: Seq<(Seq<u8>, Seq<u8>)>) -> bool {
    forall|i: int, j: int|
        0 <= i < j < rows.len() ==> lex_lt(#[trigger] rows[i].0, #[trigger] rows[j].0)
}

/// The rows are exactly the entries of a map whose keys lie in a range, in
/// ascending key order.
pub open spec fn lists_range(
    rows: Seq<(Seq<u8>, Seq<u8>)>,
    m: Map<Seq<u8>, Seq<u8>>,
    start: Seq<u8>,
    end: Seq<u8>,
) -> bool {
    &&& rows_sorted(rows)
    &&& forall|i: int|
        0 <= i < rows.len() ==> {
            &&& m.contains_key(#[trigger] rows[i].0)
            &&& m[rows[i].0] == rows[i].1
            &&& in_range(rows[i].0, start, end)
        }
    &&& forall|k: Seq<u8>| #[trigger]
        m.contains_key(k) && in_range(k, start, end) ==> rows.contains((k, m[k]))
}

/// The rows of a scan.
pub open spec fn rows_view(rows: Seq<(Vec<u8>, Vec<u8>)>) -> Seq<(Seq<u8>, Seq<u8>)> {
    Seq::new(rows.len(), |i: int| (rows[i].0@, rows[i].1@))
}

} // verus!
