//! Sorted runs: rows of entries with strictly ascending keys.
//!
//! The memory table, the blocks of a table file and the result of a merge are
//! all sorted runs. A run is determined by the map that it spells out.

use vstd::prelude::*;
use crate::bytes::{
    compare, copy, lemma_lex_asymmetric, lemma_lex_irreflexive, lemma_lex_total,
    lemma_lex_transitive, lex_le, lex_lt, precedes, KeyOrder,
};

verus! {

/// A key with its value, or with `None` where the key was deleted.
pub type Pair = (Seq<u8>, Option<Seq<u8>>);

/// What a run says of each key that it mentions.
pub type Layer = Map<Seq<u8>, Option<Seq<u8>>>;

/// A key and its value; a value of `None` is a tombstone.
#[derive(Debug)]
pub struct BlockEntry {
    pub key: Vec<u8>,
    pub value: Option<Vec<u8>>,
}

/// The bytes of an optional byte string.
pub open spec fn value_view(value: Option<Vec<u8>>) -> Option<Seq<u8>> {
    match value {
        Some(v) => Some(v@),
        None => None,
    }
}

impl View for BlockEntry {
    type V = Pair;

    open spec fn view(&self) -> Pair {
        (self.key@, value_view(self.value))
    }
}

/// The pairs of a row of entries.
pub open spec fn pairs(entries: Seq<BlockEntry>) -> Seq<Pair> {
    Seq::new(entries.len(), |i: int| entries[i]@)
}

/// The keys ascend strictly.
pub open spec fn sorted(ps: Seq<Pair>) -> bool {
    forall|i: int, j: int| 0 <= i < j < ps.len() ==> lex_lt(#[trigger] ps[i].0, #[trigger] ps[j].0)
}

/// Some entry has the key `k`.
pub open spec fn has_key(ps: Seq<Pair>, k: Seq<u8>) -> bool {
    exists|i: int| 0 <= i < ps.len() && #[trigger] ps[i].0 == k
}

/// The place of an entry with the key `k`.
pub open spec fn key_index(ps: Seq<Pair>, k: Seq<u8>) -> int {
    choose|i: int| 0 <= i < ps.len() && #[trigger] ps[i].0 == k
}

/// The map that a run spells out.
pub open spec fn layer(ps: Seq<Pair>) -> Layer {
    Map::new(|k: Seq<u8>| has_key(ps, k), |k: Seq<u8>| ps[key_index(ps, k)].1)
}

/// A key lies in the half-open range from `start` to `end`.
pub open spec fn in_range(k: Seq<u8>, start: Seq<u8>, end: Seq<u8>) -> bool {
    lex_le(start, k) && lex_lt(k, end)
}

/// The part of a layer whose keys lie in a range.
pub open spec fn layer_range(m: Layer, start: Seq<u8>, end: Seq<u8>) -> Layer {
    m.restrict(Set::new(|k: Seq<u8>| in_range(k, start, end)))
}

/// In a sorted run the entry at `i` is the only one with its key.
pub proof fn lemma_layer_at(ps: Seq<Pair>, i: int)
    requires
        sorted(ps),
        0 <= i < ps.len(),
    ensures
        layer(ps).contains_key(ps[i].0),
        layer(ps)[ps[i].0] == ps[i].1,
        key_index(ps, ps[i].0) == i,
{
    let j = key_index(ps, ps[i].0);
    assert(ps[i].0 == ps[i].0);
    assert(0 <= j < ps.len() && ps[j].0 == ps[i].0);
    lemma_lex_irreflexive(ps[i].0);
    if i < j {
        assert(lex_lt(ps[i].0, ps[j].0));
    } else if j < i {
        assert(lex_lt(ps[j].0, ps[i].0));
    }
}

/// Appending an entry with a greater key to a sorted run inserts it.
pub proof fn lemma_layer_push(ps: Seq<Pair>, p: Pair)
    requires
        sorted(ps),
        ps.len() > 0 ==> lex_lt(ps.last().0, p.0),
    ensures
        sorted(ps.push(p)),
        layer(ps.push(p)) == layer(ps).insert(p.0, p.1),
        !layer(ps).contains_key(p.0),
{
    let qs = ps.push(p);
    assert forall|i: int| 0 <= i < ps.len() implies lex_lt(#[trigger] ps[i].0, p.0) by {
        if i < ps.len() - 1 {
            assert(lex_lt(ps[i].0, ps[ps.len() - 1].0));
            lemma_lex_transitive(ps[i].0, ps.last().0, p.0);
        }
    }
    assert forall|i: int, j: int| 0 <= i < j < qs.len() implies lex_lt(
        #[trigger] qs[i].0,
        #[trigger] qs[j].0,
    ) by {
        if j < ps.len() {
            assert(lex_lt(ps[i].0, ps[j].0));
        } else {
            assert(lex_lt(ps[i].0, p.0));
        }
    }
    lemma_lex_irreflexive(p.0);
    assert forall|k: Seq<u8>| has_key(qs, k) == (has_key(ps, k) || k == p.0) by {
        if has_key(ps, k) {
            let i = key_index(ps, k);
            assert(qs[i].0 == k);
        }
        if k == p.0 {
            assert(qs[ps.len() as int].0 == k);
        }
        if has_key(qs, k) {
            let i = key_index(qs, k);
            if i < ps.len() {
                assert(ps[i].0 == k);
            }
        }
    }
    assert forall|k: Seq<u8>| has_key(qs, k) implies layer(qs)[k] == layer(ps).insert(p.0, p.1)[k] by {
        let i = key_index(qs, k);
        lemma_layer_at(qs, i);
        if i < ps.len() {
            lemma_layer_at(ps, i);
        }
    }
    assert(layer(qs) =~= layer(ps).insert(p.0, p.1));
}

/// Two sorted runs that spell out the same map are the same run.
pub proof fn lemma_layer_determines(ps: Seq<Pair>, qs: Seq<Pair>)
    requires
        sorted(ps),
        sorted(qs),
        layer(ps) == layer(qs),
    ensures
        ps == qs,
    decreases ps.len(),
{
    if ps.len() == 0 {
        if qs.len() > 0 {
            lemma_layer_at(qs, 0);
            assert(!layer(ps).contains_key(qs[0].0));
        }
        assert(ps =~= qs);
    } else if qs.len() == 0 {
        lemma_layer_at(ps, 0);
        assert(!layer(qs).contains_key(ps[0].0));
    } else {
        let a = ps.last();
        let b = qs.last();
        let n = ps.len() - 1;
        let m = qs.len() - 1;
        lemma_layer_at(ps, n as int);
        lemma_layer_at(qs, m as int);
        let i = key_index(qs, a.0);
        let j = key_index(ps, b.0);
        assert(has_key(qs, a.0));
        assert(has_key(ps, b.0));
        if a.0 != b.0 {
            assert(i < m) by {
                assert(qs[i].0 == a.0);
            }
            assert(lex_lt(qs[i].0, qs[m as int].0));
            assert(j < n) by {
                assert(ps[j].0 == b.0);
            }
            assert(lex_lt(ps[j].0, ps[n as int].0));
            lemma_lex_asymmetric(a.0, b.0);
        }
        assert(a == b);
        let pr = ps.drop_last();
        let qr = qs.drop_last();
        assert(pr.push(a) =~= ps);
        assert(qr.push(a) =~= qs);
        if pr.len() > 0 {
            assert(lex_lt(ps[n - 1].0, ps[n as int].0));
        }
        if qr.len() > 0 {
            assert(lex_lt(qs[m - 1].0, qs[m as int].0));
        }
        assert(sorted(pr)) by {
            assert forall|x: int, y: int| 0 <= x < y < pr.len() implies lex_lt(
                #[trigger] pr[x].0,
                #[trigger] pr[y].0,
            ) by {
                assert(lex_lt(ps[x].0, ps[y].0));
            }
        }
        assert(sorted(qr)) by {
            assert forall|x: int, y: int| 0 <= x < y < qr.len() implies lex_lt(
                #[trigger] qr[x].0,
                #[trigger] qr[y].0,
            ) by {
                assert(lex_lt(qs[x].0, qs[y].0));
            }
        }
        lemma_layer_push(pr, a);
        lemma_layer_push(qr, a);
        assert(layer(pr) =~= layer(ps).remove(a.0));
        assert(layer(qr) =~= layer(qs).remove(a.0));
        lemma_layer_determines(pr, qr);
    }
}

/// A part of a sorted run is a sorted run.
pub proof fn lemma_sorted_subrange(ps: Seq<Pair>, i: int, j: int)
    requires
        sorted(ps),
        0 <= i <= j <= ps.len(),
    ensures
        sorted(ps.subrange(i, j)),
{
    let qs = ps.subrange(i, j);
    assert forall|x: int, y: int| 0 <= x < y < qs.len() implies lex_lt(
        #[trigger] qs[x].0,
        #[trigger] qs[y].0,
    ) by {
        assert(lex_lt(ps[i + x].0, ps[i + y].0));
    }
}

/// A copy of an optional byte string.
pub fn copy_value(value: &Option<Vec<u8>>) -> (r: Option<Vec<u8>>)
    ensures
        value_view(r) == value_view(*value),
{
    match value {
        Some(v) => Some(copy(v.as_slice())),
        None => None,
    }
}

/// A copy of an entry.
pub fn copy_entry(entry: &BlockEntry) -> (r: BlockEntry)
    ensures
        r@ == entry@,
{
    BlockEntry { key: copy(entry.key.as_slice()), value: copy_value(&entry.value) }
}

/// Where a key stands in a sorted run, or where it would be inserted.
#[derive(Clone, Copy, Debug, PartialEq, Eq, Structural)]
pub enum Position {
    Found(usize),
    Absent(usize),
}

/// Finds a key by halving the range in which it can stand.
///
/// A key that is reported found stands there whatever the order of the
/// entries; in a sorted run the answer is exact.
pub fn locate(entries: &[BlockEntry], key: &[u8]) -> (r: Position)
    ensures
        r matches Position::Found(i) ==> i < entries@.len() && entries@[i as int].key@ == key@,
        r matches Position::Absent(i) ==> i <= entries@.len(),
        sorted(pairs(entries@)) ==> match r {
            Position::Found(i) => true,
            Position::Absent(i) => {
                &&& !has_key(pairs(entries@), key@)
                &&& forall|j: int| 0 <= j < i ==> lex_lt(#[trigger] pairs(entries@)[j].0, key@)
                &&& forall|j: int|
                    i <= j < entries@.len() ==> lex_lt(key@, #[trigger] pairs(entries@)[j].0)
            },
        },
{
    let ghost ps = pairs(entries@);
    let mut low: usize = 0;
    let mut high: usize = entries.len();
    while low < high
        invariant
            low <= high <= entries@.len(),
            ps == pairs(entries@),
            sorted(ps) ==> forall|j: int| 0 <= j < low ==> lex_lt(#[trigger] ps[j].0, key@),
            sorted(ps) ==> forall|j: int| high <= j < ps.len() ==> lex_lt(key@, #[trigger] ps[j].0),
        decreases high - low,
    {
        let mid: usize = low + (high - low) / 2;
        assert(ps[mid as int] == entries@[mid as int]@);
        match compare(entries[mid].key.as_slice(), key) {
            KeyOrder::Same => {
                return Position::Found(mid);
            },
            KeyOrder::Before => {
                proof {
                    if sorted(ps) {
                        assert forall|j: int| 0 <= j < mid + 1 implies lex_lt(
                            #[trigger] ps[j].0,
                            key@,
                        ) by {
                            if j < mid {
                                assert(lex_lt(ps[j].0, ps[mid as int].0));
                                lemma_lex_transitive(ps[j].0, ps[mid as int].0, key@);
                            }
                        }
                    }
                }
                low = mid + 1;
            },
            KeyOrder::After => {
                proof {
                    if sorted(ps) {
                        assert forall|j: int| mid <= j < ps.len() implies lex_lt(
                            key@,
                            #[trigger] ps[j].0,
                        ) by {
                            if j > mid {
                                assert(lex_lt(ps[mid as int].0, ps[j].0));
                                lemma_lex_transitive(key@, ps[mid as int].0, ps[j].0);
                            }
                        }
                    }
                }
                high = mid;
            },
        }
    }
    proof {
        if sorted(ps) && has_key(ps, key@) {
            let i = key_index(ps, key@);
            lemma_lex_irreflexive(key@);
            assert(ps[i].0 == key@);
            assert(i < low || i >= high);
        }
    }
    Position::Absent(low)
}

/// Sets the value of a key in a sorted run, adding the key where it is new.
pub fn insert(entries: &mut Vec<BlockEntry>, key: Vec<u8>, value: Option<Vec<u8>>) -> (old_value:
    Option<Option<Vec<u8>>>)
    requires
        sorted(pairs(old(entries)@)),
    ensures
        sorted(pairs(final(entries)@)),
        layer(pairs(final(entries)@)) == layer(pairs(old(entries)@)).insert(
            key@,
            value_view(value),
        ),
        match old_value {
            Some(v) => layer(pairs(old(entries)@)).contains_key(key@) && layer(
                pairs(old(entries)@),
            )[key@] == value_view(v),
            None => !layer(pairs(old(entries)@)).contains_key(key@),
        },
        final(entries)@.len() == old(entries)@.len() + (if old_value is None {
            1int
        } else {
            0
        }),
{
    let ghost before = pairs(entries@);
    let ghost p: Pair = (key@, value_view(value));
    match locate(entries.as_slice(), key.as_slice()) {
        Position::Found(i) => {
            let new_entry: BlockEntry = BlockEntry { key, value };
            proof {
                lemma_layer_at(before, i as int);
                lemma_update(before, i as int, p);
            }
            let mut replaced: BlockEntry = new_entry;
            let ghost pre = entries@;
            std::mem::swap(&mut replaced, &mut entries[i]);
            assert(pairs(entries@) =~= before.update(i as int, p));
            Some(replaced.value)
        },
        Position::Absent(i) => {
            proof {
                lemma_insert(before, i as int, p);
            }
            entries.insert(i, BlockEntry { key, value });
            assert(pairs(entries@) =~= before.insert(i as int, p));
            None
        },
    }
}

proof fn lemma_update(ps: Seq<Pair>, i: int, p: Pair)
    requires
        sorted(ps),
        0 <= i < ps.len(),
        ps[i].0 == p.0,
    ensures
        sorted(ps.update(i, p)),
        layer(ps.update(i, p)) == layer(ps).insert(p.0, p.1),
{
    let qs = ps.update(i, p);
    assert forall|x: int, y: int| 0 <= x < y < qs.len() implies lex_lt(
        #[trigger] qs[x].0,
        #[trigger] qs[y].0,
    ) by {
        assert(lex_lt(ps[x].0, ps[y].0));
    }
    assert(qs[i] == p);
    assert forall|j: int| 0 <= j < ps.len() && (#[trigger] ps[j]).0 != p.0 implies qs.contains(
        ps[j],
    ) by {
        assert(qs[j] == ps[j]);
    }
    assert forall|j: int| 0 <= j < qs.len() && (#[trigger] qs[j]).0 != p.0 implies ps.contains(
        qs[j],
    ) by {
        assert(qs[j] == ps[j]);
    }
    lemma_layer_of_rows(ps, qs, p);
}

proof fn lemma_insert(ps: Seq<Pair>, i: int, p: Pair)
    requires
        sorted(ps),
        0 <= i <= ps.len(),
        forall|j: int| 0 <= j < i ==> lex_lt(#[trigger] ps[j].0, p.0),
        forall|j: int| i <= j < ps.len() ==> lex_lt(p.0, #[trigger] ps[j].0),
    ensures
        sorted(ps.insert(i, p)),
        layer(ps.insert(i, p)) == layer(ps).insert(p.0, p.1),
{
    let qs = ps.insert(i, p);
    assert forall|x: int, y: int| 0 <= x < y < qs.len() implies lex_lt(
        #[trigger] qs[x].0,
        #[trigger] qs[y].0,
    ) by {
        if x < i {
            assert(qs[x] == ps[x]);
            if y < i {
                assert(lex_lt(ps[x].0, ps[y].0));
            } else if y > i {
                assert(qs[y] == ps[y - 1]);
                assert(lex_lt(ps[x].0, ps[y - 1].0));
            }
        } else {
            assert(qs[y] == ps[y - 1]);
            if x > i {
                assert(qs[x] == ps[x - 1]);
                assert(lex_lt(ps[x - 1].0, ps[y - 1].0));
            }
        }
    }
    assert(qs[i] == p);
    assert forall|j: int| 0 <= j < ps.len() && (#[trigger] ps[j]).0 != p.0 implies qs.contains(
        ps[j],
    ) by {
        assert(ps[j] == if j < i {
            qs[j]
        } else {
            qs[j + 1]
        });
    }
    assert forall|j: int| 0 <= j < qs.len() && (#[trigger] qs[j]).0 != p.0 implies ps.contains(
        qs[j],
    ) by {
        assert(qs[j] == if j < i {
            ps[j]
        } else {
            ps[j - 1]
        });
    }
    lemma_layer_of_rows(ps, qs, p);
}

/// A sorted run whose rows are those of another and `p`, with `p` in place of
/// any other row with its key, spells out the other's map with `p` inserted.
proof fn lemma_layer_of_rows(ps: Seq<Pair>, qs: Seq<Pair>, p: Pair)
    requires
        sorted(ps),
        sorted(qs),
        qs.contains(p),
        forall|j: int|
            0 <= j < ps.len() && (#[trigger] ps[j]).0 != p.0 ==> qs.contains(ps[j]),
        forall|x: int|
            0 <= x < qs.len() && (#[trigger] qs[x]).0 != p.0 ==> ps.contains(qs[x]),
    ensures
        layer(qs) == layer(ps).insert(p.0, p.1),
{
    let m = layer(ps).insert(p.0, p.1);
    assert forall|k: Seq<u8>| layer(qs).contains_key(k) == m.contains_key(k) && (m.contains_key(k)
        ==> layer(qs)[k] == m[k]) by {
        if k == p.0 {
            lemma_layer_at(qs, qs.index_of(p));
        } else {
            if has_key(ps, k) {
                let j = key_index(ps, k);
                lemma_layer_at(ps, j);
                lemma_layer_at(qs, qs.index_of(ps[j]));
            }
            if has_key(qs, k) {
                let x = key_index(qs, k);
                assert(qs[x].0 != p.0);
                assert(ps[ps.index_of(qs[x])].0 == k);
            }
        }
    }
    assert(layer(qs) =~= m);
}

/// One more row of a sorted run inserts that row.
pub proof fn lemma_layer_take(ps: Seq<Pair>, n: int)
    requires
        sorted(ps),
        0 <= n < ps.len(),
    ensures
        sorted(ps.take(n)),
        layer(ps.take(n + 1)) == layer(ps.take(n)).insert(ps[n].0, ps[n].1),
        !layer(ps.take(n)).contains_key(ps[n].0),
{
    let qs = ps.take(n);
    lemma_sorted_subrange(ps, 0, n);
    if n > 0 {
        assert(lex_lt(ps[n - 1].0, ps[n].0));
    }
    lemma_layer_push(qs, ps[n]);
    assert(ps.take(n + 1) =~= qs.push(ps[n]));
}

/// A run without rows says nothing of any key.
pub proof fn lemma_layer_empty(ps: Seq<Pair>)
    requires
        ps.len() == 0,
    ensures
        layer(ps) == Layer::empty(),
        sorted(ps),
{
    assert(layer(ps) =~= Layer::empty());
}

proof fn lemma_pairs_push(entries: Seq<BlockEntry>, e: BlockEntry)
    ensures
        pairs(entries.push(e)) == pairs(entries).push(e@),
{
    assert(pairs(entries.push(e)) =~= pairs(entries).push(e@));
}

/// Merges two sorted runs; where both have a key, the newer one's value stays.
pub fn merge(newer: &Vec<BlockEntry>, older: &Vec<BlockEntry>) -> (r: Vec<BlockEntry>)
    requires
        sorted(pairs(newer@)),
        sorted(pairs(older@)),
    ensures
        sorted(pairs(r@)),
        layer(pairs(r@)) == layer(pairs(older@)).union_prefer_right(layer(pairs(newer@))),
        r@.len() <= newer@.len() + older@.len(),
{
    let ghost ns = pairs(newer@);
    let ghost os = pairs(older@);
    let mut out: Vec<BlockEntry> = Vec::new();
    let mut i: usize = 0;
    let mut j: usize = 0;
    proof {
        lemma_layer_empty(ns.take(0));
        lemma_layer_empty(os.take(0));
        lemma_layer_empty(pairs(out@));
        assert(Layer::empty() =~= Layer::empty().union_prefer_right(Layer::empty()));
    }
    while i < newer.len() || j < older.len()
        invariant
            i <= newer.len(),
            j <= older.len(),
            out.len() <= i + j,
            ns == pairs(newer@),
            os == pairs(older@),
            sorted(ns),
            sorted(os),
            sorted(pairs(out@)),
            layer(pairs(out@)) == layer(os.take(j as int)).union_prefer_right(
                layer(ns.take(i as int)),
            ),
            out.len() > 0 && i < newer.len() ==> lex_lt(pairs(out@).last().0, ns[i as int].0),
            out.len() > 0 && j < older.len() ==> lex_lt(pairs(out@).last().0, os[j as int].0),
        decreases newer.len() - i + older.len() - j,
    {
        let side: KeyOrder = if i == newer.len() {
            KeyOrder::After
        } else if j == older.len() {
            KeyOrder::Before
        } else {
            compare(newer[i].key.as_slice(), older[j].key.as_slice())
        };
        let ghost before = pairs(out@);
        let ghost ln = layer(ns.take(i as int));
        let ghost lo = layer(os.take(j as int));
        match side {
            KeyOrder::After => {
                let ghost p = os[j as int];
                proof {
                    lemma_layer_take(os, j as int);
                    lemma_layer_push(before, p);
                    if j + 1 < older.len() {
                        assert(lex_lt(os[j as int].0, os[j + 1].0));
                    }
                }
                let e: BlockEntry = copy_entry(&older[j]);
                proof {
                    lemma_pairs_push(out@, e);
                }
                out.push(e);
                j += 1;
                proof {
                    assert(layer(pairs(out@)) =~= layer(os.take(j as int)).union_prefer_right(ln));
                }
            },
            KeyOrder::Before => {
                let ghost p = ns[i as int];
                proof {
                    lemma_layer_take(ns, i as int);
                    lemma_layer_push(before, p);
                    if i + 1 < newer.len() {
                        assert(lex_lt(ns[i as int].0, ns[i + 1].0));
                    }
                }
                let e: BlockEntry = copy_entry(&newer[i]);
                proof {
                    lemma_pairs_push(out@, e);
                }
                out.push(e);
                i += 1;
                proof {
                    assert(layer(pairs(out@)) =~= lo.union_prefer_right(layer(ns.take(i as int))));
                }
            },
            KeyOrder::Same => {
                let ghost p = ns[i as int];
                proof {
                    lemma_layer_take(ns, i as int);
                    lemma_layer_take(os, j as int);
                    lemma_layer_push(before, p);
                    if i + 1 < newer.len() {
                        assert(lex_lt(ns[i as int].0, ns[i + 1].0));
                    }
                    if j + 1 < older.len() {
                        assert(lex_lt(os[j as int].0, os[j + 1].0));
                    }
                }
                let e: BlockEntry = copy_entry(&newer[i]);
                proof {
                    lemma_pairs_push(out@, e);
                }
                out.push(e);
                i += 1;
                j += 1;
                proof {
                    assert(layer(pairs(out@)) =~= layer(os.take(j as int)).union_prefer_right(
                        layer(ns.take(i as int)),
                    ));
                }
            },
        }
    }
    proof {
        assert(ns.take(i as int) =~= ns);
        assert(os.take(j as int) =~= os);
    }
    out
}

/// The entries of a sorted run whose keys lie in a range.
pub fn select_range(entries: &Vec<BlockEntry>, start: &[u8], end: &[u8]) -> (r: Vec<BlockEntry>)
    requires
        sorted(pairs(entries@)),
    ensures
        sorted(pairs(r@)),
        layer(pairs(r@)) == layer_range(layer(pairs(entries@)), start@, end@),
{
    let ghost ps = pairs(entries@);
    let mut out: Vec<BlockEntry> = Vec::new();
    let mut i: usize = 0;
    proof {
        lemma_layer_empty(ps.take(0));
        lemma_layer_empty(pairs(out@));
        assert(Layer::empty() =~= layer_range(Layer::empty(), start@, end@));
    }
    while i < entries.len()
        invariant
            i <= entries.len(),
            ps == pairs(entries@),
            sorted(ps),
            sorted(pairs(out@)),
            layer(pairs(out@)) == layer_range(layer(ps.take(i as int)), start@, end@),
            out.len() > 0 && i < entries.len() ==> lex_lt(pairs(out@).last().0, ps[i as int].0),
        decreases entries.len() - i,
    {
        let ghost before = pairs(out@);
        let key: &[u8] = entries[i].key.as_slice();
        let ghost p = ps[i as int];
        assert(key@ == p.0);
        let inside: bool = !precedes(key, start) && precedes(key, end);
        proof {
            lemma_layer_take(ps, i as int);
            lemma_lex_total(start@, p.0);
            if lex_lt(start@, p.0) {
                lemma_lex_asymmetric(start@, p.0);
            }
            lemma_lex_irreflexive(p.0);
            assert(inside == in_range(p.0, start@, end@));
            if i + 1 < entries.len() {
                assert(lex_lt(ps[i as int].0, ps[i + 1].0));
                if before.len() > 0 {
                    lemma_lex_transitive(before.last().0, p.0, ps[i + 1].0);
                }
            }
        }
        if inside {
            let e: BlockEntry = copy_entry(&entries[i]);
            proof {
                lemma_layer_push(before, p);
                lemma_pairs_push(out@, e);
            }
            out.push(e);
        }
        i += 1;
        assert(layer(pairs(out@)) =~= layer_range(layer(ps.take(i as int)), start@, end@));
    }
    assert(ps.take(i as int) =~= ps);
    out
}

/// The part of a layer that has values.
pub open spec fn live_part(m: Layer) -> Layer {
    m.restrict(Set::new(|k: Seq<u8>| m.contains_key(k) && m[k] is Some))
}

/// The entries of a sorted run that are no tombstones.
pub fn drop_tombstones(entries: &Vec<BlockEntry>) -> (r: Vec<BlockEntry>)
    requires
        sorted(pairs(entries@)),
    ensures
        sorted(pairs(r@)),
        layer(pairs(r@)) == live_part(layer(pairs(entries@))),
        r@.len() <= entries@.len(),
{
    let ghost ps = pairs(entries@);
    let mut out: Vec<BlockEntry> = Vec::new();
    let mut i: usize = 0;
    proof {
        lemma_layer_empty(ps.take(0));
        lemma_layer_empty(pairs(out@));
        assert(Layer::empty() =~= live_part(Layer::empty()));
    }
    while i < entries.len()
        invariant
            i <= entries.len(),
            ps == pairs(entries@),
            sorted(ps),
            sorted(pairs(out@)),
            out.len() <= i,
            layer(pairs(out@)) == live_part(layer(ps.take(i as int))),
            out.len() > 0 && i < entries.len() ==> lex_lt(pairs(out@).last().0, ps[i as int].0),
        decreases entries.len() - i,
    {
        let ghost before = pairs(out@);
        let ghost p = ps[i as int];
        proof {
            lemma_layer_take(ps, i as int);
            if i + 1 < entries.len() {
                assert(lex_lt(ps[i as int].0, ps[i + 1].0));
                if before.len() > 0 {
                    lemma_lex_transitive(before.last().0, p.0, ps[i + 1].0);
                }
            }
        }
        if entries[i].value.is_some() {
            let e: BlockEntry = copy_entry(&entries[i]);
            proof {
                lemma_layer_push(before, p);
                lemma_pairs_push(out@, e);
            }
            out.push(e);
        }
        i += 1;
        assert(layer(pairs(out@)) =~= live_part(layer(ps.take(i as int))));
    }
    assert(ps.take(i as int) =~= ps);
    out
}

} // verus!
