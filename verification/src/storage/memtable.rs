//! The memory table: the most recent writes, in key order.

use vstd::prelude::*;
use crate::bytes::{lemma_lex_asymmetric, lemma_lex_irreflexive, lemma_lex_total, lex_lt, precedes};
use crate::storage::block::{capped, value_bytes};
use crate::storage::run::{
    in_range, insert, layer, layer_range, lemma_layer_at, lemma_layer_determines, lemma_layer_empty,
    locate, pairs, sorted, BlockEntry, Layer, Pair, Position,
};
use crate::storage::sstable::lookup;

verus! {

/// The bytes of the keys and values of a run.
pub open spec fn content_size(ps: Seq<Pair>) -> nat
    decreases ps.len(),
{
    if ps.len() == 0 {
        0
    } else {
        content_size(ps.drop_last()) + ps.last().0.len() + value_bytes(ps.last().1).len()
    }
}

/// A sorted table of keys with values or tombstones, which is full once the
/// bytes of its keys and values reach a limit.
#[derive(Debug)]
pub struct MemTable {
    data: Vec<BlockEntry>,
    size_bytes: usize,
    max_size: usize,
}

/// The bytes of a borrowed optional byte string.
pub open spec fn slice_view(value: Option<&[u8]>) -> Option<Seq<u8>> {
    match value {
        Some(v) => Some(v@),
        None => None,
    }
}

impl View for MemTable {
    type V = Layer;

    open spec fn view(&self) -> Layer {
        layer(self.pairs())
    }
}

/// The size of a table depends on what it says alone, and not on how it came to
/// say it.
pub proof fn law_size_is_of_contents(a: MemTable, b: MemTable)
    requires
        a.well_formed(),
        b.well_formed(),
        a@ == b@,
    ensures
        content_size(a.pairs()) == content_size(b.pairs()),
{
    a.lemma_sorted();
    b.lemma_sorted();
    lemma_layer_determines(a.pairs(), b.pairs());
}

impl MemTable {
    /// The entries in key order.
    pub closed spec fn pairs(&self) -> Seq<Pair> {
        pairs(self.data@)
    }

    pub closed spec fn limit(&self) -> nat {
        self.max_size as nat
    }

    /// The entries are in key order and their size is the recorded one.
    pub closed spec fn well_formed(&self) -> bool {
        &&& sorted(pairs(self.data@))
        &&& self.size_bytes == capped(content_size(pairs(self.data@)))
    }

    /// The entries of a table are in key order.
    pub proof fn lemma_sorted(&self)
        requires
            self.well_formed(),
        ensures
            sorted(self.pairs()),
    {
    }

    /// A table without entries.
    pub fn new(max_size: usize) -> (r: Self)
        ensures
            r.well_formed(),
            r.pairs() == Seq::<Pair>::empty(),
            r@ == Layer::empty(),
            r.limit() == max_size,
    {
        let r = MemTable { data: Vec::new(), size_bytes: 0, max_size };
        proof {
            assert(pairs(r.data@) =~= Seq::<Pair>::empty());
            lemma_layer_empty(pairs(r.data@));
        }
        r
    }

    /// Looks a key up: its value, `None` in place of the value where it was
    /// deleted, or nothing where it was never written.
    pub fn get(&self, key: &[u8]) -> (r: Option<Option<&[u8]>>)
        requires
            self.well_formed(),
        ensures
            match r {
                Some(v) => lookup(self@, key@) == Some(slice_view(v)),
                None => lookup(self@, key@) is None,
            },
    {
        match locate(self.data.as_slice(), key) {
            Position::Found(i) => {
                proof {
                    lemma_layer_at(pairs(self.data@), i as int);
                }
                match &self.data[i].value {
                    Some(v) => Some(Some(v.as_slice())),
                    None => Some(None),
                }
            },
            Position::Absent(_) => None,
        }
    }

    /// Sets the value of a key.
    pub fn put(&mut self, key: Vec<u8>, value: Vec<u8>)
        requires
            old(self).well_formed(),
        ensures
            final(self).well_formed(),
            final(self)@ == old(self)@.insert(key@, Some(value@)),
            final(self).limit() == old(self).limit(),
            final(self).pairs().len() <= old(self).pairs().len() + 1,
            final(self).pairs().len() > 0,
    {
        let _ = insert(&mut self.data, key, Some(value));
        proof {
            assert(self@.contains_key(key@));
        }
        self.recalculate_size();
    }

    /// Records that a key was deleted.
    pub fn delete(&mut self, key: Vec<u8>)
        requires
            old(self).well_formed(),
        ensures
            final(self).well_formed(),
            final(self)@ == old(self)@.insert(key@, None),
            final(self).limit() == old(self).limit(),
            final(self).pairs().len() <= old(self).pairs().len() + 1,
            final(self).pairs().len() > 0,
    {
        let _ = insert(&mut self.data, key, None);
        proof {
            assert(self@.contains_key(key@));
        }
        self.recalculate_size();
    }

    /// The entries in key order; a value of `None` is a tombstone.
    pub fn iter(&self) -> (r: Vec<(&[u8], Option<&[u8]>)>)
        ensures
            r@.len() == self.pairs().len(),
            forall|i: int|
                0 <= i < r@.len() ==> ((#[trigger] r@[i]).0@, slice_view(r@[i].1))
                    == self.pairs()[i],
    {
        borrowed(&self.data)
    }

    /// The entries whose keys lie in the half-open range from `start` to
    /// `end`, in key order.
    pub fn scan(&self, start: &[u8], end: &[u8]) -> (r: Vec<(&[u8], Option<&[u8]>)>)
        requires
            self.well_formed(),
        ensures
            exists|ps: Seq<Pair>|
                #[trigger] sorted(ps) && layer(ps) == layer_range(self@, start@, end@) && spells(
                    r@,
                    ps,
                ),
    {
        let mut out: Vec<(&[u8], Option<&[u8]>)> = Vec::new();
        let ghost ps = pairs(self.data@);
        let ghost mut chosen: Seq<Pair> = Seq::empty();
        let mut i: usize = 0;
        proof {
            lemma_layer_empty(ps.take(0));
            lemma_layer_empty(chosen);
            assert(Layer::empty() =~= layer_range(Layer::empty(), start@, end@));
        }
        while i < self.data.len()
            invariant
                i <= self.data.len(),
                ps == pairs(self.data@),
                sorted(ps),
                sorted(chosen),
                spells(out@, chosen),
                layer(chosen) == layer_range(layer(ps.take(i as int)), start@, end@),
                chosen.len() > 0 && i < self.data.len() ==> lex_lt(
                    chosen.last().0,
                    ps[i as int].0,
                ),
            decreases self.data.len() - i,
        {
            let ghost before = chosen;
            let key: &[u8] = self.data[i].key.as_slice();
            let ghost p = ps[i as int];
            let inside: bool = !precedes(key, start) && precedes(key, end);
            proof {
                crate::storage::run::lemma_layer_take(ps, i as int);
                lemma_lex_total(start@, p.0);
                if lex_lt(start@, p.0) {
                    lemma_lex_asymmetric(start@, p.0);
                }
                lemma_lex_irreflexive(p.0);
                assert(inside == in_range(p.0, start@, end@));
                if i + 1 < self.data.len() {
                    assert(lex_lt(ps[i as int].0, ps[i + 1].0));
                    if before.len() > 0 {
                        crate::bytes::lemma_lex_transitive(before.last().0, p.0, ps[i + 1].0);
                    }
                }
            }
            if inside {
                let value: Option<&[u8]> = match &self.data[i].value {
                    Some(v) => Some(v.as_slice()),
                    None => None,
                };
                out.push((key, value));
                proof {
                    crate::storage::run::lemma_layer_push(before, p);
                    chosen = before.push(p);
                }
            }
            i += 1;
            assert(layer(chosen) =~= layer_range(layer(ps.take(i as int)), start@, end@));
        }
        assert(ps.take(i as int) =~= ps);
        assert(sorted(chosen));
        out
    }

    /// The entries themselves.
    pub fn entries(&self) -> (r: &Vec<BlockEntry>)
        ensures
            pairs(r@) == self.pairs(),
    {
        &self.data
    }

    /// Whether the table has reached its limit.
    pub fn is_full(&self) -> (r: bool)
        requires
            self.well_formed(),
        ensures
            r == (capped(content_size(self.pairs())) >= self.limit()),
    {
        self.size_bytes >= self.max_size
    }

    /// The bytes of the keys and values, capped at the greatest `usize`.
    pub fn size_bytes(&self) -> (r: usize)
        requires
            self.well_formed(),
        ensures
            r == capped(content_size(self.pairs())),
    {
        self.size_bytes
    }

    /// The number of entries, tombstones among them.
    pub fn len(&self) -> (r: usize)
        ensures
            r == self.pairs().len(),
    {
        self.data.len()
    }

    pub fn is_empty(&self) -> (r: bool)
        ensures
            r == (self.pairs().len() == 0),
    {
        self.data.is_empty()
    }

    fn recalculate_size(&mut self)
        ensures
            final(self).data == old(self).data,
            final(self).max_size == old(self).max_size,
            final(self).size_bytes == capped(content_size(pairs(old(self).data@))),
    {
        let ghost ps = pairs(self.data@);
        let mut total: usize = 0;
        let mut i: usize = 0;
        while i < self.data.len()
            invariant
                i <= self.data.len(),
                ps == pairs(self.data@),
                total == capped(content_size(ps.take(i as int))),
            decreases self.data.len() - i,
        {
            let value_len: usize = match &self.data[i].value {
                Some(v) => v.len(),
                None => 0,
            };
            proof {
                assert(ps.take(i + 1).drop_last() =~= ps.take(i as int));
                assert(ps.take(i + 1).last() == ps[i as int]);
            }
            total = total.saturating_add(self.data[i].key.len()).saturating_add(value_len);
            i += 1;
        }
        assert(ps.take(i as int) =~= ps);
        self.size_bytes = total;
    }
}

/// Borrowed entries are those of a run.
pub open spec fn spells(rows: Seq<(&[u8], Option<&[u8]>)>, ps: Seq<Pair>) -> bool {
    &&& rows.len() == ps.len()
    &&& forall|i: int|
        0 <= i < rows.len() ==> ((#[trigger] rows[i]).0@, slice_view(rows[i].1)) == ps[i]
}

fn borrowed(entries: &Vec<BlockEntry>) -> (r: Vec<(&[u8], Option<&[u8]>)>)
    ensures
        spells(r@, pairs(entries@)),
{
    let mut out: Vec<(&[u8], Option<&[u8]>)> = Vec::with_capacity(entries.len());
    let mut i: usize = 0;
    while i < entries.len()
        invariant
            i <= entries.len(),
            out.len() == i,
            forall|j: int|
                0 <= j < i ==> ((#[trigger] out@[j]).0@, slice_view(out@[j].1)) == entries@[j]@,
        decreases entries.len() - i,
    {
        let value: Option<&[u8]> = match &entries[i].value {
            Some(v) => Some(v.as_slice()),
            None => None,
        };
        out.push((entries[i].key.as_slice(), value));
        i += 1;
    }
    out
}

} // verus!
