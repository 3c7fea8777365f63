//! Data blocks of a table file.
//!
//! An entry is stored as its key length and its value length in four bytes
//! each, least significant first, then the key and the value. A value length
//! of `u32::MAX` marks a tombstone, which has no value bytes. After the
//! entries comes their number in four bytes.

use vstd::prelude::*;
use crate::bytes::{
    append, copy, copy_range, get_u32, le_bytes, le_value, lemma_base_pow, lemma_le_bytes_len,
    lemma_le_round_trip, put_len, put_u32,
};
use crate::error::Error;
use crate::storage::run::{has_key, locate, pairs, sorted, BlockEntry, Pair, Position};

verus! {

/// The value length that marks a tombstone.
pub const TOMBSTONE_MARKER: u32 = u32::MAX;

/// The value length field of an entry.
pub open spec fn value_field(value: Option<Seq<u8>>) -> nat {
    match value {
        Some(v) => v.len(),
        None => TOMBSTONE_MARKER as nat,
    }
}

/// The value bytes of an entry.
pub open spec fn value_bytes(value: Option<Seq<u8>>) -> Seq<u8> {
    match value {
        Some(v) => v,
        None => Seq::empty(),
    }
}

/// An entry as it is stored.
pub open spec fn encode_pair(p: Pair) -> Seq<u8> {
    le_bytes(p.0.len(), 4) + le_bytes(value_field(p.1), 4) + p.0 + value_bytes(p.1)
}

/// A row of entries as it is stored.
pub open spec fn encode_pairs(ps: Seq<Pair>) -> Seq<u8>
    decreases ps.len(),
{
    if ps.len() == 0 {
        Seq::empty()
    } else {
        encode_pairs(ps.drop_last()) + encode_pair(ps.last())
    }
}

/// A block as it is stored.
pub open spec fn encode_block(ps: Seq<Pair>) -> Seq<u8> {
    encode_pairs(ps) + le_bytes(ps.len(), 4)
}

/// An entry whose lengths fit their fields.
pub open spec fn storable(p: Pair) -> bool {
    &&& p.0.len() <= u32::MAX
    &&& p.1 matches Some(v) ==> v.len() < u32::MAX
}

/// Every entry of a row fits its fields.
pub open spec fn all_storable(ps: Seq<Pair>) -> bool {
    forall|i: int| 0 <= i < ps.len() ==> storable(#[trigger] ps[i])
}

/// What is read from the front of `data`: an entry and what follows it, or
/// the reason why there is none.
pub open spec fn decode_pair(data: Seq<u8>) -> Result<(Pair, Seq<u8>), Seq<char>> {
    if data.len() < 8 {
        Err("block entry truncated"@)
    } else {
        let key_len = le_value(data.subrange(0, 4));
        let field = le_value(data.subrange(4, 8));
        if 8 + key_len > data.len() {
            Err("block key truncated"@)
        } else {
            let key = data.subrange(8, (8 + key_len) as int);
            let rest = data.skip((8 + key_len) as int);
            if field == TOMBSTONE_MARKER {
                Ok(((key, None), rest))
            } else if field > rest.len() {
                Err("block value truncated"@)
            } else {
                Ok(((key, Some(rest.take(field as int))), rest.skip(field as int)))
            }
        }
    }
}

/// What is read as `n` entries from the front of `data`.
pub open spec fn decode_pairs(data: Seq<u8>, n: nat) -> Result<Seq<Pair>, Seq<char>>
    decreases n,
{
    if n == 0 {
        Ok(Seq::empty())
    } else {
        match decode_pair(data) {
            Err(e) => Err(e),
            Ok((p, rest)) => match decode_pairs(rest, (n - 1) as nat) {
                Err(e) => Err(e),
                Ok(ps) => Ok(seq![p] + ps),
            },
        }
    }
}

/// What a stored block holds.
pub open spec fn decode_block(data: Seq<u8>) -> Result<Seq<Pair>, Seq<char>> {
    if data.len() < 4 {
        Err("block too small"@)
    } else {
        let end = data.len() - 4;
        decode_pairs(data.take(end), le_value(data.skip(end)))
    }
}

/// An entry that was stored is read back, and what follows it is left.
pub proof fn lemma_pair_round_trip(p: Pair, rest: Seq<u8>)
    requires
        storable(p),
    ensures
        decode_pair(encode_pair(p) + rest) == Ok::<(Pair, Seq<u8>), Seq<char>>((p, rest)),
{
    lemma_base_pow();
    lemma_le_round_trip(p.0.len(), 4);
    lemma_le_round_trip(value_field(p.1), 4);
    let data = encode_pair(p) + rest;
    assert(data.subrange(0, 4) =~= le_bytes(p.0.len(), 4));
    assert(data.subrange(4, 8) =~= le_bytes(value_field(p.1), 4));
    let end = 8 + p.0.len() as int;
    assert(data.subrange(8, end) =~= p.0);
    match p.1 {
        Some(v) => {
            assert(data.skip(end) =~= v + rest);
            assert((v + rest).take(v.len() as int) =~= v);
            assert((v + rest).skip(v.len() as int) =~= rest);
        },
        None => {
            assert(data.skip(end) =~= rest);
        },
    }
}

/// Storing a row of entries stores its first entry and then the others.
pub proof fn lemma_encode_first(ps: Seq<Pair>)
    requires
        ps.len() > 0,
    ensures
        encode_pairs(ps) == encode_pair(ps[0]) + encode_pairs(ps.drop_first()),
    decreases ps.len(),
{
    if ps.len() == 1 {
        assert(ps.drop_last() =~= Seq::<Pair>::empty());
        assert(ps.drop_first() =~= Seq::<Pair>::empty());
        assert(encode_pairs(Seq::<Pair>::empty()) == Seq::<u8>::empty());
        assert(encode_pairs(ps) =~= encode_pair(ps[0]));
        assert(encode_pair(ps[0]) + Seq::<u8>::empty() =~= encode_pair(ps[0]));
    } else {
        lemma_encode_first(ps.drop_last());
        assert(ps.drop_last().drop_first() =~= ps.drop_first().drop_last());
        assert(encode_pairs(ps) =~= encode_pair(ps[0]) + (encode_pairs(ps.drop_first().drop_last())
            + encode_pair(ps.last())));
    }
}

/// Entries that were stored are read back.
pub proof fn lemma_pairs_round_trip(ps: Seq<Pair>)
    requires
        all_storable(ps),
    ensures
        decode_pairs(encode_pairs(ps), ps.len()) == Ok::<Seq<Pair>, Seq<char>>(ps),
    decreases ps.len(),
{
    if ps.len() > 0 {
        let tail = ps.drop_first();
        lemma_encode_first(ps);
        lemma_pair_round_trip(ps[0], encode_pairs(tail));
        assert(all_storable(tail)) by {
            assert forall|i: int| 0 <= i < tail.len() implies storable(#[trigger] tail[i]) by {
                assert(storable(ps[i + 1]));
            }
        }
        lemma_pairs_round_trip(tail);
        assert(seq![ps[0]] + tail =~= ps);
    } else {
        assert(ps =~= Seq::<Pair>::empty());
    }
}

/// Reading a block gives the entries that it was built from.
pub proof fn law_block_round_trip(ps: Seq<Pair>)
    requires
        all_storable(ps),
        ps.len() <= u32::MAX,
    ensures
        decode_block(encode_block(ps)) == Ok::<Seq<Pair>, Seq<char>>(ps),
{
    lemma_base_pow();
    lemma_le_round_trip(ps.len(), 4);
    let data = encode_block(ps);
    let end = data.len() - 4;
    assert(data.take(end) =~= encode_pairs(ps));
    assert(data.skip(end) =~= le_bytes(ps.len(), 4));
    lemma_pairs_round_trip(ps);
}

/// A block is as long as its entries take and its count, which has four bytes.
pub proof fn law_estimate_is_exact(ps: Seq<Pair>)
    ensures
        encode_block(ps).len() == pairs_size(ps) + 4,
{
    lemma_pairs_size(ps);
    lemma_le_bytes_len(ps.len(), 4);
}

/// The bytes that the entries of a row take when stored.
pub open spec fn pairs_size(ps: Seq<Pair>) -> nat
    decreases ps.len(),
{
    if ps.len() == 0 {
        0
    } else {
        pairs_size(ps.drop_last()) + 8 + ps.last().0.len() + value_bytes(ps.last().1).len()
    }
}

/// A size as far as a `usize` can hold it.
pub open spec fn capped(n: nat) -> nat {
    if n <= usize::MAX {
        n
    } else {
        usize::MAX as nat
    }
}

/// Every entry takes eight bytes at least.
pub proof fn lemma_pairs_size_min(ps: Seq<Pair>)
    ensures
        pairs_size(ps) >= 8 * ps.len(),
    decreases ps.len(),
{
    if ps.len() > 0 {
        lemma_pairs_size_min(ps.drop_last());
    }
}

/// The size of a row is the length of its encoding.
pub proof fn lemma_pairs_size(ps: Seq<Pair>)
    ensures
        encode_pairs(ps).len() == pairs_size(ps),
    decreases ps.len(),
{
    if ps.len() > 0 {
        lemma_pairs_size(ps.drop_last());
        lemma_le_bytes_len(ps.last().0.len(), 4);
        lemma_le_bytes_len(value_field(ps.last().1), 4);
    }
}

/// Builds a block from entries that are added in key order.
#[derive(Debug)]
pub struct BlockBuilder {
    entries: Vec<BlockEntry>,
    size: usize,
}

impl BlockBuilder {
    /// The entries added so far.
    pub closed spec fn pairs(&self) -> Seq<Pair> {
        pairs(self.entries@)
    }

    /// The recorded size is that of the block that would be built.
    pub closed spec fn well_formed(&self) -> bool {
        self.size == capped(pairs_size(pairs(self.entries@)) + 4)
    }

    /// A builder without entries.
    pub fn new() -> (r: Self)
        ensures
            r.well_formed(),
            r.pairs() == Seq::<Pair>::empty(),
    {
        let r = BlockBuilder { entries: Vec::new(), size: 4 };
        assert(pairs(r.entries@) =~= Seq::<Pair>::empty());
        r
    }

    /// Adds an entry.
    pub fn add(&mut self, key: &[u8], value: Option<&[u8]>)
        requires
            old(self).well_formed(),
        ensures
            final(self).well_formed(),
            final(self).pairs() == old(self).pairs().push(
                (
                    key@,
                    match value {
                        Some(v) => Some(v@),
                        None => None,
                    },
                ),
            ),
    {
        let value_len: usize = match value {
            Some(v) => v.len(),
            None => 0,
        };
        let copied: Option<Vec<u8>> = match value {
            Some(v) => Some(copy(v)),
            None => None,
        };
        let ghost before = pairs(self.entries@);
        self.size = self.size.saturating_add(8).saturating_add(key.len()).saturating_add(value_len);
        let entry = BlockEntry { key: copy(key), value: copied };
        let ghost p = entry@;
        self.entries.push(entry);
        proof {
            assert(pairs(self.entries@) =~= before.push(p));
            assert(before.push(p).drop_last() =~= before);
        }
    }

    /// The length of the block that would be built now, capped at the greatest
    /// `usize`.
    pub fn estimated_size(&self) -> (r: usize)
        requires
            self.well_formed(),
        ensures
            r == capped(pairs_size(self.pairs()) + 4),
    {
        self.size
    }

    pub fn is_empty(&self) -> (r: bool)
        ensures
            r == (self.pairs().len() == 0),
    {
        self.entries.is_empty()
    }

    /// The key that was added first.
    pub fn first_key(&self) -> (r: Option<&[u8]>)
        ensures
            match r {
                Some(k) => self.pairs().len() > 0 && k@ == self.pairs()[0].0,
                None => self.pairs().len() == 0,
            },
    {
        if self.entries.is_empty() {
            None
        } else {
            Some(self.entries[0].key.as_slice())
        }
    }

    /// The block as it is stored; it is as long as was estimated. Of the count
    /// and of each length the low-order four bytes are kept.
    pub fn build(self) -> (r: Vec<u8>)
        requires
            self.well_formed(),
        ensures
            r@ == encode_block(self.pairs()),
            r@.len() == capped(pairs_size(self.pairs()) + 4),
    {
        let ghost ps = pairs(self.entries@);
        let mut buf: Vec<u8> = Vec::with_capacity(self.size);
        let mut i: usize = 0;
        assert(buf@ =~= encode_pairs(ps.take(0)));
        while i < self.entries.len()
            invariant
                i <= self.entries.len(),
                ps == pairs(self.entries@),
                buf@ == encode_pairs(ps.take(i as int)),
            decreases self.entries.len() - i,
        {
            let ghost before = buf@;
            let entry = &self.entries[i];
            put_len(&mut buf, entry.key.len());
            match &entry.value {
                Some(v) => {
                    put_len(&mut buf, v.len());
                    append(&mut buf, entry.key.as_slice());
                    append(&mut buf, v.as_slice());
                },
                None => {
                    put_u32(&mut buf, TOMBSTONE_MARKER);
                    append(&mut buf, entry.key.as_slice());
                },
            }
            proof {
                assert(buf@ =~= before + encode_pair(ps[i as int]));
                assert(ps.take(i + 1).drop_last() =~= ps.take(i as int));
            }
            i += 1;
        }
        assert(ps.take(i as int) =~= ps);
        put_len(&mut buf, self.entries.len());
        proof {
            law_estimate_is_exact(ps);
            assert(buf@.len() == buf.len());
        }
        buf
    }
}

/// An outcome of reading, and what it was to be.
pub open spec fn same_outcome(r: Result<Vec<BlockEntry>, Error>, s: Result<Seq<Pair>, Seq<char>>) -> bool {
    match s {
        Ok(ps) => r matches Ok(v) && pairs(v@) == ps,
        Err(e) => r matches Err(Error::Corruption(m)) && m@ == e,
    }
}

/// Reads entries from stored blocks.
pub struct BlockReader;

impl BlockReader {
    /// Reads all entries of a block.
    pub fn read_entries(data: &[u8]) -> (r: Result<Vec<BlockEntry>, Error>)
        ensures
            same_outcome(r, decode_block(data@)),
    {
        if data.len() < 4 {
            return Err(Error::Corruption("block too small".to_string()));
        }
        let payload_end: usize = data.len() - 4;
        let num_entries: u32 = get_u32(data, payload_end);
        let ghost payload = data@.take(payload_end as int);
        proof {
            assert(data@.subrange(payload_end as int, payload_end + 4) =~= data@.skip(
                payload_end as int,
            ));
            assert(payload.skip(0) =~= payload);
        }
        let mut entries: Vec<BlockEntry> = Vec::new();
        let mut offset: usize = 0;
        let mut i: u32 = 0;
        assert(prepended(pairs(entries@), decode_pairs(payload, num_entries as nat))
            == decode_pairs(payload, num_entries as nat)) by {
            assert(pairs(entries@) =~= Seq::<Pair>::empty());
            if let Ok(ps) = decode_pairs(payload, num_entries as nat) {
                assert(Seq::<Pair>::empty() + ps =~= ps);
            }
        }
        while i < num_entries
            invariant
                i <= num_entries,
                payload_end == data@.len() - 4,
                payload == data@.take(payload_end as int),
                offset <= payload_end,
                decode_block(data@) == prepended(
                    pairs(entries@),
                    decode_pairs(payload.skip(offset as int), (num_entries - i) as nat),
                ),
            decreases num_entries - i,
        {
            let ghost rest = payload.skip(offset as int);
            let ghost left = (num_entries - i) as nat;
            if payload_end - offset < 8 {
                return Err(Error::Corruption("block entry truncated".to_string()));
            }
            let key_len: u32 = get_u32(data, offset);
            let field: u32 = get_u32(data, offset + 4);
            proof {
                assert(data@.subrange(offset as int, offset + 4) =~= rest.subrange(0, 4));
                assert(data@.subrange(offset + 4, offset + 8) =~= rest.subrange(4, 8));
            }
            offset += 8;
            if ((payload_end - offset) as u64) < key_len as u64 {
                return Err(Error::Corruption("block key truncated".to_string()));
            }
            let key_end: usize = offset + key_len as usize;
            let key: Vec<u8> = copy_range(data, offset, key_end);
            proof {
                assert(key@ =~= rest.subrange(8, 8 + key_len));
                assert(payload.skip(key_end as int) =~= rest.skip(8 + key_len));
            }
            offset = key_end;
            let value: Option<Vec<u8>> = if field == TOMBSTONE_MARKER {
                None
            } else {
                if ((payload_end - offset) as u64) < field as u64 {
                    return Err(Error::Corruption("block value truncated".to_string()));
                }
                let value_end: usize = offset + field as usize;
                let v: Vec<u8> = copy_range(data, offset, value_end);
                proof {
                    let after = payload.skip(offset as int);
                    assert(v@ =~= after.take(field as int));
                    assert(payload.skip(value_end as int) =~= after.skip(field as int));
                }
                offset = value_end;
                Some(v)
            };
            let entry = BlockEntry { key, value };
            let ghost p = entry@;
            let ghost before = pairs(entries@);
            entries.push(entry);
            i += 1;
            proof {
                assert(decode_pair(rest) == Ok::<(Pair, Seq<u8>), Seq<char>>(
                    (p, payload.skip(offset as int)),
                ));
                assert(pairs(entries@) =~= before.push(p));
                let tail = decode_pairs(payload.skip(offset as int), (left - 1) as nat);
                if let Ok(ps) = tail {
                    assert(before + (seq![p] + ps) =~= before.push(p) + ps);
                }
            }
        }
        assert(pairs(entries@) + Seq::<Pair>::empty() =~= pairs(entries@));
        Ok(entries)
    }

    /// The place of a key among entries in key order.
    pub fn search(entries: &[BlockEntry], key: &[u8]) -> (r: Option<usize>)
        ensures
            r matches Some(i) ==> i < entries@.len() && entries@[i as int].key@ == key@,
            sorted(pairs(entries@)) ==> (r is Some <==> has_key(pairs(entries@), key@)),
    {
        match locate(entries, key) {
            Position::Found(i) => {
                assert(pairs(entries@)[i as int].0 == key@);
                Some(i)
            },
            Position::Absent(_) => None,
        }
    }
}

/// Entries that were read before the rest of a row.
spec fn prepended(ps: Seq<Pair>, rest: Result<Seq<Pair>, Seq<char>>) -> Result<Seq<Pair>, Seq<char>> {
    match rest {
        Ok(qs) => Ok(ps + qs),
        Err(e) => Err(e),
    }
}

} // verus!
