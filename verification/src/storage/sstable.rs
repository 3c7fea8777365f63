//! Table files: writing a sorted run into one, and reading it back.

use vstd::prelude::*;
use crate::bytes::{
    append, compare, copy, copy_range, get_u32, get_u64, le_bytes, lemma_lex_asymmetric,
    lemma_lex_irreflexive, lemma_lex_total, lemma_lex_transitive, lex_lt, precedes, put_u32,
    put_u64, KeyOrder,
};
use crate::error::Error;
use crate::storage::bits::{byte_bit, max_bits};
use crate::storage::block::{all_storable, same_outcome, storable, BlockBuilder, BlockReader};
use crate::storage::bloom::{covers, law_added_keys_are_found, with_key, BloomFilter, BloomSize};
use crate::storage::footer::{decode_footer, encode_footer, FOOTER_SIZE, Footer};
use crate::storage::run::{
    copy_value, has_key, key_index, layer, layer_range, lemma_layer_at, lemma_layer_empty,
    lemma_sorted_subrange, pairs, sorted, value_view, BlockEntry, Layer, Pair,
};
use crate::storage::table_format::{
    block_at, block_fits, blocks_data, chunks, covers_all, decode_filter, decode_index, decode_row,
    decode_rows, decode_table, encode_index, encode_row, encode_rows, encode_table, filter_sound,
    flat, holds_blocks, index_rows, law_table_round_trip, lemma_block_decides, lemma_block_sorted,
    lemma_blocks_ordered, lemma_chunks, lemma_fewer_fit, lemma_flat_index, lemma_table_entries,
    table_blocks, table_entries, table_fits, IndexRow, TableParts,
};
use crate::text::{decimal_text, joined};

verus! {

/// Where a block of a table starts, how long it is, and its first key.
#[derive(Debug)]
pub struct IndexEntry {
    first_key: Vec<u8>,
    offset: u64,
    size: u64,
}

impl View for IndexEntry {
    type V = IndexRow;

    closed spec fn view(&self) -> IndexRow {
        (self.first_key@, self.offset as nat, self.size as nat)
    }
}

/// The rows of an index.
pub open spec fn rows(index: Seq<IndexEntry>) -> Seq<IndexRow> {
    Seq::new(index.len(), |i: int| index[i]@)
}

/// What a layer says of a key: nothing, that it is deleted, or its value.
pub open spec fn lookup(m: Layer, k: Seq<u8>) -> Option<Option<Seq<u8>>> {
    if m.contains_key(k) {
        Some(m[k])
    } else {
        None
    }
}

/// The bytes of a table file serve the run `ps`: they can be opened, their
/// blocks hold the run in order, and their filter finds its keys.
pub open spec fn serves(data: Seq<u8>, ps: Seq<Pair>) -> bool {
    match decode_table(data) {
        Ok(parts) => {
            &&& table_entries(data, parts.index) == Ok::<Seq<Pair>, Seq<char>>(ps)
            &&& filter_sound(parts.bits, parts.num_hashes)
            &&& covers_all(parts.bits, parts.num_hashes, ps)
            &&& exists|blocks: Seq<Seq<Pair>>|
                #[trigger] holds_blocks(data, parts.index, blocks) && flat(blocks) == ps
        },
        Err(_) => false,
    }
}

/// A row of bytes holds exactly the given bits.
pub open spec fn packs(data: Seq<u8>, bits: Seq<bool>) -> bool {
    &&& data.len() == (bits.len() + 7) / 8
    &&& forall|i: int| 0 <= i < bits.len() ==> #[trigger] byte_bit(data, i) == bits[i]
}

/// The bits of a filter after the keys of a run were added.
pub open spec fn with_pairs(bits: Seq<bool>, num_hashes: nat, ps: Seq<Pair>) -> Seq<bool>
    decreases ps.len(),
{
    if ps.len() == 0 {
        bits
    } else {
        with_key(with_pairs(bits, num_hashes, ps.drop_last()), num_hashes, ps.last().0)
    }
}

/// A filter to which the keys of a run were added finds them.
pub proof fn lemma_with_pairs(bits: Seq<bool>, num_hashes: nat, ps: Seq<Pair>)
    requires
        bits.len() > 0,
    ensures
        with_pairs(bits, num_hashes, ps).len() == bits.len(),
        covers_all(with_pairs(bits, num_hashes, ps), num_hashes, ps),
    decreases ps.len(),
{
    if ps.len() > 0 {
        let prev = ps.drop_last();
        lemma_with_pairs(bits, num_hashes, prev);
        let mid = with_pairs(bits, num_hashes, prev);
        assert forall|i: int| 0 <= i < ps.len() implies covers(
            with_pairs(bits, num_hashes, ps),
            num_hashes,
            #[trigger] ps[i].0,
        ) by {
            law_added_keys_are_found(mid, num_hashes, ps.last().0, ps[i].0);
            if i < prev.len() {
                assert(covers(mid, num_hashes, prev[i].0));
            }
        }
    }
}

/// What became of a finished table.
#[derive(Debug)]
pub struct SSTableInfo {
    pub path: String,
    pub entry_count: usize,
    pub file_size: u64,
}

/// Writes a run, entry by entry in key order, into the bytes of a table file.
pub struct SSTableWriter {
    path: String,
    block_size: usize,
    current_block: BlockBuilder,
    index: Vec<IndexEntry>,
    bloom: BloomFilter,
    data: Vec<u8>,
    entry_count: usize,
    added: Ghost<Seq<Pair>>,
    empty_bits: Ghost<Seq<bool>>,
}

impl SSTableWriter {
    /// The entries added so far.
    pub closed spec fn added(&self) -> Seq<Pair> {
        self.added@
    }

    pub closed spec fn path_view(&self) -> Seq<char> {
        self.path@
    }

    pub closed spec fn block_size(&self) -> nat {
        self.block_size as nat
    }

    /// How many bits a key sets in the filter.
    pub closed spec fn num_hashes(&self) -> nat {
        self.bloom.hashes()
    }

    /// How many bits the filter has.
    pub closed spec fn num_bits(&self) -> nat {
        self.bloom.bits().len()
    }

    /// The filter's bits.
    pub closed spec fn filter_bits(&self) -> Seq<bool> {
        self.bloom.bits()
    }

    /// What was written so far is what the entries added so far call for.
    pub closed spec fn well_formed(&self) -> bool {
        let (full, open) = chunks(self.added@, self.block_size as nat);
        &&& self.current_block.well_formed()
        &&& self.current_block.pairs() == open
        &&& self.data@ == blocks_data(full)
        &&& rows(self.index@) == index_rows(full)
        &&& self.bloom.usable()
        &&& 0 < self.bloom.bits().len() <= max_bits() - 7
        &&& self.empty_bits@.len() == self.bloom.bits().len()
        &&& self.bloom.bits() == with_pairs(self.empty_bits@, self.bloom.hashes(), self.added@)
        &&& forall|i: int| 0 <= i < self.empty_bits@.len() ==> !#[trigger] self.empty_bits@[i]
        &&& self.entry_count == self.added@.len()
        &&& all_storable(self.added@)
        &&& table_fits(self.added@, self.block_size as nat)
    }

    /// A writer of a table that is to be stored under `path`.
    pub fn new(path: String, block_size: usize, size: BloomSize) -> (r: Self)
        requires
            size.num_bits <= max_bits() - 7,
        ensures
            r.well_formed(),
            r.added() == Seq::<Pair>::empty(),
            r.path_view() == path@,
            r.block_size() == block_size,
            r.num_bits() == if size.num_bits < 8 {
                8
            } else {
                size.num_bits as nat
            },
            r.num_hashes() == if size.num_hashes < 1 {
                1
            } else {
                size.num_hashes as nat
            },
    {
        let bloom: BloomFilter = BloomFilter::with_size(size);
        let ghost bits = bloom.bits();
        let r = SSTableWriter {
            path,
            block_size,
            current_block: BlockBuilder::new(),
            index: Vec::new(),
            bloom,
            data: Vec::new(),
            entry_count: 0,
            added: Ghost(Seq::empty()),
            empty_bits: Ghost(bits),
        };
        assert(rows(r.index@) =~= index_rows(chunks(Seq::<Pair>::empty(), block_size as nat).0));
        r
    }

    /// Adds an entry; a value of `None` is a tombstone.
    pub fn add(&mut self, key: &[u8], value: Option<&[u8]>)
        requires
            old(self).well_formed(),
            old(self).added().len() < usize::MAX,
            table_fits(
                old(self).added().push(
                    (
                        key@,
                        match value {
                            Some(v) => Some(v@),
                            None => None,
                        },
                    ),
                ),
                old(self).block_size(),
            ),
            key@.len() <= u32::MAX,
            value matches Some(v) ==> v@.len() < u32::MAX,
        ensures
            final(self).well_formed(),
            final(self).added() == old(self).added().push(
                (
                    key@,
                    match value {
                        Some(v) => Some(v@),
                        None => None,
                    },
                ),
            ),
            final(self).path_view() == old(self).path_view(),
            final(self).block_size() == old(self).block_size(),
            final(self).num_bits() == old(self).num_bits(),
            final(self).num_hashes() == old(self).num_hashes(),
    {
        let ghost p: Pair = (
            key@,
            match value {
                Some(v) => Some(v@),
                None => None,
            },
        );
        let ghost before = self.added@;
        let ghost after = before.push(p);
        proof {
            assert(after.drop_last() =~= before);
            lemma_chunks(before, self.block_size as nat);
            lemma_chunks(after, self.block_size as nat);
            lemma_fewer_fit(after, self.block_size as nat);
        }
        self.bloom.insert(key);
        self.current_block.add(key, value);
        self.entry_count += 1;
        self.added = Ghost(after);
        proof {
            lemma_with_pairs(self.empty_bits@, self.bloom.hashes(), after);
            assert(all_storable(after)) by {
                assert forall|i: int| 0 <= i < after.len() implies storable(#[trigger] after[i]) by {
                    if i < before.len() {
                        assert(storable(before[i]));
                    }
                }
            }
        }
        if self.current_block.estimated_size() >= self.block_size {
            proof {
                let open = self.current_block.pairs();
                lemma_storable_tail(chunks(before, self.block_size as nat), after, open);
            }
            self.flush_block(Ghost(chunks(before, self.block_size as nat).0));
        }
    }

    /// Completes the table: what it is, and the bytes of its file.
    ///
    /// The bytes are the blocks, the index, the filter and the footer; opened
    /// again they serve the entries that were added.
    pub fn finish(self) -> (r: (SSTableInfo, Vec<u8>))
        requires
            self.well_formed(),
        ensures
            r.0.path@ == self.path_view(),
            r.0.entry_count == self.added().len(),
            r.0.file_size == r.1@.len(),
            exists|filter: Seq<u8>|
                r.1@ == #[trigger] encode_table(
                    table_blocks(self.added(), self.block_size()),
                    self.num_bits(),
                    filter,
                    self.num_hashes() as u32,
                ) && packs(filter, self.filter_bits()),
            serves(r.1@, self.added()),
    {
        let ghost ps = self.added@;
        let ghost blocks = table_blocks(ps, self.block_size as nat);
        let ghost bits = self.bloom.bits();
        let ghost (full, open) = chunks(ps, self.block_size as nat);
        let mut w = self;
        proof {
            lemma_chunks(ps, w.block_size as nat);
            lemma_storable_tail((full, open), ps, open);
            assert(rows(w.index@) == index_rows(full));
        }
        if !w.current_block.is_empty() {
            w.flush_block(Ghost(full));
        }
        assert(rows(w.index@) == index_rows(blocks));
        assert(rows(w.index@).len() == blocks.len());
        assert(w.data@ == blocks_data(blocks));
        proof {
            lemma_blocks_fit(ps, w.block_size as nat);
            assert forall|j: int| 0 <= j < w.index@.len() implies rows(w.index@)[j].0.len()
                <= u32::MAX by {
                assert(rows(w.index@)[j] == index_rows(blocks)[j]);
                assert(block_fits(blocks[j]));
                assert(storable(blocks[j][0]));
            }
        }
        let index_data: Vec<u8> = encode_entries(&w.index);
        let bloom_bytes: &[u8] = w.bloom.as_bytes();
        let ghost filter = bloom_bytes@;
        let num_hashes: u32 = w.bloom.num_hashes();
        assemble(&mut w.data, &index_data, w.bloom.num_bits(), bloom_bytes, num_hashes);
        let file_size: u64 = w.data.len() as u64;
        proof {
            assert(num_hashes == self.num_hashes() as u32);
            assert(w.data@ == encode_table(
                table_blocks(self.added(), self.block_size()),
                self.num_bits(),
                filter,
                self.num_hashes() as u32,
            ));
            assert(packs(filter, bits));
            lemma_with_pairs(w.empty_bits@, w.bloom.hashes(), ps);
            lemma_served(ps, w.block_size as nat, bits, filter, num_hashes);
        }
        let info = SSTableInfo { path: w.path, entry_count: w.entry_count, file_size };
        (info, w.data)
    }

    /// Moves the entries of the current block into the data.
    fn flush_block(&mut self, Ghost(full): Ghost<Seq<Seq<Pair>>>)
        requires
            old(self).current_block.well_formed(),
            old(self).current_block.pairs().len() > 0,
            all_storable(old(self).current_block.pairs()),
            old(self).current_block.pairs().len() <= u32::MAX,
            old(self).data@ == blocks_data(full),
            rows(old(self).index@) == index_rows(full),
        ensures
            final(self).current_block.well_formed(),
            final(self).current_block.pairs() == Seq::<Pair>::empty(),
            final(self).data@ == blocks_data(full.push(old(self).current_block.pairs())),
            rows(final(self).index@) == index_rows(full.push(old(self).current_block.pairs())),
            final(self).path == old(self).path,
            final(self).block_size == old(self).block_size,
            final(self).bloom == old(self).bloom,
            final(self).entry_count == old(self).entry_count,
            final(self).added == old(self).added,
            final(self).empty_bits == old(self).empty_bits,
    {
        let ghost open = self.current_block.pairs();
        let first_key: Vec<u8> = match self.current_block.first_key() {
            Some(k) => copy(k),
            None => Vec::new(),
        };
        let mut block: BlockBuilder = BlockBuilder::new();
        std::mem::swap(&mut block, &mut self.current_block);
        let block_data: Vec<u8> = block.build();
        let offset: u64 = self.data.len() as u64;
        let size: u64 = block_data.len() as u64;
        let ghost index0 = self.index@;
        append(&mut self.data, block_data.as_slice());
        self.index.push(IndexEntry { first_key, offset, size });
        proof {
            let grown = full.push(open);
            assert(grown.drop_last() =~= full);
            assert(rows(index0).len() == full.len());
            assert forall|i: int| 0 <= i < grown.len() implies rows(self.index@)[i] == index_rows(
                grown,
            )[i] by {
                assert(grown.take(i) =~= full.take(i));
                if i < full.len() {
                    assert(rows(index0)[i] == index_rows(full)[i]);
                } else {
                    assert(full.take(i) =~= full);
                }
            }
            assert(rows(self.index@) =~= index_rows(grown));
        }
    }
}

/// Appends the index, the filter and the footer to the blocks of a table.
fn assemble(
    data: &mut Vec<u8>,
    index_data: &Vec<u8>,
    num_bits: usize,
    filter: &[u8],
    num_hashes: u32,
)
    requires
        filter@.len() * 8 <= usize::MAX,
    ensures
        final(data)@ == old(data)@ + index_data@ + (le_bytes(num_bits as nat, 8) + filter@)
            + encode_footer(
            Footer {
                index_offset: old(data)@.len() as u64,
                index_size: index_data@.len() as u64,
                bloom_offset: (old(data)@.len() + index_data@.len()) as u64,
                bloom_size: (8 + filter@.len()) as u64,
                bloom_num_hashes: num_hashes,
            },
        ),
{
    let index_offset: u64 = data.len() as u64;
    let index_size: u64 = index_data.len() as u64;
    append(data, index_data.as_slice());
    let bloom_offset: u64 = data.len() as u64;
    let ghost head = data@;
    put_u64(data, num_bits as u64);
    append(data, filter);
    assert(data@ =~= head + (le_bytes(num_bits as nat, 8) + filter@));
    let footer = Footer {
        index_offset,
        index_size,
        bloom_offset,
        bloom_size: 8 + filter.len() as u64,
        bloom_num_hashes: num_hashes,
    };
    let encoded: [u8; 40] = footer.encode();
    append(data, vstd::array::array_as_slice(&encoded));
}

/// The stored form of a table serves the entries that were added.
proof fn lemma_served(
    ps: Seq<Pair>,
    block_size: nat,
    bits: Seq<bool>,
    filter: Seq<u8>,
    num_hashes: u32,
)
    requires
        all_storable(ps),
        table_fits(ps, block_size),
        0 < bits.len() <= max_bits() - 7,
        packs(filter, bits),
        covers_all(bits, num_hashes as nat, ps),
        encode_table(table_blocks(ps, block_size), bits.len(), filter, num_hashes).len()
            <= usize::MAX,
    ensures
        serves(
            encode_table(table_blocks(ps, block_size), bits.len(), filter, num_hashes),
            ps,
        ),
{
    let blocks = table_blocks(ps, block_size);
    let data = encode_table(blocks, bits.len(), filter, num_hashes);
    lemma_chunks(ps, block_size);
    lemma_blocks_fit(ps, block_size);
    law_table_round_trip(blocks, bits, filter, num_hashes);
    lemma_table_entries(data, index_rows(blocks), blocks);
}

/// The index as it is stored.
fn encode_entries(index: &Vec<IndexEntry>) -> (r: Vec<u8>)
    requires
        index@.len() <= u32::MAX,
        forall|j: int| 0 <= j < index@.len() ==> (#[trigger] rows(index@)[j]).0.len() <= u32::MAX,
    ensures
        r@ == encode_index(rows(index@)),
{
    let mut data: Vec<u8> = Vec::new();
    put_u32(&mut data, index.len() as u32);
    let ghost rs = rows(index@);
    assert(data@ =~= le_bytes(rs.len(), 4) + encode_rows(rs.take(0)));
    let mut i: usize = 0;
    while i < index.len()
        invariant
            i <= index.len(),
            rs == rows(index@),
            forall|j: int| 0 <= j < rs.len() ==> (#[trigger] rs[j]).0.len() <= u32::MAX,
            data@ == le_bytes(rs.len(), 4) + encode_rows(rs.take(i as int)),
        decreases index.len() - i,
    {
        let ghost before = data@;
        let entry = &index[i];
        assert(rs[i as int] == entry@);
        put_u32(&mut data, entry.first_key.len() as u32);
        append(&mut data, entry.first_key.as_slice());
        put_u64(&mut data, entry.offset);
        put_u64(&mut data, entry.size);
        proof {
            assert(data@ =~= before + encode_row(rs[i as int]));
            assert(rs.take(i + 1).drop_last() =~= rs.take(i as int));
        }
        i += 1;
        assert(data@ =~= le_bytes(rs.len(), 4) + encode_rows(rs.take(i as int)));
    }
    assert(rs.take(i as int) =~= rs);
    data
}

/// Every block of a table fits the block format.
proof fn lemma_blocks_fit(ps: Seq<Pair>, block_size: nat)
    requires
        all_storable(ps),
        table_fits(ps, block_size),
    ensures
        table_blocks(ps, block_size).len() <= ps.len(),
        forall|i: int|
            0 <= i < table_blocks(ps, block_size).len() ==> block_fits(
                #[trigger] table_blocks(ps, block_size)[i],
            ),
{
    lemma_chunks(ps, block_size);
    let blocks = table_blocks(ps, block_size);
    let (full, open) = chunks(ps, block_size);
    assert forall|i: int| 0 <= i < blocks.len() implies block_fits(#[trigger] blocks[i]) by {
        let b = blocks[i];
        if i < full.len() {
            assert(b == full[i]);
        }
        assert(b.len() > 0);
        assert forall|x: int| 0 <= x < b.len() implies storable(#[trigger] b[x]) by {
            lemma_flat_index(blocks, i, x);
            assert(storable(ps[flat(blocks.take(i)).len() + x]));
        }
        lemma_flat_index(blocks, i, b.len() - 1);
    }
}

/// The entries of an unfinished block are among those of the run.
proof fn lemma_storable_tail(
    parts: (Seq<Seq<Pair>>, Seq<Pair>),
    ps: Seq<Pair>,
    open: Seq<Pair>,
)
    requires
        all_storable(ps),
        flat(parts.0) + open == ps,
    ensures
        all_storable(open),
        open.len() <= ps.len(),
{
    assert forall|i: int| 0 <= i < open.len() implies storable(#[trigger] open[i]) by {
        assert(open[i] == ps[flat(parts.0).len() + i]);
    }
}

/// What a scan of a row of entries returns: the entries up to the first whose
/// key reaches `end`, without those whose keys come before `start`.
pub open spec fn scan_of(ps: Seq<Pair>, start: Seq<u8>, end: Seq<u8>) -> Seq<Pair>
    decreases ps.len(),
{
    if ps.len() == 0 || !lex_lt(ps[0].0, end) {
        Seq::empty()
    } else if lex_lt(ps[0].0, start) {
        scan_of(ps.drop_first(), start, end)
    } else {
        seq![ps[0]] + scan_of(ps.drop_first(), start, end)
    }
}

/// A scan of a sorted run returns the part of it that lies in the range.
pub proof fn lemma_scan_sorted(ps: Seq<Pair>, start: Seq<u8>, end: Seq<u8>)
    requires
        sorted(ps),
    ensures
        sorted(scan_of(ps, start, end)),
        layer(scan_of(ps, start, end)) == layer_range(layer(ps), start, end),
    decreases ps.len(),
{
    let r = scan_of(ps, start, end);
    let whole = layer_range(layer(ps), start, end);
    if ps.len() == 0 {
        lemma_layer_empty(r);
        lemma_layer_empty(ps);
        assert(layer(r) =~= whole);
    } else if !lex_lt(ps[0].0, end) {
        lemma_layer_empty(r);
        assert forall|k: Seq<u8>| !whole.contains_key(k) by {
            if whole.contains_key(k) {
                let i = key_index(ps, k);
                if i > 0 {
                    assert(lex_lt(ps[0].0, ps[i].0));
                    lemma_lex_transitive(ps[0].0, k, end);
                }
            }
        }
        assert(layer(r) =~= whole);
    } else {
        let tail = ps.drop_first();
        let rest = scan_of(tail, start, end);
        lemma_sorted_subrange(ps, 1, ps.len() as int);
        assert(tail =~= ps.subrange(1, ps.len() as int));
        lemma_scan_sorted(tail, start, end);
        lemma_layer_first(ps);
        lemma_lex_total(start, ps[0].0);
        lemma_lex_irreflexive(start);
        if lex_lt(ps[0].0, start) {
            lemma_lex_asymmetric(ps[0].0, start);
            assert(layer(r) =~= whole);
        } else {
            assert forall|j: int| 0 <= j < rest.len() implies lex_lt(
                ps[0].0,
                (#[trigger] rest[j]).0,
            ) by {
                lemma_layer_at(rest, j);
                assert(layer(rest).contains_key(rest[j].0));
                assert(layer(tail).contains_key(rest[j].0));
                let i = key_index(tail, rest[j].0);
                assert(lex_lt(ps[0].0, ps[i + 1].0));
            }
            assert(sorted(r)) by {
                assert forall|x: int, y: int| 0 <= x < y < r.len() implies lex_lt(
                    #[trigger] r[x].0,
                    #[trigger] r[y].0,
                ) by {
                    if x > 0 {
                        assert(lex_lt(rest[x - 1].0, rest[y - 1].0));
                    } else {
                        assert(lex_lt(ps[0].0, rest[y - 1].0));
                    }
                }
            }
            lemma_layer_first(r);
            assert(r.drop_first() =~= rest);
            assert(layer(r) =~= whole);
        }
    }
}

/// The first row of a sorted run adds itself to what the others say.
proof fn lemma_layer_first(ps: Seq<Pair>)
    requires
        sorted(ps),
        ps.len() > 0,
    ensures
        layer(ps) == layer(ps.drop_first()).insert(ps[0].0, ps[0].1),
        !layer(ps.drop_first()).contains_key(ps[0].0),
{
    let tail = ps.drop_first();
    lemma_sorted_subrange(ps, 1, ps.len() as int);
    assert(tail =~= ps.subrange(1, ps.len() as int));
    lemma_layer_at(ps, 0);
    lemma_lex_irreflexive(ps[0].0);
    if has_key(tail, ps[0].0) {
        let i = key_index(tail, ps[0].0);
        assert(lex_lt(ps[0].0, ps[i + 1].0));
    }
    assert forall|k: Seq<u8>| k != ps[0].0 implies has_key(ps, k) == has_key(tail, k) && (has_key(
        ps,
        k,
    ) ==> layer(ps)[k] == layer(tail)[k]) by {
        if has_key(ps, k) {
            let i = key_index(ps, k);
            assert(tail[i - 1].0 == k);
            lemma_layer_at(ps, i);
            lemma_layer_at(tail, i - 1);
        }
        if has_key(tail, k) {
            let i = key_index(tail, k);
            assert(ps[i + 1].0 == k);
        }
    }
    assert(layer(ps) =~= layer(tail).insert(ps[0].0, ps[0].1));
}

/// Reads the entries of a table file.
#[derive(Debug)]
pub struct SSTableReader {
    data: Vec<u8>,
    index: Vec<IndexEntry>,
    bloom: BloomFilter,
    path: String,
}

/// The view of what a lookup returns.
pub open spec fn found_view(found: Option<Option<Vec<u8>>>) -> Option<Option<Seq<u8>>> {
    match found {
        Some(v) => Some(value_view(v)),
        None => None,
    }
}

/// What a block that was read, or could not be, answers for a key. Of a block
/// that is not in key order nothing is said.
pub open spec fn block_answers(
    block: Result<Seq<Pair>, Seq<char>>,
    key: Seq<u8>,
    r: Result<Option<Option<Vec<u8>>>, Error>,
) -> bool {
    match block {
        Ok(ps) => sorted(ps) ==> (r matches Ok(v) && found_view(v) == lookup(layer(ps), key)),
        Err(e) => r matches Err(Error::Corruption(m)) && m@ == e,
    }
}

impl SSTableReader {
    /// The bytes of the file.
    pub closed spec fn data(&self) -> Seq<u8> {
        self.data@
    }

    /// The index of the file.
    pub closed spec fn index(&self) -> Seq<IndexRow> {
        rows(self.index@)
    }

    /// The bits of the filter.
    pub closed spec fn bits(&self) -> Seq<bool> {
        self.bloom.bits()
    }

    /// How many bits a key sets in the filter.
    pub closed spec fn num_hashes(&self) -> nat {
        self.bloom.hashes()
    }

    pub closed spec fn path_view(&self) -> Seq<char> {
        self.path@
    }

    /// The filter can be asked, and filter and index are those of the file.
    pub open spec fn well_formed(&self) -> bool {
        &&& self.filter_well_formed()
        &&& decode_table(self.data()) == Ok::<TableParts, Seq<char>>(
            TableParts { index: self.index(), bits: self.bits(), num_hashes: self.num_hashes() },
        )
    }

    pub closed spec fn filter_well_formed(&self) -> bool {
        self.bloom.well_formed()
    }

    /// Opens a table file from its bytes.
    pub fn open(path: String, data: Vec<u8>) -> (r: Result<Self, Error>)
        ensures
            match decode_table(data@) {
                Ok(_) => r matches Ok(t) && t.well_formed() && t.data() == data@ && t.path_view()
                    == path@,
                Err(e) => r matches Err(Error::Corruption(m)) && m@ == e,
            },
    {
        reveal(decode_table);
        if data.len() < FOOTER_SIZE {
            let head: String = joined(
                "SSTable too small: ",
                decimal_text(data.len() as u64).as_str(),
            );
            return Err(Error::Corruption(head.concat(" bytes")));
        }
        let footer: Footer = match Self::read_footer(&data) {
            Ok(f) => f,
            Err(e) => {
                return Err(e);
            },
        };
        let len: u64 = data.len() as u64;
        if footer.index_offset > len || footer.index_size > len - footer.index_offset {
            return Err(Error::Corruption("index extends past file".to_string()));
        }
        let index_start: usize = footer.index_offset as usize;
        let index_end: usize = index_start + footer.index_size as usize;
        let index: Vec<IndexEntry> = match Self::parse_index(&data[index_start..index_end]) {
            Ok(i) => i,
            Err(e) => {
                return Err(e);
            },
        };
        if footer.bloom_offset > len || footer.bloom_size > len - footer.bloom_offset {
            return Err(Error::Corruption("bloom filter extends past file".to_string()));
        }
        let bloom_start: usize = footer.bloom_offset as usize;
        let bloom_end: usize = bloom_start + footer.bloom_size as usize;
        let bloom: BloomFilter = match Self::parse_bloom(
            &data[bloom_start..bloom_end],
            footer.bloom_num_hashes,
        ) {
            Ok(b) => b,
            Err(e) => {
                return Err(e);
            },
        };
        Ok(SSTableReader { data, index, bloom, path })
    }

    fn read_footer(data: &Vec<u8>) -> (r: Result<Footer, Error>)
        requires
            data@.len() >= FOOTER_SIZE,
        ensures
            match decode_footer(data@.skip(data@.len() - FOOTER_SIZE)) {
                Ok(f) => r == Ok::<Footer, Error>(f),
                Err(e) => r matches Err(Error::Corruption(m)) && m@ == e,
            },
    {
        let len: usize = data.len();
        let start: usize = len - FOOTER_SIZE;
        let mut buf: [u8; 40] = [0u8; 40];
        let mut i: usize = 0;
        while i < 40
            invariant
                i <= 40,
                len == data@.len(),
                start + 40 == len,
                forall|j: int| 0 <= j < i ==> buf@[j] == data@[start + j],
            decreases 40 - i,
        {
            buf[i] = data[start + i];
            i += 1;
        }
        assert(buf@ =~= data@.skip(start as int));
        Footer::decode(&buf)
    }

    /// Reads the index of a table file.
    pub fn parse_index(data: &[u8]) -> (r: Result<Vec<IndexEntry>, Error>)
        ensures
            match decode_index(data@) {
                Ok(rs) => r matches Ok(v) && rows(v@) == rs,
                Err(e) => r matches Err(Error::Corruption(m)) && m@ == e,
            },
    {
        if data.len() < 4 {
            return Err(Error::Corruption("index block too small".to_string()));
        }
        let num_entries: u32 = get_u32(data, 0);
        let end: usize = data.len();
        let ghost payload = data@.skip(4);
        proof {
            assert(data@.subrange(0, 4) =~= data@.take(4));
            if let Ok(rs) = decode_rows(payload, num_entries as nat) {
                assert(Seq::<IndexRow>::empty() + rs =~= rs);
            }
        }
        let mut entries: Vec<IndexEntry> = Vec::new();
        let mut offset: usize = 4;
        let mut i: u32 = 0;
        assert(rows(entries@) =~= Seq::<IndexRow>::empty());
        while i < num_entries
            invariant
                i <= num_entries,
                4 <= offset <= end,
                end == data@.len(),
                decode_index(data@) == with_rows_before(
                    rows(entries@),
                    decode_rows(data@.skip(offset as int), (num_entries - i) as nat),
                ),
            decreases num_entries - i,
        {
            let ghost rest = data@.skip(offset as int);
            let ghost left = (num_entries - i) as nat;
            if end - offset < 4 {
                return Err(Error::Corruption("index entry truncated".to_string()));
            }
            let key_len: u32 = get_u32(data, offset);
            assert(data@.subrange(offset as int, offset + 4) =~= rest.subrange(0, 4));
            if ((end - offset - 4) as u64) < key_len as u64 + 16 {
                return Err(Error::Corruption("index entry truncated".to_string()));
            }
            let key_start: usize = offset + 4;
            let key_end: usize = key_start + key_len as usize;
            let first_key: Vec<u8> = copy_range(data, key_start, key_end);
            let block_offset: u64 = get_u64(data, key_end);
            let block_size: u64 = get_u64(data, key_end + 8);
            let ghost n = key_len as int;
            proof {
                assert(first_key@ =~= rest.subrange(4, 4 + n));
                assert(data@.subrange(key_end as int, key_end + 8) =~= rest.subrange(
                    4 + n,
                    12 + n,
                ));
                assert(data@.subrange(key_end + 8, key_end + 16) =~= rest.subrange(
                    12 + n,
                    20 + n,
                ));
                assert(data@.skip(key_end + 16) =~= rest.skip(20 + n));
            }
            offset = key_end + 16;
            let ghost before = rows(entries@);
            let entry = IndexEntry { first_key, offset: block_offset, size: block_size };
            let ghost row = entry@;
            entries.push(entry);
            i += 1;
            proof {
                assert(decode_row(rest) == Ok::<(IndexRow, Seq<u8>), Seq<char>>(
                    (row, data@.skip(offset as int)),
                ));
                assert(rows(entries@) =~= before.push(row));
                if let Ok(rs) = decode_rows(data@.skip(offset as int), (left - 1) as nat) {
                    assert(before + (seq![row] + rs) =~= before.push(row) + rs);
                }
            }
        }
        assert(rows(entries@) + Seq::<IndexRow>::empty() =~= rows(entries@));
        Ok(entries)
    }

    /// Reads the filter of a table file.
    pub fn parse_bloom(data: &[u8], num_hashes: u32) -> (r: Result<BloomFilter, Error>)
        ensures
            match decode_filter(data@) {
                Ok(bits) => r matches Ok(b) && b.well_formed() && b.bits() == bits && b.hashes()
                    == num_hashes,
                Err(e) => r matches Err(Error::Corruption(m)) && m@ == e,
            },
    {
        if data.len() < 8 {
            return Err(Error::Corruption("bloom block too small".to_string()));
        }
        let num_bits: u64 = get_u64(data, 0);
        let limit: usize = usize::MAX / 8;
        assert(data@.subrange(0, 8) =~= data@.take(8));
        if num_bits > limit as u64 || data.len() - 8 > limit / 8 {
            return Err(Error::Corruption("bloom filter size invalid".to_string()));
        }
        let raw: Vec<u8> = copy_range(data, 8, data.len());
        assert(raw@ =~= data@.skip(8));
        Ok(BloomFilter::from_raw(raw, num_hashes, num_bits as usize))
    }

    /// Reads the block of the index row at `i`.
    fn read_block(&self, i: usize) -> (r: Result<Vec<BlockEntry>, Error>)
        requires
            i < self.index@.len(),
        ensures
            same_outcome(r, block_at(self.data@, rows(self.index@)[i as int])),
    {
        let entry = &self.index[i];
        let len: u64 = self.data.len() as u64;
        if entry.offset > len || entry.size > len - entry.offset {
            return Err(Error::Corruption("block extends past file".to_string()));
        }
        let start: usize = entry.offset as usize;
        let end: usize = start + entry.size as usize;
        BlockReader::read_entries(&self.data[start..end])
    }

    /// Looks a key up: its value, `None` in place of the value where the table
    /// says that it is deleted, or nothing where the table does not have it.
    pub fn get(&self, key: &[u8]) -> (r: Result<Option<Option<Vec<u8>>>, Error>)
        requires
            self.well_formed(),
        ensures
            forall|ps: Seq<Pair>| #[trigger]
                serves(self.data(), ps) && sorted(ps) ==> (r matches Ok(v) && found_view(v)
                    == lookup(layer(ps), key@)),
            filter_sound(self.bits(), self.num_hashes()) && !covers(
                self.bits(),
                self.num_hashes(),
                key@,
            ) ==> r == Ok::<Option<Option<Vec<u8>>>, Error>(None),
            !filter_sound(self.bits(), self.num_hashes()) ==> (r matches Err(Error::Corruption(m))
                && m@ == "bloom filter without bits"@),
            r matches Ok(Some(v)) ==> exists|i: int, ps: Seq<Pair>|
                0 <= i < self.index().len() && block_at(self.data(), #[trigger] self.index()[i])
                    == Ok::<Seq<Pair>, Seq<char>>(ps) && #[trigger] ps.contains(
                    (key@, value_view(v)),
                ),
            filter_sound(self.bits(), self.num_hashes()) ==> (r matches Err(e) ==> exists|i: int|
                0 <= i < self.index().len() && (e matches Error::Corruption(m) && block_at(
                    self.data(),
                    #[trigger] self.index()[i],
                ) == Err::<Seq<Pair>, Seq<char>>(m@))),
            filter_sound(self.bits(), self.num_hashes()) && covers(
                self.bits(),
                self.num_hashes(),
                key@,
            ) && index_sorted(self.index()) ==> if self.index().len() == 0 {
                r == Ok::<Option<Option<Vec<u8>>>, Error>(None)
            } else {
                exists|i: int|
                    0 <= i < self.index().len() && #[trigger] picks(self.index(), i, key@)
                        && block_answers(block_at(self.data(), self.index()[i]), key@, r)
            },
    {
        if self.bloom.num_bits() == 0 && self.bloom.num_hashes() > 0 {
            return Err(Error::Corruption("bloom filter without bits".to_string()));
        }
        let present: bool = self.bloom.may_contain(key);
        proof {
            if !present {
                assert forall|ps: Seq<Pair>| #[trigger]
                    serves(self.data(), ps) && sorted(ps) implies lookup(layer(ps), key@) is None by {
                    if has_key(ps, key@) {
                        let i = key_index(ps, key@);
                        assert(covers(self.bits(), self.num_hashes(), ps[i].0));
                    }
                }
            }
        }
        if !present {
            return Ok(None);
        }
        if self.index.is_empty() {
            proof {
                assert forall|ps: Seq<Pair>| #[trigger]
                    serves(self.data(), ps) implies lookup(layer(ps), key@) is None by {
                    assert(ps.len() == 0);
                }
            }
            return Ok(None);
        }
        let i: usize = self.find_block(key);
        let entries: Vec<BlockEntry> = match self.read_block(i) {
            Ok(e) => e,
            Err(e) => {
                proof {
                    assert forall|ps: Seq<Pair>| !(#[trigger] serves(self.data(), ps) && sorted(
                        ps,
                    )) by {
                        if serves(self.data(), ps) {
                            let blocks = choose|blocks: Seq<Seq<Pair>>| #[trigger]
                                holds_blocks(self.data(), self.index(), blocks) && flat(blocks)
                                    == ps;
                            assert(block_at(self.data(), self.index()[i as int]) is Ok);
                        }
                    }
                    assert(block_answers(
                        block_at(self.data(), self.index()[i as int]),
                        key@,
                        Err(e),
                    ));
                }
                return Err(e);
            },
        };
        let ghost b = pairs(entries@);
        proof {
            assert forall|ps: Seq<Pair>| #[trigger]
                serves(self.data(), ps) && sorted(ps) implies sorted(b) && lookup(layer(ps), key@)
                == lookup(layer(b), key@) by {
                let blocks = choose|blocks: Seq<Seq<Pair>>| #[trigger]
                    holds_blocks(self.data(), self.index(), blocks) && flat(blocks) == ps;
                self.lemma_found_block(blocks, i as int, key@);
                assert(b == blocks[i as int]);
                lemma_block_sorted(blocks, i as int);
                lemma_block_decides(blocks, i as int, key@);
            }
        }
        match BlockReader::search(entries.as_slice(), key) {
            Some(x) => {
                let value: Option<Vec<u8>> = copy_value(&entries[x].value);
                proof {
                    assert(b[x as int] == (key@, value_view(value)));
                    if sorted(b) {
                        lemma_layer_at(b, x as int);
                    }
                    assert(b.contains((key@, value_view(value))));
                    assert(block_at(self.data(), self.index()[i as int]) == Ok::<
                        Seq<Pair>,
                        Seq<char>,
                    >(b));
                }
                Ok(Some(value))
            },
            None => Ok(None),
        }
    }

    /// The block that `find_block` picks is the one that decides on the key.
    proof fn lemma_found_block(&self, blocks: Seq<Seq<Pair>>, i: int, k: Seq<u8>)
        requires
            holds_blocks(self.data(), self.index(), blocks),
            sorted(flat(blocks)),
            0 <= i < blocks.len(),
            index_sorted(self.index()) ==> picks(self.index(), i, k),
        ensures
            forall|j: int| 0 <= j < blocks.len() ==> (#[trigger] blocks[j]).len() > 0,
            forall|j: int| i < j < blocks.len() ==> lex_lt(k, (#[trigger] blocks[j])[0].0),
            i > 0 ==> !lex_lt(k, blocks[i][0].0),
    {
        let index = self.index();
        assert forall|j: int| 0 <= j < blocks.len() implies (#[trigger] blocks[j]).len() > 0
            && index[j].0 == blocks[j][0].0 by {
            assert(block_at(self.data(), index[j]) is Ok);
        }
        assert(index_sorted(index)) by {
            assert forall|x: int, y: int| 0 <= x < y < index.len() implies lex_lt(
                #[trigger] index[x].0,
                #[trigger] index[y].0,
            ) by {
                assert(blocks[x].len() > 0 && blocks[y].len() > 0);
                lemma_blocks_ordered(blocks, x, 0, y, 0);
            }
        }
        assert(blocks[i].len() > 0);
        assert forall|j: int| i < j < blocks.len() implies lex_lt(
            k,
            (#[trigger] blocks[j])[0].0,
        ) by {
            assert(lex_lt(k, index[j].0));
        }
    }

    /// All entries in order.
    pub fn iter(&self) -> (r: Result<Vec<BlockEntry>, Error>)
        ensures
            same_outcome(r, table_entries(self.data(), self.index())),
            forall|ps: Seq<Pair>|
                self.well_formed() && #[trigger] serves(self.data(), ps) ==> (r matches Ok(v)
                    && pairs(v@) == ps),
    {
        let ghost rs = rows(self.index@);
        let ghost data = self.data@;
        let mut all: Vec<BlockEntry> = Vec::new();
        let mut i: usize = 0;
        assert(pairs(all@) =~= Seq::<Pair>::empty());
        assert(rs.take(0) =~= Seq::<IndexRow>::empty());
        while i < self.index.len()
            invariant
                i <= self.index.len(),
                rs == rows(self.index@),
                data == self.data@,
                table_entries(data, rs.take(i as int)) == Ok::<Seq<Pair>, Seq<char>>(pairs(all@)),
            decreases self.index.len() - i,
        {
            proof {
                assert(rs.take(i + 1).drop_last() =~= rs.take(i as int));
            }
            match self.read_block(i) {
                Ok(entries) => {
                    let ghost before = pairs(all@);
                    let ghost more = pairs(entries@);
                    let mut rest = entries;
                    all.append(&mut rest);
                    assert(pairs(all@) =~= before + more);
                },
                Err(e) => {
                    proof {
                        lemma_entries_err(data, rs, (i + 1) as nat);
                    }
                    return Err(e);
                },
            }
            i += 1;
        }
        assert(rs.take(i as int) =~= rs);
        Ok(all)
    }

    /// The entries whose keys lie in the half-open range from `start` to `end`.
    pub fn scan(&self, start: &[u8], end: &[u8]) -> (r: Result<Vec<BlockEntry>, Error>)
        ensures
            match table_entries(self.data(), self.index()) {
                Ok(ps) => r matches Ok(v) && pairs(v@) == scan_of(ps, start@, end@),
                Err(e) => r matches Err(Error::Corruption(m)) && m@ == e,
            },
            forall|ps: Seq<Pair>|
                self.well_formed() && #[trigger] serves(self.data(), ps) && sorted(ps) ==> (
                r matches Ok(v) && sorted(pairs(v@)) && layer(pairs(v@)) == layer_range(
                    layer(ps),
                    start@,
                    end@,
                )),
    {
        let entries: Vec<BlockEntry> = match self.iter() {
            Ok(e) => e,
            Err(e) => {
                return Err(e);
            },
        };
        let ghost ps = pairs(entries@);
        let mut out: Vec<BlockEntry> = Vec::new();
        let mut i: usize = 0;
        proof {
            assert(ps.skip(0) =~= ps);
            assert(pairs(out@) =~= Seq::<Pair>::empty());
            assert(Seq::<Pair>::empty() + scan_of(ps, start@, end@) =~= scan_of(ps, start@, end@));
        }
        while i < entries.len() && precedes(entries[i].key.as_slice(), end)
            invariant
                i <= entries.len(),
                ps == pairs(entries@),
                scan_of(ps, start@, end@) == pairs(out@) + scan_of(
                    ps.skip(i as int),
                    start@,
                    end@,
                ),
            decreases entries.len() - i,
        {
            let ghost before = pairs(out@);
            let ghost rest = ps.skip(i as int);
            proof {
                assert(rest[0] == ps[i as int]);
                assert(rest.drop_first() =~= ps.skip(i + 1));
            }
            if !precedes(entries[i].key.as_slice(), start) {
                let e: BlockEntry = crate::storage::run::copy_entry(&entries[i]);
                let ghost p = e@;
                out.push(e);
                proof {
                    assert(pairs(out@) =~= before.push(p));
                    assert(before + (seq![p] + scan_of(rest.drop_first(), start@, end@))
                        =~= before.push(p) + scan_of(rest.drop_first(), start@, end@));
                }
            }
            i += 1;
        }
        proof {
            let rest = ps.skip(i as int);
            if i < ps.len() {
                assert(rest[0] == ps[i as int]);
            }
            assert(pairs(out@) + Seq::<Pair>::empty() =~= pairs(out@));
            if sorted(ps) {
                lemma_scan_sorted(ps, start@, end@);
            }
        }
        Ok(out)
    }

    /// The smallest key of the table.
    pub fn min_key(&self) -> (r: Option<&[u8]>)
        ensures
            match r {
                Some(k) => self.index().len() > 0 && k@ == self.index()[0].0,
                None => self.index().len() == 0,
            },
    {
        if self.index.is_empty() {
            None
        } else {
            Some(self.index[0].first_key.as_slice())
        }
    }

    /// The path under which the table is stored.
    pub fn path(&self) -> (r: &str)
        ensures
            r@ == self.path_view(),
    {
        self.path.as_str()
    }

    /// The place of the last block whose first key does not exceed `key`, or
    /// of the first block where there is none.
    fn find_block(&self, key: &[u8]) -> (r: usize)
        requires
            self.index@.len() > 0,
        ensures
            r < self.index@.len(),
            index_sorted(rows(self.index@)) ==> picks(rows(self.index@), r as int, key@),
    {
        let ghost rs = rows(self.index@);
        let mut low: usize = 0;
        let mut high: usize = self.index.len();
        while low < high
            invariant
                low <= high <= self.index@.len(),
                rs == rows(self.index@),
                index_sorted(rs) ==> forall|j: int|
                    0 <= j < low ==> lex_lt(#[trigger] rs[j].0, key@),
                index_sorted(rs) ==> forall|j: int|
                    high <= j < rs.len() ==> lex_lt(key@, #[trigger] rs[j].0),
            decreases high - low,
        {
            let mid: usize = low + (high - low) / 2;
            assert(rs[mid as int] == self.index@[mid as int]@);
            match compare(self.index[mid].first_key.as_slice(), key) {
                KeyOrder::Same => {
                    proof {
                        lemma_lex_irreflexive(key@);
                        if index_sorted(rs) {
                            assert forall|j: int| mid < j < rs.len() implies lex_lt(
                                key@,
                                #[trigger] rs[j].0,
                            ) by {
                                assert(lex_lt(rs[mid as int].0, rs[j].0));
                            }
                        }
                    }
                    return mid;
                },
                KeyOrder::Before => {
                    proof {
                        if index_sorted(rs) {
                            assert forall|j: int| 0 <= j < mid + 1 implies lex_lt(
                                #[trigger] rs[j].0,
                                key@,
                            ) by {
                                if j < mid {
                                    assert(lex_lt(rs[j].0, rs[mid as int].0));
                                    lemma_lex_transitive(rs[j].0, rs[mid as int].0, key@);
                                }
                            }
                        }
                    }
                    low = mid + 1;
                },
                KeyOrder::After => {
                    proof {
                        if index_sorted(rs) {
                            assert forall|j: int| mid <= j < rs.len() implies lex_lt(
                                key@,
                                #[trigger] rs[j].0,
                            ) by {
                                if j > mid {
                                    assert(lex_lt(rs[mid as int].0, rs[j].0));
                                    lemma_lex_transitive(key@, rs[mid as int].0, rs[j].0);
                                }
                            }
                        }
                    }
                    high = mid;
                },
            }
        }
        if low == 0 {
            0
        } else {
            proof {
                if index_sorted(rs) {
                    assert(lex_lt(rs[low - 1].0, key@));
                    lemma_lex_asymmetric(rs[low - 1].0, key@);
                }
            }
            low - 1
        }
    }
}

/// The first keys of an index ascend strictly.
pub open spec fn index_sorted(index: Seq<IndexRow>) -> bool {
    forall|i: int, j: int|
        0 <= i < j < index.len() ==> lex_lt(#[trigger] index[i].0, #[trigger] index[j].0)
}

/// `i` is the last row whose key does not exceed `k`, or the first row.
pub open spec fn picks(index: Seq<IndexRow>, i: int, k: Seq<u8>) -> bool {
    &&& 0 <= i < index.len()
    &&& forall|j: int| i < j < index.len() ==> lex_lt(k, #[trigger] index[j].0)
    &&& i > 0 ==> !lex_lt(k, index[i].0)
}

/// Index rows that were read before the rest of an index.
spec fn with_rows_before(
    before: Seq<IndexRow>,
    rest: Result<Seq<IndexRow>, Seq<char>>,
) -> Result<Seq<IndexRow>, Seq<char>> {
    match rest {
        Ok(rs) => Ok(before + rs),
        Err(e) => Err(e),
    }
}

/// Where a part of the blocks cannot be read, the whole cannot either.
proof fn lemma_entries_err(data: Seq<u8>, index: Seq<IndexRow>, n: nat)
    requires
        n <= index.len(),
        table_entries(data, index.take(n as int)) is Err,
    ensures
        table_entries(data, index) == table_entries(data, index.take(n as int)),
    decreases index.len() - n,
{
    if n < index.len() {
        assert(index.take((n + 1) as int).drop_last() =~= index.take(n as int));
        lemma_entries_err(data, index, n + 1);
    } else {
        assert(index.take(n as int) =~= index);
    }
}

} // verus!
