//! The layout of a table file.
//!
//! Data blocks come first, then the index, then the Bloom filter, then the
//! footer. The index holds, in key order, the first key of each block with the
//! block's offset and size.

use vstd::prelude::*;
use crate::bytes::{
    le_bytes, le_value, lemma_base_pow, lemma_le_round_trip, lemma_lex_irreflexive, lex_lt,
};
use crate::storage::bits::{byte_bit, max_bits};
use crate::storage::block::{
    all_storable, decode_block, encode_block, law_block_round_trip, pairs_size, storable,
};
use crate::storage::bloom::{covers, law_filter_round_trip};
use crate::storage::footer::{
    decode_footer, encode_footer, law_footer_round_trip, FOOTER_SIZE, Footer,
};
use crate::storage::run::{has_key, key_index, layer, lemma_layer_at, sorted, Pair};
use crate::text::decimal;

verus! {

/// A row of the index: the first key of a block, its offset and its size.
pub type IndexRow = (Seq<u8>, nat, nat);

/// The entries of blocks in order.
pub open spec fn flat(blocks: Seq<Seq<Pair>>) -> Seq<Pair>
    decreases blocks.len(),
{
    if blocks.len() == 0 {
        Seq::empty()
    } else {
        flat(blocks.drop_last()) + blocks.last()
    }
}

/// Blocks as they are stored one after another.
pub open spec fn blocks_data(blocks: Seq<Seq<Pair>>) -> Seq<u8>
    decreases blocks.len(),
{
    if blocks.len() == 0 {
        Seq::empty()
    } else {
        blocks_data(blocks.drop_last()) + encode_block(blocks.last())
    }
}

/// How entries are cut into blocks: the blocks that are complete, and the
/// entries of the one that is not. A block is complete when its size reaches
/// `block_size`.
pub open spec fn chunks(ps: Seq<Pair>, block_size: nat) -> (Seq<Seq<Pair>>, Seq<Pair>)
    decreases ps.len(),
{
    if ps.len() == 0 {
        (Seq::empty(), Seq::empty())
    } else {
        let (full, open) = chunks(ps.drop_last(), block_size);
        let grown = open.push(ps.last());
        if pairs_size(grown) + 4 >= block_size {
            (full.push(grown), Seq::empty())
        } else {
            (full, grown)
        }
    }
}

/// The blocks of a table with the entries `ps`.
pub open spec fn table_blocks(ps: Seq<Pair>, block_size: nat) -> Seq<Seq<Pair>> {
    let (full, open) = chunks(ps, block_size);
    if open.len() == 0 {
        full
    } else {
        full.push(open)
    }
}

/// Entries that one table file can hold: the number of its blocks, and that of
/// the entries in each, have 32 bits.
pub open spec fn table_fits(ps: Seq<Pair>, block_size: nat) -> bool {
    &&& table_blocks(ps, block_size).len() <= u32::MAX
    &&& forall|i: int|
        0 <= i < table_blocks(ps, block_size).len() ==> (
        #[trigger] table_blocks(ps, block_size)[i]).len() <= u32::MAX
}

/// Where entries fit one table file, so do the entries before the last.
pub proof fn lemma_fewer_fit(ps: Seq<Pair>, block_size: nat)
    requires
        ps.len() > 0,
        table_fits(ps, block_size),
    ensures
        table_fits(ps.drop_last(), block_size),
        chunks(ps.drop_last(), block_size).1.len() < u32::MAX,
{
    let (f0, o0) = chunks(ps.drop_last(), block_size);
    let blocks = table_blocks(ps, block_size);
    let fewer = table_blocks(ps.drop_last(), block_size);
    let grown = o0.push(ps.last());
    assert(blocks == f0.push(grown));
    assert(blocks[f0.len() as int] == grown);
    assert forall|i: int| 0 <= i < fewer.len() implies (#[trigger] fewer[i]).len() <= u32::MAX by {
        if i < f0.len() {
            assert(blocks[i] == f0[i]);
        }
    }
}

/// The first entries of some that fit one table file fit it.
pub proof fn lemma_first_fit(ps: Seq<Pair>, block_size: nat, n: int)
    requires
        0 <= n <= ps.len(),
        table_fits(ps, block_size),
    ensures
        table_fits(ps.take(n), block_size),
    decreases ps.len() - n,
{
    if n < ps.len() {
        lemma_first_fit(ps, block_size, n + 1);
        lemma_fewer_fit(ps.take(n + 1), block_size);
        assert(ps.take(n + 1).drop_last() =~= ps.take(n));
    } else {
        assert(ps.take(n) =~= ps);
    }
}

/// The index of a table with the given blocks.
pub open spec fn index_rows(blocks: Seq<Seq<Pair>>) -> Seq<IndexRow> {
    Seq::new(
        blocks.len(),
        |i: int|
            (
                blocks[i][0].0,
                blocks_data(blocks.take(i)).len(),
                encode_block(blocks[i]).len(),
            ),
    )
}

pub open spec fn encode_row(row: IndexRow) -> Seq<u8> {
    le_bytes(row.0.len(), 4) + row.0 + le_bytes(row.1, 8) + le_bytes(row.2, 8)
}

pub open spec fn encode_rows(rows: Seq<IndexRow>) -> Seq<u8>
    decreases rows.len(),
{
    if rows.len() == 0 {
        Seq::empty()
    } else {
        encode_rows(rows.drop_last()) + encode_row(rows.last())
    }
}

/// The index as it is stored.
pub open spec fn encode_index(rows: Seq<IndexRow>) -> Seq<u8> {
    le_bytes(rows.len(), 4) + encode_rows(rows)
}

/// What is read as an index row from the front of `data`.
pub open spec fn decode_row(data: Seq<u8>) -> Result<(IndexRow, Seq<u8>), Seq<char>> {
    if data.len() < 4 {
        Err("index entry truncated"@)
    } else {
        let key_len = le_value(data.subrange(0, 4)) as int;
        if 4 + key_len + 16 > data.len() {
            Err("index entry truncated"@)
        } else {
            Ok(
                (
                    (
                        data.subrange(4, 4 + key_len),
                        le_value(data.subrange(4 + key_len, 12 + key_len)),
                        le_value(data.subrange(12 + key_len, 20 + key_len)),
                    ),
                    data.skip(20 + key_len),
                ),
            )
        }
    }
}

/// What is read as `n` index rows from the front of `data`.
pub open spec fn decode_rows(data: Seq<u8>, n: nat) -> Result<Seq<IndexRow>, Seq<char>>
    decreases n,
{
    if n == 0 {
        Ok(Seq::empty())
    } else {
        match decode_row(data) {
            Err(e) => Err(e),
            Ok((row, rest)) => match decode_rows(rest, (n - 1) as nat) {
                Err(e) => Err(e),
                Ok(rows) => Ok(seq![row] + rows),
            },
        }
    }
}

/// What a stored index holds.
pub open spec fn decode_index(data: Seq<u8>) -> Result<Seq<IndexRow>, Seq<char>> {
    if data.len() < 4 {
        Err("index block too small"@)
    } else {
        decode_rows(data.skip(4), le_value(data.take(4)))
    }
}

/// The stored form of a table.
pub open spec fn encode_table(
    blocks: Seq<Seq<Pair>>,
    num_bits: nat,
    filter: Seq<u8>,
    num_hashes: u32,
) -> Seq<u8> {
    let data = blocks_data(blocks);
    let index = encode_index(index_rows(blocks));
    data + index + (le_bytes(num_bits, 8) + filter) + encode_footer(
        table_footer(blocks, filter.len(), num_hashes),
    )
}

/// The footer of a table.
pub open spec fn table_footer(blocks: Seq<Seq<Pair>>, filter_len: nat, num_hashes: u32) -> Footer {
    let data_len = blocks_data(blocks).len();
    let index_len = encode_index(index_rows(blocks)).len();
    Footer {
        index_offset: data_len as u64,
        index_size: index_len as u64,
        bloom_offset: (data_len + index_len) as u64,
        bloom_size: (8 + filter_len) as u64,
        bloom_num_hashes: num_hashes,
    }
}

/// What the bytes of a table file say beside its data blocks.
pub struct TableParts {
    pub index: Seq<IndexRow>,
    pub bits: Seq<bool>,
    pub num_hashes: nat,
}

/// Keys can be looked up in a filter: it has bits, or no hash asks for any.
pub open spec fn filter_sound(bits: Seq<bool>, num_hashes: nat) -> bool {
    bits.len() > 0 || num_hashes == 0
}

/// What is read as a Bloom filter: the bits.
pub open spec fn decode_filter(data: Seq<u8>) -> Result<Seq<bool>, Seq<char>> {
    if data.len() < 8 {
        Err("bloom block too small"@)
    } else {
        let num_bits = le_value(data.take(8));
        let raw = data.skip(8);
        if num_bits > max_bits() || raw.len() * 8 > max_bits() {
            Err("bloom filter size invalid"@)
        } else {
            Ok(Seq::new(num_bits, |i: int| i < raw.len() * 8 && byte_bit(raw, i)))
        }
    }
}

/// What the bytes of a table file say, or why they are no table.
#[verifier::opaque]
pub open spec fn decode_table(data: Seq<u8>) -> Result<TableParts, Seq<char>> {
    if data.len() < FOOTER_SIZE {
        Err("SSTable too small: "@ + decimal(data.len()) + " bytes"@)
    } else {
        match decode_footer(data.skip(data.len() - FOOTER_SIZE)) {
            Err(e) => Err(e),
            Ok(f) => if f.index_offset + f.index_size > data.len() {
                Err("index extends past file"@)
            } else {
                match decode_index(
                    data.subrange(f.index_offset as int, f.index_offset + f.index_size),
                ) {
                    Err(e) => Err(e),
                    Ok(index) => if f.bloom_offset + f.bloom_size > data.len() {
                        Err("bloom filter extends past file"@)
                    } else {
                        match decode_filter(
                            data.subrange(f.bloom_offset as int, f.bloom_offset + f.bloom_size),
                        ) {
                            Err(e) => Err(e),
                            Ok(bits) => Ok(
                                TableParts {
                                    index,
                                    bits,
                                    num_hashes: f.bloom_num_hashes as nat,
                                },
                            ),
                        }
                    },
                }
            },
        }
    }
}

/// What is read as the block of an index row.
pub open spec fn block_at(data: Seq<u8>, row: IndexRow) -> Result<Seq<Pair>, Seq<char>> {
    if row.1 + row.2 > data.len() {
        Err("block extends past file"@)
    } else {
        decode_block(data.subrange(row.1 as int, (row.1 + row.2) as int))
    }
}

/// What is read as the entries of all blocks.
pub open spec fn table_entries(data: Seq<u8>, index: Seq<IndexRow>) -> Result<Seq<Pair>, Seq<char>>
    decreases index.len(),
{
    if index.len() == 0 {
        Ok(Seq::empty())
    } else {
        match table_entries(data, index.drop_last()) {
            Err(e) => Err(e),
            Ok(ps) => match block_at(data, index.last()) {
                Err(e) => Err(e),
                Ok(qs) => Ok(ps + qs),
            },
        }
    }
}

/// A table's bytes and index hold exactly the given blocks.
pub open spec fn holds_blocks(data: Seq<u8>, index: Seq<IndexRow>, blocks: Seq<Seq<Pair>>) -> bool {
    &&& index.len() == blocks.len()
    &&& forall|i: int|
        0 <= i < blocks.len() ==> {
            &&& block_at(data, #[trigger] index[i]) == Ok::<Seq<Pair>, Seq<char>>(blocks[i])
            &&& blocks[i].len() > 0
            &&& index[i].0 == blocks[i][0].0
        }
}

/// A filter finds every key of a run.
pub open spec fn covers_all(bits: Seq<bool>, num_hashes: nat, ps: Seq<Pair>) -> bool {
    forall|i: int| 0 <= i < ps.len() ==> covers(bits, num_hashes, #[trigger] ps[i].0)
}

/// Reading all entries of a table gives its blocks one after another.
pub proof fn lemma_table_entries(data: Seq<u8>, index: Seq<IndexRow>, blocks: Seq<Seq<Pair>>)
    requires
        holds_blocks(data, index, blocks),
    ensures
        table_entries(data, index) == Ok::<Seq<Pair>, Seq<char>>(flat(blocks)),
    decreases index.len(),
{
    if index.len() > 0 {
        let n = index.len() - 1;
        assert(block_at(data, index[n as int]) == Ok::<Seq<Pair>, Seq<char>>(blocks[n as int]));
        assert(holds_blocks(data, index.drop_last(), blocks.drop_last())) by {
            assert forall|i: int| 0 <= i < blocks.drop_last().len() implies {
                &&& block_at(data, #[trigger] index.drop_last()[i]) == Ok::<Seq<Pair>, Seq<char>>(
                    blocks.drop_last()[i],
                )
                &&& blocks.drop_last()[i].len() > 0
                &&& index.drop_last()[i].0 == blocks.drop_last()[i][0].0
            } by {
                assert(index.drop_last()[i] == index[i]);
            }
        }
        lemma_table_entries(data, index.drop_last(), blocks.drop_last());
    }
}

/// Where an entry of a block stands in the row of all entries.
pub proof fn lemma_flat_index(blocks: Seq<Seq<Pair>>, i: int, x: int)
    requires
        0 <= i < blocks.len(),
        0 <= x < blocks[i].len(),
    ensures
        flat(blocks.take(i)).len() + x < flat(blocks).len(),
        flat(blocks)[flat(blocks.take(i)).len() + x] == blocks[i][x],
    decreases blocks.len(),
{
    if i < blocks.len() - 1 {
        lemma_flat_index(blocks.drop_last(), i, x);
        assert(blocks.drop_last().take(i) =~= blocks.take(i));
    } else {
        assert(blocks.take(i) =~= blocks.drop_last());
    }
}

/// Earlier blocks do not reach past where a later block starts.
pub proof fn lemma_flat_monotonic(blocks: Seq<Seq<Pair>>, i: int, j: int)
    requires
        0 <= i < j <= blocks.len(),
    ensures
        flat(blocks.take(i)).len() + blocks[i].len() <= flat(blocks.take(j)).len(),
    decreases j,
{
    assert(blocks.take(j).drop_last() =~= blocks.take(j - 1));
    if i < j - 1 {
        lemma_flat_monotonic(blocks, i, j - 1);
    }
}

/// Every entry of the row of all entries stands in some block.
pub proof fn lemma_flat_source(blocks: Seq<Seq<Pair>>, n: int) -> (r: (int, int))
    requires
        0 <= n < flat(blocks).len(),
    ensures
        0 <= r.0 < blocks.len(),
        0 <= r.1 < blocks[r.0].len(),
        blocks[r.0][r.1] == flat(blocks)[n],
    decreases blocks.len(),
{
    let head = flat(blocks.drop_last()).len();
    if n < head {
        lemma_flat_source(blocks.drop_last(), n)
    } else {
        (blocks.len() - 1, n - head)
    }
}

/// In blocks whose entries ascend, the entries of an earlier block come before
/// those of a later one.
pub proof fn lemma_blocks_ordered(blocks: Seq<Seq<Pair>>, i: int, x: int, j: int, y: int)
    requires
        sorted(flat(blocks)),
        0 <= i < j < blocks.len(),
        0 <= x < blocks[i].len(),
        0 <= y < blocks[j].len(),
    ensures
        lex_lt(blocks[i][x].0, blocks[j][y].0),
{
    lemma_flat_index(blocks, i, x);
    lemma_flat_index(blocks, j, y);
    lemma_flat_monotonic(blocks, i, j);
    let f = flat(blocks);
    assert(lex_lt(
        f[flat(blocks.take(i)).len() + x].0,
        f[flat(blocks.take(j)).len() + y].0,
    ));
}

/// A block of a sorted table is sorted.
pub proof fn lemma_block_sorted(blocks: Seq<Seq<Pair>>, i: int)
    requires
        sorted(flat(blocks)),
        0 <= i < blocks.len(),
    ensures
        sorted(blocks[i]),
{
    let b = blocks[i];
    let f = flat(blocks);
    assert forall|x: int, y: int| 0 <= x < y < b.len() implies lex_lt(
        #[trigger] b[x].0,
        #[trigger] b[y].0,
    ) by {
        lemma_flat_index(blocks, i, x);
        lemma_flat_index(blocks, i, y);
        let base = flat(blocks.take(i)).len();
        assert(lex_lt(f[base + x].0, f[base + y].0));
    }
}

/// A key of a sorted table can only stand in the last block whose first key
/// does not exceed it, and has there the value that the table gives it.
pub proof fn lemma_block_decides(blocks: Seq<Seq<Pair>>, i: int, k: Seq<u8>)
    requires
        sorted(flat(blocks)),
        0 <= i < blocks.len(),
        forall|j: int| 0 <= j < blocks.len() ==> (#[trigger] blocks[j]).len() > 0,
        forall|j: int| i < j < blocks.len() ==> lex_lt(k, (#[trigger] blocks[j])[0].0),
        i > 0 ==> !lex_lt(k, blocks[i][0].0),
    ensures
        has_key(flat(blocks), k) == has_key(blocks[i], k),
        has_key(blocks[i], k) ==> layer(blocks[i])[k] == layer(flat(blocks))[k],
{
    let f = flat(blocks);
    lemma_block_sorted(blocks, i);
    lemma_lex_irreflexive(k);
    if has_key(blocks[i], k) {
        let x = key_index(blocks[i], k);
        lemma_flat_index(blocks, i, x);
        lemma_layer_at(f, flat(blocks.take(i)).len() + x);
        lemma_layer_at(blocks[i], x);
    }
    if has_key(f, k) {
        let n = key_index(f, k);
        let (j, y) = lemma_flat_source(blocks, n);
        if j < i {
            lemma_blocks_ordered(blocks, j, y, i, 0);
        } else if j > i {
            if y > 0 {
                lemma_block_sorted(blocks, j);
                assert(lex_lt(blocks[j][0].0, blocks[j][y].0));
                crate::bytes::lemma_lex_asymmetric(k, blocks[j][0].0);
            }
        }
        assert(j == i);
        assert(blocks[i][y].0 == k);
    }
}

/// Storing a row of index rows stores the first and then the others.
proof fn lemma_encode_rows_first(rows: Seq<IndexRow>)
    requires
        rows.len() > 0,
    ensures
        encode_rows(rows) == encode_row(rows[0]) + encode_rows(rows.drop_first()),
    decreases rows.len(),
{
    if rows.len() == 1 {
        assert(rows.drop_last() =~= Seq::<IndexRow>::empty());
        assert(rows.drop_first() =~= Seq::<IndexRow>::empty());
        assert(encode_rows(Seq::<IndexRow>::empty()) == Seq::<u8>::empty());
        assert(encode_rows(rows) =~= encode_row(rows[0]));
        assert(encode_row(rows[0]) + Seq::<u8>::empty() =~= encode_row(rows[0]));
    } else {
        lemma_encode_rows_first(rows.drop_last());
        assert(rows.drop_last().drop_first() =~= rows.drop_first().drop_last());
        assert(encode_rows(rows) =~= encode_row(rows[0]) + (encode_rows(
            rows.drop_first().drop_last(),
        ) + encode_row(rows.last())));
    }
}

/// An index row whose fields fit.
pub open spec fn row_fits(row: IndexRow) -> bool {
    &&& row.0.len() <= u32::MAX
    &&& row.1 <= u64::MAX
    &&& row.2 <= u64::MAX
}

proof fn lemma_row_round_trip(row: IndexRow, rest: Seq<u8>)
    requires
        row_fits(row),
    ensures
        decode_row(encode_row(row) + rest) == Ok::<(IndexRow, Seq<u8>), Seq<char>>((row, rest)),
{
    lemma_base_pow();
    lemma_le_round_trip(row.0.len(), 4);
    lemma_le_round_trip(row.1, 8);
    lemma_le_round_trip(row.2, 8);
    let data = encode_row(row) + rest;
    let n = row.0.len() as int;
    assert(data.subrange(0, 4) =~= le_bytes(row.0.len(), 4));
    assert(data.subrange(4, 4 + n) =~= row.0);
    assert(data.subrange(4 + n, 12 + n) =~= le_bytes(row.1, 8));
    assert(data.subrange(12 + n, 20 + n) =~= le_bytes(row.2, 8));
    assert(data.skip(20 + n) =~= rest);
}

proof fn lemma_rows_round_trip(rows: Seq<IndexRow>)
    requires
        forall|i: int| 0 <= i < rows.len() ==> row_fits(#[trigger] rows[i]),
    ensures
        decode_rows(encode_rows(rows), rows.len()) == Ok::<Seq<IndexRow>, Seq<char>>(rows),
    decreases rows.len(),
{
    if rows.len() > 0 {
        let tail = rows.drop_first();
        lemma_encode_rows_first(rows);
        lemma_row_round_trip(rows[0], encode_rows(tail));
        assert forall|i: int| 0 <= i < tail.len() implies row_fits(#[trigger] tail[i]) by {
            assert(row_fits(rows[i + 1]));
        }
        lemma_rows_round_trip(tail);
        assert(seq![rows[0]] + tail =~= rows);
    } else {
        assert(rows =~= Seq::<IndexRow>::empty());
    }
}

/// Reading an index that was stored gives it back.
pub proof fn law_index_round_trip(rows: Seq<IndexRow>)
    requires
        rows.len() <= u32::MAX,
        forall|i: int| 0 <= i < rows.len() ==> row_fits(#[trigger] rows[i]),
    ensures
        decode_index(encode_index(rows)) == Ok::<Seq<IndexRow>, Seq<char>>(rows),
{
    lemma_base_pow();
    lemma_le_round_trip(rows.len(), 4);
    let data = encode_index(rows);
    assert(data.take(4) =~= le_bytes(rows.len(), 4));
    assert(data.skip(4) =~= encode_rows(rows));
    lemma_rows_round_trip(rows);
}

/// Blocks stand one after another where the index says.
proof fn lemma_blocks_data_at(blocks: Seq<Seq<Pair>>, i: int)
    requires
        0 <= i < blocks.len(),
    ensures
        blocks_data(blocks.take(i)).len() + encode_block(blocks[i]).len() <= blocks_data(
            blocks,
        ).len(),
        blocks_data(blocks).subrange(
            blocks_data(blocks.take(i)).len() as int,
            (blocks_data(blocks.take(i)).len() + encode_block(blocks[i]).len()) as int,
        ) == encode_block(blocks[i]),
    decreases blocks.len(),
{
    let start = blocks_data(blocks.take(i)).len() as int;
    let end = start + encode_block(blocks[i]).len() as int;
    if i < blocks.len() - 1 {
        lemma_blocks_data_at(blocks.drop_last(), i);
        assert(blocks.drop_last().take(i) =~= blocks.take(i));
        assert(blocks_data(blocks).subrange(start, end) =~= blocks_data(
            blocks.drop_last(),
        ).subrange(start, end));
    } else {
        assert(blocks.take(i) =~= blocks.drop_last());
        assert(blocks_data(blocks).subrange(start, end) =~= encode_block(blocks[i]));
    }
}

/// A block that a table can hold.
pub open spec fn block_fits(block: Seq<Pair>) -> bool {
    &&& 0 < block.len() <= u32::MAX
    &&& all_storable(block)
}

/// A table that was stored is read back: its index names its blocks, its
/// filter has the stored bits, and each block has its entries.
#[verifier::rlimit(60)]
#[verifier::spinoff_prover]
pub proof fn law_table_round_trip(
    blocks: Seq<Seq<Pair>>,
    bits: Seq<bool>,
    filter: Seq<u8>,
    num_hashes: u32,
)
    requires
        blocks.len() <= u32::MAX,
        forall|i: int| 0 <= i < blocks.len() ==> block_fits(#[trigger] blocks[i]),
        0 < bits.len() <= max_bits(),
        filter.len() * 8 <= max_bits(),
        filter.len() == (bits.len() + 7) / 8,
        forall|i: int| 0 <= i < bits.len() ==> #[trigger] byte_bit(filter, i) == bits[i],
        encode_table(blocks, bits.len(), filter, num_hashes).len() <= usize::MAX,
    ensures
        decode_table(encode_table(blocks, bits.len(), filter, num_hashes)) == Ok::<
            TableParts,
            Seq<char>,
        >(TableParts { index: index_rows(blocks), bits, num_hashes: num_hashes as nat }),
        holds_blocks(
            encode_table(blocks, bits.len(), filter, num_hashes),
            index_rows(blocks),
            blocks,
        ),
{
    reveal(decode_table);
    lemma_base_pow();
    let data = blocks_data(blocks);
    let rows = index_rows(blocks);
    let index = encode_index(rows);
    let f = table_footer(blocks, filter.len(), num_hashes);
    let bloom = le_bytes(bits.len(), 8) + filter;
    let file = encode_table(blocks, bits.len(), filter, num_hashes);
    law_footer_round_trip(f);
    lemma_le_round_trip(bits.len(), 8);
    assert(file.len() == data.len() + index.len() + bloom.len() + 40);
    assert(file.skip(file.len() - FOOTER_SIZE) =~= encode_footer(f));
    assert(file.subrange(data.len() as int, (data.len() + index.len()) as int) =~= index);
    assert(file.subrange(
        (data.len() + index.len()) as int,
        (data.len() + index.len() + 8 + filter.len()) as int,
    ) =~= bloom);
    assert forall|i: int| 0 <= i < rows.len() implies row_fits(#[trigger] rows[i]) by {
        assert(block_fits(blocks[i]));
        assert(storable(blocks[i][0]));
        lemma_blocks_data_at(blocks, i);
    }
    law_index_round_trip(rows);
    assert(bloom.take(8) =~= le_bytes(bits.len(), 8));
    assert(bloom.skip(8) =~= filter);
    law_filter_round_trip(bits, filter);
    assert(file =~= data + (index + bloom + encode_footer(f)));
    lemma_holds_blocks(blocks, index + bloom + encode_footer(f));
}

/// Bytes that start with the blocks hold them.
proof fn lemma_holds_blocks(blocks: Seq<Seq<Pair>>, rest: Seq<u8>)
    requires
        forall|i: int| 0 <= i < blocks.len() ==> block_fits(#[trigger] blocks[i]),
    ensures
        holds_blocks(blocks_data(blocks) + rest, index_rows(blocks), blocks),
{
    let data = blocks_data(blocks);
    let file = data + rest;
    let rows = index_rows(blocks);
    assert forall|i: int| 0 <= i < blocks.len() implies {
        &&& block_at(file, #[trigger] rows[i]) == Ok::<Seq<Pair>, Seq<char>>(blocks[i])
        &&& blocks[i].len() > 0
        &&& rows[i].0 == blocks[i][0].0
    } by {
        assert(block_fits(blocks[i]));
        lemma_blocks_data_at(blocks, i);
        let start = rows[i].1 as int;
        let end = start + rows[i].2;
        assert(file.subrange(start, end) =~= data.subrange(start, end));
        law_block_round_trip(blocks[i]);
    }
}

/// Cutting entries into blocks keeps them and their order.
pub proof fn lemma_chunks(ps: Seq<Pair>, block_size: nat)
    ensures
        flat(chunks(ps, block_size).0) + chunks(ps, block_size).1 == ps,
        chunks(ps, block_size).1.len() > 0 ==> pairs_size(chunks(ps, block_size).1) + 4
            < block_size,
        chunks(ps, block_size).0.len() <= ps.len(),
        forall|i: int|
            0 <= i < chunks(ps, block_size).0.len() ==> {
                &&& (#[trigger] chunks(ps, block_size).0[i]).len() > 0
                &&& pairs_size(chunks(ps, block_size).0[i].drop_last()) <= block_size
            },
        flat(table_blocks(ps, block_size)) == ps,
        table_blocks(ps, block_size).len() <= ps.len(),
    decreases ps.len(),
{
    let (full, open) = chunks(ps, block_size);
    if ps.len() == 0 {
        assert(flat(full) + open =~= ps);
    } else {
        lemma_chunks(ps.drop_last(), block_size);
        let (f0, o0) = chunks(ps.drop_last(), block_size);
        let grown = o0.push(ps.last());
        assert(grown.drop_last() =~= o0);
        if pairs_size(grown) + 4 >= block_size {
            assert(full.drop_last() =~= f0);
            assert(flat(full) + open =~= (flat(f0) + o0).push(ps.last()));
            assert forall|i: int| 0 <= i < full.len() implies {
                &&& (#[trigger] full[i]).len() > 0
                &&& pairs_size(full[i].drop_last()) <= block_size
            } by {
                if i < f0.len() {
                    assert(full[i] == f0[i]);
                } else if o0.len() == 0 {
                    assert(pairs_size(o0) == 0);
                }
            }
        } else {
            assert(flat(full) + open =~= (flat(f0) + o0).push(ps.last()));
        }
        assert((flat(f0) + o0).push(ps.last()) =~= ps);
    }
    if open.len() > 0 {
        assert(full.push(open).drop_last() =~= full);
        if full.len() == ps.len() {
            assert(flat(full) + open == ps);
            lemma_flat_len(full);
        }
    } else {
        assert(flat(full) + open =~= flat(full));
    }
}

/// Blocks that are not empty hold at least one entry each.
proof fn lemma_flat_len(blocks: Seq<Seq<Pair>>)
    requires
        forall|i: int| 0 <= i < blocks.len() ==> (#[trigger] blocks[i]).len() > 0,
    ensures
        flat(blocks).len() >= blocks.len(),
    decreases blocks.len(),
{
    if blocks.len() > 0 {
        lemma_flat_len(blocks.drop_last());
    }
}

} // verus!
