//! How the files of an engine are kept: what layers say together, when a level is
//! compacted, which tables a compaction takes in, and what damage is found.

use vstd::arithmetic::div_mod::lemma_add_mod_noop_right;
use vstd::arithmetic::power::pow;
use vstd::prelude::*;
use crate::bytes::{
    le_bytes, lemma_le_bytes_len, lemma_le_bytes_of_value, lemma_lex_asymmetric,
    lemma_lex_irreflexive, lemma_lex_total, lex_le, lex_lt,
};
use crate::storage::block::pairs_size;
use crate::storage::bloom::{bit_index, covers, hash_pair_of, BloomSize};
use crate::storage::compaction::{
    compacted_layer, due_level, first_overfull, inputs, int_pow, overlaps, without_ids,
    CompactionConfig,
};
use crate::storage::layers::{contents_of, lists_range, overlay};
use crate::storage::lsm::LsmTree;
use crate::storage::manifest::{with_entry, EntryView};
use crate::storage::memtable::content_size;
use crate::storage::run::{in_range, Layer, Pair};
use crate::storage::stack::lemma_filter_contains;
use crate::storage::table_format::{chunks, flat, lemma_chunks, table_blocks};
use crate::storage::wal::{
    crc32_of, decode_record, encode_record, record_crc, strict_records, valid_records, HEADER_SIZE,
    MAX_RECORD_SIZE,
};

verus! {

/// What an upper layer says of a key counts, and what lower layers say of it does
/// not: a value that it has is found, a key that it deletes is gone, and a key that
/// it does not speak of is as below.
pub proof fn law_upper_layers_win(top: Layer, below: Seq<Layer>, k: Seq<u8>)
    ensures
        ({
            let all = contents_of(seq![top] + below);
            let rest = contents_of(below);
            &&& !top.contains_key(k) ==> all.contains_key(k) == rest.contains_key(k) && (
            all.contains_key(k) ==> all[k] == rest[k])
            &&& top.contains_key(k) ==> all.contains_key(k) == top[k] is Some
            &&& top.contains_key(k) && top[k] is Some ==> all[k] == top[k]->0
            &&& overlay(seq![top] + below).contains_key(k) == (top.contains_key(k) || overlay(
                below,
            ).contains_key(k))
        }),
        contents_of(Seq::<Layer>::empty()).dom().is_empty(),
{
    assert((seq![top] + below).drop_first() =~= below);
    assert(contents_of(Seq::<Layer>::empty()).dom() =~= Set::empty());
}

/// A scan lists the keys from the first on, up to but not including the last, in
/// ascending order and each with its value; and lists them all.
pub proof fn law_scans_list_the_range(
    rows: Seq<(Seq<u8>, Seq<u8>)>,
    m: Map<Seq<u8>, Seq<u8>>,
    start: Seq<u8>,
    end: Seq<u8>,
    k: Seq<u8>,
)
    requires
        lists_range(rows, m, start, end),
    ensures
        m.contains_key(k) && (k == start || lex_lt(start, k)) && lex_lt(k, end) <==> exists|i: int|
            0 <= i < rows.len() && (#[trigger] rows[i]).0 == k,
        forall|i: int|
            0 <= i < rows.len() ==> m.contains_key((#[trigger] rows[i]).0) && m[rows[i].0]
                == rows[i].1,
        forall|i: int, j: int|
            0 <= i < j < rows.len() ==> lex_lt((#[trigger] rows[i]).0, (#[trigger] rows[j]).0),
{
    if m.contains_key(k) && in_range(k, start, end) {
        let i = rows.index_of((k, m[k]));
        assert(rows[i].0 == k);
    }
}

/// A range has its start, where that comes before its end, and never its end.
pub proof fn law_ranges_are_half_open(k: Seq<u8>, start: Seq<u8>, end: Seq<u8>)
    ensures
        in_range(k, start, end) <==> !lex_lt(k, start) && lex_lt(k, end),
        in_range(start, start, end) <==> lex_lt(start, end),
        !in_range(end, start, end),
{
    lemma_lex_irreflexive(end);
    lemma_lex_total(k, start);
    lemma_lex_irreflexive(start);
    if lex_lt(start, k) {
        lemma_lex_asymmetric(start, k);
    }
}

/// The powers of the ratio between levels.
proof fn lemma_int_pow(base: nat, n: nat)
    ensures
        int_pow(base, n) == pow(base as int, n),
    decreases n,
{
    reveal(pow);
    if n > 0 {
        lemma_int_pow(base, (n - 1) as nat);
    }
}

/// Level 0 is due as soon as it has as many tables as its trigger says. Of the
/// others, but for the last, the first is due that has more tables than the
/// trigger times the ratio to the power of its number.
pub proof fn law_full_levels_are_due(config: CompactionConfig, levels: Seq<Seq<EntryView>>)
    requires
        levels.len() > 0,
    ensures
        due_level(config, levels) == Some(0int) <==> levels[0].len()
            >= config.l0_compaction_trigger,
        due_level(config, levels) is None <==> levels[0].len() < config.l0_compaction_trigger && (
        forall|l: int| 1 <= l < levels.len() - 1 ==> #[trigger] within(config, levels, l)),
        due_level(config, levels) matches Some(l) ==> {
            &&& l == 0 || 1 <= l < levels.len() - 1
            &&& l > 0 ==> !within(config, levels, l) && forall|i: int|
                1 <= i < l ==> #[trigger] within(config, levels, i)
        },
{
    lemma_first_due(config, levels, 1);
}

/// A level has no more tables than the trigger times the ratio to the power of its
/// number.
pub open spec fn within(config: CompactionConfig, levels: Seq<Seq<EntryView>>, level: int) -> bool {
    levels[level].len() <= config.l0_compaction_trigger * pow(
        config.level_size_ratio as int,
        level as nat,
    )
}

proof fn lemma_first_due(config: CompactionConfig, levels: Seq<Seq<EntryView>>, from: int)
    requires
        from >= 1,
    ensures
        match first_overfull(config, levels, from) {
            Some(l) => {
                &&& from <= l < levels.len() - 1
                &&& !within(config, levels, l)
                &&& forall|i: int| from <= i < l ==> #[trigger] within(config, levels, i)
            },
            None => forall|i: int|
                from <= i < levels.len() - 1 ==> #[trigger] within(config, levels, i),
        },
    decreases levels.len() - from,
{
    if from < levels.len() - 1 {
        lemma_int_pow(config.level_size_ratio as nat, from as nat);
        lemma_first_due(config, levels, from + 1);
    }
}

/// A compaction takes in all tables of its level, and of the next level those that
/// reach into the keys that the level's tables span; a table that lies wholly
/// before or after them all is left alone.
pub proof fn law_compactions_take_what_overlaps(
    levels: Seq<Seq<EntryView>>,
    level: int,
    e: EntryView,
)
    requires
        0 <= level < levels.len() - 1,
    ensures
        inputs(levels, level).contains(e) <==> levels[level].contains(e) || (levels[level
            + 1].contains(e) && (exists|i: int|
            0 <= i < levels[level].len() && !lex_lt(
                (#[trigger] levels[level][i]).max_key,
                e.min_key,
            )) && (exists|i: int|
            0 <= i < levels[level].len() && !lex_lt(
                e.max_key,
                (#[trigger] levels[level][i]).min_key,
            ))),
{
    let sources = levels[level];
    let next = levels[level + 1];
    let reached = next.filter(|x: EntryView| overlaps(x, sources));
    lemma_filter_contains(next, |x: EntryView| overlaps(x, sources));
    let all = inputs(levels, level);
    assert(all == sources + reached);
    if sources.contains(e) {
        assert(all[sources.index_of(e)] == e);
    }
    if reached.contains(e) {
        assert(all[sources.len() + reached.index_of(e)] == e);
    }
    if all.contains(e) {
        let i = all.index_of(e);
        if i < sources.len() {
            assert(sources[i] == e);
        } else {
            assert(reached[i - sources.len()] == e);
        }
    }
    assert forall|i: int| 0 <= i < sources.len() implies lex_le(
        e.min_key,
        (#[trigger] sources[i]).max_key,
    ) == !lex_lt(sources[i].max_key, e.min_key) by {
        lemma_le_is_not_gt(e.min_key, sources[i].max_key);
    }
    assert forall|i: int| 0 <= i < sources.len() implies lex_le(
        (#[trigger] sources[i]).min_key,
        e.max_key,
    ) == !lex_lt(e.max_key, sources[i].min_key) by {
        lemma_le_is_not_gt(sources[i].min_key, e.max_key);
    }
}

proof fn lemma_le_is_not_gt(a: Seq<u8>, b: Seq<u8>)
    ensures
        lex_le(a, b) == !lex_lt(b, a),
{
    lemma_lex_total(a, b);
    lemma_lex_irreflexive(a);
    if lex_lt(a, b) {
        lemma_lex_asymmetric(a, b);
    }
}

/// A compaction into the last level keeps the values and drops the deletions;
/// into any other level it keeps both, since a level below may have the key.
pub proof fn law_deletions_are_dropped_last(merged: Layer, k: Seq<u8>)
    ensures
        compacted_layer(merged, false) == merged,
        compacted_layer(merged, true).contains_key(k) <==> merged.contains_key(k) && merged[k]
            is Some,
        compacted_layer(merged, true).contains_key(k) ==> compacted_layer(merged, true)[k]
            == merged[k],
{
}

/// A manifest that drops tables keeps all others, and one that takes up a table
/// has it in its level, besides those that were there.
pub proof fn law_manifests_list_their_tables(
    levels: Seq<Seq<EntryView>>,
    ids: Seq<u64>,
    added: EntryView,
    level: int,
    e: EntryView,
)
    requires
        0 <= level < levels.len(),
        added.level < levels.len(),
    ensures
        without_ids(levels, ids).len() == levels.len(),
        without_ids(levels, ids)[level].contains(e) <==> levels[level].contains(e) && !ids.contains(
            e.id,
        ),
        with_entry(levels, added).len() == levels.len(),
        with_entry(levels, added)[level].contains(e) <==> levels[level].contains(e) || (e == added
            && level == added.level),
{
    lemma_filter_contains(levels[level], |x: EntryView| !ids.contains(x.id));
    let after = with_entry(levels, added)[level];
    if level == added.level {
        assert(after == levels[level].push(added));
        if levels[level].contains(e) {
            assert(after[levels[level].index_of(e)] == e);
        }
        assert(after[levels[level].len() as int] == added);
        if after.contains(e) {
            let i = after.index_of(e);
            if i < levels[level].len() {
                assert(levels[level][i] == e);
            }
        }
    }
}

/// Only what was written is read: a record that is read from a log is there byte
/// for byte, with its length and its checksum, and what follows it is left.
pub proof fn law_damaged_records_are_not_read(bytes: Seq<u8>)
    ensures
        decode_record(bytes) matches Ok(Some((data, rest))) ==> bytes == encode_record(data) + rest
            && data.len() <= MAX_RECORD_SIZE,
        decode_record(bytes) matches Ok(None) ==> bytes.len() < HEADER_SIZE,
{
    if let Ok(Some((data, rest))) = decode_record(bytes) {
        let stored = bytes.subrange(0, 4);
        let size = bytes.subrange(4, 8);
        lemma_le_bytes_of_value(stored);
        lemma_le_bytes_of_value(size);
        assert(bytes =~= stored + size + data + rest);
        assert(encode_record(data) =~= stored + size + data);
    }
}

/// The checksum of a record covers its length and all of its data.
pub proof fn law_checksums_cover_records(data: Seq<u8>)
    ensures
        record_crc(data) == crc32_of(le_bytes(data.len(), 4) + data),
        encode_record(data).skip(8) == data,
{
    lemma_le_bytes_len(record_crc(data) as nat, 4);
    lemma_le_bytes_len(data.len(), 4);
    assert(encode_record(data).skip(8) =~= data);
}

/// A filter that no key was added to finds none, as long as it asks for a bit.
pub proof fn law_empty_filters_find_nothing(bits: Seq<bool>, num_hashes: nat, key: Seq<u8>)
    requires
        bits.len() > 0,
        num_hashes > 0,
        forall|i: int| 0 <= i < bits.len() ==> !#[trigger] bits[i],
    ensures
        !covers(bits, num_hashes, key),
{
    let i = bit_index(hash_pair_of(key), 0, bits.len());
    assert(0 <= i < bits.len());
    assert(!bits[i]);
}

/// The bits of a key lie one step of the second hash apart, counted from the
/// first, in numbers of 64 bits.
pub proof fn law_bits_are_spread(h: (u64, u64), i: int, num_bits: nat)
    requires
        num_bits > 0,
        i >= 0,
    ensures
        0 <= bit_index(h, i, num_bits) < num_bits,
        bit_index(h, i, num_bits) == ((h.0 + i * h.1) % 0x1_0000_0000_0000_0000) % (num_bits
            as int),
{
    lemma_add_mod_noop_right(h.0 as int, i * h.1, 0x1_0000_0000_0000_0000);
}

/// A table is cut into blocks in order and without loss; a block is closed with
/// the entry that brings it to the block size, and not before.
pub proof fn law_blocks_are_filled(ps: Seq<Pair>, block_size: nat)
    ensures
        flat(table_blocks(ps, block_size)) == ps,
        forall|i: int|
            0 <= i < table_blocks(ps, block_size).len() - 1 ==> pairs_size(
                #[trigger] table_blocks(ps, block_size)[i],
            ) + 4 >= block_size,
        forall|i: int|
            0 <= i < table_blocks(ps, block_size).len() && table_blocks(ps, block_size)[i].len() > 1
                ==> pairs_size((#[trigger] table_blocks(ps, block_size)[i]).drop_last()) + 4
                < block_size,
{
    lemma_chunks(ps, block_size);
    lemma_filled(ps, block_size);
    let (full, open) = chunks(ps, block_size);
    if open.len() > 0 {
        assert(full.push(open).drop_last() =~= full);
    }
}

proof fn lemma_filled(ps: Seq<Pair>, block_size: nat)
    ensures
        ({
            let (full, open) = chunks(ps, block_size);
            &&& forall|i: int|
                0 <= i < full.len() ==> pairs_size(#[trigger] full[i]) + 4 >= block_size
            &&& forall|i: int|
                0 <= i < full.len() && full[i].len() > 1 ==> pairs_size(
                    (#[trigger] full[i]).drop_last(),
                ) + 4 < block_size
            &&& open.len() > 0 ==> pairs_size(open) + 4 < block_size
            &&& open.len() > 1 ==> pairs_size(open.drop_last()) + 4 < block_size
        }),
    decreases ps.len(),
{
    if ps.len() > 0 {
        lemma_filled(ps.drop_last(), block_size);
        let (full, open) = chunks(ps.drop_last(), block_size);
        assert(open.push(ps.last()).drop_last() =~= open);
    }
}

/// The size of a memory table is that of its keys and values.
pub proof fn law_sizes_add_up(ps: Seq<Pair>, k: Seq<u8>, value: Option<Seq<u8>>)
    ensures
        content_size(ps.push((k, value))) == content_size(ps) + k.len() + match value {
            Some(v) => v.len(),
            None => 0,
        },
        content_size(Seq::empty()) == 0,
{
    assert(ps.push((k, value)).drop_last() =~= ps);
}

/// A memory table is full exactly where its keys and values together reach its
/// limit.
pub proof fn law_memory_tables_fill_up<F: Fn(usize) -> BloomSize>(tree: LsmTree<F>)
    requires
        content_size(tree.memory().pairs()) <= usize::MAX,
    ensures
        tree.full() <==> tree.memory().limit() <= content_size(tree.memory().pairs()),
{
}

/// Strict reading gives the same records as reading that stops at damage, where it
/// finds none.
pub proof fn law_strict_reading_agrees(bytes: Seq<u8>)
    ensures
        strict_records(bytes) matches Ok(records) ==> valid_records(bytes) == records,
    decreases bytes.len(),
{
    if let Ok(Some((data, rest))) = decode_record(bytes) {
        if rest.len() < bytes.len() {
            law_strict_reading_agrees(rest);
        }
    }
}

/// A damaged record is never passed over by strict reading: where the front of the
/// bytes is damaged, the whole is refused with the same reason.
pub proof fn law_strict_reading_finds_damage(bytes: Seq<u8>)
    ensures
        decode_record(bytes) matches Err(e) ==> strict_records(bytes) == Err::<
            Seq<Seq<u8>>,
            Seq<char>,
        >(e) && valid_records(bytes).len() == 0,
{
}

} // verus!
