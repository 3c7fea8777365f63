//! Leveled compaction: merging the tables of a level into the next one.

use vstd::prelude::*;
use crate::bytes::{
    copy, lemma_lex_asymmetric, lemma_lex_irreflexive, lemma_lex_total, lex_le, lex_lt, precedes,
};
use crate::error::Error;
use crate::storage::bits::max_bits;
use crate::storage::block::{all_storable, pairs_size, storable};
use crate::storage::bloom::BloomSize;
use crate::storage::layers::{lemma_overlay_push, overlay};
use crate::storage::manifest::{
    contains_id, level_view, sst_name, with_entry, without, EntryView, Manifest, SSTableEntry,
};
use crate::storage::run::{
    drop_tombstones, key_index, layer, lemma_layer_at, lemma_layer_determines, lemma_layer_empty,
    live_part, merge, pairs, sorted, BlockEntry, Layer, Pair,
};
use crate::storage::sstable::{serves, SSTableInfo, SSTableReader, SSTableWriter};
use crate::storage::table_format::{
    chunks, lemma_first_fit, table_blocks, table_entries, table_fits,
};

verus! {

/// When a level is compacted, and how large the blocks of new tables are.
#[derive(Debug, Clone, Copy)]
pub struct CompactionConfig {
    /// The number of tables at level 0 that calls for a compaction.
    pub l0_compaction_trigger: usize,
    /// How many times as many tables each level may have as the one before.
    pub level_size_ratio: usize,
    /// The size that completes a block.
    pub block_size: usize,
}

impl Default for CompactionConfig {
    fn default() -> (r: Self)
        ensures
            r.l0_compaction_trigger == 4,
            r.level_size_ratio == 10,
            r.block_size == 4096,
    {
        CompactionConfig { l0_compaction_trigger: 4, level_size_ratio: 10, block_size: 4096 }
    }
}

/// A table file that is open for reading, with its entry in the manifest.
#[derive(Debug)]
pub struct OpenTable {
    pub entry: SSTableEntry,
    pub reader: SSTableReader,
}

impl OpenTable {
    /// The entries of the table.
    pub open spec fn run(&self) -> Seq<Pair> {
        match table_entries(self.reader.data(), self.reader.index()) {
            Ok(ps) => ps,
            Err(_) => Seq::empty(),
        }
    }

    /// The table serves its entries, which are in key order.
    pub open spec fn readable(&self) -> bool {
        &&& self.reader.well_formed()
        &&& serves(self.reader.data(), self.run())
        &&& sorted(self.run())
        &&& all_storable(self.run())
    }
}

/// What each of a row of tables says.
pub open spec fn layers_of(tables: Seq<OpenTable>) -> Seq<Layer> {
    Seq::new(tables.len(), |i: int| layer(tables[i].run()))
}

/// Every table of a row serves its entries.
pub open spec fn all_readable(tables: Seq<OpenTable>) -> bool {
    forall|i: int| 0 <= i < tables.len() ==> (#[trigger] tables[i]).readable()
}

/// The tables whose numbers are among `ids`.
pub open spec fn picked(tables: Seq<OpenTable>, ids: Seq<u64>) -> Seq<OpenTable> {
    tables.filter(|t: OpenTable| ids.contains(t.entry.id))
}

/// `base` to the power of `n`.
pub open spec fn int_pow(base: nat, n: nat) -> nat
    decreases n,
{
    if n == 0 {
        1
    } else {
        base * int_pow(base, (n - 1) as nat)
    }
}

/// A level other than the first has more tables than it may have.
pub open spec fn overfull(config: CompactionConfig, levels: Seq<Seq<EntryView>>, level: int) -> bool {
    levels[level].len() > config.l0_compaction_trigger * int_pow(
        config.level_size_ratio as nat,
        level as nat,
    )
}

/// The first of the levels from `from` on that has more tables than it may have.
/// The last level may have any number.
pub open spec fn first_overfull(
    config: CompactionConfig,
    levels: Seq<Seq<EntryView>>,
    from: int,
) -> Option<int>
    decreases levels.len() - from,
{
    if from >= levels.len() - 1 {
        None
    } else if overfull(config, levels, from) {
        Some(from)
    } else {
        first_overfull(config, levels, from + 1)
    }
}

/// The level to be compacted, if any.
pub open spec fn due_level(config: CompactionConfig, levels: Seq<Seq<EntryView>>) -> Option<int> {
    if levels[0].len() >= config.l0_compaction_trigger {
        Some(0)
    } else {
        first_overfull(config, levels, 1)
    }
}

/// No level before the first overfull one is overfull, and none at all where
/// there is none.
pub proof fn lemma_first_overfull(
    config: CompactionConfig,
    levels: Seq<Seq<EntryView>>,
    from: int,
    found: Option<int>,
)
    requires
        match found {
            Some(l) => from <= l < levels.len() - 1 && overfull(config, levels, l),
            None => true,
        },
        forall|l: int|
            from <= l < levels.len() - 1 && (found matches Some(f) ==> l < f) ==> !#[trigger] overfull(
                config,
                levels,
                l,
            ),
    ensures
        first_overfull(config, levels, from) == found,
    decreases levels.len() - from,
{
    if from < levels.len() - 1 && !overfull(config, levels, from) {
        lemma_first_overfull(config, levels, from + 1, found);
    }
}

/// The entries of a level, which is empty where it is missing.
pub open spec fn level_of(levels: Seq<Seq<EntryView>>, level: int) -> Seq<EntryView> {
    if level < levels.len() {
        levels[level]
    } else {
        Seq::empty()
    }
}

/// A table reaches into the key range that the tables of `sources` span.
pub open spec fn overlaps(e: EntryView, sources: Seq<EntryView>) -> bool {
    &&& exists|i: int| 0 <= i < sources.len() && lex_le(e.min_key, (#[trigger] sources[i]).max_key)
    &&& exists|i: int| 0 <= i < sources.len() && lex_le((#[trigger] sources[i]).min_key, e.max_key)
}

/// The tables that a compaction of `level` merges: those of the level, and
/// those of the next level that reach into their key range.
pub open spec fn inputs(levels: Seq<Seq<EntryView>>, level: int) -> Seq<EntryView> {
    let sources = level_of(levels, level);
    sources + level_of(levels, level + 1).filter(|e: EntryView| overlaps(e, sources))
}

/// The numbers of entries.
pub open spec fn ids_of(entries: Seq<EntryView>) -> Seq<u64> {
    Seq::new(entries.len(), |i: int| entries[i].id)
}

/// The bytes of a table file that is to be stored.
#[derive(Debug)]
pub struct TableFile {
    pub name: String,
    pub data: Vec<u8>,
}

/// What a compaction did.
#[derive(Debug)]
pub struct CompactionResult {
    /// The numbers of the tables that were merged.
    pub removed_ids: Vec<u64>,
    /// The table that replaces them, if any entry is left.
    pub new_entries: Vec<SSTableEntry>,
    /// The file of that table.
    pub new_files: Vec<TableFile>,
    /// The files that are to be deleted.
    pub removed_files: Vec<String>,
}

/// What is left of merged layers: at the deepest level, only what has values.
pub open spec fn compacted_layer(merged: Layer, deepest: bool) -> Layer {
    if deepest {
        live_part(merged)
    } else {
        merged
    }
}

/// Numbers and names of entries, as a result lists them.
pub open spec fn names_of(entries: Seq<EntryView>) -> Seq<Seq<char>> {
    Seq::new(entries.len(), |i: int| entries[i].file_name)
}

pub open spec fn strings_view(names: Seq<String>) -> Seq<Seq<char>> {
    Seq::new(names.len(), |i: int| names[i]@)
}

/// A size for every number of entries that a filter can have.
pub open spec fn sizes_filters<F: Fn(usize) -> BloomSize>(sizing: F) -> bool {
    &&& forall|n: usize| #[trigger] sizing.requires((n,))
    &&& forall|n: usize, s: BloomSize| #[trigger]
        sizing.ensures((n,), s) ==> s.num_bits <= max_bits() - 7
}

/// Writes a sorted run into a table file.
pub fn write_table<F: Fn(usize) -> BloomSize>(
    path: String,
    block_size: usize,
    entries: &Vec<BlockEntry>,
    sizing: &F,
) -> (r: (SSTableInfo, Vec<u8>))
    requires
        table_fits(pairs(entries@), block_size as nat),
        all_storable(pairs(entries@)),
        sizes_filters(*sizing),
    ensures
        r.0.path@ == path@,
        r.0.entry_count == entries@.len(),
        r.0.file_size == r.1@.len(),
        serves(r.1@, pairs(entries@)),
{
    let expected: usize = if entries.len() < 1 {
        1
    } else {
        entries.len()
    };
    let size: BloomSize = sizing(expected);
    let ghost ps = pairs(entries@);
    let mut writer: SSTableWriter = SSTableWriter::new(path, block_size, size);
    let mut i: usize = 0;
    assert(ps.take(0) =~= Seq::<Pair>::empty());
    while i < entries.len()
        invariant
            i <= entries.len(),
            ps == pairs(entries@),
            table_fits(ps, block_size as nat),
            writer.block_size() == block_size,
            all_storable(ps),
            writer.well_formed(),
            writer.added() == ps.take(i as int),
            writer.path_view() == path@,
        decreases entries.len() - i,
    {
        assert(storable(ps[i as int]));
        proof {
            lemma_first_fit(ps, block_size as nat, i + 1);
            assert(ps.take(i + 1) =~= ps.take(i as int).push(ps[i as int]));
        }
        match &entries[i].value {
            Some(v) => writer.add(entries[i].key.as_slice(), Some(v.as_slice())),
            None => writer.add(entries[i].key.as_slice(), None),
        }
        i += 1;
    }
    assert(ps.take(i as int) =~= ps);
    writer.finish()
}

/// No block has more entries than its count can say.
pub open spec fn all_short(blocks: Seq<Seq<Pair>>) -> bool {
    forall|i: int| 0 <= i < blocks.len() ==> (#[trigger] blocks[i]).len() <= u32::MAX
}

proof fn lemma_short_push(blocks: Seq<Seq<Pair>>, last: Seq<Pair>)
    ensures
        all_short(blocks.push(last)) == (all_short(blocks) && last.len() <= u32::MAX),
{
    let all = blocks.push(last);
    assert(all[blocks.len() as int] == last);
    if all_short(all) {
        assert forall|i: int| 0 <= i < blocks.len() implies (#[trigger] blocks[i]).len()
            <= u32::MAX by {
            assert(all[i] == blocks[i]);
        }
    }
}

/// Whether entries fit one table file.
pub fn fits_table(entries: &Vec<BlockEntry>, block_size: usize) -> (r: bool)
    ensures
        r == table_fits(pairs(entries@), block_size as nat),
{
    let ghost ps = pairs(entries@);
    let mut blocks: usize = 0;
    let mut short: bool = true;
    let mut open: usize = 0;
    let mut open_size: u128 = 0;
    let mut i: usize = 0;
    assert(ps.take(0) =~= Seq::<Pair>::empty());
    while i < entries.len()
        invariant
            i <= entries.len(),
            ps == pairs(entries@),
            blocks == chunks(ps.take(i as int), block_size as nat).0.len(),
            blocks <= i,
            open == chunks(ps.take(i as int), block_size as nat).1.len(),
            open <= i,
            open_size == pairs_size(chunks(ps.take(i as int), block_size as nat).1),
            open_size <= block_size,
            short == all_short(chunks(ps.take(i as int), block_size as nat).0),
        decreases entries.len() - i,
    {
        let ghost (full, rest) = chunks(ps.take(i as int), block_size as nat);
        let ghost grown = rest.push(ps[i as int]);
        proof {
            assert(ps.take(i + 1).drop_last() =~= ps.take(i as int));
            assert(ps.take(i + 1).last() == ps[i as int]);
            assert(grown.drop_last() =~= rest);
            assert(ps[i as int] == entries@[i as int]@);
        }
        let value_len: usize = match &entries[i].value {
            Some(v) => v.len(),
            None => 0,
        };
        let size: u128 = open_size + 8 + entries[i].key.len() as u128 + value_len as u128;
        assert(size == pairs_size(grown));
        if size + 4 >= block_size as u128 {
            assert(chunks(ps.take(i + 1), block_size as nat) == (
                full.push(grown),
                Seq::<Pair>::empty(),
            ));
            let fits: bool = open < u32::MAX as usize;
            proof {
                lemma_short_push(full, grown);
            }
            short = short && fits;
            blocks += 1;
            open = 0;
            open_size = 0;
        } else {
            assert(chunks(ps.take(i + 1), block_size as nat) == (full, grown));
            open += 1;
            open_size = size;
        }
        i += 1;
    }
    assert(ps.take(i as int) =~= ps);
    proof {
        let (full, rest) = chunks(ps, block_size as nat);
        lemma_short_push(full, rest);
        assert(table_fits(ps, block_size as nat) == (table_blocks(ps, block_size as nat).len()
            <= u32::MAX && all_short(table_blocks(ps, block_size as nat))));
    }
    let last: u64 = if open > 0 {
        1
    } else {
        0
    };
    short && open <= u32::MAX as usize && (blocks as u128 + last as u128) <= u32::MAX as u128
}

/// What a layer says fits one table file.
pub open spec fn layer_fits(m: Layer, block_size: nat) -> bool {
    exists|ps: Seq<Pair>| sorted(ps) && layer(ps) == m && #[trigger] table_fits(ps, block_size)
}

/// Whether a layer fits one table file is decided by the run that spells it out.
pub proof fn lemma_layer_fits(ps: Seq<Pair>, block_size: nat)
    requires
        sorted(ps),
    ensures
        layer_fits(layer(ps), block_size) == table_fits(ps, block_size),
{
    if layer_fits(layer(ps), block_size) {
        let qs = choose|qs: Seq<Pair>|
            sorted(qs) && layer(qs) == layer(ps) && #[trigger] table_fits(qs, block_size);
        lemma_layer_determines(ps, qs);
    }
}

/// How a compaction of `level` changes the manifest, and what it returns: the
/// manifest is given as its levels and the number of the next file. Where what
/// is merged does not fit one table file, nothing changes.
pub open spec fn compaction_effect(
    before: (Seq<Seq<EntryView>>, u64),
    tables: Seq<OpenTable>,
    level: usize,
    block_size: nat,
    after: (Seq<Seq<EntryView>>, u64),
    r: Result<CompactionResult, Error>,
) -> bool {
    let levels = before.0;
    let ins = inputs(levels, level as int);
    let ids = ids_of(ins);
    let merged = overlay(layers_of(picked(tables, ids)));
    let deepest = level + 1 >= levels.len() - 1;
    let kept = compacted_layer(merged, deepest);
    if level_of(levels, level as int).len() == 0 {
        &&& after.0 == levels
        &&& after.1 == before.1
        &&& r matches Ok(c) && unchanged(c)
    } else if !all_open(tables, ins) {
        &&& after.0 == levels
        &&& after.1 == before.1
        &&& r matches Err(Error::Storage(_))
    } else if !layer_fits(kept, block_size) {
        &&& after.0 == levels
        &&& after.1 == before.1
        &&& r matches Ok(c) && unchanged(c)
    } else {
        &&& r matches Ok(c)
        &&& c.removed_ids@ == ids
        &&& if kept.dom().is_empty() {
            &&& c.new_entries@.len() == 0
            &&& c.new_files@.len() == 0
            &&& c.removed_files@.len() == 0
            &&& after.0 == without_ids(levels, ids)
            &&& after.1 == before.1 + if merged.dom().is_empty() {
                0int
            } else {
                1
            }
        } else {
            &&& c.new_entries@.len() == 1
            &&& c.new_files@.len() == 1
            &&& strings_view(c.removed_files@) == names_of(ins)
            &&& after.0 == with_entry(without_ids(levels, ids), c.new_entries@[0]@)
            &&& after.1 == before.1 + 1
            &&& stores_layer(
                c.new_entries@[0]@,
                c.new_files@[0],
                before.1,
                (level + 1) as usize,
                kept,
            )
        }
    }
}

/// The tables of all entries are open.
pub open spec fn all_open(tables: Seq<OpenTable>, entries: Seq<EntryView>) -> bool {
    forall|i: int| 0 <= i < entries.len() ==> has_table(tables, #[trigger] entries[i])
}

/// A file and its entry store a run that spells out the layer `m`.
pub open spec fn stores_layer(
    e: EntryView,
    file: TableFile,
    id: u64,
    level: usize,
    m: Layer,
) -> bool {
    exists|ps: Seq<Pair>| #[trigger] stores_run(e, file, id, level, ps) && layer(ps) == m
}

/// Merges tables into the next level.
#[derive(Debug, Clone, Copy)]
pub struct LeveledCompaction {
    pub config: CompactionConfig,
}

impl LeveledCompaction {
    pub fn new(config: CompactionConfig) -> (r: Self)
        ensures
            r.config == config,
    {
        LeveledCompaction { config }
    }

    /// The level to be compacted, if any: the first where it has reached its
    /// trigger, else the first that has more tables than it may have. The last
    /// level is never compacted.
    pub fn needs_compaction(&self, manifest: &Manifest) -> (r: Option<usize>)
        requires
            manifest@.len() > 0,
        ensures
            match r {
                Some(level) => if level == 0 {
                    manifest@[0].len() >= self.config.l0_compaction_trigger
                } else {
                    &&& manifest@[0].len() < self.config.l0_compaction_trigger
                    &&& level < manifest@.len() - 1
                    &&& overfull(self.config, manifest@, level as int)
                    &&& forall|l: int|
                        1 <= l < level ==> !#[trigger] overfull(self.config, manifest@, l)
                },
                None => {
                    &&& manifest@[0].len() < self.config.l0_compaction_trigger
                    &&& forall|l: int|
                        1 <= l < manifest@.len() - 1 ==> !#[trigger] overfull(
                            self.config,
                            manifest@,
                            l,
                        )
                },
            },
    {
        if manifest.level_count(0) >= self.config.l0_compaction_trigger {
            return Some(0);
        }
        let last: usize = manifest.num_levels() - 1;
        let mut level: usize = 1;
        let mut factor: Option<usize> = Some(self.config.level_size_ratio);
        proof {
            reveal_with_fuel(int_pow, 2);
            assert(int_pow(self.config.level_size_ratio as nat, 1)
                == self.config.level_size_ratio * 1);
        }
        while level < last
            invariant
                1 <= level,
                last == manifest@.len() - 1,
                manifest@[0].len() < self.config.l0_compaction_trigger,
                factor matches Some(f) ==> f == int_pow(
                    self.config.level_size_ratio as nat,
                    level as nat,
                ),
                factor is None ==> int_pow(self.config.level_size_ratio as nat, level as nat)
                    > usize::MAX,
                forall|l: int| 1 <= l < level ==> !#[trigger] overfull(self.config, manifest@, l),
            decreases last - level,
        {
            let count: usize = manifest.level_count(level);
            let trigger: usize = self.config.l0_compaction_trigger;
            let exceeded: bool = match factor {
                Some(f) => match trigger.checked_mul(f) {
                    Some(target) => count > target,
                    None => false,
                },
                None => trigger == 0 && count > 0,
            };
            proof {
                let p = int_pow(self.config.level_size_ratio as nat, level as nat);
                if factor is None && trigger > 0 {
                    assert(trigger * p >= p) by (nonlinear_arith)
                        requires
                            trigger > 0,
                    ;
                }
                assert(trigger == 0 ==> trigger * p == 0);
                assert(exceeded == overfull(self.config, manifest@, level as int));
            }
            if exceeded {
                return Some(level);
            }
            let ratio: usize = self.config.level_size_ratio;
            let ghost p = int_pow(ratio as nat, level as nat);
            let next: Option<usize> = match factor {
                Some(f) => ratio.checked_mul(f),
                None => None,
            };
            proof {
                assert(int_pow(ratio as nat, (level + 1) as nat) == ratio * p);
                if factor is None {
                    lemma_ratio_positive(ratio as nat, level as nat);
                    assert(ratio * p >= p) by (nonlinear_arith)
                        requires
                            ratio > 0,
                    ;
                }
            }
            factor = next;
            level += 1;
        }
        None
    }

    /// Merges the tables of `level`, and those of the next level that reach
    /// into their key range, into one table of the next level.
    ///
    /// Of a key that several tables have, the value of the one that comes first
    /// in `tables` stays: they are to be given in the order in which they are
    /// searched, the newest of a level first. At the deepest level tombstones
    /// are dropped.
    pub fn compact<F: Fn(usize) -> BloomSize>(
        &self,
        manifest: &mut Manifest,
        tables: &Vec<OpenTable>,
        level: usize,
        sizing: &F,
    ) -> (r: Result<CompactionResult, Error>)
        requires
            old(manifest)@.len() > 0,
            old(manifest).next_sst_id < u64::MAX,
            level + 1 < usize::MAX,
            all_readable(tables@),
            sizes_filters(*sizing),
        ensures
            compaction_effect(
                (old(manifest)@, old(manifest).next_sst_id),
                tables@,
                level,
                self.config.block_size as nat,
                (final(manifest)@, final(manifest).next_sst_id),
                r,
            ),
    {
        let target_level: usize = level + 1;
        let ghost levels = manifest@;
        let ghost ins = inputs(levels, level as int);
        let ghost ids = ids_of(ins);
        let entries: Vec<SSTableEntry> = self.pick_inputs(manifest, level);
        let sources_empty: bool = manifest.level_count(level) == 0;
        if sources_empty {
            return Ok(
                CompactionResult {
                    removed_ids: Vec::new(),
                    new_entries: Vec::new(),
                    new_files: Vec::new(),
                    removed_files: Vec::new(),
                },
            );
        }
        let mut old_ids: Vec<u64> = Vec::new();
        let mut i: usize = 0;
        while i < entries.len()
            invariant
                i <= entries.len(),
                level_view(entries@) == ins,
                old_ids.len() == i,
                forall|j: int| 0 <= j < i ==> old_ids@[j] == ins[j].id,
                forall|j: int| 0 <= j < i ==> has_table(tables@, #[trigger] ins[j]),
                manifest@ == levels,
                manifest.next_sst_id == old(manifest).next_sst_id,
                levels == old(manifest)@,
                ins == inputs(levels, level as int),
                level_of(levels, level as int).len() > 0,
            decreases entries.len() - i,
        {
            assert(ins[i as int] == entries@[i as int]@);
            if !Self::is_open(tables, entries[i].id) {
                return Err(Error::Storage(entries[i].file_name.clone()));
            }
            old_ids.push(entries[i].id);
            i += 1;
        }
        assert(old_ids@ =~= ids);
        let merged: Vec<BlockEntry> = match Self::merge_tables(tables, &old_ids) {
            Ok(m) => m,
            Err(e) => {
                return Err(e);
            },
        };
        let is_deepest: bool = target_level >= manifest.num_levels() - 1;
        let ghost merged_layer = layer(pairs(merged@));
        if merged.is_empty() {
            proof {
                lemma_layer_empty(pairs(merged@));
                assert(live_part(merged_layer) =~= Layer::empty());
                assert(table_fits(pairs(merged@), self.config.block_size as nat));
                lemma_layer_fits(pairs(merged@), self.config.block_size as nat);
            }
            manifest.remove_sstables(old_ids.as_slice());
            return Ok(
                CompactionResult {
                    removed_ids: old_ids,
                    new_entries: Vec::new(),
                    new_files: Vec::new(),
                    removed_files: Vec::new(),
                },
            );
        }
        proof {
            lemma_layer_at(pairs(merged@), 0);
            assert(merged_layer.dom().contains(pairs(merged@)[0].0));
        }
        let kept: Vec<BlockEntry> = if is_deepest {
            drop_tombstones(&merged)
        } else {
            merged
        };
        let ghost ps = pairs(kept@);
        proof {
            lemma_layer_fits(ps, self.config.block_size as nat);
        }
        if !fits_table(&kept, self.config.block_size) {
            return Ok(
                CompactionResult {
                    removed_ids: Vec::new(),
                    new_entries: Vec::new(),
                    new_files: Vec::new(),
                    removed_files: Vec::new(),
                },
            );
        }
        let (sst_id, sst_name) = manifest.next_sst_filename();
        if kept.is_empty() {
            proof {
                lemma_layer_empty(ps);
            }
            manifest.remove_sstables(old_ids.as_slice());
            return Ok(
                CompactionResult {
                    removed_ids: old_ids,
                    new_entries: Vec::new(),
                    new_files: Vec::new(),
                    removed_files: Vec::new(),
                },
            );
        }
        proof {
            lemma_layer_at(ps, 0);
            assert(layer(ps).dom().contains(ps[0].0));
            lemma_storable_layer(ps, merged_layer);
        }
        let file_name: String = sst_name.clone();
        let (info, data) = write_table(sst_name, self.config.block_size, &kept, sizing);
        let new_entry = SSTableEntry {
            id: sst_id,
            level: target_level,
            file_name: file_name.clone(),
            min_key: copy(kept[0].key.as_slice()),
            max_key: copy(kept[kept.len() - 1].key.as_slice()),
            entry_count: info.entry_count,
            file_size: info.file_size,
        };
        manifest.remove_sstables(old_ids.as_slice());
        assert(manifest@ =~= without_ids(levels, ids));
        manifest.add_sstable(new_entry.copied());
        let mut new_entries: Vec<SSTableEntry> = Vec::new();
        new_entries.push(new_entry);
        let removed_files: Vec<String> = file_names(&entries);
        let mut new_files: Vec<TableFile> = Vec::new();
        new_files.push(TableFile { name: file_name, data });
        proof {
            assert(manifest@ == with_entry(without_ids(levels, ids), new_entries@[0]@));
            assert(layer(ps) == compacted_layer(
                overlay(layers_of(picked(tables@, ids))),
                level + 1 >= levels.len() - 1,
            ));
            assert(stores_run(
                new_entries@[0]@,
                new_files@[0],
                old(manifest).next_sst_id,
                (level + 1) as usize,
                ps,
            ));
        }
        let result = CompactionResult { removed_ids: old_ids, new_entries, new_files, removed_files };
        proof {
            let c = result;
            let merged = overlay(layers_of(picked(tables@, ids)));
            let kept_layer = compacted_layer(merged, level + 1 >= levels.len() - 1);
            assert(!kept_layer.dom().is_empty());
            assert(c.removed_ids@ == ids);
            assert(strings_view(c.removed_files@) == names_of(ins));
            assert(manifest.next_sst_id == old(manifest).next_sst_id + 1);
            assert(all_open(tables@, ins));
            assert(layer(ps) == kept_layer);
            assert(stores_layer(
                c.new_entries@[0]@,
                c.new_files@[0],
                old(manifest).next_sst_id,
                (level + 1) as usize,
                kept_layer,
            ));
            assert(compaction_effect(
                (levels, old(manifest).next_sst_id),
                tables@,
                level,
                self.config.block_size as nat,
                (manifest@, manifest.next_sst_id),
                Ok(c),
            ));
        }
        Ok(result)
    }

    /// The entries of the tables that a compaction of `level` merges.
    fn pick_inputs(&self, manifest: &Manifest, level: usize) -> (r: Vec<SSTableEntry>)
        requires
            level < usize::MAX,
        ensures
            level_view(r@) == inputs(manifest@, level as int),
    {
        let sources: &[SSTableEntry] = manifest.level(level);
        let targets: &[SSTableEntry] = manifest.level(level + 1);
        let ghost src = level_view(sources@);
        let ghost all = level_view(targets@);
        let ghost keep = |e: EntryView| overlaps(e, src);
        let mut out: Vec<SSTableEntry> = Vec::new();
        let mut i: usize = 0;
        while i < sources.len()
            invariant
                i <= sources.len(),
                src == level_view(sources@),
                level_view(out@) == src.take(i as int),
            decreases sources.len() - i,
        {
            let ghost before = level_view(out@);
            out.push(sources[i].copied());
            assert(level_view(out@) =~= before.push(src[i as int]));
            assert(src.take(i + 1) =~= src.take(i as int).push(src[i as int]));
            i += 1;
        }
        assert(src.take(i as int) =~= src);
        let mut j: usize = 0;
        proof {
            reveal(Seq::filter);
            assert(src + all.take(0).filter(keep) =~= src);
        }
        while j < targets.len()
            invariant
                j <= targets.len(),
                src == level_view(sources@),
                all == level_view(targets@),
                keep == (|e: EntryView| overlaps(e, src)),
                level_view(out@) == src + all.take(j as int).filter(keep),
            decreases targets.len() - j,
        {
            let ghost before = level_view(out@);
            let ghost e = all[j as int];
            proof {
                reveal(Seq::filter);
                assert(all.take(j + 1).drop_last() =~= all.take(j as int));
                assert(all.take(j + 1).last() == e);
            }
            if Self::reaches_into(&targets[j], sources) {
                out.push(targets[j].copied());
                assert(level_view(out@) =~= before.push(e));
                assert(src + all.take(j as int).filter(keep).push(e) =~= before.push(e));
            }
            j += 1;
        }
        assert(all.take(j as int) =~= all);
        out
    }

    /// Whether a table reaches into the key range of others.
    fn reaches_into(entry: &SSTableEntry, sources: &[SSTableEntry]) -> (r: bool)
        ensures
            r == overlaps(entry@, level_view(sources@)),
    {
        let ghost src = level_view(sources@);
        let mut below: bool = false;
        let mut above: bool = false;
        let mut i: usize = 0;
        while i < sources.len()
            invariant
                i <= sources.len(),
                src == level_view(sources@),
                below == exists|j: int|
                    0 <= j < i && lex_le(entry@.min_key, (#[trigger] src[j]).max_key),
                above == exists|j: int|
                    0 <= j < i && lex_le((#[trigger] src[j]).min_key, entry@.max_key),
            decreases sources.len() - i,
        {
            assert(src[i as int] == sources@[i as int]@);
            if at_most(entry.min_key.as_slice(), sources[i].max_key.as_slice()) {
                below = true;
            }
            if at_most(sources[i].min_key.as_slice(), entry.max_key.as_slice()) {
                above = true;
            }
            i += 1;
        }
        below && above
    }

    /// Whether a table with the number `id` is open.
    fn is_open(tables: &Vec<OpenTable>, id: u64) -> (r: bool)
        ensures
            r == exists|i: int| 0 <= i < tables@.len() && (#[trigger] tables@[i]).entry.id == id,
    {
        let mut i: usize = 0;
        while i < tables.len()
            invariant
                i <= tables.len(),
                forall|j: int| 0 <= j < i ==> (#[trigger] tables@[j]).entry.id != id,
            decreases tables.len() - i,
        {
            if tables[i].entry.id == id {
                return true;
            }
            i += 1;
        }
        false
    }

    /// Merges the tables with the given numbers; the first that has a key
    /// decides on its value.
    fn merge_tables(tables: &Vec<OpenTable>, ids: &Vec<u64>) -> (r: Result<Vec<BlockEntry>, Error>)
        requires
            all_readable(tables@),
        ensures
            r matches Ok(v) && {
                &&& sorted(pairs(v@))
                &&& layer(pairs(v@)) == overlay(layers_of(picked(tables@, ids@)))
                &&& layer_storable(layer(pairs(v@)))
            },
    {
        let ghost ts = tables@;
        let ghost keep = |t: OpenTable| ids@.contains(t.entry.id);
        let mut merged: Vec<BlockEntry> = Vec::new();
        let mut i: usize = 0;
        proof {
            reveal(Seq::filter);
            assert(ts.take(0).filter(keep) =~= Seq::<OpenTable>::empty());
            lemma_layer_empty(pairs(merged@));
            assert(overlay(layers_of(Seq::<OpenTable>::empty())) =~= Layer::empty());
        }
        while i < tables.len()
            invariant
                i <= tables.len(),
                ts == tables@,
                keep == (|t: OpenTable| ids@.contains(t.entry.id)),
                all_readable(ts),
                sorted(pairs(merged@)),
                layer(pairs(merged@)) == overlay(layers_of(ts.take(i as int).filter(keep))),
                layer_storable(layer(pairs(merged@))),
            decreases tables.len() - i,
        {
            let ghost so_far = ts.take(i as int).filter(keep);
            let ghost t = ts[i as int];
            proof {
                reveal(Seq::filter);
                assert(ts.take(i + 1).drop_last() =~= ts.take(i as int));
                assert(ts.take(i + 1).last() == t);
                assert(t.readable());
            }
            if contains_id(ids.as_slice(), tables[i].entry.id) {
                let entries: Vec<BlockEntry> = match tables[i].reader.iter() {
                    Ok(e) => e,
                    Err(e) => {
                        return Err(e);
                    },
                };
                proof {
                    assert(pairs(entries@) == t.run());
                    lemma_overlay_push(layers_of(so_far), layer(t.run()));
                    assert(layers_of(so_far.push(t)) =~= layers_of(so_far).push(layer(t.run())));
                    assert(so_far.push(t).drop_last() =~= so_far);
                    lemma_run_storable(t.run());
                }
                merged = merge(&merged, &entries);
            }
            i += 1;
        }
        assert(ts.take(i as int) =~= ts);
        Ok(merged)
    }
}

/// A compaction that did nothing.
pub open spec fn unchanged(c: CompactionResult) -> bool {
    &&& c.removed_ids@.len() == 0
    &&& c.new_entries@.len() == 0
    &&& c.new_files@.len() == 0
    &&& c.removed_files@.len() == 0
}

/// A table with the number of the entry is open.
pub open spec fn has_table(tables: Seq<OpenTable>, e: EntryView) -> bool {
    exists|i: int| 0 <= i < tables.len() && (#[trigger] tables[i]).entry.id == e.id
}

/// The levels without the entries with the given numbers.
pub open spec fn without_ids(levels: Seq<Seq<EntryView>>, ids: Seq<u64>) -> Seq<Seq<EntryView>> {
    Seq::new(levels.len(), |i: int| without(levels[i], ids))
}

/// The entry of a table with the number `id` that holds the run `ps`.
pub open spec fn describes(
    e: EntryView,
    id: u64,
    level: usize,
    ps: Seq<Pair>,
    file_size: nat,
) -> bool {
    &&& ps.len() > 0
    &&& e.id == id
    &&& e.level == level
    &&& e.file_name == sst_name(id)
    &&& e.min_key == ps[0].0
    &&& e.max_key == ps.last().0
    &&& e.entry_count == ps.len()
    &&& e.file_size == file_size
}

/// A file and its entry store the run `ps`.
pub open spec fn stores_run(
    e: EntryView,
    file: TableFile,
    id: u64,
    level: usize,
    ps: Seq<Pair>,
) -> bool {
    &&& file.name@ == e.file_name
    &&& serves(file.data@, ps)
    &&& sorted(ps)
    &&& all_storable(ps)
    &&& describes(e, id, level, ps, file.data@.len())
}

/// Every entry of a layer fits the fields of a table file.
pub open spec fn layer_storable(m: Layer) -> bool {
    forall|k: Seq<u8>| #[trigger] m.contains_key(k) ==> storable((k, m[k]))
}

/// The layer of a run fits where the run does.
pub proof fn lemma_run_storable(ps: Seq<Pair>)
    requires
        sorted(ps),
        all_storable(ps),
    ensures
        layer_storable(layer(ps)),
{
    assert forall|k: Seq<u8>| #[trigger] layer(ps).contains_key(k) implies storable(
        (k, layer(ps)[k]),
    ) by {
        let i = key_index(ps, k);
        lemma_layer_at(ps, i);
        assert(storable(ps[i]));
    }
}

/// A run fits where a layer does that says as much or more.
pub proof fn lemma_storable_layer(ps: Seq<Pair>, m: Layer)
    requires
        sorted(ps),
        layer_storable(m),
        layer(ps) == m || layer(ps) == live_part(m),
    ensures
        all_storable(ps),
{
    assert forall|i: int| 0 <= i < ps.len() implies storable(#[trigger] ps[i]) by {
        lemma_layer_at(ps, i);
        assert(m.contains_key(ps[i].0));
    }
}

fn at_most(a: &[u8], b: &[u8]) -> (r: bool)
    ensures
        r == lex_le(a@, b@),
{
    proof {
        lemma_lex_total(a@, b@);
        lemma_lex_irreflexive(a@);
        if lex_lt(a@, b@) {
            lemma_lex_asymmetric(a@, b@);
        }
    }
    !precedes(b, a)
}

fn file_names(entries: &Vec<SSTableEntry>) -> (r: Vec<String>)
    ensures
        strings_view(r@) == names_of(level_view(entries@)),
{
    let mut out: Vec<String> = Vec::new();
    let mut i: usize = 0;
    while i < entries.len()
        invariant
            i <= entries.len(),
            out.len() == i,
            forall|j: int| 0 <= j < i ==> (#[trigger] out@[j])@ == entries@[j]@.file_name,
        decreases entries.len() - i,
    {
        out.push(entries[i].file_name.clone());
        i += 1;
    }
    assert(strings_view(out@) =~= names_of(level_view(entries@)));
    out
}

/// A power that is not zero has a base that is not zero.
proof fn lemma_ratio_positive(base: nat, n: nat)
    requires
        n > 0,
        int_pow(base, n) > 0,
    ensures
        base > 0,
{
    if base == 0 {
        assert(base * int_pow(base, (n - 1) as nat) == 0) by (nonlinear_arith)
            requires
                base == 0,
        ;
    }
}

} // verus!
