//! The log-structured merge tree: a memory table over levels of table files,
//! with a log from which the memory table is restored.

use vstd::prelude::*;
use crate::bytes::{
    copy, lemma_lex_prefix, lemma_lex_total, lemma_lex_transitive, lex_le, lex_lt, precedes,
};
use crate::error::Error;
use crate::storage::block::{capped, storable};
use crate::storage::bloom::BloomSize;
use crate::storage::compaction::{
    all_open, compacted_layer, due_level, fits_table, ids_of, inputs, layer_fits, layer_storable,
    layers_of, lemma_first_overfull, lemma_storable_layer, level_of, names_of, overlaps, picked,
    sizes_filters, stores_run, strings_view, without_ids, write_table, CompactionConfig,
    CompactionResult, LeveledCompaction, OpenTable, TableFile,
};
use crate::storage::disk::{
    actions_view, apply, apply_all, lemma_apply_parts, lemma_apply_push, lemma_removals, removals,
    ActionView, DiskAction, DiskView,
};
use crate::storage::engine::{writable, StorageEngine};
use crate::storage::layers::{
    contents_of, find, lemma_overlay_push, lemma_overlay_range, lists_range, live, overlay,
    rows_view,
};
use crate::storage::manifest::{
    contains_id, law_names_differ, level_view, sst_name, with_entry, EntryView, Manifest,
    SSTableEntry,
};
use crate::storage::memtable::{content_size, MemTable};
use crate::storage::run::{
    in_range, key_index, layer, layer_range, lemma_layer_at, lemma_layer_empty, merge, pairs,
    select_range, sorted, BlockEntry, Layer, Pair,
};
use crate::storage::sstable::{serves, SSTableReader};
use crate::storage::stack::{
    all_within, entry_open, fresh_table, has_like, ids_differ, law_compaction_keeps_contents,
    lemma_compaction_sound, lemma_filter_contains, lemma_filter_ordered, lemma_flush_sound,
    lemma_has_like, lemma_reopened, lemma_run_bounds, lemma_same_rows, mentions, merged_ids,
    ordered, replaced, same_table, searched_before, sound_tables, table_listed,
};
use crate::storage::table_format::{decode_table, table_fits, TableParts};
use crate::storage::wal::{
    encode_record, encode_records, law_replay, record_data, valid_records, MAX_RECORD_SIZE,
    WalReader, WalRecord, WalWriter,
};
use crate::storage::wal_op::{
    encode_op, law_op_round_trip, lemma_replay_err, op_fits, op_size, replay, with_op, OpView,
    WalOp,
};

verus! {

/// The number of levels of a new tree.
pub const NUM_LEVELS: usize = 7;

/// How large the parts of a tree are.
#[derive(Debug, Clone, Copy)]
pub struct LsmConfig {
    pub memtable_size_limit: usize,
    pub block_size: usize,
    pub l0_compaction_trigger: usize,
    pub level_size_ratio: usize,
}

impl Default for LsmConfig {
    fn default() -> (r: Self)
        ensures
            r.memtable_size_limit == 4_194_304,
            r.block_size == 4096,
            r.l0_compaction_trigger == 4,
            r.level_size_ratio == 10,
    {
        LsmConfig {
            memtable_size_limit: 4_194_304,
            block_size: 4096,
            l0_compaction_trigger: 4,
            level_size_ratio: 10,
        }
    }
}

/// A log-structured merge tree.
///
/// Reads go to the memory table first and then to the tables in search order.
/// Writes go to the log and then to the memory table, which becomes a table of
/// level 0 when it is full.
pub struct LsmTree<F: Fn(usize) -> BloomSize> {
    memtable: MemTable,
    manifest: Manifest,
    wal: WalWriter,
    tables: Vec<OpenTable>,
    compaction: LeveledCompaction,
    config: LsmConfig,
    sizing: F,
    actions: Vec<DiskAction>,
}

/// Two stacks with the same topmost layer agree where the rest agrees.
proof fn lemma_same_contents(top: Layer, a: Seq<Layer>, b: Seq<Layer>)
    requires
        forall|k: Seq<u8>| live(#[trigger] find(a, k)) == live(find(b, k)),
    ensures
        contents_of(seq![top] + a) == contents_of(seq![top] + b),
{
    let x = seq![top] + a;
    let y = seq![top] + b;
    assert(x.drop_first() =~= a);
    assert(y.drop_first() =~= b);
    assert forall|k: Seq<u8>| live(#[trigger] find(x, k)) == live(find(y, k)) by {
        assert(live(find(a, k)) == live(find(b, k)));
    }
    assert(contents_of(x) =~= contents_of(y));
}

impl<F: Fn(usize) -> BloomSize> LsmTree<F> {
    /// What the parts of the tree say, the topmost first.
    pub closed spec fn layers(&self) -> Seq<Layer> {
        seq![self.memtable@] + layers_of(self.tables@)
    }

    /// The actions that the disk has yet to carry out.
    pub closed spec fn actions(&self) -> Seq<ActionView> {
        actions_view(self.actions@)
    }

    /// The disk holds what the tree needs to be restored: the manifest, the
    /// table files, and a log that restores the memory table.
    pub closed spec fn matches(&self, d: DiskView) -> bool {
        &&& manifest_matches(d.manifest, self.manifest@, self.manifest.next_sst_id)
        &&& files_match(d.files, self.tables@)
        &&& wal_holds(d.wal, self.memtable@)
    }

    /// Once its pending actions are carried out, the disk `d` holds what the
    /// tree needs to be restored.
    pub open spec fn recoverable(&self, d: DiskView) -> bool {
        self.matches(apply_all(d, self.actions()))
    }

    /// The invariant of a tree.
    closed spec fn inv(&self) -> bool {
        &&& self.memtable.well_formed()
        &&& self.memtable.limit() == self.config.memtable_size_limit
        &&& layer_storable(self.memtable@)
        &&& sound_tables(self.tables@, self.manifest@, self.manifest.next_sst_id)
        &&& self.compaction.config.block_size == self.config.block_size
        &&& sizes_filters(self.sizing)
        &&& self.wal.pending() == Seq::<u8>::empty()
    }

    /// Adds an action for the disk.
    fn act(&mut self, action: DiskAction)
        ensures
            final(self).actions() == old(self).actions().push(action@),
            final(self).memtable == old(self).memtable,
            final(self).manifest == old(self).manifest,
            final(self).wal == old(self).wal,
            final(self).tables == old(self).tables,
            final(self).compaction == old(self).compaction,
            final(self).config == old(self).config,
            final(self).sizing == old(self).sizing,
    {
        self.actions.push(action);
        assert(self.actions() =~= old(self).actions().push(action@));
    }

    /// Hands out the actions that the disk has to carry out, in order.
    pub fn take_actions(&mut self) -> (r: Vec<DiskAction>)
        requires
            old(self).sound(),
        ensures
            actions_view(r@) == old(self).actions(),
            final(self).actions() == Seq::<ActionView>::empty(),
            final(self).sound(),
            final(self).contents() == old(self).contents(),
            forall|d: DiskView| #[trigger]
                old(self).recoverable(d) ==> final(self).recoverable(
                    apply_all(d, actions_view(r@)),
                ),
    {
        let mut out: Vec<DiskAction> = Vec::new();
        std::mem::swap(&mut out, &mut self.actions);
        assert(self.actions() =~= Seq::<ActionView>::empty());
        out
    }

    /// Moves the memory table into a new table of level 0. One that does not fit
    /// a table file, or for which there is no file number, stays in memory, with
    /// the log to restore it.
    pub fn flush_memtable(&mut self) -> (r: Result<(), Error>)
        requires
            old(self).sound(),
        ensures
            r is Ok,
            final(self).sound(),
            final(self).contents() == old(self).contents(),
            forall|d: DiskView| #[trigger]
                old(self).recoverable(d) ==> final(self).recoverable(d),
            exists|added: Option<OpenTable>| #[trigger]
                old(self).flushed_into(*final(self), added),
    {
        let ghost before = *self;
        if self.memtable.is_empty() || self.manifest.next_sst_id == u64::MAX || !fits_table(
            self.memtable.entries(),
            self.config.block_size,
        ) {
            proof {
                if self.memtable.pairs().len() == 0 {
                    lemma_layer_empty(self.memtable.pairs());
                }
                assert(before.flushed_into(*self, None));
            }
            return Ok(());
        }
        let mut frozen: MemTable = MemTable::new(self.config.memtable_size_limit);
        std::mem::swap(&mut frozen, &mut self.memtable);
        let (sst_id, sst_name) = self.manifest.next_sst_filename();
        let entries: &Vec<BlockEntry> = frozen.entries();
        let ghost ps = pairs(entries@);
        proof {
            frozen.lemma_sorted();
            lemma_storable_layer(ps, frozen@);
        }
        let file_name: String = sst_name.clone();
        let (info, data) = write_table(sst_name, self.config.block_size, entries, &self.sizing);
        let sst_entry = SSTableEntry {
            id: sst_id,
            level: 0,
            file_name: file_name.clone(),
            min_key: copy(entries[0].key.as_slice()),
            max_key: copy(entries[entries.len() - 1].key.as_slice()),
            entry_count: info.entry_count,
            file_size: info.file_size,
        };
        self.manifest.add_sstable(sst_entry.copied());
        let bytes: Vec<u8> = copy(data.as_slice());
        let reader: SSTableReader = match SSTableReader::open(file_name.clone(), data) {
            Ok(t) => t,
            Err(e) => {
                return Err(e);
            },
        };
        let table = OpenTable { entry: sst_entry, reader };
        let ghost t = table;
        proof {
            assert(t.run() == ps);
            assert(fresh_table(t, sst_id, 0));
            lemma_flush_sound(
                before.tables@,
                before.manifest@,
                before.manifest.next_sst_id,
                t,
            );
        }
        self.tables.insert(0, table);
        let manifest: Manifest = self.manifest.copied();
        self.act(DiskAction::WriteFile { name: file_name, data: bytes });
        self.act(DiskAction::SaveManifest { manifest });
        self.act(DiskAction::ResetWal);
        let wal_path: String = self.wal.path().to_string();
        self.wal = WalWriter::open(wal_path, 0);
        proof {
            assert(layers_of(self.tables@) =~= seq![layer(ps)] + layers_of(before.tables@));
            assert forall|k: Seq<u8>| #[trigger] find(self.layers(), k) == find(
                before.layers(),
                k,
            ) by {
                assert(self.layers().drop_first() =~= layers_of(self.tables@));
                assert(layers_of(self.tables@).drop_first() =~= layers_of(before.tables@));
                assert(before.layers().drop_first() =~= layers_of(before.tables@));
            }
            assert(self.contents() =~= before.contents());
            assert forall|d: DiskView| #[trigger] before.recoverable(d) implies self.recoverable(
                d,
            ) by {
                lemma_flush_matches(d, before, *self, t);
            }
            lemma_layer_at(ps, 0);
            assert(before.memory()@.contains_key(ps[0].0));
            assert(before.flushed_into(*self, Some(t)));
        }
        Ok(())
    }
}

/// A memory table that says nothing has no entries.
proof fn lemma_no_pairs(t: MemTable)
    requires
        t.well_formed(),
        t@ == Layer::empty(),
    ensures
        t.pairs().len() == 0,
{
    t.lemma_sorted();
    if t.pairs().len() > 0 {
        lemma_layer_at(t.pairs(), 0);
        assert(t@.contains_key(t.pairs()[0].0));
    }
}

/// The manifest on the disk is the given one; before the first one is stored,
/// that is an empty one.
pub open spec fn manifest_matches(
    stored: Option<(Seq<Seq<EntryView>>, u64)>,
    levels: Seq<Seq<EntryView>>,
    next_id: u64,
) -> bool {
    match stored {
        Some(m) => m == (levels, next_id),
        None => levels == Seq::new(NUM_LEVELS as nat, |i: int| Seq::<EntryView>::empty()) && next_id
            == 0,
    }
}

/// The files on the disk hold the bytes of the tables.
pub open spec fn files_match(files: Map<Seq<char>, Seq<u8>>, tables: Seq<OpenTable>) -> bool {
    forall|i: int|
        0 <= i < tables.len() ==> files.contains_key((#[trigger] tables[i]).entry.file_name@)
            && files[tables[i].entry.file_name@] == tables[i].reader.data()
}

/// The log consists of whole records whose replay makes the layer `m`.
pub open spec fn wal_holds(wal: Seq<u8>, m: Layer) -> bool {
    exists|rs: Seq<Seq<u8>>|
        wal == #[trigger] encode_records(rs) && short_records(rs) && replay(rs) == Ok::<
            Layer,
            Seq<char>,
        >(m)
}

/// The records are short enough to be read back.
pub open spec fn short_records(rs: Seq<Seq<u8>>) -> bool {
    forall|i: int| 0 <= i < rs.len() ==> (#[trigger] rs[i]).len() <= MAX_RECORD_SIZE
}

impl<F: Fn(usize) -> BloomSize> LsmTree<F> {
    /// The number of the next table file.
    pub closed spec fn next_id(&self) -> nat {
        self.manifest.next_sst_id as nat
    }

    /// What the manifest says of each level.
    pub closed spec fn levels(&self) -> Seq<Seq<EntryView>> {
        self.manifest@
    }

    /// The tables, in the order in which they are searched.
    pub closed spec fn open_tables(&self) -> Seq<OpenTable> {
        self.tables@
    }

    /// The memory table.
    pub closed spec fn memory(&self) -> MemTable {
        self.memtable
    }

    /// The memory table has reached its limit.
    pub open spec fn full(&self) -> bool {
        capped(content_size(self.memory().pairs())) >= self.memory().limit()
    }

    /// When a level is compacted.
    pub closed spec fn compaction_config(&self) -> CompactionConfig {
        self.compaction.config
    }

    /// A write has gone to the log and to the memory table.
    pub open spec fn logged_into(self, op: OpView, after: Self) -> bool {
        &&& after.memory()@ == with_op(self.memory()@, op)
        &&& after.memory().limit() == self.memory().limit()
        &&& after.actions() == self.actions().push(
            ActionView::AppendWal(encode_record(encode_op(op))),
        )
        &&& after.levels() == self.levels()
        &&& after.next_id() == self.next_id()
        &&& after.open_tables() == self.open_tables()
        &&& after.compaction_config() == self.compaction_config()
    }

    /// The memory table can become a table: it fits a table file, and there is a
    /// file number for it.
    pub open spec fn flushable(self) -> bool {
        &&& self.next_id() < u64::MAX
        &&& table_fits(self.memory().pairs(), self.compaction_config().block_size as nat)
    }

    /// The memory table has become the new table `added` of level 0, which is
    /// searched first; the disk is to store that table and the manifest, and to
    /// start the log anew. An empty memory table, and one that cannot become a
    /// table, is left as it is.
    pub open spec fn flushed_into(self, after: Self, added: Option<OpenTable>) -> bool {
        match added {
            None => (self.memory()@ == Layer::empty() || !self.flushable()) && after == self,
            Some(n) => {
                &&& self.memory()@ != Layer::empty()
                &&& self.flushable()
                &&& fresh_table(n, self.next_id() as u64, 0)
                &&& layer(n.run()) == self.memory()@
                &&& after.memory()@ == Layer::empty()
                &&& after.memory().limit() == self.memory().limit()
                &&& after.open_tables() == self.open_tables().insert(0, n)
                &&& after.levels() == with_entry(self.levels(), n.entry@)
                &&& after.next_id() == self.next_id() + 1
                &&& after.compaction_config() == self.compaction_config()
                &&& after.actions() == self.actions().push(
                    ActionView::WriteFile(n.entry.file_name@, n.reader.data()),
                ).push(ActionView::SaveManifest(after.levels(), after.next_id() as u64)).push(
                    ActionView::ResetWal,
                )
            },
        }
    }

    /// The level that is due was compacted, if any is and there is a file number
    /// for the new table.
    pub open spec fn tidied_into(self, after: Self) -> bool {
        match due_level(self.compaction_config(), self.levels()) {
            Some(level) => if self.next_id() < u64::MAX {
                exists|added: Option<OpenTable>| #[trigger]
                    self.compacted_into(level, after, added)
            } else {
                after == self
            },
            None => after == self,
        }
    }

    /// A write was carried out: it went to the log and to the memory table; where
    /// that is full then, it was flushed, and the level that is due was compacted.
    pub open spec fn written_into(self, op: OpView, after: Self) -> bool {
        exists|logged: Self| #[trigger]
            self.logged_into(op, logged) && if logged.full() {
                exists|flushed: Self, added: Option<OpenTable>| #[trigger]
                    logged.flushed_into(flushed, added) && flushed.tidied_into(after)
            } else {
                after == logged
            }
    }

    /// A compaction of `level` has made the tree into `after`. The tables of the
    /// level and those of the next one that they reach into are gone. What they
    /// said together, without tombstones at the deepest level, is in the new
    /// table `added` of the next level, where any of it is left. The disk is to
    /// store that table, to delete the files of the others, and to store the
    /// manifest; where nothing is left, the files stay. What does not fit one
    /// table file is not merged.
    pub open spec fn compacted_into(
        self,
        level: int,
        after: Self,
        added: Option<OpenTable>,
    ) -> bool {
        let levels = self.levels();
        let ins = inputs(levels, level);
        let ids = ids_of(ins);
        let merged = overlay(layers_of(picked(self.open_tables(), ids)));
        let kept = compacted_layer(merged, level + 1 >= levels.len() - 1);
        let saved = ActionView::SaveManifest(after.levels(), after.next_id() as u64);
        &&& after.memory() == self.memory()
        &&& after.compaction_config() == self.compaction_config()
        &&& if level_of(levels, level).len() == 0 || !layer_fits(
            kept,
            self.compaction_config().block_size as nat,
        ) {
            &&& added is None
            &&& after.levels() == levels
            &&& after.next_id() == self.next_id()
            &&& after.open_tables() == self.open_tables()
            &&& after.actions() == self.actions().push(saved)
        } else {
            &&& replaced(after.open_tables(), self.open_tables(), ids, added)
            &&& ordered(after.open_tables())
            &&& match added {
                None => {
                    &&& kept.dom().is_empty()
                    &&& after.levels() == without_ids(levels, ids)
                    &&& after.next_id() == self.next_id() + if merged.dom().is_empty() {
                        0int
                    } else {
                        1
                    }
                    &&& after.actions() == self.actions().push(saved)
                },
                Some(n) => {
                    &&& fresh_table(n, self.next_id() as u64, (level + 1) as usize)
                    &&& layer(n.run()) == kept
                    &&& after.levels() == with_entry(without_ids(levels, ids), n.entry@)
                    &&& after.next_id() == self.next_id() + 1
                    &&& after.actions() == (self.actions().push(
                        ActionView::WriteFile(n.entry.file_name@, n.reader.data()),
                    ) + removals(names_of(ins))).push(saved)
                },
            }
        }
    }
}

proof fn lemma_flush_matches<F: Fn(usize) -> BloomSize>(
    d: DiskView,
    before: LsmTree<F>,
    after: LsmTree<F>,
    t: OpenTable,
)
    requires
        before.recoverable(d),
        sound_tables(before.tables@, before.manifest@, before.manifest.next_sst_id),
        t.entry.id == before.manifest.next_sst_id,
        t.entry.file_name@ == sst_name(t.entry.id),
        after.tables@ == before.tables@.insert(0, t),
        after.memtable@ == Layer::empty(),
        after.actions() == before.actions().push(
            ActionView::WriteFile(t.entry.file_name@, t.reader.data()),
        ).push(ActionView::SaveManifest(after.manifest@, after.manifest.next_sst_id)).push(
            ActionView::ResetWal,
        ),
    ensures
        after.recoverable(d),
{
    let a0 = before.actions();
    let a1 = a0.push(ActionView::WriteFile(t.entry.file_name@, t.reader.data()));
    let a2 = a1.push(ActionView::SaveManifest(after.manifest@, after.manifest.next_sst_id));
    lemma_apply_push(d, a0, ActionView::WriteFile(t.entry.file_name@, t.reader.data()));
    lemma_apply_push(
        d,
        a1,
        ActionView::SaveManifest(after.manifest@, after.manifest.next_sst_id),
    );
    lemma_apply_push(d, a2, ActionView::ResetWal);
    let d0 = apply_all(d, a0);
    let d3 = apply_all(d, after.actions());
    assert forall|i: int| 0 <= i < after.tables@.len() implies d3.files.contains_key(
        (#[trigger] after.tables@[i]).entry.file_name@,
    ) && d3.files[after.tables@[i].entry.file_name@] == after.tables@[i].reader.data() by {
        if i > 0 {
            let u = before.tables@[i - 1];
            assert(after.tables@[i] == u);
            assert(table_listed(u, before.manifest@, before.manifest.next_sst_id));
            law_names_differ(u.entry.id, t.entry.id);
        }
    }
    assert(wal_holds(d3.wal, after.memtable@)) by {
        let none = Seq::<Seq<u8>>::empty();
        assert(encode_records(none) == Seq::<u8>::empty());
        assert(replay(none) == Ok::<Layer, Seq<char>>(Layer::empty()));
    }
}

/// A tree that is opened from the disk holds the given contents.
pub open spec fn restores<F: Fn(usize) -> BloomSize>(
    d: DiskView,
    contents: Map<Seq<u8>, Seq<u8>>,
) -> bool {
    exists|tree: LsmTree<F>|
        tree.sound() && #[trigger] tree.matches(d) && tree.contents() == contents
}

/// Storing a new table file leaves what a tree needs in place.
proof fn lemma_new_file_matches<F: Fn(usize) -> BloomSize>(
    tree: LsmTree<F>,
    d: DiskView,
    t: OpenTable,
)
    requires
        tree.matches(d),
        sound_tables(tree.tables@, tree.manifest@, tree.manifest.next_sst_id),
        t.entry.id == tree.manifest.next_sst_id,
        t.entry.file_name@ == sst_name(t.entry.id),
    ensures
        tree.matches(apply(d, ActionView::WriteFile(t.entry.file_name@, t.reader.data()))),
{
    let after = apply(d, ActionView::WriteFile(t.entry.file_name@, t.reader.data()));
    assert forall|i: int| 0 <= i < tree.tables@.len() implies after.files.contains_key(
        (#[trigger] tree.tables@[i]).entry.file_name@,
    ) && after.files[tree.tables@[i].entry.file_name@] == tree.tables@[i].reader.data() by {
        let u = tree.tables@[i];
        assert(table_listed(u, tree.manifest@, tree.manifest.next_sst_id));
        law_names_differ(u.entry.id, t.entry.id);
    }
}

/// With the memory table's layer also below it, or only there, the layers say
/// the same.
proof fn lemma_flushed_contents(mem: Layer, rest: Seq<Layer>)
    ensures
        contents_of(seq![mem] + (seq![mem] + rest)) == contents_of(seq![mem] + rest),
        contents_of(seq![Layer::empty()] + (seq![mem] + rest)) == contents_of(seq![mem] + rest),
{
    let one = seq![mem] + rest;
    let twice = seq![mem] + one;
    let below = seq![Layer::empty()] + one;
    assert(one.drop_first() =~= rest);
    assert(twice.drop_first() =~= one);
    assert(below.drop_first() =~= one);
    assert forall|k: Seq<u8>|
        find(twice, k) == find(one, k) && #[trigger] find(below, k) == find(one, k) by {}
    assert(contents_of(twice) =~= contents_of(one));
    assert(contents_of(below) =~= contents_of(one));
}

/// A flush that is cut off between storing the manifest and starting the log
/// anew: the new table is read, and the log restores the memory table as well.
#[verifier::spinoff_prover]
proof fn lemma_flush_saved<F: Fn(usize) -> BloomSize>(
    before: LsmTree<F>,
    after: LsmTree<F>,
    t: OpenTable,
    d: DiskView,
)
    requires
        before.sound(),
        after.sound(),
        before.flushed_into(after, Some(t)),
        before.matches(d),
    ensures
        restores::<F>(
            apply(
                apply(d, ActionView::WriteFile(t.entry.file_name@, t.reader.data())),
                ActionView::SaveManifest(after.levels(), after.next_id() as u64),
            ),
            before.contents(),
        ),
{
    let d1 = apply(d, ActionView::WriteFile(t.entry.file_name@, t.reader.data()));
    let d2 = apply(d1, ActionView::SaveManifest(after.levels(), after.next_id() as u64));
    lemma_new_file_matches(before, d, t);
    let between = LsmTree {
        memtable: before.memtable,
        manifest: after.manifest,
        tables: after.tables,
        ..before
    };
    assert forall|i: int| 0 <= i < after.tables@.len() implies d2.files.contains_key(
        (#[trigger] after.tables@[i]).entry.file_name@,
    ) && d2.files[after.tables@[i].entry.file_name@] == after.tables@[i].reader.data() by {
        if i > 0 {
            assert(after.tables@[i] == before.tables@[i - 1]);
        } else {
            assert(after.tables@[i] == t);
        }
    }
    assert(between.matches(d2));
    assert(between.sound());
    lemma_flushed_contents(before.memtable@, layers_of(before.tables@));
    assert(layers_of(after.tables@) =~= seq![before.memtable@] + layers_of(before.tables@));
    assert(between.contents() == before.contents());
}

/// A flush that is cut off after any number of its actions loses nothing: what
/// the disk then holds restores the contents.
#[verifier::spinoff_prover]
pub proof fn law_flush_survives_crash<F: Fn(usize) -> BloomSize>(
    before: LsmTree<F>,
    after: LsmTree<F>,
    added: Option<OpenTable>,
    d: DiskView,
    n: int,
)
    requires
        before.sound(),
        after.sound(),
        before.flushed_into(after, added),
        before.recoverable(d),
        before.actions().len() <= n <= after.actions().len(),
    ensures
        restores::<F>(apply_all(d, after.actions().take(n)), before.contents()),
{
    let start = before.actions();
    let done = after.actions().take(n);
    let d0 = apply_all(d, start);
    if n == start.len() {
        assert(done =~= start);
    } else {
        let t = added->0;
        let write = ActionView::WriteFile(t.entry.file_name@, t.reader.data());
        let save = ActionView::SaveManifest(after.levels(), after.next_id() as u64);
        lemma_apply_push(d, start, write);
        lemma_apply_push(d, start.push(write), save);
        if n == start.len() + 1 {
            lemma_new_file_matches(before, d0, t);
            assert(done =~= start.push(write));
        } else if n == start.len() + 2 {
            lemma_flush_saved(before, after, t, d0);
            assert(done =~= start.push(write).push(save));
        } else {
            assert(done =~= after.actions());
            lemma_flush_matches(d, before, after, t);
            lemma_flushed_contents(before.memtable@, layers_of(before.tables@));
            assert(layers_of(after.tables@) =~= seq![before.memtable@] + layers_of(
                before.tables@,
            ));
            assert(after.contents() == before.contents());
        }
    }
}

/// A write that is cut off before or after its action leaves what was there
/// before or after it.
pub proof fn law_write_survives_crash<F: Fn(usize) -> BloomSize>(
    before: LsmTree<F>,
    op: OpView,
    after: LsmTree<F>,
    d: DiskView,
    n: int,
)
    requires
        before.sound(),
        after.sound(),
        before.logged_into(op, after),
        op_size(op) <= MAX_RECORD_SIZE,
        before.recoverable(d),
        before.actions().len() <= n <= after.actions().len(),
    ensures
        restores::<F>(
            apply_all(d, after.actions().take(n)),
            if n == before.actions().len() {
                before.contents()
            } else {
                after.contents()
            },
        ),
{
    if n == before.actions().len() {
        assert(after.actions().take(n) =~= before.actions());
    } else {
        assert(after.actions().take(n) =~= after.actions());
        lemma_write_matches(d, before, after, op);
    }
}

/// A compaction that is cut off before its actions, after it has stored the new
/// table, or after all of them loses nothing. In between the merged files are
/// deleted while the stored manifest still names them.
pub proof fn law_compaction_survives_crash<F: Fn(usize) -> BloomSize>(
    before: LsmTree<F>,
    after: LsmTree<F>,
    level: int,
    added: Option<OpenTable>,
    d: DiskView,
    n: int,
)
    requires
        before.sound(),
        after.sound(),
        before.compacted_into(level, after, added),
        after.contents() == before.contents(),
        before.recoverable(d),
        after.recoverable(d),
        n == before.actions().len() || n == after.actions().len() || (added is Some && n
            == before.actions().len() + 1),
    ensures
        restores::<F>(apply_all(d, after.actions().take(n)), before.contents()),
{
    let done = after.actions().take(n);
    let d0 = apply_all(d, before.actions());
    if n == before.actions().len() {
        assert(done =~= before.actions());
    } else if n == after.actions().len() {
        assert(done =~= after.actions());
    } else {
        let t = added->0;
        let write = ActionView::WriteFile(t.entry.file_name@, t.reader.data());
        lemma_apply_push(d, before.actions(), write);
        lemma_new_file_matches(before, d0, t);
        assert(done =~= before.actions().push(write));
    }
}

impl<F: Fn(usize) -> BloomSize> StorageEngine for LsmTree<F> {
    open spec fn contents(&self) -> Map<Seq<u8>, Seq<u8>> {
        contents_of(self.layers())
    }

    closed spec fn sound(&self) -> bool {
        self.inv()
    }

    open spec fn durable(&self, d: DiskView) -> bool {
        self.recoverable(d)
    }

    fn get(&self, key: &[u8]) -> (r: Result<Option<Vec<u8>>, Error>) {
        let ghost k = key@;
        let ghost all = layers_of(self.tables@);
        proof {
            assert(self.layers().drop_first() =~= all);
            assert(all.skip(0) =~= all);
        }
        if let Some(found) = self.memtable.get(key) {
            return match found {
                Some(v) => Ok(Some(copy(v))),
                None => Ok(None),
            };
        }
        let mut i: usize = 0;
        while i < self.tables.len()
            invariant
                i <= self.tables.len(),
                self.inv(),
                k == key@,
                all == layers_of(self.tables@),
                find(self.layers(), k) == find(all.skip(i as int), k),
            decreases self.tables.len() - i,
        {
            let ghost t = self.tables@[i as int];
            proof {
                assert(t.readable());
                assert(serves(t.reader.data(), t.run()));
                assert(all.skip(i as int)[0] == layer(t.run()));
                assert(all.skip(i as int).drop_first() =~= all.skip(i + 1));
            }
            match self.tables[i].reader.get(key) {
                Ok(Some(found)) => {
                    return match found {
                        Some(v) => Ok(Some(v)),
                        None => Ok(None),
                    };
                },
                Ok(None) => {},
                Err(e) => {
                    return Err(e);
                },
            }
            i += 1;
        }
        assert(all.skip(i as int).len() == 0);
        Ok(None)
    }

    fn put(&mut self, key: &[u8], value: &[u8]) -> (r: Result<(), Error>)
        ensures
            old(self).written_into(OpView::Put(key@, value@), *final(self)),
            old(self).memory().limit() > 0 ==> !final(self).full() || !final(self).flushable(),
    {
        self.write(WalOp::Put { key: copy(key), value: copy(value) })
    }

    fn delete(&mut self, key: &[u8]) -> (r: Result<(), Error>)
        ensures
            old(self).written_into(OpView::Delete(key@), *final(self)),
            old(self).memory().limit() > 0 ==> !final(self).full() || !final(self).flushable(),
    {
        self.write(WalOp::Delete { key: copy(key) })
    }

    fn scan(&self, start: &[u8], end: &[u8]) -> (r: Result<Vec<(Vec<u8>, Vec<u8>)>, Error>) {
        let ghost layers = self.layers();
        let ghost cut = Seq::new(layers.len(), |i: int| layer_range(layers[i], start@, end@));
        proof {
            self.memtable.lemma_sorted();
            lemma_overlay_push(Seq::empty(), cut[0]);
            assert(cut.take(1) =~= Seq::<Layer>::empty().push(cut[0]));
            assert(overlay(Seq::<Layer>::empty()) =~= Layer::empty());
            assert(cut[0].union_prefer_right(Layer::empty()) =~= cut[0]);
        }
        let mut merged: Vec<BlockEntry> = select_range(self.memtable.entries(), start, end);
        let mut i: usize = 0;
        while i < self.tables.len()
            invariant
                i <= self.tables.len(),
                self.inv(),
                layers == self.layers(),
                cut == Seq::new(layers.len(), |j: int| layer_range(layers[j], start@, end@)),
                sorted(pairs(merged@)),
                layer(pairs(merged@)) == overlay(cut.take(i + 1)),
            decreases self.tables.len() - i,
        {
            let ghost t = self.tables@[i as int];
            proof {
                assert(t.readable());
                assert(serves(t.reader.data(), t.run()));
                assert(cut[i + 1] == layer_range(layer(t.run()), start@, end@));
                lemma_overlay_push(cut.take(i + 1), cut[i + 1]);
                assert(cut.take(i + 2) =~= cut.take(i + 1).push(cut[i + 1]));
            }
            let rows: Vec<BlockEntry> = match self.tables[i].reader.scan(start, end) {
                Ok(rows) => rows,
                Err(e) => {
                    return Err(e);
                },
            };
            merged = merge(&merged, &rows);
            i += 1;
        }
        proof {
            assert(cut.take(i + 1) =~= cut);
            lemma_overlay_range(layers, start@, end@);
        }
        Ok(live_rows(&merged, Ghost(layers), Ghost(start@), Ghost(end@)))
    }

    fn upper_bound(&self) -> (r: Vec<u8>) {
        let ghost all = self.tables@;
        let entries: &Vec<BlockEntry> = self.memtable.entries();
        let mut top: Vec<u8> = Vec::new();
        proof {
            self.memtable.lemma_sorted();
        }
        if entries.len() > 0 {
            top = copy(entries[entries.len() - 1].key.as_slice());
        }
        proof {
            assert forall|k: Seq<u8>| #[trigger] self.memtable@.contains_key(k) implies lex_le(
                k,
                top@,
            ) by {
                let ps = self.memtable.pairs();
                assert(ps.last() == entries@[entries@.len() - 1]@);
                lemma_run_bounds(ps, k);
            }
        }
        let mut i: usize = 0;
        while i < self.tables.len()
            invariant
                i <= self.tables.len(),
                all == self.tables@,
                self.inv(),
                forall|k: Seq<u8>| #[trigger] self.memtable@.contains_key(k) ==> lex_le(k, top@),
                forall|j: int, k: Seq<u8>|
                    0 <= j < i && #[trigger] mentions(all[j], k) ==> lex_le(k, top@),
            decreases self.tables.len() - i,
        {
            let ghost before = top@;
            let ghost t = all[i as int];
            assert(table_listed(t, self.manifest@, self.manifest.next_sst_id));
            if precedes(top.as_slice(), self.tables[i].entry.max_key.as_slice()) {
                top = copy(self.tables[i].entry.max_key.as_slice());
            }
            proof {
                lemma_lex_total(before, t.entry.max_key@);
                assert forall|k: Seq<u8>| lex_le(k, before) || lex_le(k, t.entry.max_key@) implies
                    lex_le(k, top@) by {
                    if lex_lt(k, before) && lex_lt(before, top@) {
                        lemma_lex_transitive(k, before, top@);
                    }
                    if lex_lt(k, t.entry.max_key@) && lex_lt(t.entry.max_key@, top@) {
                        lemma_lex_transitive(k, t.entry.max_key@, top@);
                    }
                }
            }
            i += 1;
        }
        let ghost last = top@;
        top.push(0x00);
        proof {
            assert(top@ =~= last + seq![0u8]);
            lemma_lex_prefix(last, seq![0u8]);
            assert forall|k: Seq<u8>| #[trigger] self.contents().contains_key(k) implies lex_lt(
                k,
                top@,
            ) by {
                lemma_found_somewhere(self.layers(), k);
                let j = choose|j: int|
                    0 <= j < self.layers().len() && (#[trigger] self.layers()[j]).contains_key(k);
                if j > 0 {
                    assert(mentions(all[j - 1], k));
                }
                assert(lex_le(k, last));
                if k != last {
                    lemma_lex_transitive(k, last, top@);
                }
            }
        }
        top
    }

    fn flush(&mut self) -> (r: Result<(), Error>)
        ensures
            exists|added: Option<OpenTable>| #[trigger]
                old(self).flushed_into(*final(self), added),
    {
        self.flush_memtable()
    }
}

/// A key that is found is in one of the layers.
proof fn lemma_found_somewhere(layers: Seq<Layer>, k: Seq<u8>)
    requires
        find(layers, k) is Some,
    ensures
        exists|j: int| 0 <= j < layers.len() && (#[trigger] layers[j]).contains_key(k),
    decreases layers.len(),
{
    if !layers[0].contains_key(k) {
        lemma_found_somewhere(layers.drop_first(), k);
        let j = choose|j: int|
            0 <= j < layers.drop_first().len() && (#[trigger] layers.drop_first()[j]).contains_key(k);
        assert(layers[j + 1].contains_key(k));
    }
}

/// The rows of a merged run that have values.
fn live_rows(
    merged: &Vec<BlockEntry>,
    Ghost(layers): Ghost<Seq<Layer>>,
    Ghost(start): Ghost<Seq<u8>>,
    Ghost(end): Ghost<Seq<u8>>,
) -> (r: Vec<(Vec<u8>, Vec<u8>)>)
    requires
        sorted(pairs(merged@)),
        layer(pairs(merged@)) == layer_range(overlay(layers), start, end),
    ensures
        lists_range(rows_view(r@), contents_of(layers), start, end),
{
    let ghost ps = pairs(merged@);
    let ghost m = contents_of(layers);
    let mut out: Vec<(Vec<u8>, Vec<u8>)> = Vec::new();
    let ghost mut origin: Seq<int> = Seq::empty();
    let mut i: usize = 0;
    while i < merged.len()
        invariant
            i <= merged.len(),
            ps == pairs(merged@),
            sorted(ps),
            origin.len() == out@.len(),
            forall|x: int, y: int| 0 <= x < y < origin.len() ==> #[trigger] origin[x]
                < #[trigger] origin[y],
            forall|x: int|
                0 <= x < origin.len() ==> {
                    &&& 0 <= #[trigger] origin[x] < i
                    &&& out@[x].0@ == ps[origin[x]].0
                    &&& ps[origin[x]].1 == Some(out@[x].1@)
                },
            forall|j: int|
                0 <= j < i && (#[trigger] ps[j]).1 is Some ==> exists|x: int|
                    0 <= x < origin.len() && #[trigger] origin[x] == j,
        decreases merged.len() - i,
    {
        assert(ps[i as int] == merged@[i as int]@);
        let ghost before = origin;
        if let Some(v) = &merged[i].value {
            out.push((copy(merged[i].key.as_slice()), copy(v.as_slice())));
            proof {
                origin = before.push(i as int);
                assert forall|j: int| 0 <= j < i + 1 && (#[trigger] ps[j]).1 is Some implies exists|
                    x: int,
                | 0 <= x < origin.len() && #[trigger] origin[x] == j by {
                    if j < i {
                        let x = choose|x: int| 0 <= x < before.len() && #[trigger] before[x] == j;
                        assert(origin[x] == j);
                    } else {
                        assert(origin[before.len() as int] == j);
                    }
                }
            }
        }
        i += 1;
    }
    proof {
        let rows = rows_view(out@);
        assert forall|x: int, y: int| 0 <= x < y < rows.len() implies lex_lt(
            #[trigger] rows[x].0,
            #[trigger] rows[y].0,
        ) by {
            assert(origin[x] < origin[y]);
            assert(lex_lt(ps[origin[x]].0, ps[origin[y]].0));
        }
        assert forall|x: int| 0 <= x < rows.len() implies {
            &&& m.contains_key(#[trigger] rows[x].0)
            &&& m[rows[x].0] == rows[x].1
            &&& in_range(rows[x].0, start, end)
        } by {
            lemma_layer_at(ps, origin[x]);
            assert(overlay(layers).contains_key(rows[x].0));
        }
        assert forall|k: Seq<u8>| #[trigger]
            m.contains_key(k) && in_range(k, start, end) implies rows.contains((k, m[k])) by {
            assert(overlay(layers).contains_key(k));
            assert(layer(ps).contains_key(k));
            let j = key_index(ps, k);
            lemma_layer_at(ps, j);
            assert(ps[j].1 is Some);
            let x = choose|x: int| 0 <= x < origin.len() && #[trigger] origin[x] == j;
            assert(rows[x] == (k, m[k]));
        }
    }
    out
}

impl<F: Fn(usize) -> BloomSize> LsmTree<F> {
    /// Carries out a write: it goes to the log and then to the memory table,
    /// which is flushed where it is full.
    pub fn write(&mut self, op: WalOp) -> (r: Result<(), Error>)
        requires
            old(self).sound(),
            match op@ {
                OpView::Put(key, value) => writable(key, value),
                OpView::Delete(key) => writable(key, Seq::empty()),
            },
        ensures
            r is Ok,
            final(self).sound(),
            match op@ {
                OpView::Put(key, value) => final(self).contents() == old(self).contents().insert(
                    key,
                    value,
                ),
                OpView::Delete(key) => final(self).contents() == old(self).contents().remove(key),
            },
            op_size(op@) <= MAX_RECORD_SIZE ==> forall|d: DiskView| #[trigger]
                old(self).recoverable(d) ==> final(self).recoverable(d),
            old(self).written_into(op@, *final(self)),
            old(self).memory().limit() > 0 ==> !final(self).full() || !final(self).flushable(),
    {
        let ghost before = *self;
        let ghost view = op@;
        proof {
            law_op_round_trip(view);
        }
        let encoded: Vec<u8> = op.encode();
        self.wal.append(encoded.as_slice());
        let data: Vec<u8> = self.wal.sync();
        assert(data@ =~= encode_record(encode_op(view)));
        self.act(DiskAction::AppendWal { data });
        match op {
            WalOp::Put { key, value } => self.memtable.put(key, value),
            WalOp::Delete { key } => self.memtable.delete(key),
        }
        proof {
            assert(self.memtable@ == with_op(before.memtable@, view));
            assert(layer_storable(self.memtable@)) by {
                assert forall|k: Seq<u8>| #[trigger] self.memtable@.contains_key(k) implies storable(
                    (k, self.memtable@[k]),
                ) by {
                    if before.memtable@.contains_key(k) {
                        assert(storable((k, before.memtable@[k])));
                    }
                }
            }
            lemma_write_contents(
                before.memtable@,
                layers_of(self.tables@),
                view,
            );
            if op_size(view) <= MAX_RECORD_SIZE {
                assert forall|d: DiskView| #[trigger] before.recoverable(
                    d,
                ) implies self.recoverable(d) by {
                    lemma_write_matches(d, before, *self, view);
                }
            }
        }
        let ghost logged = *self;
        assert(before.logged_into(view, logged));
        if self.memtable.is_full() {
            match self.flush_memtable() {
                Ok(()) => {},
                Err(e) => {
                    return Err(e);
                },
            }
            let ghost flushed = *self;
            proof {
                if flushed.memory()@ == Layer::empty() {
                    lemma_no_pairs(flushed.memtable);
                }
            }
            return self.maybe_compact();
        }
        Ok(())
    }

    /// Compacts a level where that is called for and there is a file number for
    /// the new table.
    pub fn maybe_compact(&mut self) -> (r: Result<(), Error>)
        requires
            old(self).sound(),
        ensures
            r is Ok,
            final(self).sound(),
            final(self).contents() == old(self).contents(),
            forall|d: DiskView| #[trigger]
                old(self).recoverable(d) ==> final(self).recoverable(d),
            old(self).tidied_into(*final(self)),
    {
        let due: Option<usize> = self.compaction.needs_compaction(&self.manifest);
        proof {
            let config = self.compaction.config;
            let levels = self.manifest@;
            match due {
                Some(level) => {
                    if level > 0 {
                        lemma_first_overfull(config, levels, 1, Some(level as int));
                    }
                },
                None => {
                    lemma_first_overfull(config, levels, 1, None);
                },
            }
        }
        match due {
            Some(level) => {
                if self.manifest.next_sst_id == u64::MAX {
                    return Ok(());
                }
                let ghost before = *self;
                let done: Result<(), Error> = self.compact_level(level);
                proof {
                    let due = due_level(before.compaction_config(), before.levels());
                    assert(due == Some(level as int));
                    assert(exists|added: Option<OpenTable>| #[trigger]
                        before.compacted_into(level as int, *self, added));
                }
                done
            },
            None => Ok(()),
        }
    }

    #[verifier::rlimit(60)]
    #[verifier::spinoff_prover]
    fn compact_level(&mut self, level: usize) -> (r: Result<(), Error>)
        requires
            old(self).inv(),
            old(self).manifest.next_sst_id < u64::MAX,
            level == 0 || level < old(self).manifest@.len() - 1,
        ensures
            r is Ok,
            final(self).inv(),
            final(self).contents() == old(self).contents(),
            forall|d: DiskView| #[trigger]
                old(self).recoverable(d) ==> final(self).recoverable(d),
            exists|added: Option<OpenTable>| #[trigger]
                old(self).compacted_into(level as int, *final(self), added),
    {
        let ghost before = *self;
        let ghost levels = self.manifest@;
        let ghost next_id = self.manifest.next_sst_id;
        let ghost tables = self.tables@;
        let ghost ids = merged_ids(levels, level as int);
        let ghost ins = inputs(levels, level as int);
        proof {
            lemma_all_open(tables, levels, next_id, level as int);
            assert(self.manifest.levels@.len() == levels.len());
        }
        assert(level + 1 < usize::MAX) by {
            assert(levels.len() == self.manifest.levels.len());
        }
        let result: CompactionResult = match self.compaction.compact(
            &mut self.manifest,
            &self.tables,
            level,
            &self.sizing,
        ) {
            Ok(c) => c,
            Err(e) => {
                return Err(e);
            },
        };
        let manifest: Manifest = self.manifest.copied();
        if result.removed_ids.is_empty() {
            self.act(DiskAction::SaveManifest { manifest });
            proof {
                assert forall|d: DiskView| #[trigger] before.recoverable(
                    d,
                ) implies self.recoverable(d) by {
                    lemma_apply_push(
                        d,
                        before.actions(),
                        ActionView::SaveManifest(self.manifest@, self.manifest.next_sst_id),
                    );
                }
                assert(before.compacted_into(level as int, *self, None));
            }
            return Ok(());
        }
        let mut c: CompactionResult = result;
        remove_tables(&mut self.tables, &c.removed_ids);
        let ghost others = self.tables@;
        let ghost names = strings_view(c.removed_files@);
        let ghost mut added: Option<OpenTable> = None;
        proof {
            lemma_filter_contains(tables, |t: OpenTable| !ids.contains(t.entry.id));
            lemma_filter_ordered(tables, |t: OpenTable| !ids.contains(t.entry.id));
        }
        match (c.new_entries.pop(), c.new_files.pop()) {
            (Some(entry), Some(file)) => {
                let bytes: Vec<u8> = copy(file.data.as_slice());
                let reader: SSTableReader = match SSTableReader::open(file.name.clone(), file.data) {
                    Ok(t) => t,
                    Err(e) => {
                        return Err(e);
                    },
                };
                let table = OpenTable { entry, reader };
                let ghost n = table;
                proof {
                    let ps = choose|ps: Seq<Pair>| #[trigger]
                        stores_run(n.entry@, file, next_id, (level + 1) as usize, ps) && layer(ps)
                            == compacted_layer(
                            overlay(layers_of(picked(tables, ids))),
                            level + 1 >= levels.len() - 1,
                        );
                    assert(n.run() == ps);
                    assert(fresh_table(n, next_id, (level + 1) as usize));
                    assert forall|i: int| 0 <= i < others.len() implies (
                    #[trigger] others[i]).entry.id < next_id by {
                        assert(others.contains(others[i]));
                        let j = tables.index_of(others[i]);
                        assert(table_listed(tables[j], levels, next_id));
                    }
                }
                self.place(table);
                self.act(DiskAction::WriteFile { name: file.name, data: bytes });
                proof {
                    added = Some(n);
                }
            },
            _ => {},
        }
        let ghost mid = *self;
        self.remove_files(c.removed_files);
        self.act(DiskAction::SaveManifest { manifest });
        proof {
            assert(replaced(self.tables@, tables, ids, added));
            lemma_compaction_sound(
                tables,
                levels,
                next_id,
                level,
                self.tables@,
                added,
                self.manifest@,
                self.manifest.next_sst_id,
            );
            assert forall|k: Seq<u8>| live(#[trigger] find(layers_of(self.tables@), k)) == live(
                find(layers_of(tables), k),
            ) by {
                law_compaction_keeps_contents(
                    tables,
                    levels,
                    next_id,
                    level,
                    self.tables@,
                    added,
                    k,
                );
            }
            lemma_same_contents(self.memtable@, layers_of(self.tables@), layers_of(tables));
            assert forall|d: DiskView| #[trigger] before.recoverable(d) implies self.recoverable(
                d,
            ) by {
                lemma_compaction_matches(d, before, *self, added, ins, ids, names);
            }
            assert(before.compacted_into(level as int, *self, added));
        }
        Ok(())
    }

    /// Puts a table in its place in the search order: before the others of its
    /// level, all of which are older.
    fn place(&mut self, t: OpenTable)
        requires
            ordered(old(self).tables@),
            forall|i: int|
                0 <= i < old(self).tables@.len() ==> (#[trigger] old(self).tables@[i]).entry.id
                    < t.entry.id,
        ensures
            ordered(final(self).tables@),
            exists|p: int|
                0 <= p <= old(self).tables@.len() && final(self).tables@
                    == #[trigger] old(self).tables@.insert(p, t),
            forall|u: OpenTable| #[trigger]
                final(self).tables@.contains(u) <==> old(self).tables@.contains(u) || u == t,
            final(self).actions == old(self).actions,
            final(self).memtable == old(self).memtable,
            final(self).manifest == old(self).manifest,
            final(self).wal == old(self).wal,
            final(self).compaction == old(self).compaction,
            final(self).config == old(self).config,
            final(self).sizing == old(self).sizing,
    {
        let ghost before = self.tables@;
        let mut p: usize = 0;
        while p < self.tables.len() && self.tables[p].entry.level < t.entry.level
            invariant
                p <= self.tables.len(),
                forall|j: int| 0 <= j < p ==> (#[trigger] self.tables@[j]).entry.level < t.entry.level,
            decreases self.tables.len() - p,
        {
            p += 1;
        }
        self.tables.insert(p, t);
        proof {
            let after = self.tables@;
            assert forall|i: int, j: int| 0 <= i < j < after.len() implies searched_before(
                #[trigger] after[i],
                #[trigger] after[j],
            ) by {
                if i < p && j < p {
                    assert(searched_before(before[i], before[j]));
                } else if i < p && j > p {
                    assert(searched_before(before[i], before[j - 1]));
                } else if i > p {
                    assert(searched_before(before[i - 1], before[j - 1]));
                } else if i == p {
                    if j - 1 > p {
                        assert(searched_before(before[p as int], before[j - 1]));
                    }
                    assert(before[j - 1].entry.id < t.entry.id);
                }
            }
            assert forall|u: OpenTable| #[trigger]
                after.contains(u) <==> before.contains(u) || u == t by {
                if after.contains(u) {
                    let i = after.index_of(u);
                    if i < p {
                        assert(before[i] == u);
                    } else if i > p {
                        assert(before[i - 1] == u);
                    }
                }
                if before.contains(u) {
                    let i = before.index_of(u);
                    if i < p {
                        assert(after[i] == u);
                    } else {
                        assert(after[i + 1] == u);
                    }
                }
                assert(after[p as int] == t);
            }
        }
    }

    /// Adds the actions that delete files.
    fn remove_files(&mut self, names: Vec<String>)
        ensures
            final(self).actions() == old(self).actions() + removals(strings_view(names@)),
            final(self).memtable == old(self).memtable,
            final(self).manifest == old(self).manifest,
            final(self).wal == old(self).wal,
            final(self).tables == old(self).tables,
            final(self).compaction == old(self).compaction,
            final(self).config == old(self).config,
            final(self).sizing == old(self).sizing,
    {
        let ghost all = removals(strings_view(names@));
        let mut i: usize = 0;
        assert(self.actions() =~= old(self).actions() + all.take(0));
        while i < names.len()
            invariant
                i <= names.len(),
                all == removals(strings_view(names@)),
                self.actions() == old(self).actions() + all.take(i as int),
                self.memtable == old(self).memtable,
                self.manifest == old(self).manifest,
                self.wal == old(self).wal,
                self.tables == old(self).tables,
                self.compaction == old(self).compaction,
                self.config == old(self).config,
                self.sizing == old(self).sizing,
            decreases names.len() - i,
        {
            self.act(DiskAction::RemoveFile { name: names[i].clone() });
            assert(self.actions() =~= old(self).actions() + all.take(i + 1));
            i += 1;
        }
        assert(all.take(i as int) =~= all);
    }
}

/// Takes the tables with the given numbers out.
fn remove_tables(tables: &mut Vec<OpenTable>, ids: &Vec<u64>)
    ensures
        final(tables)@ == old(tables)@.filter(|t: OpenTable| !ids@.contains(t.entry.id)),
{
    let ghost all = tables@;
    let ghost keep = |t: OpenTable| !ids@.contains(t.entry.id);
    let ghost mut n: int = 0;
    let mut i: usize = 0;
    proof {
        reveal(Seq::filter);
        assert(all.take(0).filter(keep) =~= Seq::<OpenTable>::empty());
        assert(all =~= all.take(0).filter(keep) + all.skip(0));
    }
    while i < tables.len()
        invariant
            0 <= n <= all.len(),
            keep == (|t: OpenTable| !ids@.contains(t.entry.id)),
            tables@ == all.take(n).filter(keep) + all.skip(n),
            i == all.take(n).filter(keep).len(),
        decreases tables@.len() - i,
    {
        let ghost done = all.take(n).filter(keep);
        proof {
            assert(n < all.len());
            assert(tables@[i as int] == all.skip(n)[0]);
            reveal(Seq::filter);
            assert(all.take(n + 1).drop_last() =~= all.take(n));
            assert(all.take(n + 1).last() == all[n]);
        }
        if contains_id(ids.as_slice(), tables[i].entry.id) {
            let _ = tables.remove(i);
            assert(tables@ =~= done + all.skip(n + 1));
        } else {
            i += 1;
            assert(done.push(all[n]) + all.skip(n + 1) =~= done + all.skip(n));
        }
        proof {
            n = n + 1;
        }
    }
    proof {
        assert(n == all.len());
        assert(all.take(n) =~= all);
        assert(all.skip(n) =~= Seq::<OpenTable>::empty());
        assert(tables@ =~= all.filter(keep));
    }
}

proof fn lemma_compaction_matches<F: Fn(usize) -> BloomSize>(
    d: DiskView,
    before: LsmTree<F>,
    after: LsmTree<F>,
    added: Option<OpenTable>,
    ins: Seq<EntryView>,
    ids: Seq<u64>,
    names: Seq<Seq<char>>,
)
    requires
        before.recoverable(d),
        sound_tables(before.tables@, before.manifest@, before.manifest.next_sst_id),
        replaced(after.tables@, before.tables@, ids, added),
        ids == ids_of(ins),
        forall|x: int| 0 <= x < ins.len() ==> entry_named(before.tables@, #[trigger] ins[x]),
        names == names_of(ins) || names.len() == 0,
        added matches Some(n) ==> n.entry.id == before.manifest.next_sst_id && n.entry.file_name@
            == sst_name(n.entry.id),
        after.memtable == before.memtable,
        after.actions() == (match added {
            Some(n) => before.actions().push(
                ActionView::WriteFile(n.entry.file_name@, n.reader.data()),
            ),
            None => before.actions(),
        } + removals(names)).push(
            ActionView::SaveManifest(after.manifest@, after.manifest.next_sst_id),
        ),
    ensures
        after.recoverable(d),
{
    let a0 = before.actions();
    let a1 = match added {
        Some(n) => a0.push(ActionView::WriteFile(n.entry.file_name@, n.reader.data())),
        None => a0,
    };
    if let Some(n) = added {
        lemma_apply_push(d, a0, ActionView::WriteFile(n.entry.file_name@, n.reader.data()));
    }
    lemma_apply_parts(d, a1, removals(names));
    let d1 = apply_all(d, a1);
    lemma_removals(d1, names);
    lemma_apply_push(
        d,
        a1 + removals(names),
        ActionView::SaveManifest(after.manifest@, after.manifest.next_sst_id),
    );
    let d3 = apply_all(d, after.actions());
    assert forall|i: int| 0 <= i < after.tables@.len() implies d3.files.contains_key(
        (#[trigger] after.tables@[i]).entry.file_name@,
    ) && d3.files[after.tables@[i].entry.file_name@] == after.tables@[i].reader.data() by {
        let u = after.tables@[i];
        assert(after.tables@.contains(u));
        let name = u.entry.file_name@;
        if added != Some(u) {
            let j = before.tables@.index_of(u);
            assert(table_listed(before.tables@[j], before.manifest@, before.manifest.next_sst_id));
            assert(apply_all(d, a0).files.contains_key(before.tables@[j].entry.file_name@));
            if let Some(n) = added {
                law_names_differ(u.entry.id, n.entry.id);
            }
        }
        assert(d1.files.contains_key(name) && d1.files[name] == u.reader.data());
        assert(!names.contains(name)) by {
            if names.contains(name) {
                let x = names.index_of(name);
                assert(entry_named(before.tables@, ins[x]));
                let m = choose|m: int|
                    0 <= m < before.tables@.len() && (#[trigger] before.tables@[m]).entry@
                        == ins[x];
                let t = before.tables@[m];
                assert(table_listed(t, before.manifest@, before.manifest.next_sst_id));
                law_names_differ(u.entry.id, t.entry.id);
                assert(ids[x] == t.entry.id);
                assert(ids.contains(u.entry.id));
            }
        }
    }
}

/// Some open table has the entry `e`.
pub open spec fn entry_named(tables: Seq<OpenTable>, e: EntryView) -> bool {
    exists|i: int| 0 <= i < tables.len() && (#[trigger] tables[i]).entry@ == e
}

/// The tables that a compaction merges are open.
proof fn lemma_all_open(
    tables: Seq<OpenTable>,
    levels: Seq<Seq<EntryView>>,
    next_id: u64,
    level: int,
)
    requires
        sound_tables(tables, levels, next_id),
        0 <= level,
    ensures
        all_open(tables, inputs(levels, level)),
        forall|x: int|
            0 <= x < inputs(levels, level).len() ==> entry_named(
                tables,
                #[trigger] inputs(levels, level)[x],
            ),
{
    let ins = inputs(levels, level);
    let sources = level_of(levels, level);
    let targets = level_of(levels, level + 1);
    let keep = |e: EntryView| overlaps(e, sources);
    lemma_filter_contains(targets, keep);
    assert forall|x: int| 0 <= x < ins.len() implies entry_named(tables, #[trigger] ins[x]) by {
        let e = ins[x];
        let l = if x < sources.len() {
            level
        } else {
            level + 1
        };
        let row = level_of(levels, l);
        if x >= sources.len() {
            let f = targets.filter(keep);
            assert(f.contains(f[x - sources.len()]));
        } else {
            assert(row[x] == e);
        }
        assert(row.contains(e));
        assert(entry_open(levels[l][row.index_of(e)], l, tables));
    }
}

/// A write to the topmost layer sets or removes the key.
proof fn lemma_write_contents(top: Layer, below: Seq<Layer>, op: OpView)
    ensures
        contents_of(seq![with_op(top, op)] + below) == match op {
            OpView::Put(key, value) => contents_of(seq![top] + below).insert(key, value),
            OpView::Delete(key) => contents_of(seq![top] + below).remove(key),
        },
{
    let a = seq![with_op(top, op)] + below;
    let b = seq![top] + below;
    assert(a.drop_first() =~= below);
    assert(b.drop_first() =~= below);
    match op {
        OpView::Put(key, value) => {
            assert(contents_of(a) =~= contents_of(b).insert(key, value));
        },
        OpView::Delete(key) => {
            assert(contents_of(a) =~= contents_of(b).remove(key));
        },
    }
}

proof fn lemma_write_matches<F: Fn(usize) -> BloomSize>(
    d: DiskView,
    before: LsmTree<F>,
    after: LsmTree<F>,
    op: OpView,
)
    requires
        before.recoverable(d),
        op_fits(op),
        op_size(op) <= MAX_RECORD_SIZE,
        after.tables@ == before.tables@,
        after.manifest@ == before.manifest@,
        after.manifest.next_sst_id == before.manifest.next_sst_id,
        after.memtable@ == with_op(before.memtable@, op),
        after.actions() == before.actions().push(
            ActionView::AppendWal(encode_record(encode_op(op))),
        ),
    ensures
        after.recoverable(d),
{
    let a = ActionView::AppendWal(encode_record(encode_op(op)));
    lemma_apply_push(d, before.actions(), a);
    let d0 = apply_all(d, before.actions());
    let d1 = apply_all(d, after.actions());
    let rs = choose|rs: Seq<Seq<u8>>|
        d0.wal == #[trigger] encode_records(rs) && short_records(rs) && replay(rs) == Ok::<
            Layer,
            Seq<char>,
        >(before.memtable@);
    let more = rs.push(encode_op(op));
    law_op_round_trip(op);
    assert(more.drop_last() =~= rs);
    assert(d1.wal =~= encode_records(more));
    assert(short_records(more));
    assert(replay(more) == Ok::<Layer, Seq<char>>(after.memtable@));
}

/// The bytes of the first file with the given name.
pub open spec fn file_named(files: Seq<TableFile>, name: Seq<char>) -> Option<Seq<u8>>
    decreases files.len(),
{
    if files.len() == 0 {
        None
    } else if files[0].name@ == name {
        Some(files[0].data@)
    } else {
        file_named(files.drop_first(), name)
    }
}

/// Files by name.
pub open spec fn files_map(files: Seq<TableFile>) -> Map<Seq<char>, Seq<u8>> {
    Map::new(
        |name: Seq<char>| file_named(files, name) is Some,
        |name: Seq<char>| file_named(files, name)->0,
    )
}

/// The entries of all levels in order.
pub open spec fn listing(levels: Seq<Seq<EntryView>>) -> Seq<EntryView>
    decreases levels.len(),
{
    if levels.len() == 0 {
        Seq::empty()
    } else {
        listing(levels.drop_last()) + levels.last()
    }
}

/// The file of an entry is there and is no table.
pub open spec fn file_damaged(files: Seq<TableFile>, e: EntryView) -> bool {
    file_named(files, e.file_name) matches Some(data) && decode_table(data) is Err
}

/// A table was opened from the file of an entry.
pub open spec fn opened_from(t: OpenTable, e: EntryView, files: Seq<TableFile>) -> bool {
    &&& t.entry@ == e
    &&& file_named(files, e.file_name) == Some(t.reader.data())
    &&& t.reader.well_formed()
}

/// The tables are those whose files are there, one for each entry.
pub open spec fn opened_all(
    tables: Seq<OpenTable>,
    entries: Seq<EntryView>,
    files: Seq<TableFile>,
) -> bool {
    &&& forall|i: int| 0 <= i < tables.len() ==> opened_some(#[trigger] tables[i], entries, files)
    &&& forall|x: int|
        0 <= x < entries.len() && file_named(files, (#[trigger] entries[x]).file_name) is Some
            ==> opened_as(tables, entries[x], files)
    &&& ids_differ(entries) ==> ordered(tables)
}

pub open spec fn opened_some(t: OpenTable, entries: Seq<EntryView>, files: Seq<TableFile>) -> bool {
    exists|x: int| 0 <= x < entries.len() && opened_from(t, #[trigger] entries[x], files)
}

pub open spec fn opened_as(tables: Seq<OpenTable>, e: EntryView, files: Seq<TableFile>) -> bool {
    exists|i: int| 0 <= i < tables.len() && opened_from(#[trigger] tables[i], e, files)
}

fn find_file(files: &Vec<TableFile>, name: &String) -> (r: Option<usize>)
    ensures
        match r {
            Some(i) => i < files@.len() && file_named(files@, name@) == Some(files@[i as int].data@),
            None => file_named(files@, name@) is None,
        },
{
    let mut i: usize = 0;
    assert(files@.skip(0) =~= files@);
    while i < files.len()
        invariant
            i <= files.len(),
            file_named(files@, name@) == file_named(files@.skip(i as int), name@),
        decreases files.len() - i,
    {
        assert(files@.skip(i as int)[0] == files@[i as int]);
        assert(files@.skip(i as int).drop_first() =~= files@.skip(i + 1));
        if files[i].name.eq(name) {
            return Some(i);
        }
        i += 1;
    }
    None
}

fn all_entries(manifest: &Manifest) -> (r: Vec<SSTableEntry>)
    ensures
        level_view(r@) == listing(manifest@),
{
    let ghost levels = manifest@;
    let mut out: Vec<SSTableEntry> = Vec::new();
    let mut l: usize = 0;
    assert(level_view(out@) =~= listing(levels.take(0)));
    while l < manifest.levels.len()
        invariant
            l <= manifest.levels.len(),
            levels == manifest@,
            level_view(out@) == listing(levels.take(l as int)),
        decreases manifest.levels.len() - l,
    {
        let ghost done = listing(levels.take(l as int));
        let ghost row = levels[l as int];
        let level: &Vec<SSTableEntry> = &manifest.levels[l];
        let mut x: usize = 0;
        assert(row == level_view(level@));
        assert(done + row.take(0) =~= done);
        while x < level.len()
            invariant
                x <= level.len(),
                row == level_view(level@),
                level_view(out@) == done + row.take(x as int),
            decreases level.len() - x,
        {
            let ghost before = level_view(out@);
            out.push(level[x].copied());
            assert(level_view(out@) =~= before.push(row[x as int]));
            assert(done + row.take(x + 1) =~= before.push(row[x as int]));
            x += 1;
        }
        assert(row.take(x as int) =~= row);
        assert(levels.take(l + 1).drop_last() =~= levels.take(l as int));
        l += 1;
    }
    assert(levels.take(l as int) =~= levels);
    out
}

/// Puts a table before the first that is searched after it.
fn insert_ordered(tables: &mut Vec<OpenTable>, t: OpenTable)
    ensures
        exists|p: int|
            0 <= p <= old(tables)@.len() && final(tables)@ == #[trigger] old(tables)@.insert(p, t),
        ordered(old(tables)@) && (forall|i: int|
            0 <= i < old(tables)@.len() ==> (#[trigger] old(tables)@[i]).entry.id != t.entry.id)
            ==> ordered(final(tables)@),
{
    let ghost before = tables@;
    let mut p: usize = 0;
    while p < tables.len() && !(t.entry.level < tables[p].entry.level || (t.entry.level
        == tables[p].entry.level && t.entry.id > tables[p].entry.id))
        invariant
            p <= tables.len(),
            tables@ == before,
            forall|j: int| 0 <= j < p ==> !searched_before(t, #[trigger] before[j]),
        decreases tables.len() - p,
    {
        p += 1;
    }
    tables.insert(p, t);
    proof {
        let after = tables@;
        if ordered(before) && (forall|i: int|
            0 <= i < before.len() ==> (#[trigger] before[i]).entry.id != t.entry.id) {
            assert forall|i: int, j: int| 0 <= i < j < after.len() implies searched_before(
                #[trigger] after[i],
                #[trigger] after[j],
            ) by {
                if i < p && j < p {
                    assert(searched_before(before[i], before[j]));
                } else if i < p && j > p {
                    assert(searched_before(before[i], before[j - 1]));
                } else if i < p && j == p {
                    assert(!searched_before(t, before[i]));
                    assert(before[i].entry.id != t.entry.id);
                } else if i > p {
                    assert(searched_before(before[i - 1], before[j - 1]));
                } else {
                    assert(searched_before(t, before[p as int]));
                    if j - 1 > p {
                        assert(searched_before(before[p as int], before[j - 1]));
                    }
                }
            }
        }
    }
}

/// Opens the tables of a manifest whose files are there.
fn open_tables(manifest: &Manifest, files: &Vec<TableFile>) -> (r: Result<Vec<OpenTable>, Error>)
    ensures
        match r {
            Ok(tables) => {
                &&& opened_all(tables@, listing(manifest@), files@)
                &&& forall|x: int|
                    0 <= x < listing(manifest@).len() ==> !file_damaged(
                        files@,
                        #[trigger] listing(manifest@)[x],
                    )
            },
            Err(e) => first_damage(files@, listing(manifest@), e),
        },
{
    let entries: Vec<SSTableEntry> = all_entries(manifest);
    let ghost all = listing(manifest@);
    let ghost fs = files@;
    let mut tables: Vec<OpenTable> = Vec::new();
    let mut x: usize = 0;
    while x < entries.len()
        invariant
            x <= entries.len(),
            all == listing(manifest@),
            level_view(entries@) == all,
            fs == files@,
            opened_all(tables@, all.take(x as int), fs),
            forall|y: int| 0 <= y < x ==> !file_damaged(fs, #[trigger] all[y]),
        decreases entries.len() - x,
    {
        let ghost e = all[x as int];
        let ghost done = all.take(x as int);
        let ghost before = tables@;
        assert(e == entries@[x as int]@);
        assert(all.take(x + 1) =~= done.push(e));
        match find_file(files, &entries[x].file_name) {
            Some(i) => {
                match SSTableReader::open(
                    entries[x].file_name.clone(),
                    copy(files[i].data.as_slice()),
                ) {
                    Ok(reader) => {
                        let t = OpenTable { entry: entries[x].copied(), reader };
                        insert_ordered(&mut tables, t);
                        proof {
                            lemma_opened_more(before, tables@, done, e, t, fs);
                        }
                    },
                    Err(err) => {
                        assert(file_damaged(fs, all[x as int]));
                        return Err(err);
                    },
                }
            },
            None => {
                proof {
                    lemma_opened_skip(before, done, e, fs);
                }
            },
        }
        x += 1;
    }
    assert(all.take(x as int) =~= all);
    Ok(tables)
}

/// An error is that of the first entry whose file is damaged.
pub open spec fn first_damage(files: Seq<TableFile>, entries: Seq<EntryView>, e: Error) -> bool {
    exists|x: int|
        {
            &&& 0 <= x < entries.len()
            &&& file_damaged(files, #[trigger] entries[x])
            &&& forall|y: int| 0 <= y < x ==> !file_damaged(files, #[trigger] entries[y])
            &&& e matches Error::Corruption(m) && file_named(files, entries[x].file_name) matches Some(
                data,
            ) && decode_table(data) == Err::<TableParts, Seq<char>>(m@)
        }
}

proof fn lemma_prefix_ids(entries: Seq<EntryView>, e: EntryView)
    requires
        ids_differ(entries.push(e)),
    ensures
        ids_differ(entries),
        forall|x: int| 0 <= x < entries.len() ==> (#[trigger] entries[x]).id != e.id,
{
    let all = entries.push(e);
    assert forall|x: int, y: int| 0 <= x < y < entries.len() implies (#[trigger] entries[x]).id != (
    #[trigger] entries[y]).id by {
        assert(all[x].id != all[y].id);
    }
    assert forall|x: int| 0 <= x < entries.len() implies (#[trigger] entries[x]).id != e.id by {
        assert(all[x].id != all[entries.len() as int].id);
    }
}

proof fn lemma_opened_skip(
    tables: Seq<OpenTable>,
    done: Seq<EntryView>,
    e: EntryView,
    files: Seq<TableFile>,
)
    requires
        opened_all(tables, done, files),
        file_named(files, e.file_name) is None,
    ensures
        opened_all(tables, done.push(e), files),
{
    let all = done.push(e);
    assert forall|i: int| 0 <= i < tables.len() implies opened_some(
        #[trigger] tables[i],
        all,
        files,
    ) by {
        assert(opened_some(tables[i], done, files));
        let x = choose|x: int| 0 <= x < done.len() && opened_from(tables[i], #[trigger] done[x], files);
        assert(all[x] == done[x]);
    }
    assert forall|x: int|
        0 <= x < all.len() && file_named(files, (#[trigger] all[x]).file_name) is Some implies opened_as(
        tables,
        all[x],
        files,
    ) by {
        assert(done[x] == all[x]);
    }
    if ids_differ(all) {
        lemma_prefix_ids(done, e);
    }
}

proof fn lemma_opened_more(
    before: Seq<OpenTable>,
    after: Seq<OpenTable>,
    done: Seq<EntryView>,
    e: EntryView,
    t: OpenTable,
    files: Seq<TableFile>,
)
    requires
        opened_all(before, done, files),
        opened_from(t, e, files),
        exists|p: int|
            0 <= p <= before.len() && after == #[trigger] before.insert(p, t),
        ordered(before) && (forall|i: int|
            0 <= i < before.len() ==> (#[trigger] before[i]).entry.id != t.entry.id) ==> ordered(
            after,
        ),
    ensures
        opened_all(after, done.push(e), files),
{
    let all = done.push(e);
    let p = choose|p: int| 0 <= p <= before.len() && after == #[trigger] before.insert(p, t);
    assert(all[done.len() as int] == e);
    assert forall|i: int| 0 <= i < after.len() implies opened_some(#[trigger] after[i], all, files) by {
        if i == p {
            assert(opened_from(after[i], all[done.len() as int], files));
        } else {
            let j = if i < p {
                i
            } else {
                i - 1
            };
            assert(after[i] == before[j]);
            assert(opened_some(before[j], done, files));
            let x = choose|x: int|
                0 <= x < done.len() && opened_from(before[j], #[trigger] done[x], files);
            assert(all[x] == done[x]);
        }
    }
    assert forall|x: int|
        0 <= x < all.len() && file_named(files, (#[trigger] all[x]).file_name) is Some implies opened_as(
        after,
        all[x],
        files,
    ) by {
        if x < done.len() {
            assert(done[x] == all[x]);
            assert(opened_as(before, done[x], files));
            let i = choose|i: int|
                0 <= i < before.len() && opened_from(#[trigger] before[i], done[x], files);
            if i < p {
                assert(after[i] == before[i]);
            } else {
                assert(after[i + 1] == before[i]);
            }
        } else {
            assert(after[p] == t);
        }
    }
    if ids_differ(all) {
        lemma_prefix_ids(done, e);
        assert forall|i: int| 0 <= i < before.len() implies (#[trigger] before[i]).entry.id
            != t.entry.id by {
            assert(opened_some(before[i], done, files));
            let x = choose|x: int|
                0 <= x < done.len() && opened_from(before[i], #[trigger] done[x], files);
            assert(done[x].id != e.id);
            assert(before[i].entry@.id == done[x].id);
            assert(t.entry@.id == e.id);
        }
    }
}

/// What a disk holds, as it is handed to a tree that is opened.
pub open spec fn disk_of(stored: Option<Manifest>, wal: Seq<u8>, files: Seq<TableFile>) -> DiskView {
    DiskView {
        files: files_map(files),
        wal,
        manifest: match stored {
            Some(m) => Some((m@, m.next_sst_id)),
            None => None,
        },
    }
}

/// Restores the memory table from the log.
fn restore_memtable(wal: Vec<u8>, limit: usize) -> (r: Result<MemTable, Error>)
    ensures
        match replay(valid_records(wal@)) {
            Ok(m) => r matches Ok(t) && t.well_formed() && t@ == m && t.limit() == limit,
            Err(e) => r matches Err(Error::Corruption(m)) && m@ == e,
        },
{
    let records: Vec<WalRecord> = match WalReader::open(wal).read_all() {
        Ok(records) => records,
        Err(e) => {
            return Err(e);
        },
    };
    let ghost rs = record_data(records@);
    let mut memtable: MemTable = MemTable::new(limit);
    let mut i: usize = 0;
    assert(rs.take(0) =~= Seq::<Seq<u8>>::empty());
    while i < records.len()
        invariant
            i <= records.len(),
            rs == record_data(records@),
            rs == valid_records(wal@),
            memtable.well_formed(),
            memtable.limit() == limit,
            replay(rs.take(i as int)) == Ok::<Layer, Seq<char>>(memtable@),
        decreases records.len() - i,
    {
        proof {
            assert(rs.take(i + 1).drop_last() =~= rs.take(i as int));
            assert(rs.take(i + 1).last() == records@[i as int].data@);
        }
        match WalOp::decode(records[i].data.as_slice()) {
            Ok(WalOp::Put { key, value }) => memtable.put(key, value),
            Ok(WalOp::Delete { key }) => memtable.delete(key),
            Err(e) => {
                proof {
                    lemma_replay_err(rs, (i + 1) as nat);
                }
                return Err(e);
            },
        }
        i += 1;
    }
    assert(rs.take(i as int) =~= rs);
    Ok(memtable)
}

impl<F: Fn(usize) -> BloomSize> LsmTree<F> {
    /// Opens a tree from what the disk holds: the manifest where one was
    /// stored, the log, and the table files. Entries of the manifest without a
    /// file are passed over.
    ///
    /// A disk on which every action of a tree was carried out gives back a tree
    /// with the same contents.
    pub fn open(
        config: LsmConfig,
        stored: Option<Manifest>,
        wal_path: String,
        wal: Vec<u8>,
        files: Vec<TableFile>,
        sizing: F,
    ) -> (r: Result<Self, Error>)
        requires
            sizes_filters(sizing),
        ensures
            match replay(valid_records(wal@)) {
                Err(e) => r matches Err(Error::Corruption(m)) && m@ == e,
                Ok(m) => match r {
                    Ok(t) => {
                        &&& t.actions() == Seq::<ActionView>::empty()
                        &&& t.layers()[0] == m
                        &&& exists|tables: Seq<OpenTable>| #[trigger]
                            opened_all(tables, stored_listing(stored), files@) && t.layers()
                                == seq![m] + layers_of(tables)
                    },
                    Err(e) => first_damage(files@, stored_listing(stored), e),
                },
            },
            forall|tree: LsmTree<F>|
                tree.sound() && #[trigger] tree.matches(disk_of(stored, wal@, files@)) ==> {
                    &&& r matches Ok(t) && {
                        &&& t.sound()
                        &&& t.contents() == tree.contents()
                        &&& t.recoverable(disk_of(stored, wal@, files@))
                    }
                },
            stored is None && wal@.len() == 0 ==> (r matches Ok(t) && {
                &&& t.sound()
                &&& t.contents() == Map::<Seq<u8>, Seq<u8>>::empty()
                &&& t.recoverable(disk_of(stored, wal@, files@))
            }),
    {
        let ghost disk = disk_of(stored, wal@, files@);
        let manifest: Manifest = match stored {
            Some(m) => m,
            None => Manifest::new(NUM_LEVELS),
        };
        let ghost levels = manifest@;
        let ghost next_id = manifest.next_sst_id;
        let wal_len: u64 = wal.len() as u64;
        let ghost log = wal@;
        proof {
            assert forall|tree: LsmTree<F>|
                tree.sound() && #[trigger] tree.matches(disk) implies replay(valid_records(log))
                == Ok::<Layer, Seq<char>>(tree.memtable@) by {
                lemma_log_restores(log, tree.memtable@);
            }
        }
        let memtable: MemTable = match restore_memtable(wal, config.memtable_size_limit) {
            Ok(t) => t,
            Err(e) => {
                return Err(e);
            },
        };
        let tables: Vec<OpenTable> = match open_tables(&manifest, &files) {
            Ok(t) => t,
            Err(e) => {
                proof {
                    assert forall|tree: LsmTree<F>| !(tree.sound() && #[trigger] tree.matches(
                        disk,
                    )) by {
                        if tree.sound() && tree.matches(disk) {
                            lemma_none_damaged(tree.tables@, levels, next_id, files@);
                        }
                    }
                    if stored is None {
                        lemma_nothing_listed();
                    }
                }
                return Err(e);
            },
        };
        let compaction = LeveledCompaction::new(
            CompactionConfig {
                l0_compaction_trigger: config.l0_compaction_trigger,
                level_size_ratio: config.level_size_ratio,
                block_size: config.block_size,
            },
        );
        let tree = LsmTree {
            memtable,
            manifest,
            wal: WalWriter::open(wal_path, wal_len),
            tables,
            compaction,
            config,
            sizing,
            actions: Vec::new(),
        };
        proof {
            assert(tree.actions() =~= Seq::<ActionView>::empty());
            let t = tree;
            assert forall|other: LsmTree<F>|
                other.sound() && #[trigger] other.matches(disk) implies {
                &&& t.sound()
                &&& t.contents() == other.contents()
                &&& t.recoverable(disk)
            } by {
                lemma_tables_restored(other.tables@, t.tables@, levels, next_id, files@);
                other.memtable.lemma_sorted();
                t.memtable.lemma_sorted();
                crate::storage::run::lemma_layer_determines(
                    t.memtable.pairs(),
                    other.memtable.pairs(),
                );
                assert(t.layers() =~= other.layers());
                assert(t.matches(disk));
            }
            assert(opened_all(tree.tables@, stored_listing(stored), files@));
            if stored is None && log.len() == 0 {
                assert(log =~= Seq::<u8>::empty());
                assert(valid_records(log) =~= Seq::<Seq<u8>>::empty());
                lemma_first_start(tree, files@);
            }
        }
        Ok(tree)
    }
}

/// A new manifest lists nothing.
proof fn lemma_nothing_listed()
    ensures
        stored_listing(None).len() == 0,
{
    let none = Seq::new(NUM_LEVELS as nat, |i: int| Seq::<EntryView>::empty());
    if listing(none).len() > 0 {
        let e = listing(none)[0];
        lemma_listing_contains(none, e);
        assert(listing(none).contains(e));
    }
}

/// A tree without a stored manifest and without a log is empty and sound.
proof fn lemma_first_start<F: Fn(usize) -> BloomSize>(tree: LsmTree<F>, files: Seq<TableFile>)
    requires
        tree.memtable.well_formed(),
        tree.memtable@ == Layer::empty(),
        tree.memtable.limit() == tree.config.memtable_size_limit,
        tree.manifest@ == Seq::new(NUM_LEVELS as nat, |i: int| Seq::<EntryView>::empty()),
        tree.manifest.next_sst_id == 0,
        opened_all(tree.tables@, stored_listing(None), files),
        tree.compaction.config.block_size == tree.config.block_size,
        sizes_filters(tree.sizing),
        tree.wal.pending() == Seq::<u8>::empty(),
        tree.actions() == Seq::<ActionView>::empty(),
    ensures
        tree.sound(),
        tree.contents() == Map::<Seq<u8>, Seq<u8>>::empty(),
        tree.recoverable(disk_of(None, Seq::empty(), files)),
{
    lemma_nothing_listed();
    assert(tree.tables@.len() == 0) by {
        if tree.tables@.len() > 0 {
            assert(opened_some(tree.tables@[0], stored_listing(None), files));
        }
    }
    tree.memtable.lemma_sorted();
    let ps = tree.memtable.pairs();
    if ps.len() > 0 {
        lemma_layer_at(ps, 0);
    }
    assert(ps.len() == 0);
    let disk = disk_of(None, Seq::empty(), files);
    let rs = Seq::<Seq<u8>>::empty();
    assert(encode_records(rs) =~= Seq::<u8>::empty());
    assert(wal_holds(disk.wal, tree.memtable@));
    assert(tree.matches(disk));
    assert(apply_all(disk, tree.actions()) == disk);
    let ls = tree.layers();
    assert(ls.drop_first() =~= Seq::<Layer>::empty());
    assert forall|k: Seq<u8>| #[trigger] contents_of(ls).contains_key(k) implies false by {
        reveal_with_fuel(find, 3);
    }
    assert(contents_of(ls) =~= Map::<Seq<u8>, Seq<u8>>::empty());
}

/// The entries of a stored manifest; a new one has none.
pub open spec fn stored_listing(stored: Option<Manifest>) -> Seq<EntryView> {
    match stored {
        Some(m) => listing(m@),
        None => listing(Seq::new(NUM_LEVELS as nat, |i: int| Seq::<EntryView>::empty())),
    }
}

/// A log that holds a layer restores it.
proof fn lemma_log_restores(wal: Seq<u8>, m: Layer)
    requires
        wal_holds(wal, m),
    ensures
        replay(valid_records(wal)) == Ok::<Layer, Seq<char>>(m),
{
    let rs = choose|rs: Seq<Seq<u8>>|
        wal == #[trigger] encode_records(rs) && short_records(rs) && replay(rs) == Ok::<
            Layer,
            Seq<char>,
        >(m);
    let none = Seq::<u8>::empty();
    law_replay(rs, none);
    assert(encode_records(rs) + none =~= wal);
    assert(valid_records(none) =~= Seq::<Seq<u8>>::empty());
    assert(rs + valid_records(none) =~= rs);
}

/// An entry is listed exactly where a level has it.
proof fn lemma_listing_contains(levels: Seq<Seq<EntryView>>, e: EntryView)
    ensures
        listing(levels).contains(e) <==> exists|l: int|
            0 <= l < levels.len() && (#[trigger] levels[l]).contains(e),
    decreases levels.len(),
{
    if levels.len() > 0 {
        let rest = levels.drop_last();
        let head = listing(rest);
        let last = levels.last();
        lemma_listing_contains(rest, e);
        let all = listing(levels);
        if all.contains(e) {
            let x = all.index_of(e);
            if x < head.len() {
                assert(head[x] == e);
                let l = choose|l: int| 0 <= l < rest.len() && (#[trigger] rest[l]).contains(e);
                assert(levels[l].contains(e));
            } else {
                assert(last[x - head.len()] == e);
                assert(levels[levels.len() - 1].contains(e));
            }
        }
        if exists|l: int| 0 <= l < levels.len() && (#[trigger] levels[l]).contains(e) {
            let l = choose|l: int| 0 <= l < levels.len() && (#[trigger] levels[l]).contains(e);
            if l < rest.len() {
                assert(rest[l].contains(e));
                assert(all[head.index_of(e)] == e);
            } else {
                assert(all[head.len() + last.index_of(e)] == e);
            }
        }
    }
}

/// The listed entries have different numbers.
proof fn lemma_listing_differs(
    tables: Seq<OpenTable>,
    levels: Seq<Seq<EntryView>>,
    next_id: u64,
    n: int,
)
    requires
        sound_tables(tables, levels, next_id),
        0 <= n <= levels.len(),
    ensures
        ids_differ(listing(levels.take(n))),
    decreases n,
{
    if n > 0 {
        lemma_listing_differs(tables, levels, next_id, n - 1);
        let part = levels.take(n);
        assert(part.drop_last() =~= levels.take(n - 1));
        let head = listing(levels.take(n - 1));
        let row = levels[n - 1];
        assert(part.last() == row);
        assert(ids_differ(row));
        let all = listing(part);
        assert forall|x: int, y: int| 0 <= x < y < all.len() implies (#[trigger] all[x]).id != (
        #[trigger] all[y]).id by {
            if y < head.len() {
                assert(head[x].id != head[y].id);
            } else if x >= head.len() {
                assert(row[x - head.len()].id != row[y - head.len()].id);
            } else {
                let e = all[x];
                let f = row[y - head.len()];
                assert(head[x] == e);
                assert(head.contains(e));
                lemma_listing_contains(levels.take(n - 1), e);
                let l = choose|l: int|
                    0 <= l < levels.take(n - 1).len() && (#[trigger] levels.take(n - 1)[l]).contains(
                        e,
                    );
                assert(levels[l].contains(e));
                assert(entry_open(levels[l][levels[l].index_of(e)], l, tables));
                assert(entry_open(levels[n - 1][y - head.len()], n - 1, tables));
                let i = choose|i: int| 0 <= i < tables.len() && (#[trigger] tables[i]).entry@ == e;
                let j = choose|j: int| 0 <= j < tables.len() && (#[trigger] tables[j]).entry@ == f;
                if i < j {
                    assert(tables[i].entry.id != tables[j].entry.id);
                } else if j < i {
                    assert(tables[j].entry.id != tables[i].entry.id);
                }
                assert(e.id == tables[i].entry.id);
                assert(f.id == tables[j].entry.id);
                assert(e.level == l);
                assert(f.level == n - 1);
            }
        }
    }
}

/// The file of a listed entry is that of an open table.
proof fn lemma_listed_file(
    tables: Seq<OpenTable>,
    levels: Seq<Seq<EntryView>>,
    next_id: u64,
    files: Seq<TableFile>,
    x: int,
) -> (m: int)
    requires
        sound_tables(tables, levels, next_id),
        files_match(files_map(files), tables),
        0 <= x < listing(levels).len(),
    ensures
        0 <= m < tables.len(),
        tables[m].entry@ == listing(levels)[x],
        file_named(files, listing(levels)[x].file_name) == Some(tables[m].reader.data()),
        tables[m].reader.well_formed(),
{
    let e = listing(levels)[x];
    lemma_listing_contains(levels, e);
    assert(listing(levels).contains(e));
    let l = choose|l: int| 0 <= l < levels.len() && (#[trigger] levels[l]).contains(e);
    assert(entry_open(levels[l][levels[l].index_of(e)], l, tables));
    let m = choose|m: int| 0 <= m < tables.len() && (#[trigger] tables[m]).entry@ == e;
    assert(tables[m].readable());
    assert(tables[m].entry@.file_name == e.file_name);
    m
}

proof fn lemma_none_damaged(
    tables: Seq<OpenTable>,
    levels: Seq<Seq<EntryView>>,
    next_id: u64,
    files: Seq<TableFile>,
)
    requires
        sound_tables(tables, levels, next_id),
        files_match(files_map(files), tables),
    ensures
        forall|x: int|
            0 <= x < listing(levels).len() ==> !file_damaged(
                files,
                #[trigger] listing(levels)[x],
            ),
{
    assert forall|x: int| 0 <= x < listing(levels).len() implies !file_damaged(
        files,
        #[trigger] listing(levels)[x],
    ) by {
        let m = lemma_listed_file(tables, levels, next_id, files, x);
    }
}

/// Tables that were opened from the files of others are again those.
#[verifier::rlimit(40)]
proof fn lemma_tables_restored(
    tables: Seq<OpenTable>,
    again: Seq<OpenTable>,
    levels: Seq<Seq<EntryView>>,
    next_id: u64,
    files: Seq<TableFile>,
)
    requires
        sound_tables(tables, levels, next_id),
        files_match(files_map(files), tables),
        opened_all(again, listing(levels), files),
    ensures
        sound_tables(again, levels, next_id),
        layers_of(again) == layers_of(tables),
        files_match(files_map(files), again),
{
    let all = listing(levels);
    lemma_listing_differs(tables, levels, next_id, levels.len() as int);
    assert(levels.take(levels.len() as int) =~= levels);
    assert(all_within(again, tables)) by {
        assert forall|i: int| 0 <= i < again.len() implies has_like(#[trigger] again[i], tables) by {
            assert(opened_some(again[i], all, files));
            let x = choose|x: int|
                0 <= x < all.len() && opened_from(again[i], #[trigger] all[x], files);
            let m = lemma_listed_file(tables, levels, next_id, files, x);
            lemma_has_like(again[i], tables, m);
        }
    }
    assert(all_within(tables, again)) by {
        assert forall|m: int| 0 <= m < tables.len() implies has_like(#[trigger] tables[m], again) by {
            let t = tables[m];
            assert(table_listed(t, levels, next_id));
            assert(t.readable());
            assert(levels[t.entry.level as int].contains(t.entry@));
            lemma_listing_contains(levels, t.entry@);
            let x = all.index_of(t.entry@);
            assert(all[x] == t.entry@);
            assert(files_map(files).contains_key(t.entry.file_name@));
            assert(opened_as(again, all[x], files));
            let i = choose|i: int|
                0 <= i < again.len() && opened_from(#[trigger] again[i], all[x], files);
            lemma_has_like(t, again, i);
        }
    }
    lemma_same_rows(again, tables);
    lemma_reopened(tables, again, levels, next_id);
    assert forall|i: int| 0 <= i < again.len() implies files_map(files).contains_key(
        (#[trigger] again[i]).entry.file_name@,
    ) && files_map(files)[again[i].entry.file_name@] == again[i].reader.data() by {
        assert(same_table(again[i], tables[i]));
        assert(again[i].entry@.file_name == tables[i].entry@.file_name);
        assert(files_map(files).contains_key(tables[i].entry.file_name@));
    }
}

} // verus!
