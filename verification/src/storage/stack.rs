//! The stack of open tables under the memory table: in which order they are
//! searched, what holds of them, and that compaction changes no contents.

use vstd::prelude::*;
use crate::bytes::{lemma_lex_transitive, lex_le, lex_lt};
use crate::storage::compaction::{
    all_readable, compacted_layer, ids_of, inputs, layers_of, level_of, overlaps, picked,
    without_ids, OpenTable,
};
use crate::storage::layers::{
    find, lemma_find_nowhere, lemma_find_topmost, lemma_find_where, live, overlay, topmost,
};
use crate::storage::manifest::{sst_name, with_entry, EntryView};
use crate::storage::run::{key_index, layer, sorted, Pair};

verus! {

/// `t` is searched before `u`: upper levels first, and within a level the
/// newer table first.
pub open spec fn searched_before(t: OpenTable, u: OpenTable) -> bool {
    t.entry.level < u.entry.level || (t.entry.level == u.entry.level && t.entry.id > u.entry.id)
}

/// The tables are in the order in which they are searched.
pub open spec fn ordered(tables: Seq<OpenTable>) -> bool {
    forall|i: int, j: int|
        0 <= i < j < tables.len() ==> searched_before(#[trigger] tables[i], #[trigger] tables[j])
}

/// A table has an entry for the key `k`.
pub open spec fn mentions(t: OpenTable, k: Seq<u8>) -> bool {
    layer(t.run()).contains_key(k)
}

/// The keys of a table lie between those that its manifest entry records.
pub open spec fn within_bounds(t: OpenTable) -> bool {
    forall|k: Seq<u8>| #[trigger]
        mentions(t, k) ==> lex_le(t.entry.min_key@, k) && lex_le(k, t.entry.max_key@)
}

/// No key has entries in both tables.
pub open spec fn disjoint(t: OpenTable, u: OpenTable) -> bool {
    forall|k: Seq<u8>| !(#[trigger] mentions(t, k) && #[trigger] mentions(u, k))
}

/// What holds of the open tables and the levels of the manifest: the tables
/// are those of the manifest in search order, each can be read, and the tables
/// of a level below the first share no key.
pub open spec fn sound_tables(
    tables: Seq<OpenTable>,
    levels: Seq<Seq<EntryView>>,
    next_id: u64,
) -> bool {
    &&& levels.len() > 0
    &&& ordered(tables)
    &&& all_readable(tables)
    &&& forall|i: int| 0 <= i < tables.len() ==> table_listed(#[trigger] tables[i], levels, next_id)
    &&& forall|i: int, j: int|
        0 <= i < j < tables.len() ==> (#[trigger] tables[i]).entry.id != (
        #[trigger] tables[j]).entry.id
    &&& forall|i: int, j: int|
        0 <= i < j < tables.len() && tables[i].entry.level == tables[j].entry.level
            && tables[i].entry.level >= 1 ==> disjoint(#[trigger] tables[i], #[trigger] tables[j])
    &&& forall|l: int, x: int|
        0 <= l < levels.len() && 0 <= x < levels[l].len() ==> entry_open(
            #[trigger] levels[l][x],
            l,
            tables,
        )
    &&& forall|l: int| 0 <= l < levels.len() ==> ids_differ(#[trigger] levels[l])
}

/// The entries have different numbers.
pub open spec fn ids_differ(entries: Seq<EntryView>) -> bool {
    forall|x: int, y: int|
        0 <= x < y < entries.len() ==> (#[trigger] entries[x]).id != (#[trigger] entries[y]).id
}

/// A filter keeps numbers different.
proof fn lemma_filter_ids_differ(entries: Seq<EntryView>, keep: spec_fn(EntryView) -> bool)
    requires
        ids_differ(entries),
    ensures
        ids_differ(entries.filter(keep)),
    decreases entries.len(),
{
    reveal(Seq::filter);
    if entries.len() > 0 {
        let t = entries.drop_last();
        assert(ids_differ(t)) by {
            assert forall|x: int, y: int| 0 <= x < y < t.len() implies (#[trigger] t[x]).id != (
            #[trigger] t[y]).id by {
                assert(entries[x].id != entries[y].id);
            }
        }
        lemma_filter_ids_differ(t, keep);
        lemma_filter_contains(t, keep);
        let f = t.filter(keep);
        let g = entries.filter(keep);
        assert forall|x: int, y: int| 0 <= x < y < g.len() implies (#[trigger] g[x]).id != (
        #[trigger] g[y]).id by {
            assert(g[x] == f[x]);
            if y < f.len() {
                assert(f[x].id != f[y].id);
            } else {
                assert(f.contains(f[x]));
                let i = t.index_of(f[x]);
                assert(entries[i].id != entries[entries.len() - 1].id);
            }
        }
    }
}

/// A table is one of the manifest, which gives its bounds and how many entries
/// it has.
pub open spec fn table_listed(t: OpenTable, levels: Seq<Seq<EntryView>>, next_id: u64) -> bool {
    &&& t.entry.id < next_id
    &&& t.entry.level < levels.len()
    &&& levels[t.entry.level as int].contains(t.entry@)
    &&& within_bounds(t)
    &&& t.entry.file_name@ == sst_name(t.entry.id)
    &&& t.entry.entry_count == t.run().len()
}

/// An entry of the level `l` names an open table.
pub open spec fn entry_open(e: EntryView, l: int, tables: Seq<OpenTable>) -> bool {
    &&& e.level == l
    &&& exists|i: int| 0 <= i < tables.len() && (#[trigger] tables[i]).entry@ == e
}

/// What a filter keeps is what it was asked to keep.
pub proof fn lemma_filter_contains<A>(s: Seq<A>, keep: spec_fn(A) -> bool)
    ensures
        forall|a: A| #[trigger] s.filter(keep).contains(a) <==> s.contains(a) && keep(a),
        s.filter(keep).len() <= s.len(),
    decreases s.len(),
{
    reveal(Seq::filter);
    if s.len() > 0 {
        let t = s.drop_last();
        lemma_filter_contains(t, keep);
        assert forall|a: A| #[trigger] s.filter(keep).contains(a) <==> s.contains(a) && keep(a) by {
            if s.contains(a) {
                let i = s.index_of(a);
                if i < t.len() {
                    assert(t[i] == a);
                    assert(t.contains(a));
                }
            }
            if t.contains(a) {
                assert(s[t.index_of(a)] == a);
            }
            assert(s[s.len() - 1] == s.last());
            let f = t.filter(keep);
            if keep(s.last()) {
                let g = f.push(s.last());
                if f.contains(a) {
                    assert(g[f.index_of(a)] == a);
                }
                if a == s.last() {
                    assert(g[f.len() as int] == a);
                }
                if g.contains(a) {
                    let i = g.index_of(a);
                    if i < f.len() {
                        assert(f[i] == a);
                    }
                }
            }
        }
    }
}

/// A filter keeps the search order.
pub proof fn lemma_filter_ordered(tables: Seq<OpenTable>, keep: spec_fn(OpenTable) -> bool)
    requires
        ordered(tables),
    ensures
        ordered(tables.filter(keep)),
    decreases tables.len(),
{
    reveal(Seq::filter);
    if tables.len() > 0 {
        let t = tables.drop_last();
        assert(ordered(t)) by {
            assert forall|i: int, j: int| 0 <= i < j < t.len() implies searched_before(
                #[trigger] t[i],
                #[trigger] t[j],
            ) by {
                assert(searched_before(tables[i], tables[j]));
            }
        }
        lemma_filter_ordered(t, keep);
        lemma_filter_contains(t, keep);
        let f = t.filter(keep);
        let g = tables.filter(keep);
        assert forall|i: int, j: int| 0 <= i < j < g.len() implies searched_before(
            #[trigger] g[i],
            #[trigger] g[j],
        ) by {
            assert(g[i] == f[i]);
            if j < f.len() {
                assert(searched_before(f[i], f[j]));
            } else {
                assert(f.contains(f[i]));
                assert(t.contains(f[i]));
                let x = t.index_of(f[i]);
                assert(searched_before(tables[x], tables[tables.len() - 1]));
            }
        }
    }
}

/// In search order, the table that comes before every other one with the key
/// decides on it.
pub proof fn lemma_find_first(tables: Seq<OpenTable>, k: Seq<u8>, t: OpenTable)
    requires
        ordered(tables),
        tables.contains(t),
        mentions(t, k),
        forall|u: OpenTable| #[trigger]
            tables.contains(u) && mentions(u, k) ==> u == t || searched_before(t, u),
    ensures
        find(layers_of(tables), k) == Some(layer(t.run())[k]),
{
    let i = tables.index_of(t);
    let layers = layers_of(tables);
    assert forall|j: int| 0 <= j < i implies !(#[trigger] layers[j]).contains_key(k) by {
        assert(searched_before(tables[j], tables[i]));
        assert(tables.contains(tables[j]));
    }
    lemma_find_topmost(layers, k, i);
}

/// A key that no table has is not found.
pub proof fn lemma_find_none(tables: Seq<OpenTable>, k: Seq<u8>)
    requires
        forall|u: OpenTable| #[trigger] tables.contains(u) ==> !mentions(u, k),
    ensures
        find(layers_of(tables), k) is None,
{
    let layers = layers_of(tables);
    assert forall|j: int| 0 <= j < layers.len() implies !(#[trigger] layers[j]).contains_key(k) by {
        assert(tables.contains(tables[j]));
    }
    lemma_find_nowhere(layers, k);
}

/// Either no table has a key, or one comes before every other that has it.
pub proof fn lemma_first_exists(tables: Seq<OpenTable>, k: Seq<u8>) -> (r: Option<OpenTable>)
    requires
        ordered(tables),
    ensures
        match r {
            Some(t) => {
                &&& tables.contains(t)
                &&& mentions(t, k)
                &&& forall|u: OpenTable| #[trigger]
                    tables.contains(u) && mentions(u, k) ==> u == t || searched_before(t, u)
                &&& find(layers_of(tables), k) == Some(layer(t.run())[k])
            },
            None => {
                &&& forall|u: OpenTable| #[trigger] tables.contains(u) ==> !mentions(u, k)
                &&& find(layers_of(tables), k) is None
            },
        },
{
    let layers = layers_of(tables);
    let i = lemma_find_where(layers, k);
    if topmost(layers, k, i) {
        let t = tables[i];
        assert forall|u: OpenTable| #[trigger]
            tables.contains(u) && mentions(u, k) implies u == t || searched_before(t, u) by {
            let j = tables.index_of(u);
            if j < i {
                assert(!layers[j].contains_key(k));
            } else if j > i {
                assert(searched_before(tables[i], tables[j]));
            }
        }
        Some(t)
    } else {
        assert forall|u: OpenTable| #[trigger] tables.contains(u) implies !mentions(u, k) by {
            let j = tables.index_of(u);
            assert(!layers[j].contains_key(k));
        }
        None
    }
}

/// The numbers of the tables that a compaction of `level` merges.
pub open spec fn merged_ids(levels: Seq<Seq<EntryView>>, level: int) -> Seq<u64> {
    ids_of(inputs(levels, level))
}

/// A table is merged exactly where it stands at the compacted level, or at the
/// next one and reaches into the key range of that level.
pub proof fn lemma_selected(
    tables: Seq<OpenTable>,
    levels: Seq<Seq<EntryView>>,
    next_id: u64,
    level: int,
    t: OpenTable,
)
    requires
        sound_tables(tables, levels, next_id),
        0 <= level,
        tables.contains(t),
    ensures
        merged_ids(levels, level).contains(t.entry.id) <==> (t.entry.level == level || (
        t.entry.level == level + 1 && overlaps(t.entry@, level_of(levels, level)))),
{
    let ins = inputs(levels, level);
    let ids = merged_ids(levels, level);
    let sources = level_of(levels, level);
    let keep = |e: EntryView| overlaps(e, sources);
    let targets = level_of(levels, level + 1);
    lemma_filter_contains(targets, keep);
    let n = tables.index_of(t);
    assert(table_listed(tables[n], levels, next_id));
    if t.entry.level == level {
        let x = sources.index_of(t.entry@);
        assert(ins[x] == t.entry@);
        assert(ids[x] == t.entry.id);
    }
    if t.entry.level == level + 1 && overlaps(t.entry@, sources) {
        assert(targets.contains(t.entry@));
        let f = targets.filter(keep);
        assert(f.contains(t.entry@));
        let x = f.index_of(t.entry@);
        assert(ins[sources.len() + x] == t.entry@);
        assert(ids[sources.len() + x] == t.entry.id);
    }
    if ids.contains(t.entry.id) {
        let x = ids.index_of(t.entry.id);
        let e = ins[x];
        let l = if x < sources.len() {
            level
        } else {
            level + 1
        };
        if x >= sources.len() {
            let f = targets.filter(keep);
            assert(f.contains(f[x - sources.len()]));
            assert(targets.contains(e) && overlaps(e, sources));
        } else {
            assert(sources.contains(sources[x]));
        }
        let row = level_of(levels, l);
        assert(row.contains(e));
        let y = row.index_of(e);
        assert(entry_open(levels[l][y], l, tables));
        let m = choose|m: int| 0 <= m < tables.len() && (#[trigger] tables[m]).entry@ == e;
        assert(tables[m].entry.id == tables[n].entry.id);
        assert(m == n) by {
            if m < n {
                assert(tables[m].entry.id != tables[n].entry.id);
            } else if n < m {
                assert(tables[n].entry.id != tables[m].entry.id);
            }
        }
    }
}

/// A key of a merged table lies in no table of the next level that is not
/// merged.
proof fn lemma_not_shared(
    tables: Seq<OpenTable>,
    levels: Seq<Seq<EntryView>>,
    next_id: u64,
    level: int,
    t: OpenTable,
    u: OpenTable,
    k: Seq<u8>,
)
    requires
        sound_tables(tables, levels, next_id),
        0 <= level,
        tables.contains(t),
        tables.contains(u),
        merged_ids(levels, level).contains(t.entry.id),
        !merged_ids(levels, level).contains(u.entry.id),
        u.entry.level == level + 1,
        mentions(t, k),
    ensures
        !mentions(u, k),
{
    lemma_selected(tables, levels, next_id, level, t);
    lemma_selected(tables, levels, next_id, level, u);
    let i = tables.index_of(t);
    let j = tables.index_of(u);
    assert(table_listed(tables[i], levels, next_id));
    assert(table_listed(tables[j], levels, next_id));
    if mentions(u, k) {
        if t.entry.level == level {
            let sources = level_of(levels, level);
            let x = sources.index_of(t.entry@);
            assert(sources[x] == t.entry@);
            lemma_le_transitive(u.entry.min_key@, k, t.entry.max_key@);
            lemma_le_transitive(t.entry.min_key@, k, u.entry.max_key@);
            assert(lex_le(u.entry@.min_key, sources[x].max_key));
            assert(lex_le(sources[x].min_key, u.entry@.max_key));
            assert(overlaps(u.entry@, sources));
        } else {
            if i < j {
                assert(disjoint(tables[i], tables[j]));
            } else {
                assert(disjoint(tables[j], tables[i]));
            }
        }
    }
}

proof fn lemma_le_transitive(a: Seq<u8>, b: Seq<u8>, c: Seq<u8>)
    requires
        lex_le(a, b),
        lex_le(b, c),
    ensures
        lex_le(a, c),
{
    if a != b && b != c {
        lemma_lex_transitive(a, b, c);
    }
}

/// The tables after a compaction: those that were not merged, and the new one
/// where there is one.
pub open spec fn replaced(
    after: Seq<OpenTable>,
    tables: Seq<OpenTable>,
    ids: Seq<u64>,
    added: Option<OpenTable>,
) -> bool {
    forall|u: OpenTable| #[trigger]
        after.contains(u) <==> (tables.contains(u) && !ids.contains(u.entry.id)) || added == Some(u)
}

/// Compaction changes no contents: every key has the value that it had, also
/// under layers above the tables.
pub proof fn law_compaction_keeps_contents(
    tables: Seq<OpenTable>,
    levels: Seq<Seq<EntryView>>,
    next_id: u64,
    level: usize,
    after: Seq<OpenTable>,
    added: Option<OpenTable>,
    k: Seq<u8>,
)
    requires
        sound_tables(tables, levels, next_id),
        ordered(after),
        replaced(after, tables, merged_ids(levels, level as int), added),
        match added {
            Some(t) => t.entry.level == level + 1 && t.entry.id == next_id && layer(t.run())
                == compacted_layer(
                overlay(layers_of(picked(tables, merged_ids(levels, level as int)))),
                level + 1 >= levels.len() - 1,
            ),
            None => compacted_layer(
                overlay(layers_of(picked(tables, merged_ids(levels, level as int)))),
                level + 1 >= levels.len() - 1,
            ).dom().is_empty(),
        },
    ensures
        live(find(layers_of(after), k)) == live(find(layers_of(tables), k)),
{
    let ids = merged_ids(levels, level as int);
    let keep = |t: OpenTable| ids.contains(t.entry.id);
    let old_ones = picked(tables, ids);
    lemma_filter_contains(tables, keep);
    lemma_filter_ordered(tables, keep);
    let merged = overlay(layers_of(old_ones));
    let deepest = level + 1 >= levels.len() - 1;
    let kept = compacted_layer(merged, deepest);
    let first = lemma_first_exists(tables, k);
    let first_merged = lemma_first_exists(old_ones, k);
    assert(merged.contains_key(k) == (first_merged is Some));
    match first {
        None => {
            if let Some(t) = first_merged {
                assert(tables.contains(t));
            }
            assert forall|u: OpenTable| #[trigger] after.contains(u) implies !mentions(u, k) by {
                if added != Some(u) {
                    assert(tables.contains(u));
                }
            }
            lemma_find_none(after, k);
        },
        Some(t) => {
            lemma_selected(tables, levels, next_id, level as int, t);
            assert(tables.contains(t));
            if ids.contains(t.entry.id) {
                assert(old_ones.contains(t));
                assert(first_merged == Some(t)) by {
                    match first_merged {
                        Some(m) => {
                            assert(tables.contains(m));
                        },
                        None => {},
                    }
                }
                assert(merged[k] == layer(t.run())[k]);
                assert forall|u: OpenTable| #[trigger]
                    after.contains(u) && mentions(u, k) && added != Some(u) implies u.entry.level
                    >= level + 1 by {
                    lemma_selected(tables, levels, next_id, level as int, u);
                    assert(u == t || searched_before(t, u));
                }
                if kept.contains_key(k) {
                    let n = added->0;
                    assert(added is Some) by {
                        if added is None {
                            assert(kept.dom().contains(k));
                        }
                    }
                    assert(mentions(n, k));
                    assert(after.contains(n));
                    assert forall|u: OpenTable| #[trigger]
                        after.contains(u) && mentions(u, k) implies u == n || searched_before(
                        n,
                        u,
                    ) by {
                        if u != n {
                            let j = tables.index_of(u);
                            assert(table_listed(tables[j], levels, next_id));
                        }
                    }
                    lemma_find_first(after, k, n);
                } else {
                    // A tombstone that was dropped at the deepest level.
                    assert(deepest && merged[k] is None);
                    assert forall|u: OpenTable| #[trigger] after.contains(u) implies !mentions(
                        u,
                        k,
                    ) by {
                        if added != Some(u) && mentions(u, k) {
                            let j = tables.index_of(u);
                            assert(table_listed(tables[j], levels, next_id));
                            assert(u.entry.level == level + 1);
                            lemma_not_shared(tables, levels, next_id, level as int, t, u, k);
                        }
                    }
                    lemma_find_none(after, k);
                }
            } else {
                assert(after.contains(t));
                assert forall|u: OpenTable| #[trigger]
                    after.contains(u) && mentions(u, k) implies u == t || searched_before(t, u) by {
                    if added == Some(u) {
                        assert(kept.contains_key(k));
                        assert(merged.contains_key(k));
                        let m = first_merged->0;
                        assert(tables.contains(m));
                        lemma_selected(tables, levels, next_id, level as int, m);
                        assert(searched_before(t, m));
                        if t.entry.level == level + 1 {
                            lemma_not_shared(tables, levels, next_id, level as int, m, t, k);
                        }
                    } else {
                        assert(tables.contains(u));
                    }
                }
                lemma_find_first(after, k, t);
            }
        },
    }
}

/// A key within the range of a run that is sorted.
pub proof fn lemma_run_bounds(ps: Seq<Pair>, k: Seq<u8>)
    requires
        sorted(ps),
        layer(ps).contains_key(k),
    ensures
        ps.len() > 0,
        lex_le(ps[0].0, k),
        lex_le(k, ps.last().0),
{
    let i = key_index(ps, k);
    if i > 0 {
        assert(lex_lt(ps[0].0, ps[i].0));
    }
    if i < ps.len() - 1 {
        assert(lex_lt(ps[i].0, ps[ps.len() - 1].0));
    }
}

/// A table that was made from a run and recorded so.
pub open spec fn fresh_table(t: OpenTable, id: u64, level: usize) -> bool {
    &&& t.readable()
    &&& t.run().len() > 0
    &&& t.entry.id == id
    &&& t.entry.level == level
    &&& t.entry.file_name@ == sst_name(id)
    &&& t.entry.min_key@ == t.run()[0].0
    &&& t.entry.max_key@ == t.run().last().0
    &&& t.entry.entry_count == t.run().len()
}

/// The keys of a new table are within its bounds.
pub proof fn lemma_fresh_bounds(t: OpenTable, id: u64, level: usize)
    requires
        fresh_table(t, id, level),
    ensures
        within_bounds(t),
{
    assert forall|k: Seq<u8>| #[trigger] mentions(t, k) implies lex_le(t.entry.min_key@, k)
        && lex_le(k, t.entry.max_key@) by {
        lemma_run_bounds(t.run(), k);
    }
}

/// After a compaction the tables are again sound.
pub proof fn lemma_compaction_sound(
    tables: Seq<OpenTable>,
    levels: Seq<Seq<EntryView>>,
    next_id: u64,
    level: usize,
    after: Seq<OpenTable>,
    added: Option<OpenTable>,
    levels_after: Seq<Seq<EntryView>>,
    next_after: u64,
)
    requires
        sound_tables(tables, levels, next_id),
        ordered(after),
        replaced(after, tables, merged_ids(levels, level as int), added),
        match added {
            Some(t) => {
                &&& fresh_table(t, next_id, (level + 1) as usize)
                &&& level + 1 < usize::MAX
                &&& next_after == next_id + 1
                &&& levels_after == with_entry(
                    without_ids(levels, merged_ids(levels, level as int)),
                    t.entry@,
                )
                &&& layer(t.run()) == compacted_layer(
                    overlay(layers_of(picked(tables, merged_ids(levels, level as int)))),
                    level + 1 >= levels.len() - 1,
                )
            },
            None => {
                &&& next_after >= next_id
                &&& levels_after == without_ids(levels, merged_ids(levels, level as int))
            },
        },
    ensures
        sound_tables(after, levels_after, next_after),
{
    let ids = merged_ids(levels, level as int);
    let thinned = without_ids(levels, ids);
    let keep = |t: OpenTable| ids.contains(t.entry.id);
    let old_ones = picked(tables, ids);
    lemma_filter_contains(tables, keep);
    lemma_filter_ordered(tables, keep);
    assert forall|l: int, e: EntryView| 0 <= l < levels.len() implies (
    #[trigger] thinned[l].contains(e) <==> levels[l].contains(e) && !ids.contains(e.id)) by {
        lemma_filter_contains(levels[l], |e: EntryView| !ids.contains(e.id));
    }
    if let Some(n) = added {
        lemma_fresh_bounds(n, next_id, (level + 1) as usize);
    }
    assert forall|i: int| 0 <= i < after.len() implies (#[trigger] after[i]).readable()
        && table_listed(after[i], levels_after, next_after) by {
        let t = after[i];
        assert(after.contains(t));
        if added == Some(t) {
            let row = levels_after[level + 1];
            assert(row.last() == t.entry@);
            assert(row[row.len() - 1] == t.entry@);
        } else {
            let j = tables.index_of(t);
            assert(table_listed(tables[j], levels, next_id));
            assert(tables[j].readable());
            let l = t.entry.level as int;
            assert(thinned[l].contains(t.entry@));
            let x = thinned[l].index_of(t.entry@);
            assert(levels_after[l][x] == t.entry@);
        }
    }
    assert forall|i: int, j: int| 0 <= i < j < after.len() implies (
    #[trigger] after[i]).entry.id != (#[trigger] after[j]).entry.id by {
        let t = after[i];
        let u = after[j];
        assert(searched_before(t, u));
        assert(after.contains(t));
        assert(after.contains(u));
        if added == Some(t) {
            let y = tables.index_of(u);
            assert(table_listed(tables[y], levels, next_id));
        } else if added == Some(u) {
            let x = tables.index_of(t);
            assert(table_listed(tables[x], levels, next_id));
        } else {
            let x = tables.index_of(t);
            let y = tables.index_of(u);
            assert(x != y);
            if x < y {
                assert(tables[x].entry.id != tables[y].entry.id);
            } else {
                assert(tables[y].entry.id != tables[x].entry.id);
            }
        }
    }
    assert forall|i: int, j: int|
        0 <= i < j < after.len() && after[i].entry.level == after[j].entry.level
            && after[i].entry.level >= 1 implies disjoint(
        #[trigger] after[i],
        #[trigger] after[j],
    ) by {
        let t = after[i];
        let u = after[j];
        assert(searched_before(t, u));
        assert(after.contains(t));
        assert(after.contains(u));
        if added == Some(t) {
            lemma_new_disjoint(tables, levels, next_id, level, t, u);
        } else if added == Some(u) {
            lemma_new_disjoint(tables, levels, next_id, level, u, t);
        } else {
            let x = tables.index_of(t);
            let y = tables.index_of(u);
            if x < y {
                assert(disjoint(tables[x], tables[y]));
            } else {
                assert(disjoint(tables[y], tables[x]));
            }
        }
    }
    assert forall|l: int, x: int|
        0 <= l < levels_after.len() && 0 <= x < levels_after[l].len() implies entry_open(
        #[trigger] levels_after[l][x],
        l,
        after,
    ) by {
        let e = levels_after[l][x];
        if added is Some && e == (added->0).entry@ && l == level + 1 {
            let n = added->0;
            assert(after.contains(n));
            assert(after[after.index_of(n)].entry@ == e);
        } else {
            assert(l < levels.len());
            assert(thinned[l][x] == e);
            assert(thinned[l].contains(e));
            let y = levels[l].index_of(e);
            assert(entry_open(levels[l][y], l, tables));
            let m = choose|m: int| 0 <= m < tables.len() && (#[trigger] tables[m]).entry@ == e;
            let t = tables[m];
            assert(tables.contains(t));
            assert(after.contains(t));
            assert(after[after.index_of(t)].entry@ == e);
        }
    }
    assert forall|l: int| 0 <= l < levels_after.len() implies ids_differ(
        #[trigger] levels_after[l],
    ) by {
        if l < levels.len() {
            assert(ids_differ(levels[l]));
            lemma_filter_ids_differ(levels[l], |e: EntryView| !ids.contains(e.id));
            assert(ids_differ(thinned[l]));
        }
        if added is Some && l == level + 1 {
            let row = levels_after[l];
            let old_row = row.drop_last();
            let n = (added->0).entry@;
            assert forall|x: int, y: int| 0 <= x < y < row.len() implies (#[trigger] row[x]).id != (
            #[trigger] row[y]).id by {
                assert(l < levels.len());
                assert(old_row =~= thinned[l]);
                assert(thinned[l][x] == row[x]);
                if y < old_row.len() {
                    assert(thinned[l][x].id != thinned[l][y].id);
                } else {
                    assert(thinned[l].contains(row[x]));
                    lemma_id_below(tables, levels, next_id, l, row[x]);
                }
            }
        }
    }
    assert(levels_after.len() > 0);
}

/// The number of a listed entry is below the next number.
proof fn lemma_id_below(
    tables: Seq<OpenTable>,
    levels: Seq<Seq<EntryView>>,
    next_id: u64,
    l: int,
    e: EntryView,
)
    requires
        sound_tables(tables, levels, next_id),
        0 <= l < levels.len(),
        levels[l].contains(e),
    ensures
        e.id < next_id,
{
    let x = levels[l].index_of(e);
    assert(entry_open(levels[l][x], l, tables));
    let m = choose|m: int| 0 <= m < tables.len() && (#[trigger] tables[m]).entry@ == e;
    assert(table_listed(tables[m], levels, next_id));
}

/// The table that a compaction makes shares no key with those of its level
/// that were not merged.
proof fn lemma_new_disjoint(
    tables: Seq<OpenTable>,
    levels: Seq<Seq<EntryView>>,
    next_id: u64,
    level: usize,
    n: OpenTable,
    u: OpenTable,
)
    requires
        sound_tables(tables, levels, next_id),
        n.entry.level == level + 1,
        u.entry.level == level + 1,
        tables.contains(u),
        !merged_ids(levels, level as int).contains(u.entry.id),
        layer(n.run()) == compacted_layer(
            overlay(layers_of(picked(tables, merged_ids(levels, level as int)))),
            level + 1 >= levels.len() - 1,
        ),
    ensures
        disjoint(n, u),
        disjoint(u, n),
{
    let ids = merged_ids(levels, level as int);
    let old_ones = picked(tables, ids);
    lemma_filter_contains(tables, |t: OpenTable| ids.contains(t.entry.id));
    lemma_filter_ordered(tables, |t: OpenTable| ids.contains(t.entry.id));
    assert forall|k: Seq<u8>| !(#[trigger] mentions(n, k) && #[trigger] mentions(u, k)) by {
        if mentions(n, k) {
            let m = lemma_first_exists(old_ones, k);
            assert(overlay(layers_of(old_ones)).contains_key(k));
            assert(m is Some);
            lemma_not_shared(tables, levels, next_id, level as int, m->0, u, k);
        }
    }
}

/// After a flush the tables are again sound.
pub proof fn lemma_flush_sound(
    tables: Seq<OpenTable>,
    levels: Seq<Seq<EntryView>>,
    next_id: u64,
    added: OpenTable,
)
    requires
        sound_tables(tables, levels, next_id),
        next_id < u64::MAX,
        fresh_table(added, next_id, 0),
    ensures
        sound_tables(
            tables.insert(0, added),
            with_entry(levels, added.entry@),
            (next_id + 1) as u64,
        ),
{
    let after = tables.insert(0, added);
    let levels_after = with_entry(levels, added.entry@);
    lemma_fresh_bounds(added, next_id, 0);
    assert(forall|i: int| 0 < i < after.len() ==> after[i] == tables[i - 1]);
    assert(levels_after.len() == levels.len());
    assert forall|i: int| 0 <= i < after.len() implies (#[trigger] after[i]).readable()
        && table_listed(after[i], levels_after, (next_id + 1) as u64) by {
        let t = after[i];
        if i == 0 {
            let row = levels_after[0];
            assert(row[row.len() - 1] == t.entry@);
        } else {
            assert(table_listed(tables[i - 1], levels, next_id));
            assert(tables[i - 1].readable());
            let l = t.entry.level as int;
            let x = levels[l].index_of(t.entry@);
            assert(levels_after[l][x] == t.entry@);
        }
    }
    assert forall|i: int, j: int| 0 <= i < j < after.len() implies searched_before(
        #[trigger] after[i],
        #[trigger] after[j],
    ) && after[i].entry.id != after[j].entry.id && (after[i].entry.level == after[j].entry.level
        && after[i].entry.level >= 1 ==> disjoint(after[i], after[j])) by {
        assert(table_listed(tables[j - 1], levels, next_id));
        if i > 0 {
            assert(searched_before(tables[i - 1], tables[j - 1]));
            assert(tables[i - 1].entry.id != tables[j - 1].entry.id);
            if after[i].entry.level == after[j].entry.level && after[i].entry.level >= 1 {
                assert(disjoint(tables[i - 1], tables[j - 1]));
            }
        }
    }
    assert forall|l: int, x: int|
        0 <= l < levels_after.len() && 0 <= x < levels_after[l].len() implies entry_open(
        #[trigger] levels_after[l][x],
        l,
        after,
    ) by {
        let e = levels_after[l][x];
        if l == 0 && x == levels[0].len() {
            assert(after[0].entry@ == e);
        } else {
            assert(levels[l][x] == e);
            assert(entry_open(levels[l][x], l, tables));
            let m = choose|m: int| 0 <= m < tables.len() && (#[trigger] tables[m]).entry@ == e;
            assert(after[m + 1].entry@ == e);
        }
    }
    assert forall|l: int| 0 <= l < levels_after.len() implies ids_differ(
        #[trigger] levels_after[l],
    ) by {
        assert(ids_differ(levels[l]));
        if l == 0 {
            let row = levels_after[0];
            assert forall|x: int, y: int| 0 <= x < y < row.len() implies (#[trigger] row[x]).id != (
            #[trigger] row[y]).id by {
                assert(levels[0][x] == row[x]);
                if y < levels[0].len() {
                    assert(levels[0][x].id != levels[0][y].id);
                } else {
                    assert(levels[0].contains(row[x]));
                    lemma_id_below(tables, levels, next_id, 0, row[x]);
                }
            }
        }
    }
}

/// Two open tables of one file with one entry.
pub open spec fn same_table(t: OpenTable, u: OpenTable) -> bool {
    &&& t.entry@ == u.entry@
    &&& t.reader.data() == u.reader.data()
    &&& t.reader.well_formed()
    &&& u.reader.well_formed()
}

/// Every table of `a` has its like in `b`.
pub open spec fn all_within(a: Seq<OpenTable>, b: Seq<OpenTable>) -> bool {
    forall|i: int| 0 <= i < a.len() ==> has_like(#[trigger] a[i], b)
}

/// Some table of `b` is like `t`.
#[verifier::opaque]
pub open spec fn has_like(t: OpenTable, b: Seq<OpenTable>) -> bool {
    exists|j: int| 0 <= j < b.len() && same_table(t, #[trigger] b[j])
}

proof fn lemma_like(t: OpenTable, b: Seq<OpenTable>) -> (j: int)
    requires
        has_like(t, b),
    ensures
        0 <= j < b.len(),
        same_table(t, b[j]),
{
    reveal(has_like);
    choose|j: int| 0 <= j < b.len() && same_table(t, #[trigger] b[j])
}

/// A table that is like one of `b` has its like there.
pub proof fn lemma_has_like(t: OpenTable, b: Seq<OpenTable>, j: int)
    requires
        0 <= j < b.len(),
        same_table(t, b[j]),
    ensures
        has_like(t, b),
{
    reveal(has_like);
}

/// Two rows of tables in search order that have each other's tables are the
/// same row.
pub proof fn lemma_same_rows(a: Seq<OpenTable>, b: Seq<OpenTable>)
    requires
        ordered(a),
        ordered(b),
        all_within(a, b),
        all_within(b, a),
    ensures
        a.len() == b.len(),
        forall|i: int| 0 <= i < a.len() ==> same_table(#[trigger] a[i], b[i]),
    decreases a.len(),
{
    if a.len() == 0 {
        if b.len() > 0 {
            assert(has_like(b[0], a));
            let i = lemma_like(b[0], a);
        }
    } else {
        assert(has_like(a[0], b));
        let j = lemma_like(a[0], b);
        assert(has_like(b[0], a));
        let i = lemma_like(b[0], a);
        if j > 0 {
            assert(searched_before(b[0], b[j]));
            if i > 0 {
                assert(searched_before(a[0], a[i]));
            }
            assert(b[0].entry@.id == a[i].entry@.id);
            assert(b[0].entry@.level == a[i].entry@.level);
            assert(b[j].entry@.id == a[0].entry@.id);
            assert(b[j].entry@.level == a[0].entry@.level);
        }
        assert(j == 0);
        let ar = a.drop_first();
        let br = b.drop_first();
        lemma_rest_within(a, b);
        lemma_rest_within(b, a);
        assert(ordered(ar)) by {
            assert forall|x: int, y: int| 0 <= x < y < ar.len() implies searched_before(
                #[trigger] ar[x],
                #[trigger] ar[y],
            ) by {
                assert(searched_before(a[x + 1], a[y + 1]));
            }
        }
        assert(ordered(br)) by {
            assert forall|x: int, y: int| 0 <= x < y < br.len() implies searched_before(
                #[trigger] br[x],
                #[trigger] br[y],
            ) by {
                assert(searched_before(b[x + 1], b[y + 1]));
            }
        }
        lemma_same_rows(ar, br);
        assert forall|x: int| 0 <= x < a.len() implies same_table(#[trigger] a[x], b[x]) by {
            if x > 0 {
                assert(same_table(ar[x - 1], br[x - 1]));
            }
        }
    }
}

proof fn lemma_rest_within(a: Seq<OpenTable>, b: Seq<OpenTable>)
    requires
        ordered(a),
        all_within(a, b),
        a.len() > 0,
        b.len() > 0,
        same_table(a[0], b[0]) || same_table(b[0], a[0]),
    ensures
        all_within(a.drop_first(), b.drop_first()),
{
    let ar = a.drop_first();
    let br = b.drop_first();
    assert forall|x: int| 0 <= x < ar.len() implies has_like(#[trigger] ar[x], br) by {
        assert(has_like(a[x + 1], b));
        let j = lemma_like(a[x + 1], b);
        assert(searched_before(a[0], a[x + 1]));
        if j == 0 {
            assert(a[x + 1].entry@.id == a[0].entry@.id);
            assert(a[x + 1].entry@.level == a[0].entry@.level);
        }
        assert(same_table(ar[x], br[j - 1]));
        lemma_has_like(ar[x], br, j - 1);
    }
}

/// Like tables have the same entries.
pub proof fn lemma_same_run(t: OpenTable, u: OpenTable)
    requires
        same_table(t, u),
    ensures
        t.run() == u.run(),
        t.readable() == u.readable(),
{
}

/// Tables that were opened again say what they said.
pub proof fn lemma_reopened(
    tables: Seq<OpenTable>,
    again: Seq<OpenTable>,
    levels: Seq<Seq<EntryView>>,
    next_id: u64,
)
    requires
        sound_tables(tables, levels, next_id),
        again.len() == tables.len(),
        ordered(again),
        forall|i: int| 0 <= i < again.len() ==> same_table(#[trigger] again[i], tables[i]),
    ensures
        sound_tables(again, levels, next_id),
        layers_of(again) == layers_of(tables),
{
    assert forall|i: int| 0 <= i < again.len() implies {
        &&& (#[trigger] again[i]).readable()
        &&& again[i].run() == tables[i].run()
        &&& again[i].entry@ == tables[i].entry@
        &&& table_listed(again[i], levels, next_id)
    } by {
        assert(same_table(again[i], tables[i]));
        lemma_same_run(again[i], tables[i]);
        assert(tables[i].readable());
        assert(table_listed(tables[i], levels, next_id));
        assert forall|k: Seq<u8>| #[trigger] mentions(again[i], k) implies mentions(
            tables[i],
            k,
        ) by {}
        assert(again[i].entry@.min_key == tables[i].entry@.min_key);
        assert(again[i].entry@.max_key == tables[i].entry@.max_key);
        assert(again[i].entry@.file_name == tables[i].entry@.file_name);
        assert(again[i].entry@.id == tables[i].entry@.id);
        assert(again[i].entry@.level == tables[i].entry@.level);
    }
    assert(layers_of(again) =~= layers_of(tables));
    assert forall|i: int, j: int| 0 <= i < j < again.len() implies (
    #[trigger] again[i]).entry.id != (#[trigger] again[j]).entry.id && (again[i].entry.level
        == again[j].entry.level && again[i].entry.level >= 1 ==> disjoint(again[i], again[j])) by {
        assert(again[i].entry@ == tables[i].entry@);
        assert(again[j].entry@ == tables[j].entry@);
        assert(again[i].entry@.id == tables[i].entry@.id);
        assert(again[j].entry@.id == tables[j].entry@.id);
        assert(again[i].entry@.level == tables[i].entry@.level);
        assert(again[j].entry@.level == tables[j].entry@.level);
        assert(tables[i].entry.id != tables[j].entry.id);
        if again[i].entry.level == again[j].entry.level && again[i].entry.level >= 1 {
            assert(disjoint(tables[i], tables[j]));
            assert forall|k: Seq<u8>| !(#[trigger] mentions(again[i], k)
                && #[trigger] mentions(again[j], k)) by {
                assert(!(mentions(tables[i], k) && mentions(tables[j], k)));
            }
        }
    }
    assert forall|l: int, x: int|
        0 <= l < levels.len() && 0 <= x < levels[l].len() implies entry_open(
        #[trigger] levels[l][x],
        l,
        again,
    ) by {
        assert(entry_open(levels[l][x], l, tables));
        let m = choose|m: int|
            0 <= m < tables.len() && (#[trigger] tables[m]).entry@ == levels[l][x];
        assert(again[m].entry@ == levels[l][x]);
    }
}

} // verus!
