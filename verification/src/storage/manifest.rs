//! The manifest: which table files there are, and at which level each stands.

use vstd::prelude::*;
use crate::bytes::copy;
use crate::text::{
    decimal, digit_value, digits_value, lemma_decimal_value, padded_decimal, zero_padded,
};

verus! {

/// What the manifest records of a table file.
#[derive(Debug)]
pub struct SSTableEntry {
    pub id: u64,
    pub level: usize,
    pub file_name: String,
    pub min_key: Vec<u8>,
    pub max_key: Vec<u8>,
    pub entry_count: usize,
    pub file_size: u64,
}

/// What an entry of the manifest says.
pub struct EntryView {
    pub id: u64,
    pub level: usize,
    pub file_name: Seq<char>,
    pub min_key: Seq<u8>,
    pub max_key: Seq<u8>,
    pub entry_count: usize,
    pub file_size: u64,
}

impl View for SSTableEntry {
    type V = EntryView;

    open spec fn view(&self) -> EntryView {
        EntryView {
            id: self.id,
            level: self.level,
            file_name: self.file_name@,
            min_key: self.min_key@,
            max_key: self.max_key@,
            entry_count: self.entry_count,
            file_size: self.file_size,
        }
    }
}

impl SSTableEntry {
    /// A copy of the entry.
    pub fn copied(&self) -> (r: Self)
        ensures
            r@ == self@,
    {
        SSTableEntry {
            id: self.id,
            level: self.level,
            file_name: self.file_name.clone(),
            min_key: copy(self.min_key.as_slice()),
            max_key: copy(self.max_key.as_slice()),
            entry_count: self.entry_count,
            file_size: self.file_size,
        }
    }
}

/// The entries of one level.
pub open spec fn level_view(level: Seq<SSTableEntry>) -> Seq<EntryView> {
    Seq::new(level.len(), |i: int| level[i]@)
}

/// The name of the table file with the number `id`.
pub open spec fn sst_name(id: u64) -> Seq<char> {
    zero_padded(decimal(id as nat), 8) + ".sst"@
}

/// The entries whose numbers are not among `ids`.
pub open spec fn without(level: Seq<EntryView>, ids: Seq<u64>) -> Seq<EntryView> {
    level.filter(|e: EntryView| !ids.contains(e.id))
}

/// Levels of table files, with the number that the next file gets.
///
/// The files of the first level may overlap; those of each deeper level do
/// not.
#[derive(Debug)]
pub struct Manifest {
    pub levels: Vec<Vec<SSTableEntry>>,
    pub next_sst_id: u64,
}

impl View for Manifest {
    type V = Seq<Seq<EntryView>>;

    open spec fn view(&self) -> Seq<Seq<EntryView>> {
        Seq::new(self.levels@.len(), |i: int| level_view(self.levels@[i]@))
    }
}

/// The levels with an entry added at the end of its own level.
pub open spec fn with_entry(levels: Seq<Seq<EntryView>>, e: EntryView) -> Seq<Seq<EntryView>> {
    let n = if e.level as int >= levels.len() {
        e.level + 1
    } else {
        levels.len() as int
    };
    Seq::new(
        n as nat,
        |i: int|
            {
                let old_level = if i < levels.len() {
                    levels[i]
                } else {
                    Seq::empty()
                };
                if i == e.level {
                    old_level.push(e)
                } else {
                    old_level
                }
            },
    )
}

impl Manifest {
    /// A manifest of empty levels.
    pub fn new(num_levels: usize) -> (r: Self)
        ensures
            r@ == Seq::new(num_levels as nat, |i: int| Seq::<EntryView>::empty()),
            r.next_sst_id == 0,
    {
        let mut levels: Vec<Vec<SSTableEntry>> = Vec::new();
        let mut i: usize = 0;
        while i < num_levels
            invariant
                i <= num_levels,
                levels.len() == i,
                forall|j: int| 0 <= j < i ==> (#[trigger] levels@[j])@.len() == 0,
            decreases num_levels - i,
        {
            levels.push(Vec::new());
            i += 1;
        }
        let r = Manifest { levels, next_sst_id: 0 };
        assert(r@ =~~= Seq::new(num_levels as nat, |i: int| Seq::<EntryView>::empty()));
        r
    }

    /// The number and the name of the next table file; the number counts up.
    pub fn next_sst_filename(&mut self) -> (r: (u64, String))
        requires
            old(self).next_sst_id < u64::MAX,
        ensures
            r.0 == old(self).next_sst_id,
            r.1@ == sst_name(r.0),
            final(self).next_sst_id == old(self).next_sst_id + 1,
            final(self).levels == old(self).levels,
    {
        let id: u64 = self.next_sst_id;
        self.next_sst_id = id + 1;
        (id, padded_decimal(id, 8).concat(".sst"))
    }

    /// Adds an entry at its level, which is made where it is missing.
    pub fn add_sstable(&mut self, entry: SSTableEntry)
        requires
            entry.level < usize::MAX,
        ensures
            final(self)@ == with_entry(old(self)@, entry@),
            final(self).next_sst_id == old(self).next_sst_id,
    {
        let level: usize = entry.level;
        let ghost e = entry@;
        let ghost before = self@;
        let ghost count = self.levels@.len();
        while self.levels.len() <= level
            invariant
                level < usize::MAX,
                self.next_sst_id == old(self).next_sst_id,
                before.len() == count,
                before.len() <= self.levels@.len(),
                self.levels@.len() <= level + 1 || self.levels@.len() == count,
                forall|i: int|
                    0 <= i < before.len() ==> level_view((#[trigger] self.levels@[i])@)
                        == before[i],
                forall|i: int|
                    before.len() <= i < self.levels@.len() ==> (
                    #[trigger] self.levels@[i])@.len() == 0,
            decreases level + 1 - self.levels@.len(),
        {
            self.levels.push(Vec::new());
        }
        let ghost mid = self.levels@;
        self.levels[level].push(entry);
        proof {
            let after = with_entry(before, e);
            assert(self@.len() == after.len());
            assert forall|i: int| 0 <= i < after.len() implies self@[i] =~= after[i] by {
                if i == level {
                    assert(self.levels@[i]@ == mid[i]@.push(entry));
                    assert(level_view(mid[i]@.push(entry)) =~= level_view(mid[i]@).push(e));
                    if i >= before.len() {
                        assert(level_view(mid[i]@) =~= Seq::<EntryView>::empty());
                    }
                } else {
                    assert(self.levels@[i] == mid[i]);
                    if i >= before.len() {
                        assert(level_view(mid[i]@) =~= Seq::<EntryView>::empty());
                    }
                }
            }
            assert(self@ =~= after);
        }
    }

    /// Removes the entries with the given numbers from every level.
    pub fn remove_sstables(&mut self, ids: &[u64])
        ensures
            final(self)@ == Seq::new(
                old(self)@.len(),
                |i: int| without(old(self)@[i], ids@),
            ),
            final(self).next_sst_id == old(self).next_sst_id,
    {
        let ghost before = self@;
        let mut i: usize = 0;
        let mut out: Vec<Vec<SSTableEntry>> = Vec::new();
        while i < self.levels.len()
            invariant
                i <= self.levels.len(),
                self.next_sst_id == old(self).next_sst_id,
                self@ == before,
                out.len() == i,
                forall|j: int|
                    0 <= j < i ==> level_view((#[trigger] out@[j])@) == without(before[j], ids@),
            decreases self.levels.len() - i,
        {
            out.push(retain_others(&self.levels[i], ids));
            assert(before[i as int] == level_view(self.levels@[i as int]@));
            i += 1;
        }
        self.levels = out;
        assert(self@ =~= Seq::new(before.len(), |i: int| without(before[i], ids@)));
    }

    /// The entries of a level; a level that is missing has none.
    pub fn level(&self, level: usize) -> (r: &[SSTableEntry])
        ensures
            level_view(r@) == if level < self@.len() {
                self@[level as int]
            } else {
                Seq::empty()
            },
    {
        if level < self.levels.len() {
            self.levels[level].as_slice()
        } else {
            let none: &[SSTableEntry] = &[];
            assert(level_view(none@) =~= Seq::<EntryView>::empty());
            none
        }
    }

    /// The number of entries of a level.
    pub fn level_count(&self, level: usize) -> (r: usize)
        ensures
            r == if level < self@.len() {
                self@[level as int].len()
            } else {
                0
            },
    {
        if level < self.levels.len() {
            self.levels[level].len()
        } else {
            0
        }
    }

    /// The number of levels.
    pub fn num_levels(&self) -> (r: usize)
        ensures
            r == self@.len(),
    {
        self.levels.len()
    }

    /// A copy of the manifest.
    pub fn copied(&self) -> (r: Self)
        ensures
            r@ == self@,
            r.next_sst_id == self.next_sst_id,
    {
        let mut levels: Vec<Vec<SSTableEntry>> = Vec::new();
        let mut i: usize = 0;
        while i < self.levels.len()
            invariant
                i <= self.levels.len(),
                levels.len() == i,
                forall|j: int|
                    0 <= j < i ==> level_view((#[trigger] levels@[j])@) == level_view(
                        self.levels@[j]@,
                    ),
            decreases self.levels.len() - i,
        {
            levels.push(copy_level(&self.levels[i]));
            i += 1;
        }
        let r = Manifest { levels, next_sst_id: self.next_sst_id };
        assert(r@ =~= self@);
        r
    }
}

fn copy_level(level: &Vec<SSTableEntry>) -> (r: Vec<SSTableEntry>)
    ensures
        level_view(r@) == level_view(level@),
{
    let mut out: Vec<SSTableEntry> = Vec::new();
    let mut i: usize = 0;
    while i < level.len()
        invariant
            i <= level.len(),
            out.len() == i,
            forall|j: int| 0 <= j < i ==> (#[trigger] out@[j])@ == level@[j]@,
        decreases level.len() - i,
    {
        out.push(level[i].copied());
        i += 1;
    }
    assert(level_view(out@) =~= level_view(level@));
    out
}

/// Whether a number is in a row of numbers.
pub fn contains_id(ids: &[u64], id: u64) -> (r: bool)
    ensures
        r == ids@.contains(id),
{
    let mut i: usize = 0;
    while i < ids.len()
        invariant
            i <= ids.len(),
            forall|j: int| 0 <= j < i ==> ids@[j] != id,
        decreases ids.len() - i,
    {
        if ids[i] == id {
            return true;
        }
        i += 1;
    }
    false
}

fn retain_others(level: &Vec<SSTableEntry>, ids: &[u64]) -> (r: Vec<SSTableEntry>)
    ensures
        level_view(r@) == without(level_view(level@), ids@),
{
    let ghost all = level_view(level@);
    let ghost keep = |e: EntryView| !ids@.contains(e.id);
    let mut out: Vec<SSTableEntry> = Vec::new();
    let mut i: usize = 0;
    proof {
        reveal(Seq::filter);
        assert(level_view(out@) =~= all.take(0).filter(keep));
    }
    while i < level.len()
        invariant
            i <= level.len(),
            all == level_view(level@),
            keep == (|e: EntryView| !ids@.contains(e.id)),
            level_view(out@) == all.take(i as int).filter(keep),
        decreases level.len() - i,
    {
        let ghost before = level_view(out@);
        let ghost e = all[i as int];
        proof {
            reveal(Seq::filter);
            assert(all.take(i + 1).drop_last() =~= all.take(i as int));
            assert(all.take(i + 1).last() == e);
        }
        if !contains_id(ids, level[i].id) {
            out.push(level[i].copied());
            assert(level_view(out@) =~= before.push(e));
        }
        i += 1;
    }
    assert(all.take(i as int) =~= all);
    out
}

/// Zeros before a row of digits do not change its value.
proof fn lemma_padded_value(text: Seq<char>, n: nat)
    ensures
        digits_value(Seq::new(n, |i: int| '0') + text) == digits_value(text),
    decreases text.len(), n,
{
    let zeros = Seq::new(n, |i: int| '0');
    let all = zeros + text;
    if text.len() > 0 {
        lemma_padded_value(text.drop_last(), n);
        assert(all.drop_last() =~= zeros + text.drop_last());
    } else if n > 0 {
        lemma_padded_value(text, (n - 1) as nat);
        assert(all.drop_last() =~= Seq::new((n - 1) as nat, |i: int| '0') + text);
        assert(all.last() == '0');
        assert(digit_value('0') == Some(0nat));
    } else {
        assert(all =~= text);
    }
}

/// Different table files have different names.
pub proof fn law_names_differ(a: u64, b: u64)
    ensures
        sst_name(a) == sst_name(b) ==> a == b,
{
    if sst_name(a) == sst_name(b) {
        let x = zero_padded(decimal(a as nat), 8);
        let y = zero_padded(decimal(b as nat), 8);
        let tail = ".sst"@;
        assert(sst_name(a).len() == x.len() + tail.len());
        assert(x =~= sst_name(a).take(x.len() as int));
        assert(y =~= sst_name(b).take(y.len() as int));
        lemma_decimal_value(a as nat);
        lemma_decimal_value(b as nat);
        lemma_padded_value(decimal(a as nat), (8 - decimal(a as nat).len()) as nat);
        lemma_padded_value(decimal(b as nat), (8 - decimal(b as nat).len()) as nat);
    }
}

} // verus!
