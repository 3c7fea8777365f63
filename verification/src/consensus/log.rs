//! The replicated log of a node.
//!
//! Entries are counted from one; a snapshot stands for the entries up to its
//! index. Every entry that is appended goes to a write-ahead log, from which
//! the log is restored.

use vstd::prelude::*;
use crate::bytes::{
    append, copy_range, get_u32, get_u64, le_bytes, le_value, lemma_base_pow, lemma_le_round_trip,
    put_u32, put_u64,
};
use crate::consensus::message::{entries_view, EntryType, EntryView, LogEntry};
use crate::error::Error;
use crate::storage::wal::{
    encode_record, encode_records, law_replay, record_data, valid_records, MAX_RECORD_SIZE,
    WalReader, WalRecord, WalWriter,
};
use crate::text::{decimal, decimal_text, joined};
use crate::types::{LogIndex, Term};

verus! {

/// What a log holds: the entries after the snapshot, and the snapshot's index
/// and term.
#[verifier::ext_equal]
pub struct LogView {
    pub entries: Seq<EntryView>,
    pub snapshot_index: LogIndex,
    pub snapshot_term: Term,
}

/// The entry with an index, where the log has it.
pub open spec fn entry_at(l: LogView, index: LogIndex) -> Option<EntryView> {
    let i = index - l.snapshot_index - 1;
    if 0 <= i < l.entries.len() {
        Some(l.entries[i])
    } else {
        None
    }
}

/// The index of the last entry, or of the snapshot where there is none.
pub open spec fn last_index_of(l: LogView) -> LogIndex {
    if l.entries.len() == 0 {
        l.snapshot_index
    } else {
        l.entries.last().index
    }
}

/// The term of the last entry, or of the snapshot where there is none.
pub open spec fn last_term_of(l: LogView) -> Term {
    if l.entries.len() == 0 {
        l.snapshot_term
    } else {
        l.entries.last().term
    }
}

/// The term at an index, where it is known; at index zero it is zero.
pub open spec fn term_of(l: LogView, index: LogIndex) -> Option<Term> {
    if index == 0 {
        Some(0)
    } else if index == l.snapshot_index {
        Some(l.snapshot_term)
    } else {
        match entry_at(l, index) {
            Some(e) => Some(e.term),
            None => None,
        }
    }
}

/// The entries from an index on; all entries where the index is not after the
/// snapshot.
pub open spec fn suffix_from(l: LogView, start: LogIndex) -> Seq<EntryView> {
    let i = start - l.snapshot_index - 1;
    if i <= 0 {
        l.entries
    } else if i >= l.entries.len() {
        Seq::empty()
    } else {
        l.entries.skip(i)
    }
}

/// The log without the entries after an index.
pub open spec fn truncated(l: LogView, index: LogIndex) -> LogView {
    let keep = index - l.snapshot_index;
    LogView {
        entries: if keep <= 0 {
            Seq::empty()
        } else if keep >= l.entries.len() {
            l.entries
        } else {
            l.entries.take(keep)
        },
        ..l
    }
}

/// The log with more entries at its end.
pub open spec fn extended(l: LogView, es: Seq<EntryView>) -> LogView {
    LogView { entries: l.entries + es, ..l }
}

/// The log with a snapshot in place of the entries up to an index; a snapshot
/// that is not newer changes nothing.
pub open spec fn compacted(l: LogView, index: LogIndex, term: Term) -> LogView {
    let discard = index - l.snapshot_index;
    if discard <= 0 {
        l
    } else {
        LogView {
            entries: if discard >= l.entries.len() {
                Seq::empty()
            } else {
                l.entries.skip(discard)
            },
            snapshot_index: index,
            snapshot_term: term,
        }
    }
}

/// Entries are numbered from the snapshot on without gaps.
pub open spec fn contiguous(l: LogView) -> bool {
    forall|i: int|
        0 <= i < l.entries.len() ==> (#[trigger] l.entries[i]).index == l.snapshot_index + 1 + i
}

/// The byte of an entry's type.
pub open spec fn type_byte(t: EntryType) -> u8 {
    match t {
        EntryType::Normal => 0,
        EntryType::ConfigChange => 1,
        EntryType::Noop => 2,
    }
}

/// An entry as its record stores it.
pub open spec fn encode_log_entry(e: EntryView) -> Seq<u8> {
    le_bytes(e.index as nat, 8) + le_bytes(e.term as nat, 8) + seq![type_byte(e.entry_type)]
        + le_bytes(e.data.len(), 4) + e.data
}

/// What a record says, or why it is damaged.
pub open spec fn decode_log_entry(data: Seq<u8>) -> Result<EntryView, Seq<char>> {
    if data.len() < 21 {
        Err("log entry too short"@)
    } else if data[16] > 2 {
        Err("unknown entry type: "@ + decimal(data[16] as nat))
    } else {
        let len = le_value(data.subrange(17, 21)) as int;
        if data.len() < 21 + len {
            Err("log entry truncated"@)
        } else {
            Ok(
                EntryView {
                    index: le_value(data.subrange(0, 8)) as u64,
                    term: le_value(data.subrange(8, 16)) as u64,
                    data: data.subrange(21, 21 + len),
                    entry_type: if data[16] == 0 {
                        EntryType::Normal
                    } else if data[16] == 1 {
                        EntryType::ConfigChange
                    } else {
                        EntryType::Noop
                    },
                },
            )
        }
    }
}

/// Reading the record of an entry gives the entry back.
pub proof fn law_log_entry_round_trip(e: EntryView)
    requires
        e.data.len() <= u32::MAX,
    ensures
        decode_log_entry(encode_log_entry(e)) == Ok::<EntryView, Seq<char>>(e),
        encode_log_entry(e).len() == 21 + e.data.len(),
{
    lemma_base_pow();
    lemma_le_round_trip(e.index as nat, 8);
    lemma_le_round_trip(e.term as nat, 8);
    lemma_le_round_trip(e.data.len(), 4);
    let data = encode_log_entry(e);
    assert(data.subrange(0, 8) =~= le_bytes(e.index as nat, 8));
    assert(data.subrange(8, 16) =~= le_bytes(e.term as nat, 8));
    assert(data[16] == type_byte(e.entry_type));
    assert(data.subrange(17, 21) =~= le_bytes(e.data.len(), 4));
    assert(data.subrange(21, 21 + e.data.len() as int) =~= e.data);
}

/// The records of a row of entries.
pub open spec fn log_records(es: Seq<EntryView>) -> Seq<Seq<u8>> {
    Seq::new(es.len(), |i: int| encode_log_entry(es[i]))
}

/// The entries of a row of records, or why the first damaged one is damaged.
pub open spec fn decode_log(records: Seq<Seq<u8>>) -> Result<Seq<EntryView>, Seq<char>>
    decreases records.len(),
{
    if records.len() == 0 {
        Ok(Seq::empty())
    } else {
        match decode_log(records.drop_last()) {
            Err(e) => Err(e),
            Ok(es) => match decode_log_entry(records.last()) {
                Err(e) => Err(e),
                Ok(e) => Ok(es.push(e)),
            },
        }
    }
}

/// Where a part of the records is damaged, so is the whole.
proof fn lemma_decode_err(records: Seq<Seq<u8>>, n: nat)
    requires
        n <= records.len(),
        decode_log(records.take(n as int)) is Err,
    ensures
        decode_log(records) == decode_log(records.take(n as int)),
    decreases records.len() - n,
{
    if n < records.len() {
        assert(records.take((n + 1) as int).drop_last() =~= records.take(n as int));
        lemma_decode_err(records, n + 1);
    } else {
        assert(records.take(n as int) =~= records);
    }
}

/// An entry that can be recorded.
pub open spec fn loggable(e: EntryView) -> bool {
    e.data.len() + 21 <= u32::MAX
}

pub open spec fn all_loggable(es: Seq<EntryView>) -> bool {
    forall|i: int| 0 <= i < es.len() ==> loggable(#[trigger] es[i])
}

/// Entries that were appended are restored from the write-ahead log.
pub proof fn law_log_restores(es: Seq<EntryView>)
    requires
        forall|i: int| 0 <= i < es.len() ==> (#[trigger] es[i]).data.len() + 21 <= MAX_RECORD_SIZE,
    ensures
        decode_log(valid_records(encode_records(log_records(es)))) == Ok::<
            Seq<EntryView>,
            Seq<char>,
        >(es),
{
    let rs = log_records(es);
    assert forall|i: int| 0 <= i < rs.len() implies (#[trigger] rs[i]).len() <= MAX_RECORD_SIZE by {
        assert(es[i].data.len() + 21 <= MAX_RECORD_SIZE);
        law_log_entry_round_trip(es[i]);
    }
    let none = Seq::<u8>::empty();
    law_replay(rs, none);
    assert(encode_records(rs) + none =~= encode_records(rs));
    assert(valid_records(none) =~= Seq::<Seq<u8>>::empty());
    assert(rs + valid_records(none) =~= rs);
    lemma_decode_all(es);
}

proof fn lemma_decode_all(es: Seq<EntryView>)
    requires
        all_loggable(es),
    ensures
        decode_log(log_records(es)) == Ok::<Seq<EntryView>, Seq<char>>(es),
    decreases es.len(),
{
    if es.len() > 0 {
        let rest = es.drop_last();
        assert forall|i: int| 0 <= i < rest.len() implies loggable(#[trigger] rest[i]) by {
            assert(loggable(es[i]));
        }
        lemma_decode_all(rest);
        assert(loggable(es[es.len() - 1]));
        law_log_entry_round_trip(es.last());
        assert(log_records(es).drop_last() =~= log_records(rest));
        assert(rest.push(es.last()) =~= es);
    } else {
        assert(es =~= Seq::<EntryView>::empty());
    }
}

/// The log of a node.
#[derive(Debug)]
pub struct RaftLog {
    entries: Vec<LogEntry>,
    wal: WalWriter,
    snapshot_index: LogIndex,
    snapshot_term: Term,
}

impl View for RaftLog {
    type V = LogView;

    closed spec fn view(&self) -> LogView {
        LogView {
            entries: entries_view(self.entries@),
            snapshot_index: self.snapshot_index,
            snapshot_term: self.snapshot_term,
        }
    }
}

impl RaftLog {
    /// The bytes that the write-ahead log has yet to take up.
    pub closed spec fn pending(&self) -> Seq<u8> {
        self.wal.pending()
    }

    /// Restores a log from the bytes of its write-ahead log.
    pub fn open(wal_path: String, wal: Vec<u8>) -> (r: Result<Self, Error>)
        ensures
            match decode_log(valid_records(wal@)) {
                Ok(es) => r matches Ok(l) && l@ == (LogView {
                    entries: es,
                    snapshot_index: 0,
                    snapshot_term: 0,
                }) && l.pending() == Seq::<u8>::empty(),
                Err(e) => r matches Err(Error::Corruption(m)) && m@ == e,
            },
    {
        let len: u64 = wal.len() as u64;
        let records: Vec<WalRecord> = match WalReader::open(wal).read_all() {
            Ok(records) => records,
            Err(e) => {
                return Err(e);
            },
        };
        let ghost rs = record_data(records@);
        let mut entries: Vec<LogEntry> = Vec::new();
        let mut i: usize = 0;
        proof {
            assert(rs.take(0) =~= Seq::<Seq<u8>>::empty());
            assert(entries_view(entries@) =~= Seq::<EntryView>::empty());
        }
        while i < records.len()
            invariant
                i <= records.len(),
                rs == record_data(records@),
                rs == valid_records(wal@),
                decode_log(rs.take(i as int)) == Ok::<Seq<EntryView>, Seq<char>>(
                    entries_view(entries@),
                ),
            decreases records.len() - i,
        {
            let ghost before = entries_view(entries@);
            proof {
                assert(rs.take(i + 1).drop_last() =~= rs.take(i as int));
                assert(rs.take(i + 1).last() == records@[i as int].data@);
            }
            match Self::decode_entry(records[i].data.as_slice()) {
                Ok(e) => {
                    let ghost v = e@;
                    entries.push(e);
                    assert(entries_view(entries@) =~= before.push(v));
                },
                Err(e) => {
                    proof {
                        lemma_decode_err(rs, (i + 1) as nat);
                    }
                    return Err(e);
                },
            }
            i += 1;
        }
        assert(rs.take(i as int) =~= rs);
        Ok(
            RaftLog {
                entries,
                wal: WalWriter::open(wal_path, len),
                snapshot_index: 0,
                snapshot_term: 0,
            },
        )
    }

    /// Appends entries; each also goes to the write-ahead log.
    pub fn append(&mut self, entries: Vec<LogEntry>) -> (r: Result<(), Error>)
        requires
            all_loggable(entries_view(entries@)),
        ensures
            r is Ok,
            final(self)@ == extended(old(self)@, entries_view(entries@)),
            final(self).pending() == old(self).pending() + encode_records(
                log_records(entries_view(entries@)),
            ),
    {
        let ghost es = entries_view(entries@);
        let ghost rs = log_records(es);
        let ghost before = self.wal.pending();
        let mut i: usize = 0;
        assert(before + encode_records(rs.take(0)) =~= before);
        while i < entries.len()
            invariant
                i <= entries.len(),
                es == entries_view(entries@),
                rs == log_records(es),
                all_loggable(es),
                self.entries == old(self).entries,
                self.snapshot_index == old(self).snapshot_index,
                self.snapshot_term == old(self).snapshot_term,
                self.wal.pending() == before + encode_records(rs.take(i as int)),
            decreases entries.len() - i,
        {
            assert(loggable(es[i as int]));
            proof {
                law_log_entry_round_trip(es[i as int]);
            }
            let data: Vec<u8> = Self::encode_entry(&entries[i]);
            self.wal.append(data.as_slice());
            proof {
                assert(rs.take(i + 1).drop_last() =~= rs.take(i as int));
                assert(rs.take(i + 1).last() == encode_log_entry(es[i as int]));
                assert(before + (encode_records(rs.take(i as int)) + encode_record(
                    encode_log_entry(es[i as int]),
                )) =~= before + encode_records(rs.take(i as int)) + encode_record(
                    encode_log_entry(es[i as int]),
                ));
            }
            i += 1;
        }
        assert(rs.take(i as int) =~= rs);
        let ghost old_entries = entries_view(self.entries@);
        let mut more = entries;
        self.entries.append(&mut more);
        assert(entries_view(self.entries@) =~= old_entries + es);
        Ok(())
    }

    /// Hands out the bytes that the write-ahead log has to take up.
    pub fn sync(&mut self) -> (r: Vec<u8>)
        ensures
            r@ == old(self).pending(),
            final(self).pending() == Seq::<u8>::empty(),
            final(self)@ == old(self)@,
    {
        self.wal.sync()
    }

    /// The place of an entry among those after the snapshot.
    fn position(&self, index: LogIndex) -> (r: Option<usize>)
        ensures
            match r {
                Some(i) => i < self.entries@.len() && i == index - self.snapshot_index - 1,
                None => index <= self.snapshot_index || index - self.snapshot_index - 1
                    >= self.entries@.len(),
            },
    {
        if index == 0 || index <= self.snapshot_index {
            return None;
        }
        let offset: u64 = index - self.snapshot_index - 1;
        if offset < self.entries.len() as u64 {
            Some(offset as usize)
        } else {
            None
        }
    }

    /// The entry with an index.
    pub fn get(&self, index: LogIndex) -> (r: Option<&LogEntry>)
        ensures
            match entry_at(self@, index) {
                Some(e) => r matches Some(x) && x@ == e,
                None => r is None,
            },
    {
        match self.position(index) {
            Some(i) => Some(&self.entries[i]),
            None => None,
        }
    }

    /// The index of the last entry.
    pub fn last_index(&self) -> (r: LogIndex)
        ensures
            r == last_index_of(self@),
    {
        let n: usize = self.entries.len();
        if n == 0 {
            self.snapshot_index
        } else {
            self.entries[n - 1].index
        }
    }

    /// The term of the last entry.
    pub fn last_term(&self) -> (r: Term)
        ensures
            r == last_term_of(self@),
    {
        let n: usize = self.entries.len();
        if n == 0 {
            self.snapshot_term
        } else {
            self.entries[n - 1].term
        }
    }

    /// The term at an index.
    pub fn term_at(&self, index: LogIndex) -> (r: Option<Term>)
        ensures
            r == term_of(self@, index),
    {
        if index == 0 {
            return Some(0);
        }
        if index == self.snapshot_index {
            return Some(self.snapshot_term);
        }
        match self.get(index) {
            Some(e) => Some(e.term),
            None => None,
        }
    }

    /// Whether the log has a given term at an index.
    pub fn match_term(&self, index: LogIndex, term: Term) -> (r: bool)
        ensures
            r == (term_of(self@, index) == Some(term)),
    {
        match self.term_at(index) {
            Some(t) => t == term,
            None => false,
        }
    }

    /// The entries from an index on.
    pub fn entries_from(&self, start_index: LogIndex) -> (r: &[LogEntry])
        ensures
            entries_view(r@) == suffix_from(self@, start_index),
    {
        let n: usize = self.entries.len();
        if start_index <= self.snapshot_index {
            return self.entries.as_slice();
        }
        match self.position(start_index) {
            Some(i) => {
                let r: &[LogEntry] = &self.entries.as_slice()[i..n];
                assert(entries_view(r@) =~= suffix_from(self@, start_index));
                r
            },
            None => {
                let none: &[LogEntry] = &[];
                assert(entries_view(none@) =~= Seq::<EntryView>::empty());
                none
            },
        }
    }

    /// Drops the entries after an index. The write-ahead log keeps them; after
    /// a restart the leader sets the log right again.
    pub fn truncate_after(&mut self, index: LogIndex)
        ensures
            final(self)@ == truncated(old(self)@, index),
            final(self).pending() == old(self).pending(),
    {
        let ghost before = entries_view(self.entries@);
        if index <= self.snapshot_index {
            self.entries.clear();
            assert(entries_view(self.entries@) =~= Seq::<EntryView>::empty());
            return;
        }
        let keep: u64 = index - self.snapshot_index;
        if keep < self.entries.len() as u64 {
            self.entries.truncate(keep as usize);
            assert(entries_view(self.entries@) =~= before.take(keep as int));
        }
    }

    /// The number of entries after the snapshot.
    pub fn len(&self) -> (r: usize)
        ensures
            r == self@.entries.len(),
    {
        self.entries.len()
    }

    pub fn is_empty(&self) -> (r: bool)
        ensures
            r == (self@.entries.len() == 0),
    {
        self.entries.is_empty()
    }

    /// Puts a snapshot in place of the entries up to its index.
    pub fn compact(&mut self, snapshot_index: LogIndex, snapshot_term: Term)
        ensures
            final(self)@ == compacted(old(self)@, snapshot_index, snapshot_term),
            final(self).pending() == old(self).pending(),
    {
        let ghost before = entries_view(self.entries@);
        if snapshot_index <= self.snapshot_index {
            return;
        }
        let discard: u64 = snapshot_index - self.snapshot_index;
        if discard >= self.entries.len() as u64 {
            self.entries.clear();
            assert(entries_view(self.entries@) =~= Seq::<EntryView>::empty());
        } else {
            let rest: Vec<LogEntry> = self.entries.split_off(discard as usize);
            self.entries = rest;
            assert(entries_view(self.entries@) =~= before.skip(discard as int));
        }
        self.snapshot_index = snapshot_index;
        self.snapshot_term = snapshot_term;
    }

    pub fn snapshot_index(&self) -> (r: LogIndex)
        ensures
            r == self@.snapshot_index,
    {
        self.snapshot_index
    }

    pub fn snapshot_term(&self) -> (r: Term)
        ensures
            r == self@.snapshot_term,
    {
        self.snapshot_term
    }

    /// An entry as its record stores it.
    pub fn encode_entry(entry: &LogEntry) -> (r: Vec<u8>)
        requires
            entry.data@.len() <= u32::MAX,
        ensures
            r@ == encode_log_entry(entry@),
    {
        let mut buf: Vec<u8> = Vec::new();
        put_u64(&mut buf, entry.index);
        put_u64(&mut buf, entry.term);
        let t: u8 = match entry.entry_type {
            EntryType::Normal => 0,
            EntryType::ConfigChange => 1,
            EntryType::Noop => 2,
        };
        buf.push(t);
        put_u32(&mut buf, entry.data.len() as u32);
        append(&mut buf, entry.data.as_slice());
        assert(buf@ =~= encode_log_entry(entry@));
        buf
    }

    /// Reads the record of an entry.
    pub fn decode_entry(data: &[u8]) -> (r: Result<LogEntry, Error>)
        ensures
            match decode_log_entry(data@) {
                Ok(e) => r matches Ok(x) && x@ == e,
                Err(e) => r matches Err(Error::Corruption(m)) && m@ == e,
            },
    {
        let len: usize = data.len();
        if len < 21 {
            return Err(Error::Corruption("log entry too short".to_string()));
        }
        let index: u64 = get_u64(data, 0);
        let term: u64 = get_u64(data, 8);
        let t: u8 = data[16];
        let entry_type: EntryType = if t == 0 {
            EntryType::Normal
        } else if t == 1 {
            EntryType::ConfigChange
        } else if t == 2 {
            EntryType::Noop
        } else {
            return Err(
                Error::Corruption(
                    joined("unknown entry type: ", decimal_text(t as u64).as_str()),
                ),
            );
        };
        let data_len: u32 = get_u32(data, 17);
        if ((len - 21) as u64) < data_len as u64 {
            return Err(Error::Corruption("log entry truncated".to_string()));
        }
        let bytes: Vec<u8> = copy_range(data, 21, 21 + data_len as usize);
        Ok(LogEntry { index, term, data: bytes, entry_type })
    }
}

} // verus!
