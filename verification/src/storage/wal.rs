//! The write-ahead log: a row of records, each with a checksum.
//!
//! A record is stored as its checksum and its length in four bytes each, least
//! significant first, and then its data. The checksum is the CRC-32 of the
//! length bytes and the data.

use vstd::prelude::*;
use crate::bytes::{
    append, copy, copy_range, get_u32, le_bytes, le_value, lemma_base_pow, lemma_le_bytes_len,
    lemma_le_round_trip, put_u32,
};
use crate::error::Error;
use crate::text::{decimal, decimal_text, hex32, hex32_text, joined};

verus! {

/// The bytes of a record before its data.
pub const HEADER_SIZE: usize = 8;

/// The greatest length of the data of a record that is read back.
pub const MAX_RECORD_SIZE: u32 = 67_108_864;

/// The CRC-32 checksum of a byte string.
pub uninterp spec fn crc32_of(data: Seq<u8>) -> u32;

/// `crc32fast::hash`: the CRC-32 of the bytes. What the checksum is as a number
/// is left to that crate; it depends on the bytes alone.
#[verifier::external_body]
pub(crate) fn crc32(data: &[u8]) -> (r: u32)
    ensures
        r == crc32_of(data@),
{
    crc32fast::hash(data)
}

/// The checksum of a record: of its length in four bytes and its data.
pub open spec fn record_crc(data: Seq<u8>) -> u32 {
    crc32_of(le_bytes(data.len(), 4) + data)
}

/// A record as it is stored.
pub open spec fn encode_record(data: Seq<u8>) -> Seq<u8> {
    le_bytes(record_crc(data) as nat, 4) + le_bytes(data.len(), 4) + data
}

/// Records as they are stored one after another.
pub open spec fn encode_records(records: Seq<Seq<u8>>) -> Seq<u8>
    decreases records.len(),
{
    if records.len() == 0 {
        Seq::empty()
    } else {
        encode_records(records.drop_last()) + encode_record(records.last())
    }
}

/// What is read as a record from the front of `bytes`: the data and what
/// follows the record, nothing where there is not even a whole header, or the
/// reason why the record is damaged.
pub open spec fn decode_record(bytes: Seq<u8>) -> Result<Option<(Seq<u8>, Seq<u8>)>, Seq<char>> {
    if bytes.len() < HEADER_SIZE {
        Ok(None)
    } else {
        let stored = le_value(bytes.subrange(0, 4));
        let len = le_value(bytes.subrange(4, 8)) as int;
        if len > MAX_RECORD_SIZE {
            Err("WAL record length "@ + decimal(len as nat) + " exceeds maximum"@)
        } else if bytes.len() < HEADER_SIZE + len {
            Err("WAL record truncated: incomplete data"@)
        } else {
            let data = bytes.subrange(8, 8 + len);
            let computed = record_crc(data);
            if stored != computed {
                Err(
                    "WAL CRC mismatch: stored="@ + hex32(stored) + ", computed="@ + hex32(
                        computed as nat,
                    ),
                )
            } else {
                Ok(Some((data, bytes.skip(8 + len))))
            }
        }
    }
}

/// The records that are read up to the end or the first damaged one.
pub open spec fn valid_records(bytes: Seq<u8>) -> Seq<Seq<u8>>
    decreases bytes.len(),
{
    match decode_record(bytes) {
        Ok(Some((data, rest))) => if rest.len() < bytes.len() {
            seq![data] + valid_records(rest)
        } else {
            Seq::empty()
        },
        _ => Seq::empty(),
    }
}

/// All records, or the reason why one of them is damaged.
pub open spec fn strict_records(bytes: Seq<u8>) -> Result<Seq<Seq<u8>>, Seq<char>>
    decreases bytes.len(),
{
    match decode_record(bytes) {
        Ok(Some((data, rest))) => if rest.len() < bytes.len() {
            match strict_records(rest) {
                Ok(more) => Ok(seq![data] + more),
                Err(e) => Err(e),
            }
        } else {
            Ok(Seq::empty())
        },
        Ok(None) => Ok(Seq::empty()),
        Err(e) => Err(e),
    }
}

/// A record that was stored is read back, and what follows it is left.
pub proof fn law_record_round_trip(data: Seq<u8>, rest: Seq<u8>)
    requires
        data.len() <= MAX_RECORD_SIZE,
    ensures
        decode_record(encode_record(data) + rest) == Ok::<
            Option<(Seq<u8>, Seq<u8>)>,
            Seq<char>,
        >(Some((data, rest))),
        encode_record(data).len() == HEADER_SIZE + data.len(),
{
    lemma_base_pow();
    lemma_le_round_trip(record_crc(data) as nat, 4);
    lemma_le_round_trip(data.len(), 4);
    let bytes = encode_record(data) + rest;
    assert(bytes.subrange(0, 4) =~= le_bytes(record_crc(data) as nat, 4));
    assert(bytes.subrange(4, 8) =~= le_bytes(data.len(), 4));
    assert(bytes.subrange(8, 8 + data.len() as int) =~= data);
    assert(bytes.skip(8 + data.len() as int) =~= rest);
}

/// Records that were stored are read back in order, and then whatever can be
/// read of the bytes after them: damage there does not touch them.
pub proof fn law_replay(records: Seq<Seq<u8>>, tail: Seq<u8>)
    requires
        forall|i: int| 0 <= i < records.len() ==> (#[trigger] records[i]).len() <= MAX_RECORD_SIZE,
    ensures
        valid_records(encode_records(records) + tail) == records + valid_records(tail),
    decreases records.len(),
{
    if records.len() == 0 {
        assert(encode_records(records) + tail =~= tail);
        assert(records + valid_records(tail) =~= valid_records(tail));
    } else {
        let last = records.last();
        let rest = encode_record(last) + tail;
        law_record_round_trip(last, tail);
        assert(encode_records(records) + tail =~= encode_records(records.drop_last()) + rest);
        law_replay(records.drop_last(), rest);
        assert(records + valid_records(tail) =~= records.drop_last() + (seq![last] + valid_records(
            tail,
        )));
    }
}

/// The data of one record.
#[derive(Debug, PartialEq, Eq)]
pub struct WalRecord {
    pub data: Vec<u8>,
}

/// The data of a row of records.
pub open spec fn record_data(records: Seq<WalRecord>) -> Seq<Seq<u8>> {
    Seq::new(records.len(), |i: int| records[i].data@)
}

/// How many bytes the reading of one record takes: its header, and its data
/// unless the length is refused; all that is left where that is too short.
pub open spec fn consumed(bytes: Seq<u8>) -> int {
    let len = le_value(bytes.subrange(4, 8));
    if bytes.len() < HEADER_SIZE {
        bytes.len() as int
    } else if len > MAX_RECORD_SIZE {
        HEADER_SIZE as int
    } else if bytes.len() < HEADER_SIZE + len {
        bytes.len() as int
    } else {
        HEADER_SIZE + len
    }
}

/// A place in a row of bytes from which records are read.
#[derive(Debug)]
pub struct ByteCursor {
    pub data: Vec<u8>,
    pub position: usize,
}

impl ByteCursor {
    /// The bytes that were not read yet.
    pub open spec fn remaining(&self) -> Seq<u8> {
        self.data@.skip(self.position as int)
    }

    /// The position lies in the bytes.
    pub open spec fn well_formed(&self) -> bool {
        self.position <= self.data@.len()
    }

    pub fn new(data: Vec<u8>) -> (r: Self)
        ensures
            r.well_formed(),
            r.remaining() == data@,
    {
        assert(data@.skip(0) =~= data@);
        ByteCursor { data, position: 0 }
    }
}

impl WalRecord {
    pub fn new(data: Vec<u8>) -> (r: Self)
        ensures
            r.data@ == data@,
    {
        WalRecord { data }
    }

    fn compute_crc(data: &[u8]) -> (r: u32)
        requires
            data@.len() <= u32::MAX,
        ensures
            r == record_crc(data@),
    {
        let mut buf: Vec<u8> = Vec::new();
        put_u32(&mut buf, data.len() as u32);
        append(&mut buf, data);
        assert(buf@ =~= le_bytes(data@.len(), 4) + data@);
        crc32(buf.as_slice())
    }

    /// Appends the record to `w` as it is stored; returns the number of bytes.
    pub fn encode(&self, w: &mut Vec<u8>) -> (r: usize)
        requires
            self.data@.len() <= u32::MAX,
        ensures
            final(w)@ == old(w)@ + encode_record(self.data@),
            r == HEADER_SIZE + self.data@.len(),
    {
        let before: usize = w.len();
        let crc: u32 = Self::compute_crc(self.data.as_slice());
        put_u32(w, crc);
        put_u32(w, self.data.len() as u32);
        append(w, self.data.as_slice());
        proof {
            assert(w@ =~= old(w)@ + encode_record(self.data@));
            lemma_le_bytes_len(record_crc(self.data@) as nat, 4);
            lemma_le_bytes_len(self.data@.len(), 4);
        }
        w.len() - before
    }

    /// Reads one record. At the end of the bytes, or where not even a header
    /// is left, there is none.
    pub fn decode(r: &mut ByteCursor) -> (record: Result<Option<Self>, Error>)
        requires
            old(r).well_formed(),
        ensures
            final(r).well_formed(),
            final(r).data@ == old(r).data@,
            match decode_record(old(r).remaining()) {
                Ok(Some((data, rest))) => {
                    &&& record matches Ok(Some(w)) && w.data@ == data
                    &&& final(r).remaining() == rest
                    &&& rest.len() < old(r).remaining().len()
                },
                Ok(None) => record matches Ok(None),
                Err(e) => record matches Err(Error::Corruption(m)) && m@ == e,
            },
            final(r).position == old(r).position + consumed(old(r).remaining()),
    {
        let ghost bytes = r.remaining();
        let start: usize = r.position;
        let left: usize = r.data.len() - start;
        if left < HEADER_SIZE {
            r.position = r.data.len();
            return Ok(None);
        }
        let stored: u32 = get_u32(r.data.as_slice(), start);
        let len: u32 = get_u32(r.data.as_slice(), start + 4);
        proof {
            assert(r.data@.subrange(start as int, start + 4) =~= bytes.subrange(0, 4));
            assert(r.data@.subrange(start + 4, start + 8) =~= bytes.subrange(4, 8));
        }
        if len > MAX_RECORD_SIZE {
            r.position = start + HEADER_SIZE;
            let head: String = joined("WAL record length ", decimal_text(len as u64).as_str());
            return Err(Error::Corruption(head.concat(" exceeds maximum")));
        }
        if ((left - HEADER_SIZE) as u64) < len as u64 {
            r.position = r.data.len();
            return Err(Error::Corruption("WAL record truncated: incomplete data".to_string()));
        }
        let from: usize = start + HEADER_SIZE;
        let to: usize = from + len as usize;
        let data: Vec<u8> = copy_range(r.data.as_slice(), from, to);
        assert(data@ =~= bytes.subrange(8, 8 + len));
        r.position = to;
        let computed: u32 = Self::compute_crc(data.as_slice());
        if stored != computed {
            let head: String = joined("WAL CRC mismatch: stored=", hex32_text(stored).as_str());
            let message: String = head.concat(", computed=").concat(hex32_text(computed).as_str());
            return Err(Error::Corruption(message));
        }
        assert(r.remaining() =~= bytes.skip(8 + len));
        Ok(Some(WalRecord { data }))
    }
}

/// Collects records to be appended to a log file.
///
/// Records gather in a buffer until `sync`, which hands out the bytes that the
/// file has to take up.
#[derive(Debug)]
pub struct WalWriter {
    buffer: Vec<u8>,
    path: String,
    bytes_written: u64,
}

impl WalWriter {
    /// The bytes that the file has yet to take up.
    pub closed spec fn pending(&self) -> Seq<u8> {
        self.buffer@
    }

    pub closed spec fn path_view(&self) -> Seq<char> {
        self.path@
    }

    /// The length of the file with the pending bytes.
    pub closed spec fn written(&self) -> nat {
        self.bytes_written as nat
    }

    /// A writer to the end of a log file that has `len` bytes.
    pub fn open(path: String, len: u64) -> (r: Self)
        ensures
            r.pending() == Seq::<u8>::empty(),
            r.path_view() == path@,
            r.written() == len,
    {
        WalWriter { buffer: Vec::new(), path, bytes_written: len }
    }

    /// Appends a record; the length of the file is counted up to the greatest
    /// 64-bit number.
    pub fn append(&mut self, data: &[u8])
        requires
            data@.len() <= u32::MAX,
        ensures
            final(self).pending() == old(self).pending() + encode_record(data@),
            final(self).path_view() == old(self).path_view(),
            final(self).written() == if old(self).written() + HEADER_SIZE + data@.len() <= u64::MAX {
                (old(self).written() + HEADER_SIZE + data@.len()) as nat
            } else {
                u64::MAX as nat
            },
    {
        let record: WalRecord = WalRecord::new(copy(data));
        let written: usize = record.encode(&mut self.buffer);
        self.bytes_written = self.bytes_written.saturating_add(written as u64);
    }

    /// Hands out the bytes to be appended to the file.
    pub fn sync(&mut self) -> (r: Vec<u8>)
        ensures
            r@ == old(self).pending(),
            final(self).pending() == Seq::<u8>::empty(),
            final(self).path_view() == old(self).path_view(),
            final(self).written() == old(self).written(),
    {
        let mut out: Vec<u8> = Vec::new();
        std::mem::swap(&mut out, &mut self.buffer);
        out
    }

    /// The length of the file with the pending bytes.
    pub fn bytes_written(&self) -> (r: u64)
        ensures
            r == self.written(),
    {
        self.bytes_written
    }

    pub fn path(&self) -> (r: &str)
        ensures
            r@ == self.path_view(),
    {
        self.path.as_str()
    }
}

/// Reads the records of a log file.
#[derive(Debug)]
pub struct WalReader {
    cursor: ByteCursor,
}

impl WalReader {
    /// The bytes of the file.
    pub closed spec fn bytes(&self) -> Seq<u8> {
        self.cursor.remaining()
    }

    pub closed spec fn well_formed(&self) -> bool {
        self.cursor.well_formed()
    }

    /// A reader of the bytes of a log file.
    pub fn open(data: Vec<u8>) -> (r: Self)
        ensures
            r.well_formed(),
            r.bytes() == data@,
    {
        WalReader { cursor: ByteCursor::new(data) }
    }

    /// Reads the records up to the end or the first damaged one.
    pub fn read_all(self) -> (r: Result<Vec<WalRecord>, Error>)
        requires
            self.well_formed(),
        ensures
            r matches Ok(v) && record_data(v@) == valid_records(self.bytes()),
    {
        let ghost all = self.cursor.remaining();
        let mut cursor = self.cursor;
        let mut records: Vec<WalRecord> = Vec::new();
        proof {
            assert(record_data(records@) =~= Seq::<Seq<u8>>::empty());
            assert(Seq::<Seq<u8>>::empty() + valid_records(all) =~= valid_records(all));
        }
        loop
            invariant_except_break
                cursor.well_formed(),
                valid_records(all) == record_data(records@) + valid_records(cursor.remaining()),
            ensures
                valid_records(all) == record_data(records@),
            decreases cursor.remaining().len(),
        {
            let ghost before = record_data(records@);
            match WalRecord::decode(&mut cursor) {
                Ok(Some(record)) => {
                    let ghost data = record.data@;
                    records.push(record);
                    proof {
                        assert(record_data(records@) =~= before.push(data));
                        assert(before + (seq![data] + valid_records(cursor.remaining()))
                            =~= before.push(data) + valid_records(cursor.remaining()));
                    }
                },
                _ => {
                    assert(before + Seq::<Seq<u8>>::empty() =~= before);
                    break;
                },
            }
        }
        Ok(records)
    }

    /// Reads all records; a damaged one is an error.
    pub fn read_all_strict(self) -> (r: Result<Vec<WalRecord>, Error>)
        requires
            self.well_formed(),
        ensures
            match strict_records(self.bytes()) {
                Ok(rs) => r matches Ok(v) && record_data(v@) == rs,
                Err(e) => r matches Err(Error::Corruption(m)) && m@ == e,
            },
    {
        let ghost all = self.cursor.remaining();
        let mut cursor = self.cursor;
        let mut records: Vec<WalRecord> = Vec::new();
        proof {
            assert(record_data(records@) =~= Seq::<Seq<u8>>::empty());
            if let Ok(rs) = strict_records(all) {
                assert(Seq::<Seq<u8>>::empty() + rs =~= rs);
            }
        }
        loop
            invariant_except_break
                all == self.bytes(),
                cursor.well_formed(),
                strict_records(all) == match strict_records(cursor.remaining()) {
                    Ok(rs) => Ok(record_data(records@) + rs),
                    Err(e) => Err(e),
                },
            ensures
                strict_records(all) == Ok::<Seq<Seq<u8>>, Seq<char>>(record_data(records@)),
            decreases cursor.remaining().len(),
        {
            let ghost before = record_data(records@);
            match WalRecord::decode(&mut cursor) {
                Ok(Some(record)) => {
                    let ghost data = record.data@;
                    records.push(record);
                    proof {
                        assert(record_data(records@) =~= before.push(data));
                        if let Ok(rs) = strict_records(cursor.remaining()) {
                            assert(before + (seq![data] + rs) =~= before.push(data) + rs);
                        }
                    }
                },
                Ok(None) => {
                    assert(before + Seq::<Seq<u8>>::empty() =~= before);
                    break;
                },
                Err(e) => {
                    return Err(e);
                },
            }
        }
        Ok(records)
    }
}

} // verus!
