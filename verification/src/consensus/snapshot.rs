//! Snapshots: how they are described, checked, named and cleaned up.

use vstd::prelude::*;
use crate::error::Error;
use crate::storage::wal::{crc32, crc32_of};
use crate::text::{
    before_char, decimal, ends_with, head_before, hex32, hex32_text, index_of_char, joined,
    law_padded_number_round_trip, number_of, padded_decimal, parse_u64, starts_with, strip_prefix,
    strip_suffix, zero_padded,
};
use crate::types::{LogIndex, Term};

verus! {

/// What is recorded of a snapshot.
#[derive(Debug, Clone, Copy, PartialEq, Eq, Structural)]
pub struct SnapshotMetadata {
    pub last_included_index: LogIndex,
    pub last_included_term: Term,
    pub checksum: u32,
    pub size: u64,
}

/// The description of the snapshot of some data.
pub open spec fn described(last_index: LogIndex, last_term: Term, data: Seq<u8>) -> SnapshotMetadata {
    SnapshotMetadata {
        last_included_index: last_index,
        last_included_term: last_term,
        checksum: crc32_of(data),
        size: data.len() as u64,
    }
}

/// The data has the recorded checksum.
pub open spec fn intact(metadata: SnapshotMetadata, data: Seq<u8>) -> bool {
    crc32_of(data) == metadata.checksum
}

/// What comes of data that claims to be that of a snapshot: it is accepted, or the
/// reason why it is not.
pub open spec fn accepted(head: Seq<char>, metadata: SnapshotMetadata, data: Seq<u8>) -> Result<
    (),
    Seq<char>,
> {
    if intact(metadata, data) {
        Ok(())
    } else {
        Err(mismatch(head, metadata.checksum, crc32_of(data)))
    }
}

/// A message that a checksum is not the recorded one.
pub open spec fn mismatch(head: Seq<char>, recorded: u32, computed: u32) -> Seq<char> {
    head + hex32(recorded as nat) + ", computed="@ + hex32(computed as nat)
}

/// The name of the data file of a snapshot.
pub open spec fn data_file(index: LogIndex) -> Seq<char> {
    "snapshot-"@ + zero_padded(decimal(index as nat), 20) + ".data"@
}

/// The name of the description file of a snapshot.
pub open spec fn meta_file(index: LogIndex) -> Seq<char> {
    "snapshot-"@ + zero_padded(decimal(index as nat), 20) + ".meta"@
}

/// The index of the snapshot that a description file belongs to, if its name
/// is that of one.
pub open spec fn meta_index(name: Seq<char>) -> Option<LogIndex> {
    if starts_with(name, "snapshot-"@) && ends_with(name, ".meta"@) {
        let rest = name.skip("snapshot-"@.len() as int);
        if ends_with(rest, ".meta"@) {
            number_of(rest.take(rest.len() - ".meta"@.len()))
        } else {
            Some(0)
        }
    } else {
        None
    }
}

/// The index of the snapshot that a file belongs to, if its name says so.
pub open spec fn file_index(name: Seq<char>) -> Option<LogIndex> {
    if starts_with(name, "snapshot-"@) {
        number_of(before_char(name.skip("snapshot-"@.len() as int), '.'))
    } else {
        None
    }
}

/// A file belongs to a snapshot older than the one with the index `keep`.
pub open spec fn is_stale(name: Seq<char>, keep: LogIndex) -> bool {
    file_index(name) matches Some(i) && i < keep
}

/// The greatest index that the name of a description file tells, if any does.
pub open spec fn is_latest(names: Seq<Seq<char>>, latest: Option<LogIndex>) -> bool {
    match latest {
        Some(index) => {
            &&& exists|i: int|
                0 <= i < names.len() && meta_index(#[trigger] names[i]) == Some(index)
            &&& forall|i: int|
                0 <= i < names.len() ==> (meta_index(#[trigger] names[i]) matches Some(x) ==> x
                    <= index)
        },
        None => forall|i: int| 0 <= i < names.len() ==> meta_index(#[trigger] names[i]) is None,
    }
}

pub open spec fn names_view(names: Seq<String>) -> Seq<Seq<char>> {
    Seq::new(names.len(), |i: int| names[i]@)
}

/// The files of a snapshot directory, by name.
pub struct SnapshotManager;

impl SnapshotManager {
    /// The description of the snapshot of some data.
    pub fn create_snapshot(last_index: LogIndex, last_term: Term, data: &[u8]) -> (r:
        SnapshotMetadata)
        ensures
            r == described(last_index, last_term, data@),
    {
        SnapshotMetadata {
            last_included_index: last_index,
            last_included_term: last_term,
            checksum: crc32(data),
            size: data.len() as u64,
        }
    }

    /// The latest snapshot, as its two files hold it, where its data is intact.
    pub fn load_latest(stored: Option<(SnapshotMetadata, Vec<u8>)>) -> (r: Result<
        Option<(SnapshotMetadata, Vec<u8>)>,
        Error,
    >)
        ensures
            match stored {
                None => r == Ok::<Option<(SnapshotMetadata, Vec<u8>)>, Error>(None),
                Some((metadata, data)) => if intact(metadata, data@) {
                    r == Ok::<Option<(SnapshotMetadata, Vec<u8>)>, Error>(stored)
                } else {
                    r matches Err(Error::Corruption(m)) && m@ == mismatch(
                        "snapshot checksum mismatch: stored="@,
                        metadata.checksum,
                        crc32_of(data@),
                    )
                },
            },
            stored matches Some((metadata, data)) ==> match accepted(
                "snapshot checksum mismatch: stored="@,
                metadata,
                data@,
            ) {
                Ok(_) => r == Ok::<Option<(SnapshotMetadata, Vec<u8>)>, Error>(stored),
                Err(e) => r matches Err(Error::Corruption(m)) && m@ == e,
            },
    {
        match stored {
            None => Ok(None),
            Some((metadata, data)) => {
                let computed: u32 = crc32(data.as_slice());
                if computed != metadata.checksum {
                    return Err(
                        Error::Corruption(
                            mismatch_text(
                                "snapshot checksum mismatch: stored=",
                                metadata.checksum,
                                computed,
                            ),
                        ),
                    );
                }
                Ok(Some((metadata, data)))
            },
        }
    }

    /// Checks the data of a snapshot that a leader has sent.
    pub fn receive_snapshot(metadata: &SnapshotMetadata, data: &[u8]) -> (r: Result<(), Error>)
        ensures
            if intact(*metadata, data@) {
                r is Ok
            } else {
                r matches Err(Error::Corruption(m)) && m@ == mismatch(
                    "received snapshot checksum mismatch: expected="@,
                    metadata.checksum,
                    crc32_of(data@),
                )
            },
            match accepted(
                "received snapshot checksum mismatch: expected="@,
                *metadata,
                data@,
            ) {
                Ok(_) => r is Ok,
                Err(e) => r matches Err(Error::Corruption(m)) && m@ == e,
            },
    {
        let computed: u32 = crc32(data);
        if computed != metadata.checksum {
            return Err(
                Error::Corruption(
                    mismatch_text(
                        "received snapshot checksum mismatch: expected=",
                        metadata.checksum,
                        computed,
                    ),
                ),
            );
        }
        Ok(())
    }

    /// The name of the data file of a snapshot.
    pub fn snapshot_data_path(index: LogIndex) -> (r: String)
        ensures
            r@ == data_file(index),
    {
        joined("snapshot-", padded_decimal(index, 20).as_str()).concat(".data")
    }

    /// The name of the description file of a snapshot.
    pub fn snapshot_meta_path(index: LogIndex) -> (r: String)
        ensures
            r@ == meta_file(index),
    {
        joined("snapshot-", padded_decimal(index, 20).as_str()).concat(".meta")
    }

    /// The index of the newest snapshot that has a description file.
    pub fn find_latest_snapshot(names: &Vec<String>) -> (r: Option<LogIndex>)
        ensures
            is_latest(names_view(names@), r),
    {
        let ghost ns = names_view(names@);
        let mut latest: Option<LogIndex> = None;
        let mut i: usize = 0;
        while i < names.len()
            invariant
                i <= names.len(),
                ns == names_view(names@),
                match latest {
                    Some(index) => {
                        &&& exists|j: int|
                            0 <= j < i && meta_index(#[trigger] ns[j]) == Some(index)
                        &&& forall|j: int|
                            0 <= j < i ==> (meta_index(#[trigger] ns[j]) matches Some(x) ==> x
                                <= index)
                    },
                    None => forall|j: int| 0 <= j < i ==> meta_index(#[trigger] ns[j]) is None,
                },
            decreases names.len() - i,
        {
            let found: Option<LogIndex> = Self::index_of_meta(names[i].as_str());
            assert(ns[i as int] == names@[i as int]@);
            if let Some(index) = found {
                latest = match latest {
                    Some(l) => if l >= index {
                        Some(l)
                    } else {
                        Some(index)
                    },
                    None => Some(index),
                };
            }
            i += 1;
        }
        latest
    }

    fn index_of_meta(name: &str) -> (r: Option<LogIndex>)
        ensures
            r == meta_index(name@),
    {
        let rest: String = match strip_prefix(name, "snapshot-") {
            Some(t) => t,
            None => {
                return None;
            },
        };
        match strip_suffix(name, ".meta") {
            Some(_) => {},
            None => {
                return None;
            },
        }
        match strip_suffix(rest.as_str(), ".meta") {
            Some(t) => parse_u64(t.as_str()),
            None => Some(0),
        }
    }

    /// The files that belong to snapshots older than the one to be kept.
    pub fn cleanup_old_snapshots(names: &Vec<String>, keep_index: LogIndex) -> (r: Vec<String>)
        ensures
            names_view(r@) == names_view(names@).filter(stale_for(keep_index)),
    {
        let ghost ns = names_view(names@);
        let ghost pred = stale_for(keep_index);
        let mut out: Vec<String> = Vec::new();
        let mut i: usize = 0;
        proof {
            reveal(Seq::filter);
            assert(names_view(out@) =~= ns.take(0).filter(pred));
        }
        while i < names.len()
            invariant
                i <= names.len(),
                ns == names_view(names@),
                pred == stale_for(keep_index),
                names_view(out@) == ns.take(i as int).filter(pred),
            decreases names.len() - i,
        {
            let ghost before = names_view(out@);
            proof {
                reveal(Seq::filter);
                assert(ns.take(i + 1).drop_last() =~= ns.take(i as int));
                assert(ns.take(i + 1).last() == names@[i as int]@);
            }
            if Self::stale(names[i].as_str(), keep_index) {
                out.push(names[i].clone());
                assert(names_view(out@) =~= before.push(names@[i as int]@));
            }
            i += 1;
        }
        assert(ns.take(i as int) =~= ns);
        out
    }

    fn stale(name: &str, keep_index: LogIndex) -> (r: bool)
        ensures
            r == is_stale(name@, keep_index),
    {
        match strip_prefix(name, "snapshot-") {
            Some(rest) => match parse_u64(head_before(rest.as_str(), '.').as_str()) {
                Some(index) => index < keep_index,
                None => false,
            },
            None => false,
        }
    }
}

/// A file is stale for a snapshot.
pub open spec fn stale_for(keep: LogIndex) -> spec_fn(Seq<char>) -> bool {
    |name: Seq<char>| is_stale(name, keep)
}

fn mismatch_text(head: &str, recorded: u32, computed: u32) -> (r: String)
    ensures
        r@ == mismatch(head@, recorded, computed),
{
    joined(head, hex32_text(recorded).as_str()).concat(", computed=").concat(
        hex32_text(computed).as_str(),
    )
}

/// The index of a snapshot reads back from the names of its files; only the
/// description file counts for finding the newest one.
pub proof fn law_file_names_tell_index(index: LogIndex)
    ensures
        meta_index(meta_file(index)) == Some(index),
        meta_index(data_file(index)) is None,
        file_index(meta_file(index)) == Some(index),
        file_index(data_file(index)) == Some(index),
{
    reveal_strlit("snapshot-");
    reveal_strlit(".meta");
    reveal_strlit(".data");
    let number = zero_padded(decimal(index as nat), 20);
    law_padded_number_round_trip(index, 20);
    let head = "snapshot-"@;
    let meta = meta_file(index);
    let data = data_file(index);
    assert(meta.take(9) =~= head);
    assert(data.take(9) =~= head);
    assert(meta.skip(meta.len() - 5) =~= ".meta"@);
    assert(data.skip(data.len() - 5) =~= ".data"@);
    assert(".data"@[1] == 'd' && ".meta"@[1] == 'm');
    assert(meta.skip(9) =~= number + ".meta"@);
    assert(data.skip(9) =~= number + ".data"@);
    assert((number + ".meta"@).skip(number.len() as int) =~= ".meta"@);
    assert((number + ".meta"@).take(number.len() as int) =~= number);
    lemma_before_dot(number, ".meta"@, 0);
    lemma_before_dot(number, ".data"@, 0);
    assert((number + ".data"@).take(number.len() as int) =~= number);
}

/// A text without a dot is what stands before one that follows it.
proof fn lemma_before_dot(number: Seq<char>, tail: Seq<char>, from: int)
    requires
        0 <= from <= number.len(),
        forall|i: int| 0 <= i < number.len() ==> (#[trigger] number[i]) != '.',
        tail.len() > 0,
        tail[0] == '.',
    ensures
        index_of_char(number + tail, '.', from) == number.len(),
    decreases number.len() - from,
{
    let s = number + tail;
    if from < number.len() {
        assert(s[from] == number[from]);
        lemma_before_dot(number, tail, from + 1);
    } else {
        assert(s[from] == tail[0]);
    }
}

/// The names in a directory that holds the files of some snapshots and no
/// others.
pub open spec fn names_of_snapshots(names: Seq<Seq<char>>, stored: Set<LogIndex>) -> bool {
    &&& forall|n: int|
        0 <= n < names.len() ==> exists|i: LogIndex| #[trigger]
            stored.contains(i) && (#[trigger] names[n] == meta_file(i) || names[n] == data_file(i))
    &&& forall|i: LogIndex| #[trigger] stored.contains(i) ==> names.contains(meta_file(i))
}

/// Of the snapshots in a directory the one with the greatest index is the
/// newest; there is none where nothing is stored.
pub proof fn law_latest_is_greatest(
    names: Seq<Seq<char>>,
    stored: Set<LogIndex>,
    latest: Option<LogIndex>,
)
    requires
        names_of_snapshots(names, stored),
        is_latest(names, latest),
    ensures
        match latest {
            Some(index) => stored.contains(index) && forall|i: LogIndex| #[trigger]
                stored.contains(i) ==> i <= index,
            None => stored == Set::<LogIndex>::empty(),
        },
{
    assert forall|i: LogIndex| #[trigger] stored.contains(i) implies latest is Some && i
        <= latest->0 by {
        law_file_names_tell_index(i);
        let n = names.index_of(meta_file(i));
        assert(names.contains(meta_file(i)));
        assert(meta_index(names[n]) == Some(i));
    }
    match latest {
        Some(index) => {
            let n = choose|n: int| 0 <= n < names.len() && meta_index(#[trigger] names[n]) == Some(index);
            let i = choose|i: LogIndex| #[trigger]
                stored.contains(i) && (names[n] == meta_file(i) || names[n] == data_file(i));
            law_file_names_tell_index(i);
        },
        None => {
            assert(stored =~= Set::<LogIndex>::empty());
        },
    }
}

/// Cleaning up after a snapshot leaves the files of that snapshot and of newer
/// ones.
pub proof fn law_cleanup_keeps_newer(index: LogIndex, keep: LogIndex)
    ensures
        is_stale(meta_file(index), keep) == (index < keep),
        is_stale(data_file(index), keep) == (index < keep),
{
    law_file_names_tell_index(index);
}

/// A snapshot that was described is intact.
pub proof fn law_described_is_intact(last_index: LogIndex, last_term: Term, data: Seq<u8>)
    ensures
        intact(described(last_index, last_term, data), data),
{
}

/// Data passes for that of a snapshot exactly where it has the checksum of the
/// data that the snapshot was made of; the description also tells the index, the
/// term and the size.
pub proof fn law_other_data_is_found_out(
    last_index: LogIndex,
    last_term: Term,
    data: Seq<u8>,
    other: Seq<u8>,
)
    requires
        data.len() <= u64::MAX,
    ensures
        intact(described(last_index, last_term, data), other) <==> crc32_of(other) == crc32_of(
            data,
        ),
        intact(described(last_index, last_term, data), data),
        described(last_index, last_term, data).last_included_index == last_index,
        described(last_index, last_term, data).last_included_term == last_term,
        described(last_index, last_term, data).size == data.len(),
{
}

/// The data of a snapshot is accepted exactly where its checksum is the one that
/// was recorded; what was described is always accepted.
pub proof fn law_damaged_snapshots_are_refused(
    head: Seq<char>,
    metadata: SnapshotMetadata,
    data: Seq<u8>,
)
    ensures
        accepted(head, metadata, data) is Ok <==> metadata.checksum == crc32_of(data),
        accepted(
            head,
            described(metadata.last_included_index, metadata.last_included_term, data),
            data,
        ) is Ok,
{
}

} // verus!
