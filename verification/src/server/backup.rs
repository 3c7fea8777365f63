//! Backups: a snapshot with a description in front of it.

use vstd::prelude::*;
use crate::bytes::{
    append, copy_range, get_u32, le_bytes, le_value, lemma_base_pow, lemma_le_round_trip, put_u32,
};
use crate::consensus::node::RaftNode;
use crate::consensus::snapshot::{described, SnapshotMetadata};
use crate::consensus::transitions::{snapshot_installed, term_of_node, NodeView};
use crate::mvcc::store::MvccStore;
use crate::storage::engine::StorageEngine;

verus! {

/// What a backup says of the node it was taken from.
#[derive(Debug, Clone, Copy, PartialEq, Eq, Structural)]
pub struct BackupMetadata {
    pub node_id: u64,
    pub term: u64,
    pub commit_index: u64,
    pub applied_index: u64,
    pub revision: u64,
    /// When the backup was taken, in seconds since 1970.
    pub timestamp: u64,
}

/// What a backup of a node says.
pub open spec fn metadata_of(n: NodeView, revision: u64, timestamp: u64) -> BackupMetadata {
    BackupMetadata {
        node_id: n.state.id,
        term: term_of_node(n),
        commit_index: n.state.commit_index,
        applied_index: n.state.last_applied,
        revision,
        timestamp,
    }
}

/// A backup as bytes: the length of the description in four bytes, the
/// description, the snapshot.
pub open spec fn framed(description: Seq<u8>, snapshot: Seq<u8>) -> Seq<u8> {
    le_bytes(description.len(), 4) + description + snapshot
}

/// The description and the snapshot of a backup, where the bytes have both.
pub open spec fn unframed(data: Seq<u8>) -> Option<(Seq<u8>, Seq<u8>)> {
    if data.len() < 4 {
        None
    } else {
        let n = le_value(data.take(4));
        if data.len() < 4 + n {
            None
        } else {
            Some((data.subrange(4, 4 + n as int), data.skip(4 + n as int)))
        }
    }
}

/// A backup gives back the description and the snapshot that it was made of.
pub proof fn law_backup_round_trip(description: Seq<u8>, snapshot: Seq<u8>)
    requires
        description.len() <= u32::MAX,
    ensures
        unframed(framed(description, snapshot)) == Some((description, snapshot)),
{
    let n = description.len();
    let data = framed(description, snapshot);
    lemma_base_pow();
    lemma_le_round_trip(n, 4);
    assert(data.take(4) =~= le_bytes(n, 4));
    assert(data.subrange(4, 4 + n as int) =~= description);
    assert(data.skip(4 + n as int) =~= snapshot);
}

/// A backup of a node and its store, from the data of the newest snapshot;
/// nothing where there is no snapshot, or where `encode` cannot write the
/// description.
pub fn create_backup<E: StorageEngine, C: Fn(&BackupMetadata) -> Option<Vec<u8>>>(
    node: &RaftNode,
    store: &MvccStore<E>,
    snapshot: Option<Vec<u8>>,
    timestamp: u64,
    encode: C,
) -> (r: Option<(BackupMetadata, Vec<u8>)>)
    requires
        node.well_formed(),
        forall|m: &BackupMetadata| #[trigger] encode.requires((m,)),
        forall|m: &BackupMetadata, d: Option<Vec<u8>>| #[trigger]
            encode.ensures((m,), d) ==> (d matches Some(d) ==> d@.len() <= u32::MAX),
    ensures
        match snapshot {
            None => r is None,
            Some(data) => {
                let metadata = metadata_of(node@, store.current(), timestamp);
                exists|d: Option<Vec<u8>>| #[trigger]
                    encode.ensures((&metadata,), d) && match d {
                        Some(description) => r matches Some((m, bytes)) && m == metadata && bytes@
                            == framed(description@, data@),
                        None => r is None,
                    }
            },
        },
{
    let data: Vec<u8> = match snapshot {
        Some(data) => data,
        None => {
            return None;
        },
    };
    let metadata = BackupMetadata {
        node_id: node.id(),
        term: node.term(),
        commit_index: node.commit_index(),
        applied_index: node.last_applied(),
        revision: store.revision(),
        timestamp,
    };
    assert(metadata == metadata_of(node@, store.current(), timestamp));
    let encoded: Option<Vec<u8>> = encode(&metadata);
    assert(encode.ensures((&metadata,), encoded));
    match encoded {
        Some(description) => {
            let mut bytes: Vec<u8> = Vec::new();
            put_u32(&mut bytes, description.len() as u32);
            append(&mut bytes, description.as_slice());
            append(&mut bytes, data.as_slice());
            assert(bytes@ =~= framed(description@, data@));
            Some((metadata, bytes))
        },
        None => None,
    }
}

/// The description and the snapshot of a backup; nothing where the bytes are
/// cut short, or where `decode` cannot read the description.
pub fn parse_backup<D: Fn(&Vec<u8>) -> Option<BackupMetadata>>(data: &[u8], decode: D) -> (r:
    Option<(BackupMetadata, Vec<u8>)>)
    requires
        forall|d: &Vec<u8>| #[trigger] decode.requires((d,)),
    ensures
        match unframed(data@) {
            None => r is None,
            Some((description, snapshot)) => exists|d: Vec<u8>, m: Option<BackupMetadata>|
                #[trigger]
                decode.ensures((&d,), m) && d@ == description && match m {
                    Some(m) => r matches Some((read, rest)) && read == m && rest@ == snapshot,
                    None => r is None,
                },
        },
{
    let len: usize = data.len();
    if len < 4 {
        return None;
    }
    let n: u32 = get_u32(data, 0);
    assert(data@.subrange(0, 4) =~= data@.take(4));
    if ((len - 4) as u64) < (n as u64) {
        return None;
    }
    let end: usize = 4 + n as usize;
    let description: Vec<u8> = copy_range(data, 4, end);
    let read: Option<BackupMetadata> = decode(&description);
    assert(decode.ensures((&description,), read));
    match read {
        Some(metadata) => {
            let rest: Vec<u8> = copy_range(data, end, len);
            assert(rest@ =~= data@.skip(end as int));
            Some((metadata, rest))
        },
        None => None,
    }
}

/// The size of the chunks that a backup is sent in.
pub const CHUNK_SIZE: usize = 65536;

/// Chunks put together.
pub open spec fn concatenated(chunks: Seq<Vec<u8>>) -> Seq<u8>
    decreases chunks.len(),
{
    if chunks.len() == 0 {
        Seq::empty()
    } else {
        concatenated(chunks.drop_last()) + chunks.last()@
    }
}

/// The data in chunks: all of the full size but the last, which holds what is
/// left.
pub fn chunks_of(data: &[u8]) -> (r: Vec<Vec<u8>>)
    ensures
        concatenated(r@) == data@,
        forall|i: int| 0 <= i < r@.len() - 1 ==> (#[trigger] r@[i])@.len() == CHUNK_SIZE,
        r@.len() > 0 ==> 0 < r@.last()@.len() <= CHUNK_SIZE,
{
    let len: usize = data.len();
    let mut out: Vec<Vec<u8>> = Vec::new();
    let mut at: usize = 0;
    assert(data@.take(0) =~= Seq::<u8>::empty());
    while at < len
        invariant
            at <= len,
            len == data@.len(),
            concatenated(out@) == data@.take(at as int),
            forall|i: int| 0 <= i < out@.len() - 1 ==> (#[trigger] out@[i])@.len() == CHUNK_SIZE,
            out@.len() > 0 ==> 0 < out@.last()@.len() <= CHUNK_SIZE,
            out@.len() > 0 && at < len ==> out@.last()@.len() == CHUNK_SIZE,
        decreases len - at,
    {
        let end: usize = if len - at > CHUNK_SIZE {
            at + CHUNK_SIZE
        } else {
            len
        };
        let ghost before = out@;
        out.push(copy_range(data, at, end));
        proof {
            assert(out@.drop_last() =~= before);
            assert(data@.take(end as int) =~= data@.take(at as int) + data@.subrange(
                at as int,
                end as int,
            ));
        }
        at = end;
    }
    assert(data@.take(at as int) =~= data@);
    out
}

/// A backup describes the node that it was made of.
pub proof fn law_backups_describe_their_node(n: NodeView, revision: u64, timestamp: u64)
    ensures
        ({
            let m = metadata_of(n, revision, timestamp);
            &&& m.node_id == n.state.id
            &&& m.term == n.state.persistent.current_term
            &&& m.commit_index == n.state.commit_index
            &&& m.applied_index == n.state.last_applied
            &&& m.revision == revision
            &&& m.timestamp == timestamp
        }),
{
}

/// The snapshot that restores a backup with some data.
pub open spec fn restoring(m: BackupMetadata, data: Seq<u8>) -> SnapshotMetadata {
    described(m.commit_index, m.term, data)
}

/// A node that a backup is restored to goes on from what was committed when the
/// backup was made, where it was not ahead already.
pub proof fn law_restored_nodes_catch_up(n: NodeView, m: BackupMetadata, data: Seq<u8>)
    requires
        m.term >= n.state.persistent.current_term,
        m.commit_index > n.log.snapshot_index,
    ensures
        ({
            let after = snapshot_installed(n, m.term, m.node_id, restoring(m, data), true);
            &&& after.state.commit_index >= m.commit_index
            &&& after.state.last_applied >= m.commit_index
            &&& after.log.snapshot_index == m.commit_index
            &&& after.log.snapshot_term == m.term
            &&& after.state.persistent.current_term == m.term
            &&& restoring(m, data).size == data.len() as u64
        }),
{
}

} // verus!
