//! What the higher layers ask of a storage engine.

use vstd::prelude::*;
use crate::bytes::lex_lt;
use crate::error::Error;
use crate::storage::disk::DiskView;
use crate::storage::layers::{lists_range, rows_view};
use crate::storage::wal::MAX_RECORD_SIZE;

verus! {

/// A lookup of `k` in the map `m` returned `found`.
pub open spec fn found_in(m: Map<Seq<u8>, Seq<u8>>, k: Seq<u8>, found: Option<Vec<u8>>) -> bool {
    match found {
        Some(v) => m.contains_key(k) && m[k] == v@,
        None => !m.contains_key(k),
    }
}

/// A key and a value that a log record can hold.
pub open spec fn writable(key: Seq<u8>, value: Seq<u8>) -> bool {
    key.len() + value.len() + 9 <= u32::MAX
}

/// A key and a value whose log record can be read back.
pub open spec fn readable_back(key: Seq<u8>, value: Seq<u8>) -> bool {
    key.len() + value.len() + 9 <= MAX_RECORD_SIZE
}

/// A map from byte strings to byte strings.
pub trait StorageEngine {
    /// The keys with their values.
    spec fn contents(&self) -> Map<Seq<u8>, Seq<u8>>;

    /// The engine's invariant.
    spec fn sound(&self) -> bool;

    /// The disk `d`, once the engine's pending actions are carried out, holds
    /// what the engine needs to be restored.
    spec fn durable(&self, d: DiskView) -> bool;

    /// The value of a key, if it has one.
    fn get(&self, key: &[u8]) -> (r: Result<Option<Vec<u8>>, Error>)
        requires
            self.sound(),
        ensures
            r matches Ok(v) && found_in(self.contents(), key@, v),
    ;

    /// Sets the value of a key.
    fn put(&mut self, key: &[u8], value: &[u8]) -> (r: Result<(), Error>)
        requires
            old(self).sound(),
            writable(key@, value@),
        ensures
            r is Ok,
            final(self).sound(),
            final(self).contents() == old(self).contents().insert(key@, value@),
            readable_back(key@, value@) ==> forall|d: DiskView| #[trigger]
                old(self).durable(d) ==> final(self).durable(d),
    ;

    /// Removes a key, if it is there.
    fn delete(&mut self, key: &[u8]) -> (r: Result<(), Error>)
        requires
            old(self).sound(),
            writable(key@, Seq::empty()),
        ensures
            r is Ok,
            final(self).sound(),
            final(self).contents() == old(self).contents().remove(key@),
            readable_back(key@, Seq::empty()) ==> forall|d: DiskView| #[trigger]
                old(self).durable(d) ==> final(self).durable(d),
    ;

    /// The keys in the half-open range from `start` to `end` with their
    /// values, in key order.
    fn scan(&self, start: &[u8], end: &[u8]) -> (r: Result<Vec<(Vec<u8>, Vec<u8>)>, Error>)
        requires
            self.sound(),
        ensures
            r matches Ok(rows) && lists_range(rows_view(rows@), self.contents(), start@, end@),
    ;

    /// A byte string after every key.
    fn upper_bound(&self) -> (r: Vec<u8>)
        requires
            self.sound(),
        ensures
            forall|k: Seq<u8>| #[trigger] self.contents().contains_key(k) ==> lex_lt(k, r@),
    ;

    /// Moves what is held in memory to where it lasts.
    fn flush(&mut self) -> (r: Result<(), Error>)
        requires
            old(self).sound(),
        ensures
            r is Ok,
            final(self).sound(),
            final(self).contents() == old(self).contents(),
            forall|d: DiskView| #[trigger] old(self).durable(d) ==> final(self).durable(d),
    ;
}

} // verus!
