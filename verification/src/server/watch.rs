//! Watches: which changes a client is told of.

use std::collections::HashMap;
use vstd::prelude::*;
use crate::bytes::{
    equal, lemma_lex_asymmetric, lemma_lex_irreflexive, lemma_lex_total, lex_lt, precedes,
};
use crate::storage::run::in_range;

verus! {

broadcast use vstd::std_specs::hash::group_hash_axioms;

/// What happened to a key.
#[derive(Debug, Clone, Copy, PartialEq, Eq, Structural)]
pub enum WatchEventType {
    Put,
    Delete,
}

/// A change of a key.
#[derive(Debug)]
pub struct WatchEvent {
    pub event_type: WatchEventType,
    pub key: Vec<u8>,
    pub value: Vec<u8>,
    pub mod_revision: u64,
    pub create_revision: u64,
    pub prev_value: Option<Vec<u8>>,
}

/// The keys that a client watches, from a revision on. Without an end it is a
/// single key.
#[derive(Debug)]
pub struct Watcher {
    pub key: Vec<u8>,
    pub range_end: Vec<u8>,
    pub start_revision: u64,
}

/// What a watcher watches.
pub struct WatcherView {
    pub key: Seq<u8>,
    pub range_end: Seq<u8>,
    pub start_revision: u64,
}

impl View for Watcher {
    type V = WatcherView;

    open spec fn view(&self) -> WatcherView {
        WatcherView {
            key: self.key@,
            range_end: self.range_end@,
            start_revision: self.start_revision,
        }
    }
}

/// A watcher is told of a change of `key` at `revision`.
pub open spec fn watches(w: WatcherView, key: Seq<u8>, revision: u64) -> bool {
    &&& revision >= w.start_revision
    &&& if w.range_end.len() == 0 {
        key == w.key
    } else {
        in_range(key, w.key, w.range_end)
    }
}

impl Watcher {
    /// Whether the watcher is told of a change.
    pub fn matches(&self, event: &WatchEvent) -> (r: bool)
        ensures
            r == watches(self@, event.key@, event.mod_revision),
    {
        if event.mod_revision < self.start_revision {
            return false;
        }
        if self.range_end.is_empty() {
            equal(self.key.as_slice(), event.key.as_slice())
        } else {
            proof {
                lemma_lex_total(self.key@, event.key@);
                lemma_lex_irreflexive(self.key@);
                if lex_lt(self.key@, event.key@) {
                    lemma_lex_asymmetric(self.key@, event.key@);
                }
            }
            !precedes(event.key.as_slice(), self.key.as_slice()) && precedes(
                event.key.as_slice(),
                self.range_end.as_slice(),
            )
        }
    }
}

/// The watchers of all clients, by number.
#[derive(Debug)]
pub struct WatchHub {
    watchers: HashMap<i64, Watcher>,
    next_id: i64,
}

impl View for WatchHub {
    type V = Map<i64, WatcherView>;

    closed spec fn view(&self) -> Map<i64, WatcherView> {
        self.watchers@.map_values(|w: Watcher| w@)
    }
}

impl WatchHub {
    /// The number that the next watcher gets.
    pub closed spec fn next(&self) -> i64 {
        self.next_id
    }

    /// Numbers are given out in ascending order.
    pub open spec fn well_formed(&self) -> bool {
        forall|id: i64| #[trigger] self@.contains_key(id) ==> id < self.next()
    }

    pub fn new() -> (r: Self)
        ensures
            r.well_formed(),
            r@ == Map::<i64, WatcherView>::empty(),
            r.next() == 1,
    {
        let r = WatchHub { watchers: HashMap::new(), next_id: 1 };
        assert(r@ =~= Map::<i64, WatcherView>::empty());
        r
    }

    /// Adds a watcher; returns its number.
    pub fn create_watcher(&mut self, key: Vec<u8>, range_end: Vec<u8>, start_revision: u64) -> (r:
        i64)
        requires
            old(self).well_formed(),
            old(self).next() < i64::MAX,
        ensures
            final(self).well_formed(),
            r == old(self).next(),
            !old(self)@.contains_key(r),
            final(self).next() == r + 1,
            final(self)@ == old(self)@.insert(
                r,
                WatcherView { key: key@, range_end: range_end@, start_revision },
            ),
    {
        let id: i64 = self.next_id;
        self.next_id = id + 1;
        self.watchers.insert(id, Watcher { key, range_end, start_revision });
        assert(self@ =~= old(self)@.insert(
            id,
            WatcherView { key: key@, range_end: range_end@, start_revision },
        ));
        id
    }

    /// Drops a watcher; returns whether it was there.
    pub fn cancel_watcher(&mut self, id: i64) -> (r: bool)
        requires
            old(self).well_formed(),
        ensures
            final(self).well_formed(),
            final(self).next() == old(self).next(),
            final(self)@ == old(self)@.remove(id),
            r == old(self)@.contains_key(id),
    {
        let removed: bool = self.watchers.remove(&id).is_some();
        assert(self@ =~= old(self)@.remove(id));
        removed
    }

    /// Whether a watcher is there and is told of a change.
    pub fn watcher_matches(&self, watch_id: i64, event: &WatchEvent) -> (r: bool)
        ensures
            r == (self@.contains_key(watch_id) && watches(
                self@[watch_id],
                event.key@,
                event.mod_revision,
            )),
    {
        match self.watchers.get(&watch_id) {
            Some(w) => w.matches(event),
            None => false,
        }
    }

    /// The number that the next watcher gets.
    pub fn next_id(&self) -> (r: i64)
        ensures
            r == self.next(),
    {
        self.next_id
    }

    /// The number of watchers.
    pub fn watcher_count(&self) -> (r: usize)
        ensures
            r == self@.dom().len(),
    {
        assert(self@.dom() =~= self.watchers@.dom());
        self.watchers.len()
    }
}

impl Default for WatchHub {
    fn default() -> (r: Self)
        ensures
            r.well_formed(),
            r@ == Map::<i64, WatcherView>::empty(),
            r.next() == 1,
    {
        WatchHub::new()
    }
}

} // verus!
