//! Committed entries reach the store, the leases and the watches.

use vstd::prelude::*;
use crate::bytes::copy;
use crate::consensus::message::{EntryType, LogEntry};
use crate::error::Error;
use crate::mvcc::store::{
    creation, lemma_stays_durable, stays_durable, visible, Contents, KeyValue, MvccStore,
};
use crate::server::apply::{
    all_restorable, carries_command, command_applied, command_fits, command_restorable,
    commands_applied, commands_of, key_of, lemma_commands_push, lemma_restorable_push, reads_of,
    ApplyLoop, CommandView, KvCommand,
};
use crate::server::lease::{find_lease, with_attached, with_lease, LeaseManager, LeaseView};
use crate::server::watch::{WatchEvent, WatchEventType};
use crate::storage::engine::StorageEngine;
use crate::storage::run::value_view;

verus! {

/// What a change says.
pub struct ChangeView {
    pub event_type: WatchEventType,
    pub key: Seq<u8>,
    pub value: Seq<u8>,
    pub mod_revision: u64,
    pub create_revision: u64,
    pub prev_value: Option<Seq<u8>>,
}

impl View for WatchEvent {
    type V = ChangeView;

    open spec fn view(&self) -> ChangeView {
        ChangeView {
            event_type: self.event_type,
            key: self.key@,
            value: self.value@,
            mod_revision: self.mod_revision,
            create_revision: self.create_revision,
            prev_value: value_view(self.prev_value),
        }
    }
}

/// The value of a key before a change.
pub open spec fn value_before(m: Contents, key: Seq<u8>) -> Option<Seq<u8>> {
    match visible(m, key, u64::MAX) {
        Some(kv) => Some(kv.value),
        None => None,
    }
}

/// The change that a command makes at a revision of a store.
pub open spec fn change_of(m: Contents, revision: u64, c: CommandView) -> ChangeView {
    match c {
        CommandView::Put { key, value, .. } => ChangeView {
            event_type: WatchEventType::Put,
            key,
            value,
            mod_revision: revision,
            create_revision: creation(m, key, revision),
            prev_value: value_before(m, key),
        },
        CommandView::Delete { key } => ChangeView {
            event_type: WatchEventType::Delete,
            key,
            value: Seq::empty(),
            mod_revision: revision,
            create_revision: match visible(m, key, u64::MAX) {
                Some(kv) => kv.create_revision,
                None => 0,
            },
            prev_value: value_before(m, key),
        },
    }
}

/// The changes that commands make in order.
pub open spec fn changes_of(m: Contents, revision: u64, cs: Seq<CommandView>) -> Seq<ChangeView>
    decreases cs.len(),
{
    if cs.len() == 0 {
        Seq::empty()
    } else {
        changes_of(m, revision, cs.drop_last()).push(
            change_of(
                commands_applied(m, revision, cs.drop_last()),
                (revision + cs.len()) as u64,
                cs.last(),
            ),
        )
    }
}

/// The leases after a command: a key that is written with a lease is attached
/// to it, where it is there.
pub open spec fn leased(ls: Seq<(i64, LeaseView)>, c: CommandView) -> Seq<(i64, LeaseView)> {
    match c {
        CommandView::Put { key, lease_id, .. } => if lease_id == 0 {
            ls
        } else {
            match find_lease(ls, lease_id) {
                Some(l) => with_lease(
                    ls,
                    lease_id,
                    LeaseView { keys: with_attached(l.keys, key), ..l },
                ),
                None => ls,
            }
        },
        CommandView::Delete { .. } => ls,
    }
}

/// The leases after commands in order.
pub open spec fn all_leased(ls: Seq<(i64, LeaseView)>, cs: Seq<CommandView>) -> Seq<
    (i64, LeaseView),
>
    decreases cs.len(),
{
    if cs.len() == 0 {
        ls
    } else {
        leased(all_leased(ls, cs.drop_last()), cs.last())
    }
}

pub open spec fn events_view(events: Seq<WatchEvent>) -> Seq<ChangeView> {
    Seq::new(events.len(), |i: int| events[i]@)
}

impl ApplyLoop {
    /// Applies a command at the next revision and attaches its key to its lease;
    /// returns the change for the watches.
    pub fn publish_command<E: StorageEngine>(
        &self,
        store: &mut MvccStore<E>,
        leases: &mut LeaseManager,
        command: &KvCommand,
    ) -> (r: Result<WatchEvent, Error>)
        requires
            old(store).sound(),
            old(store).current() < u64::MAX,
            command_fits(command@),
            old(leases).well_formed(),
        ensures
            final(store).sound(),
            final(store).current() == old(store).current() + 1,
            command_restorable(command@) ==> stays_durable(*old(store), *final(store)),
            final(store).contents() == command_applied(
                old(store).contents(),
                (old(store).current() + 1) as u64,
                command@,
            ),
            final(leases).well_formed(),
            final(leases).next() == old(leases).next(),
            final(leases).leases() == leased(old(leases).leases(), command@),
            r matches Ok(e) && e@ == change_of(
                old(store).contents(),
                (old(store).current() + 1) as u64,
                command@,
            ),
    {
        let key: &Vec<u8> = match command {
            KvCommand::Put { key, .. } => key,
            KvCommand::Delete { key } => key,
        };
        let before: Option<KeyValue> = match store.get(key.as_slice()) {
            Ok(kv) => kv,
            Err(e) => {
                return Err(e);
            },
        };
        match self.apply_command(store, command) {
            Ok(()) => {},
            Err(e) => {
                return Err(e);
            },
        }
        let revision: u64 = store.revision();
        match command {
            KvCommand::Put { key, value, lease_id, .. } => {
                if *lease_id != 0 {
                    let _ = leases.attach_key(*lease_id, copy(key.as_slice()));
                }
                let (create_revision, prev_value): (u64, Option<Vec<u8>>) = match before {
                    Some(kv) => (kv.create_revision, Some(kv.value)),
                    None => (revision, None),
                };
                Ok(
                    WatchEvent {
                        event_type: WatchEventType::Put,
                        key: copy(key.as_slice()),
                        value: copy(value.as_slice()),
                        mod_revision: revision,
                        create_revision,
                        prev_value,
                    },
                )
            },
            KvCommand::Delete { key } => {
                let (create_revision, prev_value): (u64, Option<Vec<u8>>) = match before {
                    Some(kv) => (kv.create_revision, Some(kv.value)),
                    None => (0, None),
                };
                let e = WatchEvent {
                    event_type: WatchEventType::Delete,
                    key: copy(key.as_slice()),
                    value: Vec::new(),
                    mod_revision: revision,
                    create_revision,
                    prev_value,
                };
                assert(e.value@ =~= Seq::<u8>::empty());
                Ok(e)
            },
        }
    }

    /// Applies committed entries in order to the store and the leases; returns
    /// the change of every command, for the watches.
    pub fn full<E: StorageEngine, D: Fn(&Vec<u8>) -> Option<KvCommand>>(
        &self,
        store: &mut MvccStore<E>,
        leases: &mut LeaseManager,
        entries: &Vec<LogEntry>,
        decode: D,
    ) -> (r: Result<Vec<WatchEvent>, Error>)
        requires
            old(store).sound(),
            old(store).current() + entries@.len() <= u64::MAX,
            old(leases).well_formed(),
            forall|d: &Vec<u8>| #[trigger] decode.requires((d,)),
            forall|d: &Vec<u8>, c: Option<KvCommand>| #[trigger]
                decode.ensures((d,), c) ==> (c matches Some(c) ==> command_fits(c@)),
        ensures
            final(store).sound(),
            final(leases).well_formed(),
            final(leases).next() == old(leases).next(),
            exists|read: Seq<Option<KvCommand>>| #[trigger]
                reads_of(decode, entries@, read) && {
                    let cs = commands_of(entries@, read);
                    &&& r matches Ok(events) && events_view(events@) == changes_of(
                        old(store).contents(),
                        old(store).current(),
                        cs,
                    )
                    &&& final(store).contents() == commands_applied(
                        old(store).contents(),
                        old(store).current(),
                        cs,
                    )
                    &&& final(store).current() == old(store).current() + cs.len()
                    &&& final(leases).leases() == all_leased(old(leases).leases(), cs)
                    &&& all_restorable(cs) ==> stays_durable(*old(store), *final(store))
                },
    {
        let ghost before = store.contents();
        let ghost revision = store.current();
        let ghost held = leases.leases();
        let ghost mut read: Seq<Option<KvCommand>> = Seq::empty();
        let mut events: Vec<WatchEvent> = Vec::new();
        let mut i: usize = 0;
        assert(entries@.take(0) =~= Seq::<LogEntry>::empty());
        assert(events_view(events@) =~= Seq::<ChangeView>::empty());
        while i < entries.len()
            invariant
                i <= entries.len(),
                read.len() == i,
                store.sound(),
                revision == old(store).current(),
                before == old(store).contents(),
                held == old(leases).leases(),
                leases.well_formed(),
                leases.next() == old(leases).next(),
                revision + entries@.len() <= u64::MAX,
                forall|d: &Vec<u8>| #[trigger] decode.requires((d,)),
                forall|d: &Vec<u8>, c: Option<KvCommand>| #[trigger]
                    decode.ensures((d,), c) ==> (c matches Some(c) ==> command_fits(c@)),
                forall|j: int|
                    0 <= j < i && carries_command(#[trigger] entries@[j]) ==> decode.ensures(
                        (&entries@[j].data,),
                        read[j],
                    ),
                commands_of(entries@.take(i as int), read).len() <= i,
                store.current() == revision + commands_of(entries@.take(i as int), read).len(),
                store.contents() == commands_applied(
                    before,
                    revision,
                    commands_of(entries@.take(i as int), read),
                ),
                events_view(events@) == changes_of(
                    before,
                    revision,
                    commands_of(entries@.take(i as int), read),
                ),
                leases.leases() == all_leased(held, commands_of(entries@.take(i as int), read)),
                all_restorable(commands_of(entries@.take(i as int), read)) ==> stays_durable(
                    *old(store),
                    *store,
                ),
            decreases entries.len() - i,
        {
            let ghost cs = commands_of(entries@.take(i as int), read);
            let ghost so_far = events_view(events@);
            let mut next: Option<KvCommand> = None;
            match entries[i].entry_type {
                EntryType::Normal => {
                    if entries[i].data.len() > 0 {
                        next = decode(&entries[i].data);
                    }
                },
                EntryType::Noop => {},
                EntryType::ConfigChange => {},
            }
            proof {
                lemma_commands_push(entries@.take(i as int), read, next);
                assert(entries@.take(i + 1).drop_last() =~= entries@.take(i as int));
                assert(entries@.take(i + 1)[i as int] == entries@[i as int]);
                read = read.push(next);
            }
            match next {
                Some(command) => {
                    assert(carries_command(entries@[i as int]));
                    assert(cs.push(command@).drop_last() =~= cs);
                    let ghost earlier = *store;
                    match self.publish_command(store, leases, &command) {
                        Ok(event) => {
                            events.push(event);
                            proof {
                                if all_restorable(cs.push(command@)) {
                                    lemma_restorable_push(cs, command@);
                                    lemma_stays_durable(*old(store), earlier, *store);
                                }
                            }
                            assert(events_view(events@) =~= so_far.push(event@));
                        },
                        Err(e) => {
                            return Err(e);
                        },
                    }
                },
                None => {},
            }
            i += 1;
        }
        assert(entries@.take(i as int) =~= entries@);
        assert(reads_of(decode, entries@, read));
        Ok(events)
    }
}

/// Every command makes one change, of its key.
pub proof fn law_one_change_per_command(m: Contents, revision: u64, cs: Seq<CommandView>, i: int)
    requires
        0 <= i < cs.len(),
        revision + cs.len() <= u64::MAX,
    ensures
        changes_of(m, revision, cs).len() == cs.len(),
        changes_of(m, revision, cs)[i].key == key_of(cs[i]),
        changes_of(m, revision, cs)[i].mod_revision == revision + i + 1,
    decreases cs.len(),
{
    reveal_with_fuel(changes_of, 2);
    if i < cs.len() - 1 {
        law_one_change_per_command(m, revision, cs.drop_last(), i);
    } else if cs.len() > 1 {
        law_one_change_per_command(m, revision, cs.drop_last(), i - 1);
    }
}

} // verus!
