//! Committed entries become writes to the store.

use vstd::prelude::*;
use crate::consensus::message::{EntryType, LogEntry};
use crate::error::Error;
use crate::mvcc::store::{
    creation, dated, deletion_marker, law_read_returns_write, lemma_stays_durable, recordable,
    restorable, stays_durable, visible, with_version, Contents, MvccStore,
};
use crate::mvcc::version::VersionView;
use crate::storage::engine::StorageEngine;

verus! {

/// A command on the store, which an entry of the log carries.
#[derive(Debug, PartialEq, Eq)]
pub enum KvCommand {
    Put { key: Vec<u8>, value: Vec<u8>, lease_id: i64, ttl_seconds: i64 },
    Delete { key: Vec<u8> },
}

/// What a command says.
pub enum CommandView {
    Put { key: Seq<u8>, value: Seq<u8>, lease_id: i64, ttl_seconds: i64 },
    Delete { key: Seq<u8> },
}

impl View for KvCommand {
    type V = CommandView;

    open spec fn view(&self) -> CommandView {
        match self {
            KvCommand::Put { key, value, lease_id, ttl_seconds } => CommandView::Put {
                key: key@,
                value: value@,
                lease_id: *lease_id,
                ttl_seconds: *ttl_seconds,
            },
            KvCommand::Delete { key } => CommandView::Delete { key: key@ },
        }
    }
}

/// A command whose write can be recorded.
pub open spec fn command_fits(c: CommandView) -> bool {
    match c {
        CommandView::Put { key, value, .. } => recordable(key, value),
        CommandView::Delete { key } => recordable(key, Seq::empty()),
    }
}

/// A command whose log record can be read back.
pub open spec fn command_restorable(c: CommandView) -> bool {
    match c {
        CommandView::Put { key, value, .. } => restorable(key, value),
        CommandView::Delete { key } => restorable(key, Seq::empty()),
    }
}

pub open spec fn all_restorable(cs: Seq<CommandView>) -> bool {
    forall|i: int| 0 <= i < cs.len() ==> command_restorable(#[trigger] cs[i])
}

/// Commands of which one more is restorable are restorable.
pub proof fn lemma_restorable_push(cs: Seq<CommandView>, c: CommandView)
    requires
        all_restorable(cs.push(c)),
    ensures
        all_restorable(cs),
        command_restorable(c),
{
    assert(cs.push(c)[cs.len() as int] == c);
    assert forall|i: int| 0 <= i < cs.len() implies command_restorable(#[trigger] cs[i]) by {
        assert(cs.push(c)[i] == cs[i]);
    }
}

/// What a store holds after a command at a revision.
pub open spec fn command_applied(m: Contents, revision: u64, c: CommandView) -> Contents {
    match c {
        CommandView::Put { key, value, lease_id, ttl_seconds } => with_version(
            m,
            key,
            revision,
            VersionView {
                value: Some(value),
                create_revision: creation(m, key, revision),
                mod_revision: revision,
                lease_id,
                ttl_seconds,
            },
        ),
        CommandView::Delete { key } => with_version(m, key, revision, deletion_marker(revision)),
    }
}

/// What a store at `revision` holds after commands in order, each at a revision
/// of its own.
pub open spec fn commands_applied(m: Contents, revision: u64, cs: Seq<CommandView>) -> Contents
    decreases cs.len(),
{
    if cs.len() == 0 {
        m
    } else {
        command_applied(
            commands_applied(m, revision, cs.drop_last()),
            (revision + cs.len()) as u64,
            cs.last(),
        )
    }
}

/// An entry that carries a command.
pub open spec fn carries_command(entry: LogEntry) -> bool {
    entry.entry_type == EntryType::Normal && entry.data@.len() > 0
}

/// The commands that entries carry, where `read[i]` is what was read from the
/// i-th: entries of other kinds, empty ones and unreadable ones carry none.
pub open spec fn commands_of(entries: Seq<LogEntry>, read: Seq<Option<KvCommand>>) -> Seq<
    CommandView,
>
    decreases entries.len(),
{
    if entries.len() == 0 {
        Seq::empty()
    } else {
        let before = commands_of(entries.drop_last(), read);
        let n = (entries.len() - 1) as int;
        if carries_command(entries[n]) && read[n] is Some {
            before.push(read[n]->0@)
        } else {
            before
        }
    }
}

/// Reads of the data of all entries that carry a command.
pub open spec fn reads_of<D: Fn(&Vec<u8>) -> Option<KvCommand>>(
    decode: D,
    entries: Seq<LogEntry>,
    read: Seq<Option<KvCommand>>,
) -> bool {
    &&& read.len() == entries.len()
    &&& forall|i: int|
        0 <= i < entries.len() && carries_command(#[trigger] entries[i]) ==> decode.ensures(
            (&entries[i].data,),
            read[i],
        )
}

/// The commands of a prefix do not depend on what was read later.
pub proof fn lemma_commands_push(
    entries: Seq<LogEntry>,
    read: Seq<Option<KvCommand>>,
    next: Option<KvCommand>,
)
    requires
        read.len() >= entries.len(),
    ensures
        commands_of(entries, read.push(next)) == commands_of(entries, read),
        commands_of(entries, read).len() <= entries.len(),
    decreases entries.len(),
{
    if entries.len() > 0 {
        lemma_commands_push(entries.drop_last(), read, next);
    }
}

/// Applies committed entries to a store.
#[derive(Debug, Clone, Copy)]
pub struct ApplyLoop {}

impl ApplyLoop {
    pub fn new() -> (r: Self)
        ensures
            r == (ApplyLoop {  }),
    {
        ApplyLoop {  }
    }

    /// Applies committed entries in order; returns how many commands were
    /// applied. An entry whose data `decode` cannot read is passed over.
    pub fn apply<E: StorageEngine, D: Fn(&Vec<u8>) -> Option<KvCommand>>(
        &self,
        store: &mut MvccStore<E>,
        entries: &Vec<LogEntry>,
        decode: D,
    ) -> (r: Result<usize, Error>)
        requires
            old(store).sound(),
            old(store).current() + entries@.len() <= u64::MAX,
            forall|d: &Vec<u8>| #[trigger] decode.requires((d,)),
            forall|d: &Vec<u8>, c: Option<KvCommand>| #[trigger]
                decode.ensures((d,), c) ==> (c matches Some(c) ==> command_fits(c@)),
        ensures
            final(store).sound(),
            exists|read: Seq<Option<KvCommand>>| #[trigger]
                reads_of(decode, entries@, read) && {
                    let cs = commands_of(entries@, read);
                    &&& r matches Ok(n) && n == cs.len()
                    &&& final(store).contents() == commands_applied(
                        old(store).contents(),
                        old(store).current(),
                        cs,
                    )
                    &&& final(store).current() == old(store).current() + cs.len()
                    &&& all_restorable(cs) ==> stays_durable(*old(store), *final(store))
                },
    {
        let ghost before = store.contents();
        let ghost revision = store.current();
        let ghost mut read: Seq<Option<KvCommand>> = Seq::empty();
        let mut applied: usize = 0;
        let mut i: usize = 0;
        assert(entries@.take(0) =~= Seq::<LogEntry>::empty());
        while i < entries.len()
            invariant
                i <= entries.len(),
                applied <= i,
                read.len() == i,
                store.sound(),
                revision == old(store).current(),
                before == old(store).contents(),
                revision + entries@.len() <= u64::MAX,
                forall|d: &Vec<u8>| #[trigger] decode.requires((d,)),
                forall|d: &Vec<u8>, c: Option<KvCommand>| #[trigger]
                    decode.ensures((d,), c) ==> (c matches Some(c) ==> command_fits(c@)),
                forall|j: int|
                    0 <= j < i && carries_command(#[trigger] entries@[j]) ==> decode.ensures(
                        (&entries@[j].data,),
                        read[j],
                    ),
                applied == commands_of(entries@.take(i as int), read).len(),
                store.current() == revision + applied,
                store.contents() == commands_applied(
                    before,
                    revision,
                    commands_of(entries@.take(i as int), read),
                ),
                all_restorable(commands_of(entries@.take(i as int), read)) ==> stays_durable(
                    *old(store),
                    *store,
                ),
            decreases entries.len() - i,
        {
            let ghost cs = commands_of(entries@.take(i as int), read);
            let mut next: Option<KvCommand> = None;
            match entries[i].entry_type {
                EntryType::Normal => {
                    if entries[i].data.len() > 0 {
                        next = decode(&entries[i].data);
                    }
                },
                EntryType::Noop => {},
                EntryType::ConfigChange => {},
            }
            proof {
                lemma_commands_push(entries@.take(i as int), read, next);
                assert(entries@.take(i + 1).drop_last() =~= entries@.take(i as int));
                assert(entries@.take(i + 1)[i as int] == entries@[i as int]);
                read = read.push(next);
            }
            match next {
                Some(command) => {
                    assert(carries_command(entries@[i as int]));
                    assert(cs.push(command@).drop_last() =~= cs);
                    let ghost earlier = *store;
                    match self.apply_command(store, &command) {
                        Ok(()) => {
                            proof {
                                if all_restorable(cs.push(command@)) {
                                    lemma_restorable_push(cs, command@);
                                    lemma_stays_durable(*old(store), earlier, *store);
                                }
                            }
                        },
                        Err(e) => {
                            return Err(e);
                        },
                    }
                    applied += 1;
                },
                None => {},
            }
            i += 1;
        }
        assert(entries@.take(i as int) =~= entries@);
        assert(reads_of(decode, entries@, read));
        Ok(applied)
    }

    /// Applies a command at the next revision.
    pub fn apply_command<E: StorageEngine>(
        &self,
        store: &mut MvccStore<E>,
        command: &KvCommand,
    ) -> (r: Result<(), Error>)
        requires
            old(store).sound(),
            old(store).current() < u64::MAX,
            command_fits(command@),
        ensures
            r is Ok,
            final(store).sound(),
            final(store).current() == old(store).current() + 1,
            command_restorable(command@) ==> stays_durable(*old(store), *final(store)),
            final(store).contents() == command_applied(
                old(store).contents(),
                (old(store).current() + 1) as u64,
                command@,
            ),
    {
        match command {
            KvCommand::Put { key, value, lease_id, ttl_seconds } => {
                match store.put_with_options(
                    key.as_slice(),
                    value.as_slice(),
                    *lease_id,
                    *ttl_seconds,
                ) {
                    Ok(_) => Ok(()),
                    Err(e) => Err(e),
                }
            },
            KvCommand::Delete { key } => match store.delete(key.as_slice()) {
                Ok(_) => Ok(()),
                Err(e) => Err(e),
            },
        }
    }
}

/// Commands applied in two batches leave what they leave applied in one: a node
/// that restarts between them, or that learns of them at other times, holds the
/// same.
pub proof fn law_batches_join(
    m: Contents,
    revision: u64,
    first: Seq<CommandView>,
    second: Seq<CommandView>,
)
    requires
        revision + first.len() + second.len() <= u64::MAX,
    ensures
        commands_applied(m, revision, first + second) == commands_applied(
            commands_applied(m, revision, first),
            (revision + first.len()) as u64,
            second,
        ),
    decreases second.len(),
{
    if second.len() == 0 {
        assert(first + second =~= first);
    } else {
        assert((first + second).drop_last() =~= first + second.drop_last());
        law_batches_join(m, revision, first, second.drop_last());
    }
}

/// The key that a command is about.
pub open spec fn key_of(c: CommandView) -> Seq<u8> {
    match c {
        CommandView::Put { key, .. } => key,
        CommandView::Delete { key } => key,
    }
}

/// The place of the last command about a key.
pub open spec fn last_about(cs: Seq<CommandView>, key: Seq<u8>) -> Option<int>
    decreases cs.len(),
{
    if cs.len() == 0 {
        None
    } else if key_of(cs.last()) == key {
        Some(cs.len() - 1)
    } else {
        last_about(cs.drop_last(), key)
    }
}

/// The store follows the log: after commands were applied, a read of a key sees
/// what the last command about it has written, at the revision of that command,
/// or nothing where that was a deletion; a key that no command is about reads as
/// before.
pub proof fn law_store_follows_log(
    m: Contents,
    revision: u64,
    cs: Seq<CommandView>,
    key: Seq<u8>,
)
    requires
        dated(m, revision),
        revision + cs.len() <= u64::MAX,
        forall|i: int| 0 <= i < cs.len() ==> command_fits(#[trigger] cs[i]),
    ensures
        dated(commands_applied(m, revision, cs), (revision + cs.len()) as u64),
        match last_about(cs, key) {
            Some(i) => {
                &&& 0 <= i < cs.len()
                &&& match cs[i] {
                    CommandView::Put { value, lease_id, .. } => {
                        &&& visible(
                            commands_applied(m, revision, cs),
                            key,
                            u64::MAX,
                        ) matches Some(kv)
                        &&& kv.value == value
                        &&& kv.lease_id == lease_id
                        &&& kv.mod_revision == revision + i + 1
                    },
                    CommandView::Delete { .. } => visible(
                        commands_applied(m, revision, cs),
                        key,
                        u64::MAX,
                    ) is None,
                }
            },
            None => visible(commands_applied(m, revision, cs), key, u64::MAX) == visible(
                m,
                key,
                u64::MAX,
            ),
        },
    decreases cs.len(),
{
    if cs.len() > 0 {
        let rest = cs.drop_last();
        assert forall|i: int| 0 <= i < rest.len() implies command_fits(#[trigger] rest[i]) by {
            assert(rest[i] == cs[i]);
        }
        law_store_follows_log(m, revision, rest, key);
        let before = commands_applied(m, revision, rest);
        let current = (revision + rest.len()) as u64;
        let next = (revision + cs.len()) as u64;
        let c = cs.last();
        assert(command_fits(cs[cs.len() - 1]));
        let v = match c {
            CommandView::Put { key, value, lease_id, ttl_seconds } => VersionView {
                value: Some(value),
                create_revision: creation(before, key, next),
                mod_revision: next,
                lease_id,
                ttl_seconds,
            },
            CommandView::Delete { .. } => deletion_marker(next),
        };
        assert(command_applied(before, next, c) == with_version(before, key_of(c), next, v));
        law_read_returns_write(before, current, key_of(c), next, v, key, u64::MAX);
        if let Some(i) = last_about(rest, key) {
            assert(rest[i] == cs[i]);
        }
    }
}

} // verus!
