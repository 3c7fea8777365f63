//! What clients can rely on: commands are applied and announced, leases hold
//! their keys, watchers hear of what they watch, and timers lead to elections.

use vstd::prelude::*;
use crate::bytes::lex_lt;
use crate::client::{law_hint_round_trip, leader_hint};
use crate::consensus::message::{EntryType, LogEntry};
use crate::consensus::progress::{law_proposals_extend_the_log, numbered, reach};
use crate::consensus::state::Role;
use crate::consensus::tick::TickConfig;
use crate::consensus::transitions::{
    lemma_contiguous_last, needs_snapshot, peers_where, proposed, transfer_checked, NodeView,
};
use crate::mvcc::isolation::law_values_expire;
use crate::mvcc::store::{
    creation, dated, deletion_marker, law_read_returns_write, visible, Contents,
};
use crate::mvcc::ttl::key_expired;
use crate::mvcc::version::VersionView;
use crate::server::apply::{
    command_applied, command_fits, commands_applied, commands_of, key_of, CommandView, KvCommand,
};
use crate::server::kv_service::command_taken;
use crate::server::lease::{law_attached_keys_are_held, leases_sound, lemma_find_at, LeaseView};
use crate::server::publish::{all_leased, change_of, changes_of, leased};
use crate::server::server::{deletions, fired, snapshot_answered, transfer_looked, TimerAction};
use crate::server::status::Status;
use crate::server::watch::{watches, WatchEventType, WatcherView};
use crate::server::watch_service::other_watch;
use crate::storage::stack::lemma_filter_contains;
use crate::types::{LogIndex, NodeId, Term};

verus! {

/// Each committed entry that holds a command adds that command, after those of
/// the entries before it; an entry without one adds none.
pub proof fn law_entries_add_their_commands(
    entries: Seq<LogEntry>,
    read: Seq<Option<KvCommand>>,
    entry: LogEntry,
    command: Option<KvCommand>,
)
    requires
        read.len() == entries.len(),
    ensures
        commands_of(Seq::empty(), read) == Seq::<CommandView>::empty(),
        entry.entry_type == EntryType::Normal && entry.data@.len() > 0 && command is Some
            ==> commands_of(entries.push(entry), read.push(command)) == commands_of(
            entries,
            read,
        ).push((command->0)@),
        entry.entry_type != EntryType::Normal || entry.data@.len() == 0 || command is None
            ==> commands_of(entries.push(entry), read.push(command)) == commands_of(entries, read),
{
    assert(entries.push(entry).drop_last() =~= entries);
    lemma_same_reads(entries, read, read.push(command));
}

/// What was read of later entries does not matter.
proof fn lemma_same_reads(
    entries: Seq<LogEntry>,
    a: Seq<Option<KvCommand>>,
    b: Seq<Option<KvCommand>>,
)
    requires
        forall|i: int| 0 <= i < entries.len() ==> a[i] == b[i],
    ensures
        commands_of(entries, a) == commands_of(entries, b),
    decreases entries.len(),
{
    if entries.len() > 0 {
        lemma_same_reads(entries.drop_last(), a, b);
    }
}

/// A written key is read with its value, its lease and the revision of the write,
/// and expires as long after the write as was asked for; where it had a value it
/// keeps the revision of its creation. A deleted key has no value.
pub proof fn law_commands_do_what_they_say(m: Contents, current: u64, c: CommandView, now: i64)
    requires
        dated(m, current),
        current < i64::MAX,
        command_fits(c),
    ensures
        ({
            let revision = (current + 1) as u64;
            let n = command_applied(m, revision, c);
            let before = visible(m, key_of(c), u64::MAX);
            let after = visible(n, key_of(c), u64::MAX);
            match c {
                CommandView::Put { key, value, lease_id, ttl_seconds } => {
                    &&& key_of(c) == key
                    &&& after is Some
                    &&& (after->0).value == value
                    &&& (after->0).lease_id == lease_id
                    &&& (after->0).mod_revision == revision
                    &&& before is Some ==> (after->0).create_revision == (before->0).create_revision
                    &&& before is None ==> (after->0).create_revision == revision
                    &&& key_expired(n, key, now) <==> ttl_seconds > 0 && now - revision
                        >= ttl_seconds
                },
                CommandView::Delete { key } => key_of(c) == key && after is None && !key_expired(
                    n,
                    key,
                    now,
                ),
            }
        }),
{
    let revision = (current + 1) as u64;
    let v = match c {
        CommandView::Put { key, value, lease_id, ttl_seconds } => VersionView {
            value: Some(value),
            create_revision: creation(m, key, revision),
            mod_revision: revision,
            lease_id,
            ttl_seconds,
        },
        CommandView::Delete { key } => deletion_marker(revision),
    };
    law_read_returns_write(m, current, key_of(c), revision, v, key_of(c), u64::MAX);
    law_values_expire(m, current, key_of(c), revision, v, now);
}

/// What is announced of a command is what it did: the key, the new value where
/// it wrote one, the value before, and the revisions that a read shows.
pub proof fn law_changes_tell_what_happened(m: Contents, current: u64, c: CommandView)
    requires
        dated(m, current),
        current < u64::MAX,
        command_fits(c),
    ensures
        ({
            let revision = (current + 1) as u64;
            let change = change_of(m, revision, c);
            let before = visible(m, change.key, u64::MAX);
            let after = visible(command_applied(m, revision, c), change.key, u64::MAX);
            &&& change.mod_revision == revision
            &&& change.event_type == WatchEventType::Put <==> c is Put
            &&& change.event_type == WatchEventType::Delete <==> c is Delete
            &&& match c {
                CommandView::Put { key, value, .. } => change.key == key && change.value == value,
                CommandView::Delete { key } => change.key == key && change.value.len() == 0,
            }
            &&& after matches Some(kv) ==> change.value == kv.value && change.create_revision
                == kv.create_revision && change.mod_revision == kv.mod_revision
            &&& c is Put <==> after is Some
            &&& before is Some ==> change.prev_value == Some((before->0).value)
                && change.create_revision == (before->0).create_revision
            &&& before is None ==> change.prev_value is None
        }),
{
    let revision = (current + 1) as u64;
    let v = match c {
        CommandView::Put { key, value, lease_id, ttl_seconds } => VersionView {
            value: Some(value),
            create_revision: creation(m, key, revision),
            mod_revision: revision,
            lease_id,
            ttl_seconds,
        },
        CommandView::Delete { key } => deletion_marker(revision),
    };
    law_read_returns_write(m, current, key_of(c), revision, v, key_of(c), u64::MAX);
}

/// A batch of commands is announced command by command, each as it met what the
/// ones before it left.
pub proof fn law_batches_are_announced_in_order(
    m: Contents,
    revision: u64,
    cs: Seq<CommandView>,
    i: int,
)
    requires
        0 <= i < cs.len(),
        revision + cs.len() <= u64::MAX,
    ensures
        changes_of(m, revision, cs).len() == cs.len(),
        changes_of(m, revision, cs)[i] == change_of(
            commands_applied(m, revision, cs.take(i)),
            (revision + i + 1) as u64,
            cs[i],
        ),
    decreases cs.len(),
{
    let rest = cs.drop_last();
    if i < rest.len() {
        law_batches_are_announced_in_order(m, revision, rest, i);
        assert(rest.take(i) =~= cs.take(i));
    } else {
        assert(cs.take(i) =~= rest);
        if rest.len() > 0 {
            law_batches_are_announced_in_order(m, revision, rest, 0);
        }
    }
}

/// A key that is written under a lease belongs to it from then on, besides the
/// keys that it had; a write under no lease, or under one that does not exist, and
/// a deletion change no lease.
pub proof fn law_written_keys_join_their_lease(
    ls: Seq<(i64, LeaseView)>,
    next: i64,
    place: int,
    key: Seq<u8>,
    value: Seq<u8>,
    lease_id: i64,
    ttl_seconds: i64,
)
    requires
        leases_sound(ls, next),
        0 <= place < ls.len(),
    ensures
        ({
            let c = CommandView::Put { key, value, lease_id, ttl_seconds };
            let (id, l) = ls[place];
            let (id_after, after) = leased(ls, c)[place];
            &&& leased(ls, c).len() == ls.len()
            &&& id_after == id
            &&& after.granted_ttl == l.granted_ttl && after.last_renewed == l.last_renewed
            &&& forall|k: Seq<u8>| #[trigger]
                after.keys.contains(k) <==> l.keys.contains(k) || (k == key && lease_id == id
                    && lease_id != 0)
            &&& leased(ls, CommandView::Delete { key }) == ls
        }),
{
    let c = CommandView::Put { key, value, lease_id, ttl_seconds };
    let (id, l) = ls[place];
    lemma_find_at(ls, place);
    let after = leased(ls, c)[place].1;
    if lease_id == id && lease_id != 0 {
        assert forall|k: Seq<u8>| #[trigger] after.keys.contains(k) <==> l.keys.contains(k) || k
            == key by {
            law_attached_keys_are_held(ls, next, place, key, k);
        }
    }
}

/// The commands for leases that have run out or were taken back delete the keys
/// of those leases and no others.
pub proof fn law_only_leased_keys_are_deleted(
    expired: Seq<(i64, Seq<Seq<u8>>)>,
    i: int,
)
    requires
        0 <= i < deletions(expired).len(),
    ensures
        exists|lease: int, k: int|
            0 <= lease < expired.len() && 0 <= k < expired[lease].1.len() && deletions(expired)[i]
                == (CommandView::Delete { key: #[trigger] expired[lease].1[k] }),
    decreases expired.len(),
{
    let rest = deletions(expired.drop_last());
    if i < rest.len() {
        law_only_leased_keys_are_deleted(expired.drop_last(), i);
        let (lease, k) = choose|lease: int, k: int|
            0 <= lease < expired.drop_last().len() && 0 <= k < expired.drop_last()[lease].1.len()
                && rest[i] == (CommandView::Delete {
                key: #[trigger] expired.drop_last()[lease].1[k],
            });
        assert(deletions(expired)[i] == (CommandView::Delete { key: expired[lease].1[k] }));
    } else {
        let last = expired.len() - 1;
        let k = i - rest.len();
        assert(deletions(expired)[i] == (CommandView::Delete { key: expired[last].1[k] }));
    }
}

/// A watcher hears of exactly the changes from its start revision on: of its key
/// where it watches one, and of the keys from the first up to, but not including,
/// the end of its range where it watches a range.
pub proof fn law_watchers_hear_of_their_keys(w: WatcherView, key: Seq<u8>, revision: u64)
    ensures
        w.range_end.len() == 0 ==> (watches(w, key, revision) <==> key == w.key && w.start_revision
            <= revision),
        w.range_end.len() > 0 ==> (watches(w, key, revision) <==> (key == w.key || lex_lt(w.key, key))
            && lex_lt(key, w.range_end) && w.start_revision <= revision),
{
}

/// A watch that is cancelled is no longer among those of a stream, and the others
/// stay.
pub proof fn law_cancelled_watches_end(active: Seq<i64>, id: i64, other: i64)
    ensures
        active.filter(other_watch(id)).contains(other) <==> active.contains(other) && other != id,
{
    lemma_filter_contains(active, other_watch(id));
}

/// A follower that has heard of no leader for long enough asks for pre-votes once
/// its deadline has passed, and a candidate begins a new election then; a leader
/// sends entries, whatever the time. Nothing else begins an election, and only a
/// heartbeat moves the deadline.
pub proof fn law_silence_leads_to_elections(
    deadline: u64,
    tick: TickConfig,
    role: Role,
    now: u64,
    since_heartbeat: u64,
    timeout: u64,
)
    requires
        now + timeout <= u64::MAX,
    ensures
        ({
            let (next, action) = fired(deadline, tick, role, now, since_heartbeat, timeout);
            let silent = since_heartbeat >= tick.election_timeout_min;
            &&& action == TimerAction::SendAppends <==> role == Role::Leader
            &&& action == TimerAction::StartElection <==> role == Role::Candidate && now >= deadline
            &&& action == TimerAction::StartPreVote <==> (role == Role::Follower || role
                == Role::PreCandidate) && silent && now >= deadline
            &&& next == if (role == Role::Follower || role == Role::PreCandidate) && !silent {
                now + timeout
            } else {
                deadline as int
            }
        }),
{
}

/// A look at a transfer gives up one that has timed out, and else tells the
/// target to take over as soon as it can, in the leader's name and term.
pub proof fn law_transfers_end(n: NodeView, timed_out: bool)
    ensures
        ({
            let (after, told) = transfer_looked(n, timed_out);
            &&& timed_out ==> told is None && after.transfer is None
            &&& !timed_out ==> after == transfer_checked(n).0 && (told is Some <==> transfer_checked(
                n,
            ).1 is Some)
            &&& told matches Some((target, message)) ==> {
                &&& Some(target) == transfer_checked(n).1
                &&& message.term == n.state.persistent.current_term
                &&& message.leader_id == n.state.id
            }
            &&& after.state == n.state && after.log == n.log && after.leader == n.leader
        }),
{
}

/// A peer that has taken up the leader's snapshot gets the entries after it; a
/// peer in a newer term ends the leadership; one that did not answer, or is in an
/// older term, changes nothing.
pub proof fn law_snapshots_bring_peers_on(
    n: NodeView,
    peer: NodeId,
    index: LogIndex,
    reply: Option<Term>,
)
    requires
        n.state.role == Role::Leader,
        n.leader is Some,
        index < u64::MAX,
    ensures
        ({
            let after = snapshot_answered(n, peer, index, reply);
            let term = n.state.persistent.current_term;
            &&& reply == Some(term) ==> {
                &&& after.leader is Some
                &&& (after.leader->0).next_index.contains_key(peer)
                &&& (after.leader->0).next_index[peer] == index + 1
                &&& (after.leader->0).match_index == (n.leader->0).match_index
                &&& index >= n.log.snapshot_index ==> !peers_where(after, true).contains(peer)
            }
            &&& reply is Some && (reply->0) > term ==> after.state.role == Role::Follower
                && after.state.persistent.current_term == reply->0 && after.leader is None
            &&& reply is None || (reply->0) < term ==> after == n
            &&& after.log == n.log
        }),
{
    let after = snapshot_answered(n, peer, index, reply);
    if let Some(l) = after.leader {
        lemma_filter_contains(
            after.peers,
            |p: NodeId| needs_snapshot(after, l, p) == true,
        );
    }
}

/// A command of a client becomes the last entry of the leader's log, encoded, and
/// its index is answered; a node that does not lead refuses it with the name of
/// its leader, and nothing changes where it is refused.
pub proof fn law_commands_reach_the_log<C: Fn(&KvCommand) -> Vec<u8>>(
    before: NodeView,
    after: NodeView,
    encode: C,
    command: CommandView,
    index: Result<LogIndex, Status>,
)
    requires
        command_taken(before, after, encode, command, index),
        numbered(before.log),
    ensures
        index is Ok <==> before.state.role == Role::Leader && before.transfer is None,
        index is Err ==> after == before,
        index matches Ok(i) ==> {
            let entry = after.log.entries.last();
            &&& i == reach(before.log) + 1
            &&& after.log.entries == before.log.entries.push(entry)
            &&& entry.index == i
            &&& entry.term == before.state.persistent.current_term
            &&& entry.entry_type == EntryType::Normal
            &&& exists|c: KvCommand, data: Vec<u8>| #[trigger]
                encode.ensures((&c,), data) && c@ == command && entry.data == data@
        },
        before.state.role != Role::Leader ==> (index matches Err(status) && leader_hint(
            status.message@,
        ) == before.state.leader_id),
{
    lemma_contiguous_last(before.log);
    if before.state.role != Role::Leader {
        law_hint_round_trip(before.state.leader_id);
    } else if before.transfer is None {
        let (c, data) = choose|c: KvCommand, data: Vec<u8>| #[trigger]
            encode.ensures((&c,), data) && c@ == command && after == proposed(
                before,
                data@,
                EntryType::Normal,
            );
        law_proposals_extend_the_log(before, data@, EntryType::Normal);
        assert(after.log.entries.last().data == data@);
        assert(encode.ensures((&c,), data));
    }
}

/// The keys of a batch join their leases command by command.
pub proof fn law_batches_join_their_leases(
    ls: Seq<(i64, LeaseView)>,
    cs: Seq<CommandView>,
    c: CommandView,
)
    ensures
        all_leased(ls, Seq::<CommandView>::empty()) == ls,
        all_leased(ls, cs.push(c)) == leased(all_leased(ls, cs), c),
{
    assert(cs.push(c).drop_last() =~= cs);
}

} // verus!
