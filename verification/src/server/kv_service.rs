//! Reads and writes of clients.

use vstd::prelude::*;
use crate::consensus::log::last_index_of;
use crate::consensus::message::{EntryType, ProposalResult};
use crate::consensus::node::RaftNode;
use crate::consensus::read_index::confirmed;
use crate::consensus::state::Role;
use crate::consensus::transitions::{proposed, read_begun, NodeView};
use crate::mvcc::isolation::{law_deleted_keys_are_gone, law_puts_are_seen};
use crate::mvcc::store::{
    dated, key_deleted, lists_visible, pairs_view, value_put, visible, Contents, KeyValue,
    KeyValueView, MvccStore,
};
use crate::server::apply::{CommandView, KvCommand};
use crate::server::status::{refusal_text, refusal_view, refused, Status, StatusCode};
use crate::storage::engine::StorageEngine;
use crate::text::joined;
use crate::types::{LogIndex, NodeId};
use crate::words::{option_text, option_view};

verus! {

/// How often a read looks for the confirmation that the leader still leads.
pub const CONFIRM_ATTEMPTS: u64 = 200;

/// The milliseconds between two such looks.
pub const CONFIRM_PAUSE_MS: u64 = 20;

/// How often a read looks whether the state machine has caught up.
pub const APPLY_ATTEMPTS: u64 = 100;

/// The milliseconds between two such looks.
pub const APPLY_PAUSE_MS: u64 = 5;

/// The message of a node that does not lead.
pub open spec fn not_leader_message(leader: Option<u64>) -> Seq<char> {
    "not leader, leader is "@ + option_view(leader)
}

/// What a read waits for.
#[derive(Debug, Clone, Copy, PartialEq, Eq, Structural)]
pub enum ReadWait {
    /// That a quorum confirms the leader.
    Confirmation { id: u64, read_index: LogIndex, attempts: u64 },
    /// That the state machine reaches an index.
    Applied { read_index: LogIndex, attempts: u64 },
}

/// What is to be done for a read.
#[derive(Debug, Clone, Copy, PartialEq, Eq, Structural)]
pub enum ReadStep {
    /// Serve it.
    Ready,
    /// Look again after a pause.
    Pause { milliseconds: u64, wait: ReadWait },
}

/// How many more pauses a wait can take.
pub open spec fn pauses_left(wait: ReadWait) -> int {
    match wait {
        ReadWait::Confirmation { attempts, .. } => CONFIRM_ATTEMPTS - attempts + APPLY_ATTEMPTS,
        ReadWait::Applied { attempts, .. } => APPLY_ATTEMPTS - attempts,
    }
}

/// A wait has not looked more often than it may.
pub open spec fn within_attempts(wait: ReadWait) -> bool {
    match wait {
        ReadWait::Confirmation { attempts, .. } => attempts <= CONFIRM_ATTEMPTS,
        ReadWait::Applied { attempts, .. } => attempts <= APPLY_ATTEMPTS,
    }
}

/// A look whether the state machine has caught up.
pub open spec fn applied_look(n: NodeView, read_index: LogIndex, attempts: u64) -> Result<
    ReadStep,
    (StatusCode, Seq<char>),
> {
    if n.state.last_applied >= read_index {
        Ok(ReadStep::Ready)
    } else if attempts >= APPLY_ATTEMPTS {
        Err(
            (
                StatusCode::DeadlineExceeded,
                "timed out waiting for state machine to catch up"@,
            ),
        )
    } else {
        Ok(
            ReadStep::Pause {
                milliseconds: APPLY_PAUSE_MS,
                wait: ReadWait::Applied { read_index, attempts: (attempts + 1) as u64 },
            },
        )
    }
}

/// A look at what a read waits for: the node after it, and what is to be done.
/// A read whose leader is confirmed goes on to wait for the state machine; one
/// that has waited too long, or whose node has lost its leadership, fails.
pub open spec fn looked(n: NodeView, wait: ReadWait) -> (
    NodeView,
    Result<ReadStep, (StatusCode, Seq<char>)>,
) {
    match wait {
        ReadWait::Confirmation { id, read_index, attempts } => {
            let without = NodeView { reads: n.reads.remove(id), ..n };
            if attempts > 0 && n.state.role != Role::Leader {
                (n, Err((StatusCode::FailedPrecondition, "lost leadership during read"@)))
            } else if n.reads.contains_key(id) && confirmed(n.reads[id]) {
                (without, applied_look(without, read_index, 0))
            } else if attempts >= CONFIRM_ATTEMPTS {
                (
                    without,
                    Err((StatusCode::DeadlineExceeded, "read index confirmation timed out"@)),
                )
            } else {
                (
                    n,
                    Ok(
                        ReadStep::Pause {
                            milliseconds: CONFIRM_PAUSE_MS,
                            wait: ReadWait::Confirmation {
                                id,
                                read_index,
                                attempts: (attempts + 1) as u64,
                            },
                        },
                    ),
                )
            }
        },
        ReadWait::Applied { read_index, attempts } => (n, applied_look(n, read_index, attempts)),
    }
}

/// A step came out as it should.
pub open spec fn step_is(
    r: Result<ReadStep, Status>,
    expected: Result<ReadStep, (StatusCode, Seq<char>)>,
) -> bool {
    match expected {
        Ok(step) => r == Ok::<ReadStep, Status>(step),
        Err((code, message)) => refused(r, code, message),
    }
}

/// A node after a read was registered with it.
pub open spec fn read_registered(n: NodeView) -> NodeView {
    read_begun(n)
}

/// Every look either ends a wait or brings its end nearer: a read pauses at
/// most as often as both kinds of wait allow together.
pub proof fn law_reads_end(n: NodeView, wait: ReadWait)
    requires
        within_attempts(wait),
    ensures
        match looked(n, wait).1 {
            Ok(ReadStep::Pause { wait: next, .. }) => within_attempts(next) && 0 <= pauses_left(
                next,
            ) < pauses_left(wait),
            _ => true,
        },
        pauses_left(wait) <= CONFIRM_ATTEMPTS + APPLY_ATTEMPTS,
{
}

/// A read is served only when the state machine has reached the index of the
/// read; one that waited for its leader's confirmation is served or goes on to
/// the state machine only when a quorum has confirmed the leader.
pub proof fn law_reads_are_confirmed(n: NodeView, wait: ReadWait)
    ensures
        match (wait, looked(n, wait).1) {
            (ReadWait::Confirmation { id, read_index, .. }, Ok(ReadStep::Ready)) => {
                &&& n.reads.contains_key(id)
                &&& confirmed(n.reads[id])
                &&& n.state.last_applied >= read_index
            },
            (
                ReadWait::Confirmation { id, read_index, .. },
                Ok(ReadStep::Pause { wait: ReadWait::Applied { read_index: target, .. }, .. }),
            ) => n.reads.contains_key(id) && confirmed(n.reads[id]) && target == read_index,
            (ReadWait::Applied { read_index, .. }, Ok(ReadStep::Ready)) => n.state.last_applied
                >= read_index,
            _ => true,
        },
{
}

/// A read that waits for the state machine is served exactly at the look at which
/// that has reached the index of the read; until then it looks again, and it fails
/// only after it has looked as often as it may.
pub proof fn law_applied_reads_are_served(n: NodeView, read_index: LogIndex, attempts: u64)
    ensures
        ({
            let (after, r) = looked(n, ReadWait::Applied { read_index, attempts });
            &&& after == n
            &&& r == applied_look(n, read_index, attempts)
            &&& r == Ok::<ReadStep, (StatusCode, Seq<char>)>(ReadStep::Ready) <==> read_index
                <= n.state.last_applied
            &&& r is Err <==> read_index > n.state.last_applied && attempts >= APPLY_ATTEMPTS
            &&& r matches Ok(ReadStep::Pause { milliseconds, wait }) ==> milliseconds
                == APPLY_PAUSE_MS && wait == (ReadWait::Applied {
                read_index,
                attempts: (attempts + 1) as u64,
            })
        }),
{
}

/// A read whose leader more than half of the cluster has confirmed is served
/// exactly where the state machine has reached its index, and otherwise goes on
/// to wait for that; it is no longer counted among the reads that wait for
/// confirmation.
pub proof fn law_confirmed_reads_go_on(
    n: NodeView,
    id: u64,
    read_index: LogIndex,
    attempts: u64,
)
    requires
        n.state.role == Role::Leader || attempts == 0,
        n.reads.contains_key(id),
        2 * n.reads[id].acks.len() > n.reads[id].cluster_size,
    ensures
        ({
            let (after, r) = looked(n, ReadWait::Confirmation { id, read_index, attempts });
            &&& r == Ok::<ReadStep, (StatusCode, Seq<char>)>(ReadStep::Ready) <==> read_index
                <= n.state.last_applied
            &&& read_index > n.state.last_applied ==> r == Ok::<
                ReadStep,
                (StatusCode, Seq<char>),
            >(
                ReadStep::Pause {
                    milliseconds: APPLY_PAUSE_MS,
                    wait: ReadWait::Applied { read_index, attempts: 1 },
                },
            )
            &&& !after.reads.contains_key(id)
            &&& forall|other: u64|
                other != id ==> (#[trigger] after.reads.contains_key(other)
                    <==> n.reads.contains_key(other)) && after.reads[other] == n.reads[other]
            &&& after.state == n.state && after.log == n.log
        }),
{
}

/// A read that no more than half of the cluster has confirmed is never served,
/// and goes on to wait as long as it may look again and its node leads.
pub proof fn law_unconfirmed_reads_wait(
    n: NodeView,
    id: u64,
    read_index: LogIndex,
    attempts: u64,
)
    requires
        n.reads.contains_key(id) ==> 2 * n.reads[id].acks.len() <= n.reads[id].cluster_size,
    ensures
        ({
            let (after, r) = looked(n, ReadWait::Confirmation { id, read_index, attempts });
            &&& r is Err <==> attempts >= CONFIRM_ATTEMPTS || (attempts > 0 && n.state.role
                != Role::Leader)
            &&& r is Ok ==> after == n && r == Ok::<ReadStep, (StatusCode, Seq<char>)>(
                ReadStep::Pause {
                    milliseconds: CONFIRM_PAUSE_MS,
                    wait: ReadWait::Confirmation {
                        id,
                        read_index,
                        attempts: (attempts + 1) as u64,
                    },
                },
            )
        }),
{
}

/// A read is registered with the commit index of the moment, under a number of
/// its own, and with the leader's own confirmation only; other reads stay.
pub proof fn law_reads_see_what_is_committed(n: NodeView)
    requires
        n.next_read < u64::MAX,
        forall|id: u64| #[trigger] n.reads.contains_key(id) ==> id < n.next_read,
    ensures
        ({
            let after = read_registered(n);
            &&& !n.reads.contains_key(n.next_read)
            &&& after.reads.contains_key(n.next_read)
            &&& after.reads[n.next_read].read_index == n.state.commit_index
            &&& forall|node: NodeId| #[trigger]
                after.reads[n.next_read].acks.contains(node) <==> node == n.state.id
            &&& after.reads[n.next_read].cluster_size == n.membership.current.len()
            &&& forall|id: u64| #[trigger]
                n.reads.contains_key(id) ==> after.reads.contains_key(id) && after.reads[id]
                    == n.reads[id]
            &&& forall|id: u64| #[trigger] after.reads.contains_key(id) ==> id < after.next_read
            &&& after.state == n.state && after.log == n.log
        }),
{
}

/// How a read begins: one that is to be linearizable is registered and has a first
/// look, any other needs only that the node leads. A service that does not wait for
/// its reads serves them at once.
pub open spec fn get_begun(n: NodeView, waits: bool, linearizable: bool) -> (
    NodeView,
    Result<ReadStep, (StatusCode, Seq<char>)>,
) {
    if linearizable && !waits {
        (n, Ok(ReadStep::Ready))
    } else if n.state.role != Role::Leader {
        (n, Err((StatusCode::FailedPrecondition, not_leader_message(n.state.leader_id))))
    } else if linearizable {
        looked(
            read_registered(n),
            ReadWait::Confirmation {
                id: n.next_read,
                read_index: n.state.commit_index,
                attempts: 0,
            },
        )
    } else {
        (n, Ok(ReadStep::Ready))
    }
}

/// A linearizable read is never served by a node that does not lead, nor before a
/// majority has confirmed the leader: in a cluster of more than one node it waits
/// at first, with the commit index of the moment as its index. Alone, a leader
/// confirms itself, and serves the read as soon as the state machine has reached
/// that index.
pub proof fn law_linearizable_reads_wait(n: NodeView)
    requires
        n.next_read < u64::MAX,
    ensures
        ({
            let (after, r) = get_begun(n, true, true);
            let alone = n.membership.current.len() <= 1;
            &&& n.state.role != Role::Leader ==> r is Err && after == n
            &&& n.state.role == Role::Leader && !alone ==> {
                &&& r == Ok::<ReadStep, (StatusCode, Seq<char>)>(
                    ReadStep::Pause {
                        milliseconds: CONFIRM_PAUSE_MS,
                        wait: ReadWait::Confirmation {
                            id: n.next_read,
                            read_index: n.state.commit_index,
                            attempts: 1,
                        },
                    },
                )
                &&& after.reads.contains_key(n.next_read)
                &&& after.reads[n.next_read].read_index == n.state.commit_index
            }
            &&& n.state.role == Role::Leader && alone ==> (r == Ok::<
                ReadStep,
                (StatusCode, Seq<char>),
            >(ReadStep::Ready) <==> n.state.commit_index <= n.state.last_applied)
        }),
        get_begun(n, true, false).1 is Ok <==> n.state.role == Role::Leader,
{
    let acks = Set::<NodeId>::empty().insert(n.state.id);
    assert(acks.len() == 1);
}

/// The value and the revision that a read of one key is answered with.
pub open spec fn answer_of(found: Option<KeyValueView>) -> (Seq<u8>, u64) {
    match found {
        Some(kv) => (kv.value, kv.mod_revision),
        None => (Seq::empty(), 0),
    }
}

/// As many of the pairs of a range as a positive limit allows.
pub open spec fn limited(all: Seq<KeyValueView>, limit: i64) -> Seq<KeyValueView> {
    if 0 < limit < all.len() {
        all.take(limit as int)
    } else {
        all
    }
}

/// A read of a key is answered with the value that was written last and the
/// revision of that write; after a deletion, with nothing.
pub proof fn law_answers_show_the_last_write(
    m: Contents,
    current: u64,
    key: Seq<u8>,
    value: Seq<u8>,
    lease_id: i64,
    ttl_seconds: i64,
)
    requires
        dated(m, current),
        current < i64::MAX,
        value.len() <= u32::MAX,
    ensures
        ({
            let revision = (current + 1) as u64;
            let put = value_put(m, key, value, revision, lease_id, ttl_seconds);
            let deleted = key_deleted(m, key, revision).0;
            &&& answer_of(visible(put, key, u64::MAX)) == (value, revision)
            &&& answer_of(visible(deleted, key, u64::MAX)) == (Seq::<u8>::empty(), 0u64)
        }),
{
    law_puts_are_seen(m, current, key, value, lease_id, ttl_seconds, key, u64::MAX, 0);
    law_deleted_keys_are_gone(m, current, key, (current + 1) as u64, key, u64::MAX);
}

/// A limit cuts a range off behind as many pairs as it allows; without one, all
/// pairs come back.
pub proof fn law_limits_cut_off(all: Seq<KeyValueView>, limit: i64)
    ensures
        limit <= 0 ==> limited(all, limit) == all,
        limit > 0 ==> limited(all, limit).len() == if all.len() < limit {
            all.len() as int
        } else {
            limit as int
        },
        forall|i: int|
            0 <= i < limited(all, limit).len() ==> #[trigger] limited(all, limit)[i] == all[i],
{
}

/// A read of one key.
#[derive(Debug, PartialEq, Eq)]
pub struct GetResponse {
    pub value: Vec<u8>,
    /// The revision of the value; 0 where the key has none.
    pub revision: u64,
}

/// A read of a range.
#[derive(Debug)]
pub struct RangeResponse {
    pub kvs: Vec<KeyValue>,
    pub count: u64,
}

/// A write that was taken.
#[derive(Debug, Clone, Copy, PartialEq, Eq, Structural)]
pub struct PutResponse {
    /// The index of the entry.
    pub revision: u64,
}

/// A deletion that was taken.
#[derive(Debug, Clone, Copy, PartialEq, Eq, Structural)]
pub struct DeleteResponse {
    /// The index of the entry.
    pub revision: u64,
    pub deleted: bool,
}

/// A write that a client asks for.
#[derive(Debug)]
pub struct PutRequest {
    pub key: Vec<u8>,
    pub value: Vec<u8>,
    pub lease_id: i64,
    pub ttl_seconds: i64,
}

/// What came of a command that a client asked for: a node that does not lead
/// names its leader, one that hands leadership over refuses, and a leader
/// appends the command.
pub open spec fn command_taken<C: Fn(&KvCommand) -> Vec<u8>>(
    before: NodeView,
    after: NodeView,
    encode: C,
    command: CommandView,
    index: Result<LogIndex, Status>,
) -> bool {
    if before.state.role != Role::Leader {
        &&& refused(
            index,
            StatusCode::FailedPrecondition,
            not_leader_message(before.state.leader_id),
        )
        &&& after == before
    } else if before.transfer is Some {
        &&& refused(
            index,
            StatusCode::Internal,
            refusal_view(ProposalResult::TransferInProgress),
        )
        &&& after == before
    } else {
        &&& index == Ok::<LogIndex, Status>((last_index_of(before.log) + 1) as LogIndex)
        &&& exists|c: KvCommand, data: Vec<u8>| #[trigger]
            encode.ensures((&c,), data) && c@ == command && after == proposed(
                before,
                data@,
                EntryType::Normal,
            )
    }
}

/// Commands can be encoded, in a size that an entry can have.
pub open spec fn encodes<C: Fn(&KvCommand) -> Vec<u8>>(encode: C) -> bool {
    &&& forall|c: &KvCommand| #[trigger] encode.requires((c,))
    &&& forall|c: &KvCommand, data: Vec<u8>| #[trigger]
        encode.ensures((c,), data) ==> data@.len() + 21 <= u32::MAX
}

/// The service for reads and writes.
#[derive(Debug, Clone, Copy, PartialEq, Eq, Structural)]
pub struct KvRpcService {
    /// Whether reads wait until they are linearizable.
    pub linearizable_reads: bool,
}

impl KvRpcService {
    pub fn new() -> (r: Self)
        ensures
            r.linearizable_reads,
    {
        KvRpcService { linearizable_reads: true }
    }

    /// A service whose reads do not wait, for where eventual consistency will
    /// do.
    pub fn with_serializable_reads() -> (r: Self)
        ensures
            !r.linearizable_reads,
    {
        KvRpcService { linearizable_reads: false }
    }

    /// Refuses where the node does not lead.
    pub fn check_leader(&self, node: &RaftNode) -> (r: Result<(), Status>)
        ensures
            if node@.state.role == Role::Leader {
                r == Ok::<(), Status>(())
            } else {
                refused(
                    r,
                    StatusCode::FailedPrecondition,
                    not_leader_message(node@.state.leader_id),
                )
            },
    {
        if node.role() != Role::Leader {
            let message: String = joined(
                "not leader, leader is ",
                option_text(node.leader_id()).as_str(),
            );
            return Err(Status { code: StatusCode::FailedPrecondition, message });
        }
        Ok(())
    }

    /// Begins a linearizable read: registers it and has a first look.
    pub fn begin_read(&self, node: &mut RaftNode) -> (r: Result<ReadStep, Status>)
        requires
            old(node).well_formed(),
            old(node)@.next_read < u64::MAX,
        ensures
            final(node).well_formed(),
            if !self.linearizable_reads {
                &&& r == Ok::<ReadStep, Status>(ReadStep::Ready)
                &&& final(node)@ == old(node)@
            } else if old(node)@.state.role != Role::Leader {
                &&& refused(
                    r,
                    StatusCode::FailedPrecondition,
                    not_leader_message(old(node)@.state.leader_id),
                )
                &&& final(node)@ == old(node)@
            } else {
                let (after, step) = looked(
                    read_registered(old(node)@),
                    ReadWait::Confirmation {
                        id: old(node)@.next_read,
                        read_index: old(node)@.state.commit_index,
                        attempts: 0,
                    },
                );
                final(node)@ == after && step_is(r, step)
            },
    {
        if !self.linearizable_reads {
            return Ok(ReadStep::Ready);
        }
        match self.check_leader(node) {
            Ok(()) => {},
            Err(e) => {
                return Err(e);
            },
        }
        let (id, read_index): (u64, LogIndex) = match node.request_read_index() {
            Ok(p) => p,
            Err(e) => {
                return Err(Status { code: StatusCode::Internal, message: refusal_text(e) });
            },
        };
        assert(node@ == read_registered(old(node)@));
        self.wait_for_linearizable_read(
            node,
            ReadWait::Confirmation { id, read_index, attempts: 0 },
        )
    }

    /// Looks at what a read waits for.
    pub fn wait_for_linearizable_read(&self, node: &mut RaftNode, wait: ReadWait) -> (r: Result<
        ReadStep,
        Status,
    >)
        requires
            old(node).well_formed(),
        ensures
            final(node).well_formed(),
            final(node)@ == looked(old(node)@, wait).0,
            step_is(r, looked(old(node)@, wait).1),
    {
        match wait {
            ReadWait::Confirmation { id, read_index, attempts } => {
                if attempts > 0 && node.role() != Role::Leader {
                    return Err(
                        Status::new(StatusCode::FailedPrecondition, "lost leadership during read"),
                    );
                }
                if node.is_read_index_confirmed(id) {
                    node.take_read_index(id);
                    return self.wait_for_applied(node, read_index, 0);
                }
                if attempts >= CONFIRM_ATTEMPTS {
                    node.take_read_index(id);
                    return Err(
                        Status::new(
                            StatusCode::DeadlineExceeded,
                            "read index confirmation timed out",
                        ),
                    );
                }
                Ok(
                    ReadStep::Pause {
                        milliseconds: CONFIRM_PAUSE_MS,
                        wait: ReadWait::Confirmation { id, read_index, attempts: attempts + 1 },
                    },
                )
            },
            ReadWait::Applied { read_index, attempts } => self.wait_for_applied(
                node,
                read_index,
                attempts,
            ),
        }
    }

    /// Looks whether the state machine has caught up.
    pub fn wait_for_applied(&self, node: &RaftNode, target_index: LogIndex, attempts: u64) -> (r:
        Result<ReadStep, Status>)
        ensures
            step_is(r, applied_look(node@, target_index, attempts)),
    {
        if node.last_applied() >= target_index {
            return Ok(ReadStep::Ready);
        }
        if attempts >= APPLY_ATTEMPTS {
            return Err(
                Status::new(
                    StatusCode::DeadlineExceeded,
                    "timed out waiting for state machine to catch up",
                ),
            );
        }
        Ok(
            ReadStep::Pause {
                milliseconds: APPLY_PAUSE_MS,
                wait: ReadWait::Applied { read_index: target_index, attempts: attempts + 1 },
            },
        )
    }

    /// Begins a read of one key: a linearizable one waits, any other needs only
    /// that the node leads.
    pub fn begin_get(&self, node: &mut RaftNode, linearizable: bool) -> (r: Result<
        ReadStep,
        Status,
    >)
        requires
            old(node).well_formed(),
            old(node)@.next_read < u64::MAX,
        ensures
            final(node).well_formed(),
            linearizable && self.linearizable_reads && old(node)@.state.role == Role::Leader ==> {
                let (after, step) = looked(
                    read_registered(old(node)@),
                    ReadWait::Confirmation {
                        id: old(node)@.next_read,
                        read_index: old(node)@.state.commit_index,
                        attempts: 0,
                    },
                );
                final(node)@ == after && step_is(r, step)
            },
            !(linearizable && self.linearizable_reads && old(node)@.state.role == Role::Leader)
                ==> {
                &&& final(node)@ == old(node)@
                &&& if old(node)@.state.role == Role::Leader || (linearizable
                    && !self.linearizable_reads) {
                    r == Ok::<ReadStep, Status>(ReadStep::Ready)
                } else {
                    refused(
                        r,
                        StatusCode::FailedPrecondition,
                        not_leader_message(old(node)@.state.leader_id),
                    )
                }
            },
            final(node)@ == get_begun(old(node)@, self.linearizable_reads, linearizable).0,
            step_is(r, get_begun(old(node)@, self.linearizable_reads, linearizable).1),
    {
        if linearizable {
            self.begin_read(node)
        } else {
            match self.check_leader(node) {
                Ok(()) => Ok(ReadStep::Ready),
                Err(e) => Err(e),
            }
        }
    }

    /// Reads a key: its value and the revision of its last write, or an empty
    /// value and revision zero.
    pub fn get<E: StorageEngine>(&self, store: &MvccStore<E>, key: &[u8]) -> (r: Result<
        GetResponse,
        Status,
    >)
        requires
            store.sound(),
        ensures
            r matches Ok(g) && match visible(store.contents(), key@, u64::MAX) {
                Some(kv) => g.value@ == kv.value && g.revision == kv.mod_revision,
                None => g.value@.len() == 0 && g.revision == 0,
            },
            r matches Ok(g) && (g.value@, g.revision) == answer_of(
                visible(store.contents(), key@, u64::MAX),
            ),
    {
        match store.get(key) {
            Ok(Some(kv)) => Ok(GetResponse { value: kv.value, revision: kv.mod_revision }),
            Ok(None) => Ok(GetResponse { value: Vec::new(), revision: 0 }),
            Err(e) => Err(Status::internal(&e)),
        }
    }

    /// Proposes a write; returns the index of its entry.
    pub fn put<C: Fn(&KvCommand) -> Vec<u8>>(
        &self,
        node: &mut RaftNode,
        request: PutRequest,
        encode: C,
    ) -> (r: Result<PutResponse, Status>)
        requires
            old(node).well_formed(),
            last_index_of(old(node)@.log) < u64::MAX,
            encodes(encode),
        ensures
            final(node).well_formed(),
            command_taken(
                old(node)@,
                final(node)@,
                encode,
                CommandView::Put {
                    key: request.key@,
                    value: request.value@,
                    lease_id: request.lease_id,
                    ttl_seconds: request.ttl_seconds,
                },
                match r {
                    Ok(p) => Ok(p.revision),
                    Err(e) => Err(e),
                },
            ),
    {
        let command = KvCommand::Put {
            key: request.key,
            value: request.value,
            lease_id: request.lease_id,
            ttl_seconds: request.ttl_seconds,
        };
        match self.propose(node, command, encode) {
            Ok(revision) => Ok(PutResponse { revision }),
            Err(e) => Err(e),
        }
    }

    /// Proposes a deletion; returns the index of its entry.
    pub fn delete<C: Fn(&KvCommand) -> Vec<u8>>(
        &self,
        node: &mut RaftNode,
        key: Vec<u8>,
        encode: C,
    ) -> (r: Result<DeleteResponse, Status>)
        requires
            old(node).well_formed(),
            last_index_of(old(node)@.log) < u64::MAX,
            encodes(encode),
        ensures
            final(node).well_formed(),
            r matches Ok(d) ==> d.deleted,
            command_taken(
                old(node)@,
                final(node)@,
                encode,
                CommandView::Delete { key: key@ },
                match r {
                    Ok(d) => Ok(d.revision),
                    Err(e) => Err(e),
                },
            ),
    {
        match self.propose(node, KvCommand::Delete { key }, encode) {
            Ok(revision) => Ok(DeleteResponse { revision, deleted: true }),
            Err(e) => Err(e),
        }
    }

    /// Proposes a command.
    fn propose<C: Fn(&KvCommand) -> Vec<u8>>(
        &self,
        node: &mut RaftNode,
        command: KvCommand,
        encode: C,
    ) -> (r: Result<LogIndex, Status>)
        requires
            old(node).well_formed(),
            last_index_of(old(node)@.log) < u64::MAX,
            encodes(encode),
        ensures
            final(node).well_formed(),
            command_taken(old(node)@, final(node)@, encode, command@, r),
    {
        match self.check_leader(node) {
            Ok(()) => {},
            Err(e) => {
                return Err(e);
            },
        }
        let data: Vec<u8> = encode(&command);
        assert(encode.ensures((&command,), data));
        match node.propose(data) {
            Ok(index) => Ok(index),
            Err(e) => Err(Status { code: StatusCode::Internal, message: refusal_text(e) }),
        }
    }

    /// Reads a range that was waited for, in the order in which the versions of
    /// the keys are stored; a positive limit bounds how many pairs come back.
    pub fn range<E: StorageEngine>(
        &self,
        store: &MvccStore<E>,
        start_key: &[u8],
        end_key: &[u8],
        limit: i64,
    ) -> (r: Result<RangeResponse, Status>)
        requires
            store.sound(),
        ensures
            r matches Ok(found) && found.count == found.kvs@.len() && exists|all: Seq<
                KeyValueView,
            >| #[trigger]
                lists_visible(all, store.contents(), start_key@, end_key@, u64::MAX) && pairs_view(
                    found.kvs@,
                ) == if 0 < limit < all.len() {
                    all.take(limit as int)
                } else {
                    all
                } && pairs_view(found.kvs@) == limited(all, limit),
    {
        let mut kvs: Vec<KeyValue> = match store.scan(start_key, end_key) {
            Ok(kvs) => kvs,
            Err(e) => {
                return Err(Status::internal(&e));
            },
        };
        let ghost all = pairs_view(kvs@);
        if limit > 0 && (limit as u64) < (kvs.len() as u64) {
            kvs.truncate(limit as usize);
            assert(pairs_view(kvs@) =~= all.take(limit as int));
        }
        let count: u64 = kvs.len() as u64;
        Ok(RangeResponse { kvs, count })
    }

    /// Transactions are not taken.
    pub fn txn(&self) -> (r: Result<(), Status>)
        ensures
            refused(r, StatusCode::Unimplemented, "txn not yet implemented"@),
    {
        Err(Status::new(StatusCode::Unimplemented, "txn not yet implemented"))
    }
}

} // verus!
