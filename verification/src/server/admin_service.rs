//! The service for administration: membership, leadership, compaction, backup.

use vstd::prelude::*;
use vstd::utf8::encode_utf8;
use crate::bytes::{append, copy};
use crate::consensus::log::{last_index_of, term_of};
use crate::consensus::membership::{
    changed_members, has_member, ChangeView, ConfigChange, JointConfigData, MemberView,
    MembershipError, MembershipView,
};
use crate::consensus::message::EntryType;
use crate::consensus::node::RaftNode;
use crate::consensus::progress::{law_transfers_go_to_voters, numbered};
use crate::consensus::snapshot::{described, SnapshotManager, SnapshotMetadata};
use crate::consensus::state::Role;
use crate::consensus::transitions::{
    proposed, snapshot_installed, snapshot_of, term_of_node, transfer_begun, transfer_refusal,
    NodeView,
};
use crate::server::backup::{concatenated, parse_backup, restoring, unframed, BackupMetadata};
use crate::server::status::{
    membership_error_text, membership_error_view, refused, role_text, role_view,
    transfer_error_text, transfer_error_view, Status, StatusCode,
};
use crate::types::NodeId;

verus! {

/// A status report of a node.
#[derive(Debug, PartialEq, Eq)]
pub struct StatusResponse {
    pub node_id: u64,
    pub role: String,
    pub term: u64,
    /// 0 where the leader is not known.
    pub leader_id: u64,
    pub commit_index: u64,
    pub applied_index: u64,
    pub cluster_size: u64,
}

/// A membership change was proposed, or refused with its reason.
pub open spec fn change_taken<G: Fn(&JointConfigData) -> Vec<u8>>(
    before: NodeView,
    after: NodeView,
    encode: G,
    change: ChangeView,
    r: Result<(), Status>,
) -> bool {
    if before.state.role != Role::Leader {
        &&& refused(
            r,
            StatusCode::FailedPrecondition,
            membership_error_view(MembershipError::NotLeader),
        )
        &&& after == before
    } else {
        match changed_members(
            before.membership.current,
            before.membership.change_in_progress,
            change,
        ) {
            Err(e) => {
                &&& refused(r, StatusCode::FailedPrecondition, membership_error_view(e))
                &&& after == before
            },
            Ok(members) => {
                &&& r == Ok::<(), Status>(())
                &&& exists|j: JointConfigData, d: Vec<u8>| #[trigger]
                    encode.ensures((&j,), d) && j.old@ == before.membership.current && j.new@
                        == members && after == proposed(
                        NodeView {
                            membership: MembershipView {
                                current: before.membership.current,
                                pending: Some(members),
                                change_in_progress: true,
                            },
                            ..before
                        },
                        d@,
                        EntryType::ConfigChange,
                    )
            },
        }
    }
}

/// Configurations can be encoded, in a size that an entry can have.
pub open spec fn encodes_joint<G: Fn(&JointConfigData) -> Vec<u8>>(encode: G) -> bool {
    &&& forall|j: &JointConfigData| #[trigger] encode.requires((j,))
    &&& forall|j: &JointConfigData, d: Vec<u8>| #[trigger]
        encode.ensures((j,), d) ==> d@.len() + 21 <= u32::MAX
}

/// What came of a request to drain a node: a leader with peers hands leadership to
/// the first of them.
pub open spec fn drained(before: NodeView, after: NodeView, r: Result<(), Status>) -> bool {
    if before.state.role == Role::Leader && before.peers.len() > 0 {
        transfer_taken(before, after, before.peers[0], r)
    } else {
        r == Ok::<(), Status>(()) && after == before
    }
}

/// A transfer was begun, or refused with its reason.
pub open spec fn transfer_taken(
    before: NodeView,
    after: NodeView,
    target: NodeId,
    r: Result<(), Status>,
) -> bool {
    match transfer_refusal(before, target) {
        Some(e) => {
            &&& refused(r, StatusCode::FailedPrecondition, transfer_error_view(e))
            &&& after == before
        },
        None => {
            &&& r == Ok::<(), Status>(())
            &&& exists|now: u128| after == #[trigger] transfer_begun(before, target, now)
        },
    }
}

/// A backup that is to be restored.
#[derive(Debug)]
pub struct Restore {
    pub metadata: BackupMetadata,
    /// The description under which the snapshot is stored.
    pub snapshot: SnapshotMetadata,
    pub data: Vec<u8>,
}

/// The service for administration.
#[derive(Debug, Clone, Copy)]
pub struct AdminRpcService {}

impl AdminRpcService {
    pub fn new() -> (r: Self)
        ensures
            r == (AdminRpcService {  }),
    {
        AdminRpcService {  }
    }

    /// Proposes to add a node.
    pub fn add_node<G: Fn(&JointConfigData) -> Vec<u8>>(
        &self,
        node: &mut RaftNode,
        id: NodeId,
        address: String,
        encode: G,
    ) -> (r: Result<(), Status>)
        requires
            old(node).well_formed(),
            last_index_of(old(node)@.log) < u64::MAX,
            encodes_joint(encode),
        ensures
            final(node).well_formed(),
            change_taken(
                old(node)@,
                final(node)@,
                encode,
                ChangeView::AddNode(id, address@),
                r,
            ),
    {
        self.change(node, ConfigChange::AddNode { id, address }, encode)
    }

    /// Proposes to remove a node.
    pub fn remove_node<G: Fn(&JointConfigData) -> Vec<u8>>(
        &self,
        node: &mut RaftNode,
        id: NodeId,
        encode: G,
    ) -> (r: Result<(), Status>)
        requires
            old(node).well_formed(),
            last_index_of(old(node)@.log) < u64::MAX,
            encodes_joint(encode),
        ensures
            final(node).well_formed(),
            change_taken(old(node)@, final(node)@, encode, ChangeView::RemoveNode(id), r),
    {
        self.change(node, ConfigChange::RemoveNode { id }, encode)
    }

    fn change<G: Fn(&JointConfigData) -> Vec<u8>>(
        &self,
        node: &mut RaftNode,
        change: ConfigChange,
        encode: G,
    ) -> (r: Result<(), Status>)
        requires
            old(node).well_formed(),
            last_index_of(old(node)@.log) < u64::MAX,
            encodes_joint(encode),
        ensures
            final(node).well_formed(),
            change_taken(old(node)@, final(node)@, encode, change@, r),
    {
        match node.propose_config_change(change, encode) {
            Ok(_) => Ok(()),
            Err(e) => Err(
                Status { code: StatusCode::FailedPrecondition, message: membership_error_text(e) },
            ),
        }
    }

    /// Begins to hand leadership to another node.
    pub fn transfer_leadership(&self, node: &mut RaftNode, transferee: NodeId) -> (r: Result<
        (),
        Status,
    >)
        requires
            old(node).well_formed(),
        ensures
            final(node).well_formed(),
            transfer_taken(old(node)@, final(node)@, transferee, r),
    {
        match node.transfer_leadership(transferee) {
            Ok(()) => Ok(()),
            Err(e) => Err(
                Status { code: StatusCode::FailedPrecondition, message: transfer_error_text(e) },
            ),
        }
    }

    /// Prepares a node for being shut down: a leader hands leadership to its
    /// first peer, if it has one.
    pub fn drain_node(&self, node: &mut RaftNode) -> (r: Result<(), Status>)
        requires
            old(node).well_formed(),
        ensures
            final(node).well_formed(),
            if old(node)@.state.role == Role::Leader && old(node)@.peers.len() > 0 {
                transfer_taken(old(node)@, final(node)@, old(node)@.peers[0], r)
            } else {
                r == Ok::<(), Status>(()) && final(node)@ == old(node)@
            },
            drained(old(node)@, final(node)@, r),
    {
        if node.role() == Role::Leader {
            if node.peers().len() > 0 {
                let target: NodeId = node.peers()[0];
                return self.transfer_leadership(node, target);
            }
        }
        Ok(())
    }

    /// The snapshot that a requested compaction takes, with its description;
    /// once it is stored the log is compacted.
    pub fn trigger_compaction(&self, node: &RaftNode) -> (r: Result<
        (SnapshotMetadata, Vec<u8>),
        Status,
    >)
        ensures
            if node@.state.commit_index == 0 {
                refused(
                    r,
                    StatusCode::FailedPrecondition,
                    "nothing to compact (commit_index is 0)"@,
                )
            } else {
                r matches Ok((metadata, data)) && data@ == encode_utf8("compaction-triggered"@)
                    && metadata == described(
                    node@.state.commit_index,
                    match term_of(node@.log, node@.state.commit_index) {
                        Some(t) => t,
                        None => 0,
                    },
                    data@,
                )
            },
            r is Ok <==> snapshot_of(node@, Seq::empty()) is Some,
            r matches Ok((metadata, data)) ==> snapshot_of(node@, data@) == Some(metadata),
    {
        let data: Vec<u8> = copy("compaction-triggered".as_bytes());
        match node.trigger_snapshot(data.as_slice()) {
            Some(metadata) => Ok((metadata, data)),
            None => Err(
                Status::new(
                    StatusCode::FailedPrecondition,
                    "nothing to compact (commit_index is 0)",
                ),
            ),
        }
    }

    /// Reads a backup that has come in chunks: what is to be stored and
    /// installed.
    pub fn restore<D: Fn(&Vec<u8>) -> Option<BackupMetadata>>(
        &self,
        chunks: &Vec<Vec<u8>>,
        decode: D,
    ) -> (r: Result<Restore, Status>)
        requires
            forall|d: &Vec<u8>| #[trigger] decode.requires((d,)),
        ensures
            if concatenated(chunks@).len() == 0 {
                refused(r, StatusCode::InvalidArgument, "empty restore data"@)
            } else {
                match unframed(concatenated(chunks@)) {
                    None => refused(r, StatusCode::InvalidArgument, "invalid backup format"@),
                    Some((description, snapshot)) => exists|
                        d: Vec<u8>,
                        m: Option<BackupMetadata>,
                    | #[trigger]
                        decode.ensures((&d,), m) && d@ == description && match m {
                            Some(m) => r matches Ok(plan) && plan.metadata == m && plan.data@
                                == snapshot && plan.snapshot == described(
                                m.commit_index,
                                m.term,
                                snapshot,
                            ) && plan.snapshot == restoring(m, snapshot),
                            None => refused(
                                r,
                                StatusCode::InvalidArgument,
                                "invalid backup format"@,
                            ),
                        },
                }
            },
    {
        let mut data: Vec<u8> = Vec::new();
        let mut i: usize = 0;
        assert(chunks@.take(0) =~= Seq::<Vec<u8>>::empty());
        while i < chunks.len()
            invariant
                i <= chunks.len(),
                data@ == concatenated(chunks@.take(i as int)),
            decreases chunks.len() - i,
        {
            append(&mut data, chunks[i].as_slice());
            proof {
                assert(chunks@.take(i + 1).drop_last() =~= chunks@.take(i as int));
            }
            i += 1;
        }
        assert(chunks@.take(i as int) =~= chunks@);
        if data.is_empty() {
            return Err(Status::new(StatusCode::InvalidArgument, "empty restore data"));
        }
        match parse_backup(data.as_slice(), decode) {
            Some((metadata, snapshot)) => {
                let described = SnapshotManager::create_snapshot(
                    metadata.commit_index,
                    metadata.term,
                    snapshot.as_slice(),
                );
                Ok(Restore { metadata, snapshot: described, data: snapshot })
            },
            None => Err(Status::new(StatusCode::InvalidArgument, "invalid backup format")),
        }
    }

    /// Installs a backup; `stored` says whether its snapshot, where the node
    /// wants it, was stored.
    pub fn install(&self, node: &mut RaftNode, restore: &Restore, stored: bool)
        requires
            old(node).well_formed(),
        ensures
            final(node).well_formed(),
            final(node)@ == snapshot_installed(
                old(node)@,
                restore.metadata.term,
                restore.metadata.node_id,
                restore.snapshot,
                stored,
            ),
    {
        node.handle_install_snapshot(
            restore.metadata.term,
            restore.metadata.node_id,
            &restore.snapshot,
            stored,
        );
    }

    /// A status report.
    pub fn status(&self, node: &RaftNode) -> (r: StatusResponse)
        requires
            node.well_formed(),
        ensures
            r.node_id == node@.state.id,
            r.role@ == role_view(node@.state.role),
            r.term == term_of_node(node@),
            r.leader_id == (match node@.state.leader_id {
                Some(id) => id,
                None => 0,
            }),
            r.commit_index == node@.state.commit_index,
            r.applied_index == node@.state.last_applied,
            r.cluster_size == node@.membership.current.len(),
            reports(r, node@),
    {
        let leader_id: u64 = match node.leader_id() {
            Some(id) => id,
            None => 0,
        };
        let size: usize = node.membership().current_size();
        StatusResponse {
            node_id: node.id(),
            role: role_text(node.role()),
            term: node.term(),
            leader_id,
            commit_index: node.commit_index(),
            applied_index: node.last_applied(),
            cluster_size: size as u64,
        }
    }
}

/// A membership change that is asked for is entered in the log by a leader, as far
/// as it makes sense, and the node decides with both configurations from then on.
/// Otherwise it is refused and nothing changes.
pub proof fn law_changes_are_entered<G: Fn(&JointConfigData) -> Vec<u8>>(
    before: NodeView,
    after: NodeView,
    encode: G,
    change: ChangeView,
    r: Result<(), Status>,
)
    requires
        change_taken(before, after, encode, change, r),
        numbered(before.log),
    ensures
        r is Ok <==> before.state.role == Role::Leader && changed_members(
            before.membership.current,
            before.membership.change_in_progress,
            change,
        ) is Ok,
        r is Err ==> after == before,
        r is Ok ==> {
            &&& after.log.entries.len() == before.log.entries.len() + 1
            &&& after.log.entries.drop_last() == before.log.entries
            &&& after.log.entries.last().entry_type == EntryType::ConfigChange
            &&& after.log.entries.last().term == before.state.persistent.current_term
            &&& after.membership.current == before.membership.current
            &&& after.membership.pending is Some
            &&& Ok::<Seq<MemberView>, MembershipError>(after.membership.pending->0)
                == changed_members(before.membership.current, false, change)
            &&& after.membership.change_in_progress
        },
{
    if before.state.role == Role::Leader && changed_members(
        before.membership.current,
        before.membership.change_in_progress,
        change,
    ) is Ok {
        assert(after.log.entries.drop_last() =~= before.log.entries);
    }
}

/// A transfer that is asked for begins exactly where the leader agrees to it; a
/// node that is drained hands over to its first peer where it leads, and has nothing
/// to do otherwise.
pub proof fn law_drained_leaders_hand_over(before: NodeView, after: NodeView, r: Result<(), Status>)
    requires
        drained(before, after, r),
        before.transfer is None,
    ensures
        before.state.role != Role::Leader || before.peers.len() == 0 ==> r is Ok && after == before,
        before.state.role == Role::Leader && before.peers.len() > 0 && before.peers[0]
            != before.state.id && has_member(before.membership.current, before.peers[0]) ==> {
            &&& r is Ok
            &&& after.transfer is Some
            &&& (after.transfer->0).target == before.peers[0]
            &&& !(after.transfer->0).timeout_now_sent
        },
        r is Err ==> after == before,
        after.log == before.log && after.state == before.state,
{
    if before.state.role == Role::Leader && before.peers.len() > 0 {
        law_transfers_go_to_voters(before, before.peers[0]);
    }
}

/// A status report tells what a node is at.
pub open spec fn reports(r: StatusResponse, n: NodeView) -> bool {
    &&& r.node_id == n.state.id
    &&& r.role@ == role_view(n.state.role)
    &&& r.term == term_of_node(n)
    &&& r.leader_id == (match n.state.leader_id {
        Some(id) => id,
        None => 0,
    })
    &&& r.commit_index == n.state.commit_index
    &&& r.applied_index == n.state.last_applied
    &&& r.cluster_size == n.membership.current.len()
}

/// A status report shows progress: the entries that wait to be applied are those
/// between its two indices, and a node that leads names itself.
pub proof fn law_reports_show_progress(r: StatusResponse, n: NodeView)
    requires
        reports(r, n),
        n.state.last_applied <= n.state.commit_index,
    ensures
        r.commit_index - r.applied_index == n.state.commit_index - n.state.last_applied,
        r.commit_index == n.state.commit_index,
        r.term == n.state.persistent.current_term,
        r.node_id == n.state.id,
        r.cluster_size == n.membership.current.len(),
        n.state.leader_id == Some(n.state.id) ==> r.leader_id == r.node_id,
        n.state.leader_id is None ==> r.leader_id == 0,
        n.state.role == Role::Leader <==> r.role@ == "Leader"@,
{
    reveal_strlit("Leader");
    reveal_strlit("Follower");
    reveal_strlit("PreCandidate");
    reveal_strlit("Candidate");
    assert("Leader"@.len() == 6 && "Follower"@.len() == 8 && "PreCandidate"@.len() == 12
        && "Candidate"@.len() == 9);
}

} // verus!
