//! Who belongs to the cluster, and how that changes.
//!
//! A change goes through a joint phase in which decisions need a majority of
//! the old configuration and one of the new.

use std::collections::HashSet;
use vstd::prelude::*;
use crate::storage::stack::lemma_filter_contains;
use crate::types::NodeId;

verus! {

broadcast use vstd::std_specs::hash::group_hash_axioms;

/// A member of the cluster.
#[derive(Debug, PartialEq, Eq)]
pub struct MemberInfo {
    pub id: NodeId,
    pub address: String,
}

/// What is recorded of a member.
pub type MemberView = (NodeId, Seq<char>);

impl View for MemberInfo {
    type V = MemberView;

    open spec fn view(&self) -> MemberView {
        (self.id, self.address@)
    }
}

impl MemberInfo {
    pub fn copied(&self) -> (r: Self)
        ensures
            r@ == self@,
    {
        MemberInfo { id: self.id, address: self.address.clone() }
    }
}

/// The members of a cluster.
#[derive(Debug, PartialEq, Eq)]
pub struct ClusterConfig {
    pub members: Vec<MemberInfo>,
}

impl View for ClusterConfig {
    type V = Seq<MemberView>;

    open spec fn view(&self) -> Seq<MemberView> {
        Seq::new(self.members@.len(), |i: int| self.members@[i]@)
    }
}

/// A configuration has a member with this number.
pub open spec fn has_member(members: Seq<MemberView>, id: NodeId) -> bool {
    exists|i: int| 0 <= i < members.len() && (#[trigger] members[i]).0 == id
}

/// The numbers of the members.
pub open spec fn ids(members: Seq<MemberView>) -> Set<NodeId> {
    Set::new(|id: NodeId| has_member(members, id))
}

/// How many members are among the voters.
pub open spec fn votes_in(members: Seq<MemberView>, voters: Set<NodeId>) -> nat
    decreases members.len(),
{
    if members.len() == 0 {
        0
    } else {
        votes_in(members.drop_last(), voters) + if voters.contains(members.last().0) {
            1nat
        } else {
            0
        }
    }
}

/// More than half of the members are among the voters.
pub open spec fn majority(members: Seq<MemberView>, voters: Set<NodeId>) -> bool {
    votes_in(members, voters) >= members.len() / 2 + 1
}

/// No two members have the same number.
pub open spec fn distinct_members(members: Seq<MemberView>) -> bool {
    forall|i: int, j: int|
        0 <= i < j < members.len() ==> (#[trigger] members[i]).0 != (#[trigger] members[j]).0
}

/// One voter has no more than one vote.
pub proof fn lemma_single_vote(members: Seq<MemberView>, id: NodeId)
    requires
        distinct_members(members),
    ensures
        votes_in(members, Set::empty().insert(id)) <= 1,
        !has_member(members, id) ==> votes_in(members, Set::empty().insert(id)) == 0,
    decreases members.len(),
{
    if members.len() > 0 {
        let rest = members.drop_last();
        assert(distinct_members(rest)) by {
            assert forall|i: int, j: int| 0 <= i < j < rest.len() implies (#[trigger] rest[i]).0
                != (#[trigger] rest[j]).0 by {
                assert(members[i].0 != members[j].0);
            }
        }
        lemma_single_vote(rest, id);
        let last = members.len() - 1;
        assert(members[last].0 == members.last().0);
        if members.last().0 == id && has_member(rest, id) {
            let i = choose|i: int| 0 <= i < rest.len() && (#[trigger] rest[i]).0 == id;
            assert(members[i].0 != members[last].0);
        }
        if has_member(rest, id) {
            let i = choose|i: int| 0 <= i < rest.len() && (#[trigger] rest[i]).0 == id;
            assert(members[i].0 == id);
        }
    }
}

/// There are no more votes than members.
proof fn lemma_votes_bound(members: Seq<MemberView>, voters: Set<NodeId>)
    ensures
        votes_in(members, voters) <= members.len(),
    decreases members.len(),
{
    if members.len() > 0 {
        lemma_votes_bound(members.drop_last(), voters);
    }
}

/// Voters that share no member have no more votes together than there are
/// members.
proof fn lemma_disjoint_votes(members: Seq<MemberView>, a: Set<NodeId>, b: Set<NodeId>)
    requires
        forall|i: int|
            0 <= i < members.len() ==> !(a.contains((#[trigger] members[i]).0) && b.contains(
                members[i].0,
            )),
    ensures
        votes_in(members, a) + votes_in(members, b) <= members.len(),
    decreases members.len(),
{
    if members.len() > 0 {
        let rest = members.drop_last();
        assert forall|i: int| 0 <= i < rest.len() implies !(a.contains((#[trigger] rest[i]).0)
            && b.contains(rest[i].0)) by {
            assert(rest[i] == members[i]);
        }
        lemma_disjoint_votes(rest, a, b);
        assert(members[members.len() - 1] == members.last());
    }
}

/// Two majorities of one configuration share a member.
pub proof fn law_majorities_intersect(
    members: Seq<MemberView>,
    a: Set<NodeId>,
    b: Set<NodeId>,
) -> (id: NodeId)
    requires
        majority(members, a),
        majority(members, b),
    ensures
        has_member(members, id),
        a.contains(id),
        b.contains(id),
{
    if forall|i: int|
        0 <= i < members.len() ==> !(a.contains((#[trigger] members[i]).0) && b.contains(
            members[i].0,
        )) {
        lemma_disjoint_votes(members, a, b);
    }
    let i = choose|i: int|
        0 <= i < members.len() && a.contains((#[trigger] members[i]).0) && b.contains(members[i].0);
    members[i].0
}

/// The members that are among the voters.
pub open spec fn voting(members: Seq<MemberView>, voters: Set<NodeId>) -> Set<NodeId> {
    ids(members).intersect(voters)
}

/// The count of votes is the number of members that are among the voters.
pub proof fn law_votes_are_counted(members: Seq<MemberView>, voters: Set<NodeId>)
    requires
        distinct_members(members),
    ensures
        voting(members, voters).finite(),
        votes_in(members, voters) == voting(members, voters).len(),
    decreases members.len(),
{
    if members.len() > 0 {
        let rest = members.drop_last();
        let last = members.last().0;
        assert(distinct_members(rest)) by {
            assert forall|i: int, j: int| 0 <= i < j < rest.len() implies (#[trigger] rest[i]).0
                != (#[trigger] rest[j]).0 by {
                assert(members[i].0 != members[j].0);
            }
        }
        law_votes_are_counted(rest, voters);
        assert(!has_member(rest, last)) by {
            if has_member(rest, last) {
                let i = choose|i: int| 0 <= i < rest.len() && (#[trigger] rest[i]).0 == last;
                assert(members[i].0 != members[members.len() - 1].0);
            }
        }
        assert forall|id: NodeId| has_member(members, id) == (has_member(rest, id) || id == last) by {
            if has_member(rest, id) {
                let i = choose|i: int| 0 <= i < rest.len() && (#[trigger] rest[i]).0 == id;
                assert(members[i].0 == id);
            }
            if id == last {
                assert(members[members.len() - 1].0 == id);
            }
            if has_member(members, id) {
                let i = choose|i: int| 0 <= i < members.len() && (#[trigger] members[i]).0 == id;
                if i < rest.len() {
                    assert(rest[i].0 == id);
                }
            }
        }
        if voters.contains(last) {
            assert(voting(members, voters) =~= voting(rest, voters).insert(last));
        } else {
            assert(voting(members, voters) =~= voting(rest, voters));
        }
    } else {
        assert(voting(members, voters) =~= Set::empty());
    }
}

/// A majority is more than half of the members, no more and no less.
pub proof fn law_majority_is_more_than_half(members: Seq<MemberView>, voters: Set<NodeId>)
    requires
        distinct_members(members),
    ensures
        majority(members, voters) <==> 2 * voting(members, voters).len() > members.len(),
        members.len() > 0 ==> majority(members, ids(members)),
{
    law_votes_are_counted(members, voters);
    law_votes_are_counted(members, ids(members));
    lemma_all_vote(members, ids(members));
}

/// Where all members vote, there are as many votes as members.
proof fn lemma_all_vote(members: Seq<MemberView>, voters: Set<NodeId>)
    requires
        forall|i: int| 0 <= i < members.len() ==> voters.contains((#[trigger] members[i]).0),
    ensures
        votes_in(members, voters) == members.len(),
    decreases members.len(),
{
    if members.len() > 0 {
        let rest = members.drop_last();
        assert forall|i: int| 0 <= i < rest.len() implies voters.contains((#[trigger] rest[i]).0) by {
            assert(rest[i] == members[i]);
        }
        assert(members[members.len() - 1] == members.last());
        lemma_all_vote(rest, voters);
    }
}

/// A larger group of voters has no fewer votes.
pub proof fn law_more_voters_more_votes(
    members: Seq<MemberView>,
    fewer: Set<NodeId>,
    more: Set<NodeId>,
)
    requires
        fewer.subset_of(more),
    ensures
        votes_in(members, fewer) <= votes_in(members, more),
        majority(members, fewer) ==> majority(members, more),
    decreases members.len(),
{
    if members.len() > 0 {
        law_more_voters_more_votes(members.drop_last(), fewer, more);
    }
}

impl ClusterConfig {
    pub fn new(members: Vec<MemberInfo>) -> (r: Self)
        ensures
            r.members == members,
    {
        ClusterConfig { members }
    }

    /// A copy of the configuration.
    pub fn copied(&self) -> (r: Self)
        ensures
            r@ == self@,
    {
        let mut out: Vec<MemberInfo> = Vec::new();
        let mut i: usize = 0;
        while i < self.members.len()
            invariant
                i <= self.members.len(),
                out.len() == i,
                forall|j: int| 0 <= j < i ==> (#[trigger] out@[j])@ == self.members@[j]@,
            decreases self.members.len() - i,
        {
            out.push(self.members[i].copied());
            i += 1;
        }
        let r = ClusterConfig { members: out };
        assert(r@ =~= self@);
        r
    }

    /// The numbers of the members.
    pub fn member_ids(&self) -> (r: HashSet<NodeId>)
        ensures
            r@ == ids(self@),
    {
        let mut out: HashSet<NodeId> = HashSet::new();
        self.add_ids(&mut out);
        assert(out@ =~= ids(self@));
        out
    }

    /// Adds the numbers of the members to a set.
    fn add_ids(&self, out: &mut HashSet<NodeId>)
        ensures
            final(out)@ == old(out)@.union(ids(self@)),
    {
        let ghost ms = self@;
        let ghost before = out@;
        let mut i: usize = 0;
        assert(out@ =~= before.union(ids(ms.take(0))));
        while i < self.members.len()
            invariant
                i <= self.members.len(),
                ms == self@,
                out@ == before.union(ids(ms.take(i as int))),
            decreases self.members.len() - i,
        {
            let ghost part = ms.take(i as int);
            let ghost more = ms.take(i + 1);
            out.insert(self.members[i].id);
            proof {
                assert(more =~= part.push(ms[i as int]));
                assert forall|id: NodeId| has_member(more, id) == (has_member(part, id) || id
                    == ms[i as int].0) by {
                    if has_member(part, id) {
                        let j = choose|j: int| 0 <= j < part.len() && (#[trigger] part[j]).0 == id;
                        assert(more[j].0 == id);
                    }
                    if id == ms[i as int].0 {
                        assert(more[i as int].0 == id);
                    }
                    if has_member(more, id) {
                        let j = choose|j: int| 0 <= j < more.len() && (#[trigger] more[j]).0 == id;
                        if j < part.len() {
                            assert(part[j].0 == id);
                        }
                    }
                }
                assert(out@ =~= before.union(ids(more)));
            }
            i += 1;
        }
        assert(ms.take(i as int) =~= ms);
    }

    /// Whether a node is a member.
    pub fn contains(&self, id: NodeId) -> (r: bool)
        ensures
            r == has_member(self@, id),
    {
        let ghost ms = self@;
        let mut i: usize = 0;
        while i < self.members.len()
            invariant
                i <= self.members.len(),
                ms == self@,
                forall|j: int| 0 <= j < i ==> (#[trigger] ms[j]).0 != id,
            decreases self.members.len() - i,
        {
            if self.members[i].id == id {
                assert(ms[i as int].0 == id);
                return true;
            }
            i += 1;
        }
        false
    }

    /// The number of members.
    pub fn len(&self) -> (r: usize)
        ensures
            r == self@.len(),
    {
        self.members.len()
    }

    pub fn is_empty(&self) -> (r: bool)
        ensures
            r == (self@.len() == 0),
    {
        self.members.is_empty()
    }

    /// Whether more than half of the members are among the voters.
    fn has_majority(&self, voters: &HashSet<NodeId>) -> (r: bool)
        ensures
            r == majority(self@, voters@),
    {
        let ghost ms = self@;
        let mut count: usize = 0;
        let mut i: usize = 0;
        while i < self.members.len()
            invariant
                i <= self.members.len(),
                ms == self@,
                count <= i,
                count == votes_in(ms.take(i as int), voters@),
            decreases self.members.len() - i,
        {
            assert(ms.take(i + 1).drop_last() =~= ms.take(i as int));
            assert(ms.take(i + 1).last() == ms[i as int]);
            if voters.contains(&self.members[i].id) {
                count += 1;
            }
            i += 1;
        }
        assert(ms.take(i as int) =~= ms);
        count >= self.members.len() / 2 + 1
    }
}

/// A change of the membership.
#[derive(Debug, PartialEq, Eq)]
pub enum ConfigChange {
    AddNode { id: NodeId, address: String },
    RemoveNode { id: NodeId },
}

/// What a change is.
pub enum ChangeView {
    AddNode(NodeId, Seq<char>),
    RemoveNode(NodeId),
}

impl View for ConfigChange {
    type V = ChangeView;

    open spec fn view(&self) -> ChangeView {
        match self {
            ConfigChange::AddNode { id, address } => ChangeView::AddNode(*id, address@),
            ConfigChange::RemoveNode { id } => ChangeView::RemoveNode(*id),
        }
    }
}

/// Why a membership change is refused.
#[derive(Debug, Clone, Copy, PartialEq, Eq, Structural)]
pub enum MembershipError {
    ChangeInProgress,
    NodeAlreadyExists(NodeId),
    NodeNotFound(NodeId),
    CannotRemoveLastNode,
    InvalidConfigData,
    NotLeader,
}

/// The old and the new configuration of a joint phase.
#[derive(Debug, PartialEq, Eq)]
pub struct JointConfigData {
    pub old: ClusterConfig,
    pub new: ClusterConfig,
}

/// The members without the node `id`.
pub open spec fn without_member(members: Seq<MemberView>, id: NodeId) -> Seq<MemberView> {
    members.filter(other_than(id))
}

/// A member is not the node `id`.
pub open spec fn other_than(id: NodeId) -> spec_fn(MemberView) -> bool {
    |m: MemberView| m.0 != id
}

/// The members after a change, or why it is refused.
pub open spec fn changed_members(
    members: Seq<MemberView>,
    in_progress: bool,
    change: ChangeView,
) -> Result<Seq<MemberView>, MembershipError> {
    if in_progress {
        Err(MembershipError::ChangeInProgress)
    } else {
        match change {
            ChangeView::AddNode(id, address) => if has_member(members, id) {
                Err(MembershipError::NodeAlreadyExists(id))
            } else {
                Ok(members.push((id, address)))
            },
            ChangeView::RemoveNode(id) => if !has_member(members, id) {
                Err(MembershipError::NodeNotFound(id))
            } else if without_member(members, id).len() == 0 {
                Err(MembershipError::CannotRemoveLastNode)
            } else {
                Ok(without_member(members, id))
            },
        }
    }
}

/// A removal that is accepted takes out the node that it names and no other: the
/// new configuration has exactly the other members, with their addresses, and is
/// one member smaller.
pub proof fn law_removal_takes_one_out(members: Seq<MemberView>, id: NodeId)
    requires
        distinct_members(members),
        changed_members(members, false, ChangeView::RemoveNode(id)) is Ok,
    ensures
        ({
            let next = changed_members(members, false, ChangeView::RemoveNode(id))->Ok_0;
            &&& forall|m: MemberView| #[trigger]
                next.contains(m) <==> members.contains(m) && m.0 != id
            &&& next.len() == members.len() - 1
            &&& distinct_members(next)
            &&& !has_member(next, id)
            &&& forall|other: NodeId|
                other != id ==> (#[trigger] has_member(next, other) <==> has_member(members, other))
        }),
{
    let next = without_member(members, id);
    lemma_filter_contains(members, other_than(id));
    lemma_without_one(members, id);
    assert forall|m: MemberView| #[trigger] next.contains(m) <==> members.contains(m) && m.0
        != id by {}
    assert forall|other: NodeId| other != id implies (#[trigger] has_member(next, other)
        <==> has_member(members, other)) by {
        if has_member(members, other) {
            let i = choose|i: int| 0 <= i < members.len() && (#[trigger] members[i]).0 == other;
            assert(members.contains(members[i]));
            assert(next.contains(members[i]));
            let j = next.index_of(members[i]);
            assert(next[j].0 == other);
        }
        if has_member(next, other) {
            let j = choose|j: int| 0 <= j < next.len() && (#[trigger] next[j]).0 == other;
            assert(next.contains(next[j]));
            let i = members.index_of(next[j]);
            assert(members[i].0 == other);
        }
    }
    if has_member(next, id) {
        let j = choose|j: int| 0 <= j < next.len() && (#[trigger] next[j]).0 == id;
        assert(next.contains(next[j]));
    }
}

/// How many members are left without one of them.
proof fn lemma_without_one(members: Seq<MemberView>, id: NodeId)
    requires
        distinct_members(members),
    ensures
        distinct_members(without_member(members, id)),
        without_member(members, id).len() == members.len() - if has_member(members, id) {
            1int
        } else {
            0
        },
    decreases members.len(),
{
    reveal(Seq::filter);
    let next = without_member(members, id);
    if members.len() > 0 {
        let rest = members.drop_last();
        let last = members.last();
        assert(members[members.len() - 1] == last);
        assert(distinct_members(rest)) by {
            assert forall|i: int, j: int| 0 <= i < j < rest.len() implies (#[trigger] rest[i]).0
                != (#[trigger] rest[j]).0 by {
                assert(members[i].0 != members[j].0);
            }
        }
        lemma_without_one(rest, id);
        lemma_filter_contains(rest, other_than(id));
        let before = without_member(rest, id);
        if has_member(rest, id) {
            let i = choose|i: int| 0 <= i < rest.len() && (#[trigger] rest[i]).0 == id;
            assert(members[i].0 == id);
        }
        if has_member(members, id) && last.0 != id {
            let i = choose|i: int| 0 <= i < members.len() && (#[trigger] members[i]).0 == id;
            assert(rest[i].0 == id);
        }
        if last.0 != id {
            assert(next == before.push(last));
            assert forall|i: int, j: int| 0 <= i < j < next.len() implies (#[trigger] next[i]).0 != (
            #[trigger] next[j]).0 by {
                if j < before.len() {
                    assert(before[i].0 != before[j].0);
                } else {
                    assert(before.contains(before[i]));
                    let k = rest.index_of(before[i]);
                    assert(members[k].0 != members[members.len() - 1].0);
                }
            }
        } else {
            assert(next == before);
        }
    }
}

/// A removal is refused only where a change is under way, where the node is no
/// member, and where it is the only one.
pub proof fn law_removals_are_accepted(members: Seq<MemberView>, id: NodeId)
    requires
        distinct_members(members),
        members.len() >= 2,
        exists|i: int| 0 <= i < members.len() && (#[trigger] members[i]).0 == id,
    ensures
        changed_members(members, false, ChangeView::RemoveNode(id)) is Ok,
{
    lemma_without_one(members, id);
}

/// An addition of a node that is no member is accepted where no change is under
/// way: the new configuration has the members so far and the new one, with its
/// address.
pub proof fn law_addition_puts_one_in(members: Seq<MemberView>, id: NodeId, address: Seq<char>)
    requires
        distinct_members(members),
        forall|i: int| 0 <= i < members.len() ==> (#[trigger] members[i]).0 != id,
    ensures
        changed_members(members, false, ChangeView::AddNode(id, address)) is Ok,
        ({
            let next = changed_members(members, false, ChangeView::AddNode(id, address))->Ok_0;
            &&& forall|m: MemberView| #[trigger]
                next.contains(m) <==> members.contains(m) || m == (id, address)
            &&& next.len() == members.len() + 1
            &&& distinct_members(next)
        }),
{
    let next = members.push((id, address));
    assert forall|m: MemberView| #[trigger] next.contains(m) <==> members.contains(m) || m == (
        id,
        address,
    ) by {
        if members.contains(m) {
            assert(next[members.index_of(m)] == m);
        }
        if m == (id, address) {
            assert(next[members.len() as int] == m);
        }
        if next.contains(m) {
            let i = next.index_of(m);
            if i < members.len() {
                assert(members[i] == m);
            }
        }
    }
}

/// A change that makes no sense is refused, and says why.
pub proof fn law_senseless_changes_are_refused(
    members: Seq<MemberView>,
    id: NodeId,
    address: Seq<char>,
    change: ChangeView,
)
    ensures
        changed_members(members, true, change) == Err::<Seq<MemberView>, MembershipError>(
            MembershipError::ChangeInProgress,
        ),
        (exists|i: int| 0 <= i < members.len() && (#[trigger] members[i]).0 == id)
            ==> changed_members(members, false, ChangeView::AddNode(id, address)) == Err::<
            Seq<MemberView>,
            MembershipError,
        >(MembershipError::NodeAlreadyExists(id)),
        (forall|i: int| 0 <= i < members.len() ==> (#[trigger] members[i]).0 != id)
            ==> changed_members(members, false, ChangeView::RemoveNode(id)) == Err::<
            Seq<MemberView>,
            MembershipError,
        >(MembershipError::NodeNotFound(id)),
        members.len() == 1 && members[0].0 == id ==> changed_members(
            members,
            false,
            ChangeView::RemoveNode(id),
        ) == Err::<Seq<MemberView>, MembershipError>(MembershipError::CannotRemoveLastNode),
{
    if members.len() == 1 && members[0].0 == id {
        lemma_without_one(members, id);
    }
}

/// In a joint phase a group decides exactly where it has more than half of the
/// old members and more than half of the new ones.
pub proof fn law_joint_decisions(m: MembershipView, voters: Set<NodeId>)
    requires
        distinct_members(m.current),
        m.pending matches Some(p) ==> distinct_members(p),
    ensures
        quorum(m, voters) <==> 2 * voting(m.current, voters).len() > m.current.len() && (
        m.pending matches Some(p) ==> 2 * voting(p, voters).len() > p.len()),
        forall|id: NodeId| #[trigger]
            voter_ids(m).contains(id) <==> has_member(m.current, id) || (m.pending matches Some(p)
                && has_member(p, id)),
{
    law_majority_is_more_than_half(m.current, voters);
    if let Some(p) = m.pending {
        law_majority_is_more_than_half(p, voters);
    }
}

/// The membership of the cluster, with the configuration that it is changing
/// to while it is in a joint phase.
#[derive(Debug)]
pub struct MembershipState {
    pub current: ClusterConfig,
    pub pending: Option<ClusterConfig>,
    pub change_in_progress: bool,
}

/// What a membership says.
#[verifier::ext_equal]
pub struct MembershipView {
    pub current: Seq<MemberView>,
    pub pending: Option<Seq<MemberView>>,
    pub change_in_progress: bool,
}

impl View for MembershipState {
    type V = MembershipView;

    open spec fn view(&self) -> MembershipView {
        MembershipView {
            current: self.current@,
            pending: match self.pending {
                Some(p) => Some(p@),
                None => None,
            },
            change_in_progress: self.change_in_progress,
        }
    }
}

/// A membership that has entered the joint phase of a change.
pub open spec fn joint_phase(m: MembershipView, next: Seq<MemberView>) -> MembershipView {
    MembershipView { current: m.current, pending: Some(next), change_in_progress: true }
}

/// A membership with one configuration, that is not changing.
pub open spec fn settled(members: Seq<MemberView>) -> MembershipView {
    MembershipView { current: members, pending: None, change_in_progress: false }
}

/// The membership after a change was asked for, or why it is refused.
pub open spec fn change_begun(m: MembershipView, change: ChangeView) -> Result<
    MembershipView,
    MembershipError,
> {
    match changed_members(m.current, m.change_in_progress, change) {
        Ok(next) => Ok(joint_phase(m, next)),
        Err(e) => Err(e),
    }
}

/// The membership after the end of its joint phase.
pub open spec fn change_ended(m: MembershipView) -> MembershipView {
    match m.pending {
        Some(next) => settled(next),
        None => m,
    }
}

/// The voters decide: they are a majority of the current configuration and, in
/// a joint phase, of the pending one too.
pub open spec fn quorum(m: MembershipView, voters: Set<NodeId>) -> bool {
    &&& majority(m.current, voters)
    &&& m.pending matches Some(p) ==> majority(p, voters)
}

/// The nodes that vote: the members of the current configuration and those of
/// the pending one.
pub open spec fn voter_ids(m: MembershipView) -> Set<NodeId> {
    match m.pending {
        Some(p) => ids(m.current).union(ids(p)),
        None => ids(m.current),
    }
}

/// Any two groups that decide share a node, also where one of them decides
/// before a change, or after it, and the other in its joint phase.
pub proof fn law_quorums_intersect(
    current: Seq<MemberView>,
    next: Seq<MemberView>,
    a: Set<NodeId>,
    b: Set<NodeId>,
    changing: bool,
) -> (id: NodeId)
    requires
        quorum(
            MembershipView { current, pending: Some(next), change_in_progress: changing },
            a,
        ),
        quorum(MembershipView { current, pending: None, change_in_progress: false }, b) || quorum(
            MembershipView { current: next, pending: None, change_in_progress: false },
            b,
        ) || quorum(
            MembershipView { current, pending: Some(next), change_in_progress: changing },
            b,
        ),
    ensures
        a.contains(id),
        b.contains(id),
        has_member(current, id) || has_member(next, id),
{
    if majority(current, b) {
        law_majorities_intersect(current, a, b)
    } else {
        law_majorities_intersect(next, a, b)
    }
}

impl MembershipState {
    /// The membership of a node and its peers; addresses are not known yet.
    pub fn new(self_id: NodeId, peers: &[NodeId]) -> (r: Self)
        ensures
            r@ == (MembershipView {
                current: initial_members(self_id, peers@),
                pending: None,
                change_in_progress: false,
            }),
    {
        let mut members: Vec<MemberInfo> = Vec::new();
        members.push(MemberInfo { id: self_id, address: String::new() });
        let mut i: usize = 0;
        while i < peers.len()
            invariant
                i <= peers.len(),
                members.len() == i + 1,
                members@[0]@ == (self_id, Seq::<char>::empty()),
                forall|j: int|
                    0 < j <= i ==> (#[trigger] members@[j])@ == (peers@[j - 1], Seq::<char>::empty()),
            decreases peers.len() - i,
        {
            members.push(MemberInfo { id: peers[i], address: String::new() });
            i += 1;
        }
        let current = ClusterConfig::new(members);
        assert(current@ =~= initial_members(self_id, peers@));
        MembershipState { current, pending: None, change_in_progress: false }
    }

    /// The membership with a given configuration.
    pub fn from_config(config: ClusterConfig) -> (r: Self)
        ensures
            r@ == (MembershipView {
                current: config@,
                pending: None,
                change_in_progress: false,
            }),
    {
        MembershipState { current: config, pending: None, change_in_progress: false }
    }

    /// A copy of the membership.
    pub fn copied(&self) -> (r: Self)
        ensures
            r@ == self@,
    {
        MembershipState {
            current: self.current.copied(),
            pending: match &self.pending {
                Some(p) => Some(p.copied()),
                None => None,
            },
            change_in_progress: self.change_in_progress,
        }
    }

    /// Whether the cluster is in a joint phase.
    pub fn in_joint_consensus(&self) -> (r: bool)
        ensures
            r == (self@.pending is Some),
    {
        self.pending.is_some()
    }

    /// The nodes that vote.
    pub fn all_voters(&self) -> (r: HashSet<NodeId>)
        ensures
            r@ == voter_ids(self@),
    {
        let mut voters: HashSet<NodeId> = self.current.member_ids();
        if let Some(p) = &self.pending {
            p.add_ids(&mut voters);
        }
        voters
    }

    /// The number of members of the current configuration.
    pub fn current_size(&self) -> (r: usize)
        ensures
            r == self@.current.len(),
    {
        self.current.len()
    }

    /// Whether the voters decide.
    pub fn has_quorum(&self, voters: &HashSet<NodeId>) -> (r: bool)
        ensures
            r == quorum(self@, voters@),
    {
        if !self.current.has_majority(voters) {
            return false;
        }
        match &self.pending {
            Some(p) => p.has_majority(voters),
            None => true,
        }
    }

    /// Starts a change: enters the joint phase and returns the configurations
    /// of its log entry, or says why the change is refused.
    pub fn begin_change(&mut self, change: &ConfigChange) -> (r: Result<
        JointConfigData,
        MembershipError,
    >)
        ensures
            match changed_members(old(self)@.current, old(self)@.change_in_progress, change@) {
                Ok(members) => {
                    &&& r matches Ok(j) && j.old@ == old(self)@.current && j.new@ == members
                    &&& final(self)@ == (MembershipView {
                        current: old(self)@.current,
                        pending: Some(members),
                        change_in_progress: true,
                    })
                },
                Err(e) => {
                    &&& r == Err::<JointConfigData, MembershipError>(e)
                    &&& final(self)@ == old(self)@
                },
            },
            match change_begun(old(self)@, change@) {
                Ok(after) => {
                    &&& r matches Ok(j) && j.old@ == after.current && after.pending == Some(j.new@)
                    &&& final(self)@ == after
                },
                Err(e) => r == Err::<JointConfigData, MembershipError>(e) && final(self)@
                    == old(self)@,
            },
    {
        if self.change_in_progress {
            return Err(MembershipError::ChangeInProgress);
        }
        let ghost ms = self.current@;
        let new_config: ClusterConfig = match change {
            ConfigChange::AddNode { id, address } => {
                if self.current.contains(*id) {
                    return Err(MembershipError::NodeAlreadyExists(*id));
                }
                let mut config: ClusterConfig = self.current.copied();
                config.members.push(MemberInfo { id: *id, address: address.clone() });
                assert(config@ =~= ms.push((*id, address@)));
                config
            },
            ConfigChange::RemoveNode { id } => {
                if !self.current.contains(*id) {
                    return Err(MembershipError::NodeNotFound(*id));
                }
                let config: ClusterConfig = self.without(*id);
                if config.is_empty() {
                    return Err(MembershipError::CannotRemoveLastNode);
                }
                config
            },
        };
        let data = JointConfigData { old: self.current.copied(), new: new_config.copied() };
        self.pending = Some(new_config);
        self.change_in_progress = true;
        Ok(data)
    }

    /// The current configuration without the node `id`.
    fn without(&self, id: NodeId) -> (r: ClusterConfig)
        ensures
            r@ == without_member(self.current@, id),
    {
        let ghost ms = self.current@;
        let ghost keep = other_than(id);
        let mut config = ClusterConfig { members: Vec::new() };
        let mut i: usize = 0;
        proof {
            reveal(Seq::filter);
            assert(config@ =~= ms.take(0).filter(keep));
        }
        while i < self.current.members.len()
            invariant
                i <= self.current.members.len(),
                ms == self.current@,
                keep == other_than(id),
                config@ == ms.take(i as int).filter(keep),
            decreases self.current.members.len() - i,
        {
            let ghost before = config@;
            proof {
                reveal(Seq::filter);
                assert(ms.take(i + 1).drop_last() =~= ms.take(i as int));
                assert(ms.take(i + 1).last() == ms[i as int]);
            }
            if self.current.members[i].id != id {
                config.members.push(self.current.members[i].copied());
                assert(config@ =~= before.push(ms[i as int]));
            }
            i += 1;
        }
        assert(ms.take(i as int) =~= ms);
        config
    }

    /// Ends the joint phase with the new configuration, which is returned;
    /// without a joint phase nothing happens.
    pub fn finalize_joint(&mut self) -> (r: Option<ClusterConfig>)
        ensures
            match old(self)@.pending {
                Some(p) => {
                    &&& r matches Some(c) && c@ == p
                    &&& final(self)@ == (MembershipView {
                        current: p,
                        pending: None,
                        change_in_progress: false,
                    })
                },
                None => r is None && final(self)@ == old(self)@,
            },
            final(self)@ == change_ended(old(self)@),
    {
        let mut pending: Option<ClusterConfig> = None;
        std::mem::swap(&mut pending, &mut self.pending);
        match pending {
            Some(config) => {
                let copy: ClusterConfig = config.copied();
                self.current = config;
                self.change_in_progress = false;
                Some(copy)
            },
            None => None,
        }
    }

    /// Takes over a configuration that was committed.
    pub fn apply_new_config(&mut self, config: ClusterConfig)
        ensures
            final(self)@ == settled(config@),
            final(self)@ == (MembershipView {
                current: config@,
                pending: None,
                change_in_progress: false,
            }),
    {
        self.current = config;
        self.pending = None;
        self.change_in_progress = false;
    }

    /// Gives a change up.
    pub fn abort_change(&mut self)
        ensures
            final(self)@ == settled(old(self)@.current),
            final(self)@ == (MembershipView {
                current: old(self)@.current,
                pending: None,
                change_in_progress: false,
            }),
    {
        self.pending = None;
        self.change_in_progress = false;
    }

    /// Whether a node votes.
    pub fn is_voter(&self, id: NodeId) -> (r: bool)
        ensures
            r == voter_ids(self@).contains(id),
    {
        let voters: HashSet<NodeId> = self.all_voters();
        voters.contains(&id)
    }
}

/// The members of a new cluster: the node itself and its peers.
pub open spec fn initial_members(self_id: NodeId, peers: Seq<NodeId>) -> Seq<MemberView> {
    Seq::new(
        peers.len() + 1,
        |i: int|
            if i == 0 {
                (self_id, Seq::<char>::empty())
            } else {
                (peers[i - 1], Seq::<char>::empty())
            },
    )
}

/// A change goes through a joint phase: it begins with the old configuration still
/// in force and the new one beside it, no other change can begin meanwhile, and it
/// ends with the new configuration alone. Given up, it leaves the old one alone.
pub proof fn law_changes_run_their_course(
    m: MembershipView,
    change: ChangeView,
    other: ChangeView,
    voters: Set<NodeId>,
)
    requires
        change_begun(m, change) is Ok,
    ensures
        ({
            let joint = change_begun(m, change)->Ok_0;
            &&& !m.change_in_progress
            &&& joint.current == m.current
            &&& joint.pending is Some
            &&& change_begun(joint, other) == Err::<MembershipView, MembershipError>(
                MembershipError::ChangeInProgress,
            )
            &&& quorum(joint, voters) <==> majority(m.current, voters) && majority(
                joint.pending->0,
                voters,
            )
            &&& quorum(change_ended(joint), voters) <==> majority(joint.pending->0, voters)
            &&& change_ended(joint).current == joint.pending->0
            &&& change_ended(joint).pending is None
            &&& !change_ended(joint).change_in_progress
            &&& quorum(settled(joint.current), voters) <==> majority(m.current, voters)
            &&& !settled(joint.current).change_in_progress
        }),
{
}

/// A new cluster has the node itself and its peers as members, each once where the
/// peers are different nodes.
pub proof fn law_new_clusters_have_all_nodes(self_id: NodeId, peers: Seq<NodeId>, id: NodeId)
    ensures
        has_member(initial_members(self_id, peers), id) <==> id == self_id || peers.contains(id),
        initial_members(self_id, peers).len() == peers.len() + 1,
        peers.no_duplicates() && !peers.contains(self_id) ==> distinct_members(
            initial_members(self_id, peers),
        ),
{
    let all = initial_members(self_id, peers);
    assert(all[0].0 == self_id);
    if peers.contains(id) {
        assert(all[peers.index_of(id) + 1].0 == id);
    }
    if has_member(all, id) && id != self_id {
        let i = choose|i: int| 0 <= i < all.len() && (#[trigger] all[i]).0 == id;
        assert(peers[i - 1] == id);
    }
    if peers.no_duplicates() && !peers.contains(self_id) {
        assert forall|i: int, j: int| 0 <= i < j < all.len() implies (#[trigger] all[i]).0 != (
        #[trigger] all[j]).0 by {
            assert(peers.contains(peers[j - 1]));
        }
    }
}

} // verus!
