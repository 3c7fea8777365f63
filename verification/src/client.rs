//! The client: whom to ask, and what to do when that fails.

use std::collections::HashMap;
use vstd::arithmetic::power2::{lemma2_to64, lemma_pow2_unfold, pow2};
use vstd::prelude::*;
use crate::server::kv_service::not_leader_message;
use crate::server::status::{Status, StatusCode};
use crate::text::{
    decimal, decimal_text, digit_char, find_char, index_of_char, joined, law_number_round_trip,
    lemma_index_of_char, number_of, parse_u64, slice,
};
use crate::types::{node_ids, NodeId};
use crate::words::{find, place_of};

verus! {

/// How often a call is tried.
pub const MAX_RETRIES: u64 = 5;

/// The pause after the first failure, in milliseconds; it doubles with every
/// further one.
pub const BASE_DELAY_MS: u64 = 100;

/// The leader that a message names: the number between `Some(` and the next
/// closing bracket.
pub open spec fn leader_hint(message: Seq<char>) -> Option<NodeId> {
    match place_of(message, "Some("@, 0) {
        Some(start) => {
            let rest = message.skip(start + "Some("@.len());
            let end = index_of_char(rest, ')', 0);
            if end < rest.len() {
                number_of(rest.take(end))
            } else {
                None
            }
        },
        None => None,
    }
}

/// The pause after the failure of a try, the first being number zero.
pub open spec fn delay_after(attempt: nat) -> nat
    decreases attempt,
{
    if attempt == 0 {
        BASE_DELAY_MS as nat
    } else {
        2 * delay_after((attempt - 1) as nat)
    }
}

/// The node that follows another one in a row, round and round; one that is not
/// in the row counts as the first.
pub open spec fn following(ids: Seq<NodeId>, current: NodeId) -> NodeId {
    let at = if ids.contains(current) {
        ids.index_of(current)
    } else {
        0
    };
    ids[(at + 1) % (ids.len() as int)]
}

/// A call under way: which node is asked, for the how-manieth time.
#[derive(Debug, Clone, Copy, PartialEq, Eq, Structural)]
pub struct CallState {
    pub node_id: NodeId,
    pub attempt: u64,
}

/// What is to be done after a call has failed.
#[derive(Debug, Clone, Copy, PartialEq, Eq, Structural)]
pub struct CallStep {
    /// The next try.
    pub next: CallState,
    /// The connection to the node that failed is to be made anew.
    pub drop_connection: bool,
    /// The pause before the next try, in milliseconds.
    pub delay_ms: u64,
}

/// What is to be done after a failure: a node that does not lead and names its
/// leader sends the call there at once; after any other failure the next node
/// is asked, after a pause.
pub open spec fn step_after(
    ids: Seq<NodeId>,
    state: CallState,
    code: StatusCode,
    message: Seq<char>,
) -> CallStep {
    match leader_hint(message) {
        Some(leader) if code == StatusCode::FailedPrecondition => CallStep {
            next: CallState { node_id: leader, attempt: (state.attempt + 1) as u64 },
            drop_connection: false,
            delay_ms: 0,
        },
        _ => CallStep {
            next: CallState {
                node_id: following(ids, state.node_id),
                attempt: (state.attempt + 1) as u64,
            },
            drop_connection: true,
            delay_ms: delay_after(state.attempt as nat) as u64,
        },
    }
}

/// The message with which a node that does not lead refuses a call leads the
/// client to the leader, where the node knows it.
pub proof fn law_hint_round_trip(leader: Option<NodeId>)
    ensures
        leader_hint(not_leader_message(leader)) == leader,
{
    let head = "not leader, leader is "@;
    let message = not_leader_message(leader);
    reveal_strlit("not leader, leader is ");
    reveal_strlit("Some(");
    reveal_strlit(")");
    reveal_strlit("None");
    match leader {
        Some(id) => {
            let digits = decimal(id as nat);
            law_number_round_trip(id);
            lemma_no_bracket(id as nat);
            assert(message =~= head + ("Some("@ + digits + ")"@));
            assert forall|i: int| 0 <= i < head.len() implies #[trigger] message.subrange(
                i,
                i + 5,
            ) != "Some("@ by {
                if i < 18 {
                    assert(message.subrange(i, i + 5)[0] == head[i]);
                } else {
                    assert(message.subrange(i, i + 5)[0] == head[i]);
                }
            }
            lemma_place(message, "Some("@, head.len() as int, 0);
            assert(message.subrange(head.len() as int, head.len() as int + 5) =~= "Some("@);
            assert(place_of(message, "Some("@, 0) == Some(head.len() as int));
            let rest = message.skip(head.len() as int + 5);
            assert(rest =~= digits + ")"@);
            lemma_index_of_char(rest, ')', 0);
            let end = index_of_char(rest, ')', 0);
            assert(rest[digits.len() as int] == ')');
            if end < digits.len() {
                assert(rest[end] == digits[end]);
            }
            assert(rest.take(end) =~= digits);
        },
        None => {
            assert(message =~= head + "None"@);
            assert forall|i: int| 0 <= i <= message.len() - 5 implies #[trigger] message.subrange(
                i,
                i + 5,
            ) != "Some("@ by {
                assert(message.subrange(i, i + 5)[0] == message[i]);
                assert(message[i] != 'S');
            }
            lemma_no_place(message, "Some("@, 0);
        },
    }
}

/// The pauses double from try to try, from a tenth of a second on.
pub proof fn law_pauses_double(attempt: nat)
    ensures
        delay_after(attempt) == 100 * pow2(attempt),
        delay_after(attempt + 1) == 2 * delay_after(attempt),
    decreases attempt,
{
    if attempt == 0 {
        assert(pow2(0) == 1) by {
            lemma2_to64();
        }
    } else {
        law_pauses_double((attempt - 1) as nat);
        lemma_pow2_unfold(attempt);
    }
}

/// A node that does not lead sends the call to the leader that it names, at once;
/// after any other failure, also where no leader is known, another node is asked
/// after a pause, over a new connection. Each is one more try.
pub proof fn law_failures_lead_on(
    ids: Seq<NodeId>,
    state: CallState,
    code: StatusCode,
    leader: Option<NodeId>,
)
    requires
        ids.len() > 0,
        ids.no_duplicates(),
        state.attempt < MAX_RETRIES,
    ensures
        ({
            let step = step_after(ids, state, code, not_leader_message(leader));
            let redirected = code == StatusCode::FailedPrecondition && leader is Some;
            &&& step.next.attempt == state.attempt + 1
            &&& redirected ==> step.next.node_id == leader->0 && step.delay_ms == 0
                && !step.drop_connection
            &&& !redirected ==> ids.contains(step.next.node_id) && step.drop_connection
                && step.delay_ms == 100 * pow2(state.attempt as nat)
            &&& !redirected && ids.len() > 1 && ids.contains(state.node_id) ==> step.next.node_id
                != state.node_id
        }),
{
    law_hint_round_trip(leader);
    law_pauses_double(state.attempt as nat);
    lemma2_to64();
    law_turns_go_round(ids, 0);
    if ids.contains(state.node_id) {
        law_turns_go_round(ids, ids.index_of(state.node_id));
    }
}

/// The node that a call begins with: the leader, as far as it is known.
pub open spec fn first_asked(leader: Option<NodeId>, ids: Seq<NodeId>) -> NodeId {
    match leader {
        Some(id) => id,
        None => ids[0],
    }
}

/// The leader that is known after a call has succeeded: a write only succeeds at
/// the leader.
pub open spec fn known_after_success(
    leader: Option<NodeId>,
    node_id: NodeId,
    is_write: bool,
) -> Option<NodeId> {
    if is_write {
        Some(node_id)
    } else {
        leader
    }
}

/// The leader that is known after a call has failed.
pub open spec fn known_after_failure(
    leader: Option<NodeId>,
    code: StatusCode,
    message: Seq<char>,
) -> Option<NodeId> {
    match leader_hint(message) {
        Some(hint) if code == StatusCode::FailedPrecondition => Some(hint),
        _ => leader,
    }
}

/// A client stays with the leader that it knows: calls begin there after a write
/// has succeeded, and after a node has named another leader they begin with that
/// one. Other outcomes teach nothing.
pub proof fn law_leaders_are_remembered(
    known: Option<NodeId>,
    ids: Seq<NodeId>,
    node_id: NodeId,
    code: StatusCode,
    named: Option<NodeId>,
)
    ensures
        first_asked(known_after_success(known, node_id, true), ids) == node_id,
        known_after_success(known, node_id, false) == known,
        code == StatusCode::FailedPrecondition && named is Some ==> first_asked(
            known_after_failure(known, code, not_leader_message(named)),
            ids,
        ) == named->0,
        code != StatusCode::FailedPrecondition || named is None ==> known_after_failure(
            known,
            code,
            not_leader_message(named),
        ) == known,
        known is Some ==> first_asked(known, ids) == known->0,
        known is None ==> first_asked(known, ids) == ids[0],
{
    law_hint_round_trip(named);
}

/// The nodes take turns: after each comes the one behind it in the row, and after
/// the last the first, so that every node is asked in turn.
pub proof fn law_turns_go_round(ids: Seq<NodeId>, i: int)
    requires
        ids.no_duplicates(),
        0 <= i < ids.len(),
    ensures
        i + 1 < ids.len() ==> following(ids, ids[i]) == ids[i + 1],
        i + 1 == ids.len() ==> following(ids, ids[i]) == ids[0],
        ids.contains(following(ids, ids[i])),
{
    assert(ids.contains(ids[i]));
    assert(ids.index_of(ids[i]) == i);
    if i + 1 < ids.len() {
        assert((i + 1) % (ids.len() as int) == i + 1) by (nonlinear_arith)
            requires
                0 <= i + 1 < ids.len(),
        ;
    } else {
        assert((i + 1) % (ids.len() as int) == 0) by (nonlinear_arith)
            requires
                i + 1 == ids.len(),
                ids.len() > 0,
        ;
    }
}

/// Digits are no brackets.
proof fn lemma_no_bracket(n: nat)
    ensures
        forall|i: int| 0 <= i < decimal(n).len() ==> #[trigger] decimal(n)[i] != ')',
    decreases n,
{
    if n >= 10 {
        lemma_no_bracket(n / 10);
        assert(decimal(n) =~= decimal(n / 10).push(digit_char(n % 10)));
    }
}

/// A text that does not stand before `at` is first found from there on.
proof fn lemma_place(s: Seq<char>, p: Seq<char>, at: int, from: int)
    requires
        0 <= from <= at,
        at + p.len() <= s.len(),
        forall|i: int|
            from <= i < at ==> #[trigger] s.subrange(i, i + p.len()) != p,
    ensures
        place_of(s, p, from) == place_of(s, p, at),
    decreases at - from,
{
    if from < at {
        assert(s.subrange(from, from + p.len()) != p);
        lemma_place(s, p, at, from + 1);
    }
}

/// A text that stands nowhere is not found.
proof fn lemma_no_place(s: Seq<char>, p: Seq<char>, from: int)
    requires
        0 <= from,
        forall|i: int|
            from <= i <= s.len() - p.len() ==> #[trigger] s.subrange(i, i + p.len()) != p,
    ensures
        place_of(s, p, from) is None,
    decreases s.len() + 1 - from,
{
    if from + p.len() <= s.len() {
        assert(s.subrange(from, from + p.len()) != p);
        lemma_no_place(s, p, from + 1);
    }
}

/// A client that keeps track of the leader and tries again when a call fails.
#[derive(Debug)]
pub struct KvClient {
    nodes: HashMap<NodeId, String>,
    ids: Vec<NodeId>,
    leader_id: Option<NodeId>,
}

impl KvClient {
    /// The nodes that the client knows, in the order in which it asks them.
    pub closed spec fn ids(&self) -> Seq<NodeId> {
        self.ids@
    }

    /// The leader, as far as the client knows it.
    pub closed spec fn leader(&self) -> Option<NodeId> {
        self.leader_id
    }

    /// The addresses of the nodes.
    pub closed spec fn addresses(&self) -> Map<NodeId, Seq<char>> {
        self.nodes@.map_values(|a: String| a@)
    }

    /// Every node that has an address is asked in its turn.
    pub open spec fn well_formed(&self) -> bool {
        self.ids().no_duplicates() && self.ids().to_set() == self.addresses().dom()
    }

    /// A client that knows some nodes and no leader.
    pub fn new(nodes: HashMap<NodeId, String>) -> (r: Self)
        ensures
            r.well_formed(),
            r.addresses() == nodes@.map_values(|a: String| a@),
            r.leader() is None,
    {
        let ids: Vec<NodeId> = node_ids(&nodes);
        let r = KvClient { nodes, ids, leader_id: None };
        assert(r.addresses().dom() =~= nodes@.dom());
        r
    }

    /// The address of a node; a node that is not known is refused.
    pub fn address_of(&self, node_id: NodeId) -> (r: Result<String, Status>)
        ensures
            if self.addresses().contains_key(node_id) {
                r matches Ok(a) && a@ == self.addresses()[node_id]
            } else {
                r matches Err(s) && s.code == StatusCode::NotFound && s.message@
                    == "unknown node "@ + decimal(node_id as nat)
            },
    {
        broadcast use vstd::std_specs::hash::group_hash_axioms;

        match self.nodes.get(&node_id) {
            Some(a) => Ok(a.clone()),
            None => Err(
                Status {
                    code: StatusCode::NotFound,
                    message: joined(
                        "unknown node ",
                        decimal_text(node_id).as_str(),
                    ),
                },
            ),
        }
    }

    /// The node to ask first: the leader, or the first of all nodes where the
    /// leader is not known.
    pub fn pick_node(&self) -> (r: NodeId)
        requires
            self.leader() is Some || self.ids().len() > 0,
        ensures
            r == match self.leader() {
                Some(id) => id,
                None => self.ids()[0],
            },
            r == first_asked(self.leader(), self.ids()),
    {
        match self.leader_id {
            Some(id) => id,
            None => self.ids[0],
        }
    }

    /// The node to ask after another one.
    pub fn next_node(&self, current: NodeId) -> (r: NodeId)
        requires
            self.well_formed(),
            self.ids().len() > 0,
        ensures
            r == following(self.ids(), current),
    {
        let len: usize = self.ids.len();
        let mut at: usize = 0;
        let mut i: usize = 0;
        while i < len
            invariant
                i <= len,
                len == self.ids@.len(),
                len > 0,
                self.ids@.no_duplicates(),
                at < len,
                if self.ids@.take(i as int).contains(current) {
                    self.ids@[at as int] == current
                } else {
                    at == 0
                },
            decreases len - i,
        {
            let ghost done = self.ids@.take(i as int);
            let ghost more = self.ids@.take(i + 1);
            proof {
                assert(more =~= done.push(self.ids@[i as int]));
                if done.contains(current) {
                    let j = done.index_of(current);
                    assert(more[j] == current);
                }
                if more.contains(current) && self.ids@[i as int] != current {
                    let j = more.index_of(current);
                    assert(done[j] == current);
                }
                assert(more[i as int] == self.ids@[i as int]);
            }
            if self.ids[i] == current {
                at = i;
            }
            i += 1;
        }
        proof {
            assert(self.ids@.take(i as int) =~= self.ids@);
            if self.ids@.contains(current) {
                let j = self.ids@.index_of(current);
                assert(self.ids@[j] == self.ids@[at as int]);
            }
        }
        if at == len - 1 {
            assert((at + 1) % (len as int) == 0) by (nonlinear_arith)
                requires
                    at + 1 == len,
                    len > 0,
            ;
            self.ids[0]
        } else {
            assert((at + 1) % (len as int) == at + 1) by (nonlinear_arith)
                requires
                    0 <= at + 1 < len,
            ;
            self.ids[at + 1]
        }
    }

    /// The leader that a message names.
    pub fn parse_leader_hint(message: &str) -> (r: Option<NodeId>)
        ensures
            r == leader_hint(message@),
    {
        proof {
            reveal_strlit("Some(");
        }
        match find(message, "Some(") {
            Some(start) => {
                let len: usize = message.unicode_len();
                let rest: String = slice(message, start + 5, len);
                assert(rest@ =~= message@.skip(start + "Some("@.len()));
                let end: usize = find_char(rest.as_str(), ')', 0);
                if end < rest.as_str().unicode_len() {
                    let number: String = slice(rest.as_str(), 0, end);
                    assert(number@ =~= rest@.take(end as int));
                    parse_u64(number.as_str())
                } else {
                    None
                }
            },
            None => None,
        }
    }

    /// Begins a call.
    pub fn begin_call(&self) -> (r: CallState)
        requires
            self.leader() is Some || self.ids().len() > 0,
        ensures
            r.attempt == 0,
            r.node_id == match self.leader() {
                Some(id) => id,
                None => self.ids()[0],
            },
            r.node_id == first_asked(self.leader(), self.ids()),
    {
        CallState { node_id: self.pick_node(), attempt: 0 }
    }

    /// Takes up that a call has succeeded. The node that took a write leads; of
    /// a read nothing is learnt.
    pub fn call_succeeded(&mut self, state: &CallState, is_write: bool)
        ensures
            final(self).leader() == if is_write {
                Some(state.node_id)
            } else {
                old(self).leader()
            },
            final(self).leader() == known_after_success(
                old(self).leader(),
                state.node_id,
                is_write,
            ),
            final(self).ids() == old(self).ids(),
            final(self).addresses() == old(self).addresses(),
    {
        if is_write {
            self.leader_id = Some(state.node_id);
        }
    }

    /// Takes up that a call has failed: what is to be done next. After the last
    /// try nothing is.
    pub fn call_failed(&mut self, state: &CallState, status: &Status) -> (r: CallStep)
        requires
            old(self).well_formed(),
            old(self).ids().len() > 0,
            state.attempt < MAX_RETRIES,
        ensures
            final(self).well_formed(),
            final(self).ids() == old(self).ids(),
            final(self).addresses() == old(self).addresses(),
            r == step_after(old(self).ids(), *state, status.code, status.message@),
            final(self).leader() == match leader_hint(status.message@) {
                Some(leader) if status.code == StatusCode::FailedPrecondition => Some(leader),
                _ => old(self).leader(),
            },
            final(self).leader() == known_after_failure(
                old(self).leader(),
                status.code,
                status.message@,
            ),
    {
        if status.code == StatusCode::FailedPrecondition {
            match KvClient::parse_leader_hint(status.message.as_str()) {
                Some(leader) => {
                    self.leader_id = Some(leader);
                    return CallStep {
                        next: CallState { node_id: leader, attempt: state.attempt + 1 },
                        drop_connection: false,
                        delay_ms: 0,
                    };
                },
                None => {},
            }
        }
        CallStep {
            next: CallState {
                node_id: self.next_node(state.node_id),
                attempt: state.attempt + 1,
            },
            drop_connection: true,
            delay_ms: delay_ms(state.attempt),
        }
    }

    /// Whether a call is tried once more; where it is not, what is answered.
    pub fn try_again(state: &CallState) -> (r: Result<(), Status>)
        ensures
            if state.attempt < MAX_RETRIES {
                r == Ok::<(), Status>(())
            } else {
                r matches Err(s) && s.code == StatusCode::Unavailable && s.message@
                    == "all retries exhausted"@
            },
    {
        if state.attempt < MAX_RETRIES {
            Ok(())
        } else {
            Err(Status::new(StatusCode::Unavailable, "all retries exhausted"))
        }
    }
}

/// The pause after the failure of a try.
fn delay_ms(attempt: u64) -> (r: u64)
    requires
        attempt < MAX_RETRIES,
    ensures
        r == delay_after(attempt as nat),
{
    let mut delay: u64 = BASE_DELAY_MS;
    let mut i: u64 = 0;
    while i < attempt
        invariant
            i <= attempt < MAX_RETRIES,
            delay == delay_after(i as nat),
            i == 0 ==> delay == 100,
            i == 1 ==> delay == 200,
            i == 2 ==> delay == 400,
            i == 3 ==> delay == 800,
            i == 4 ==> delay == 1600,
        decreases attempt - i,
    {
        delay = 2 * delay;
        i += 1;
    }
    delay
}

} // verus!
