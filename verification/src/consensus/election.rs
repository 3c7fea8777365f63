//! Whether to vote for a candidate.

use vstd::prelude::*;
use crate::consensus::message::VoteRequest;
use crate::consensus::state::RaftState;
use crate::types::{LogIndex, Term};

verus! {

/// A candidate's log is at least as recent as ours: its last term is greater,
/// or is the same and its log is no shorter.
pub open spec fn at_least_as_recent(
    candidate_last_term: Term,
    candidate_last_index: LogIndex,
    our_last_term: Term,
    our_last_index: LogIndex,
) -> bool {
    candidate_last_term > our_last_term || (candidate_last_term == our_last_term
        && candidate_last_index >= our_last_index)
}

/// A candidate gets our vote: its term is not stale, we have voted for no one
/// else, and its log is at least as recent as ours.
pub open spec fn grants(
    state: RaftState,
    request: VoteRequest,
    our_last_log_index: LogIndex,
    our_last_log_term: Term,
) -> bool {
    &&& request.term >= state.persistent.current_term
    &&& state.persistent.voted_for matches Some(v) ==> v == request.candidate_id
    &&& at_least_as_recent(
        request.last_log_term,
        request.last_log_index,
        our_last_log_term,
        our_last_log_index,
    )
}

/// Whether a candidate gets our vote.
pub fn should_grant_vote(
    state: &RaftState,
    request: &VoteRequest,
    our_last_log_index: LogIndex,
    our_last_log_term: Term,
) -> (r: bool)
    ensures
        r == grants(*state, *request, our_last_log_index, our_last_log_term),
{
    if request.term < state.persistent.current_term {
        return false;
    }
    if let Some(voted_for) = state.persistent.voted_for {
        if voted_for != request.candidate_id {
            return false;
        }
    }
    is_log_up_to_date(
        request.last_log_term,
        request.last_log_index,
        our_last_log_term,
        our_last_log_index,
    )
}

/// Whether a candidate's log is at least as recent as ours.
pub fn is_log_up_to_date(
    candidate_last_term: Term,
    candidate_last_index: LogIndex,
    our_last_term: Term,
    our_last_index: LogIndex,
) -> (r: bool)
    ensures
        r == at_least_as_recent(
            candidate_last_term,
            candidate_last_index,
            our_last_term,
            our_last_index,
        ),
{
    if candidate_last_term != our_last_term {
        candidate_last_term > our_last_term
    } else {
        candidate_last_index >= our_last_index
    }
}

/// Of two logs each is at least as recent as the other only where they end
/// alike, and one of them always is.
pub proof fn law_recency_is_total(a_term: Term, a_index: LogIndex, b_term: Term, b_index: LogIndex)
    ensures
        at_least_as_recent(a_term, a_index, b_term, b_index) || at_least_as_recent(
            b_term,
            b_index,
            a_term,
            a_index,
        ),
        at_least_as_recent(a_term, a_index, b_term, b_index) && at_least_as_recent(
            b_term,
            b_index,
            a_term,
            a_index,
        ) ==> a_term == b_term && a_index == b_index,
{
}

} // verus!
