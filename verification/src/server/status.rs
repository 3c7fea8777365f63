//! What a service answers when it cannot do what it was asked.

use vstd::prelude::*;
use crate::consensus::leadership_transfer::TransferError;
use crate::consensus::membership::MembershipError;
use crate::consensus::message::ProposalResult;
use crate::consensus::state::Role;
use crate::error::{message_of, Error};
use crate::server::lease::LeaseError;
use crate::text::{decimal, decimal_text, joined};
use crate::words::{option_text, option_view, quote, quoted, signed_decimal, signed_text};

verus! {

/// The kind of a refusal.
#[derive(Debug, Clone, Copy, PartialEq, Eq, Structural)]
pub enum StatusCode {
    InvalidArgument,
    DeadlineExceeded,
    NotFound,
    FailedPrecondition,
    Unimplemented,
    Internal,
    Unavailable,
}

/// A refusal with its message.
#[derive(Debug, PartialEq, Eq)]
pub struct Status {
    pub code: StatusCode,
    pub message: String,
}

/// A call was refused with this code and message.
pub open spec fn refused<T>(r: Result<T, Status>, code: StatusCode, message: Seq<char>) -> bool {
    r matches Err(s) && s.code == code && s.message@ == message
}

impl Status {
    pub fn new(code: StatusCode, message: &str) -> (r: Self)
        ensures
            r.code == code,
            r.message@ == message@,
    {
        Status { code, message: message.to_string() }
    }

    /// What a service answers when the library fails it.
    pub fn internal(e: &Error) -> (r: Self)
        ensures
            r.code == StatusCode::Internal,
            r.message@ == message_of(*e),
    {
        Status { code: StatusCode::Internal, message: e.message() }
    }
}

/// A role by name.
pub open spec fn role_view(role: Role) -> Seq<char> {
    match role {
        Role::Follower => "Follower"@,
        Role::PreCandidate => "PreCandidate"@,
        Role::Candidate => "Candidate"@,
        Role::Leader => "Leader"@,
    }
}

/// A role by name.
pub fn role_text(role: Role) -> (r: String)
    ensures
        r@ == role_view(role),
{
    match role {
        Role::Follower => "Follower".to_string(),
        Role::PreCandidate => "PreCandidate".to_string(),
        Role::Candidate => "Candidate".to_string(),
        Role::Leader => "Leader".to_string(),
    }
}

/// Why a membership change is refused, as it is written in messages.
pub open spec fn membership_error_view(e: MembershipError) -> Seq<char> {
    match e {
        MembershipError::ChangeInProgress => "ChangeInProgress"@,
        MembershipError::NodeAlreadyExists(id) => "NodeAlreadyExists("@ + decimal(id as nat)
            + ")"@,
        MembershipError::NodeNotFound(id) => "NodeNotFound("@ + decimal(id as nat) + ")"@,
        MembershipError::CannotRemoveLastNode => "CannotRemoveLastNode"@,
        MembershipError::InvalidConfigData => "InvalidConfigData"@,
        MembershipError::NotLeader => "NotLeader"@,
    }
}

/// Why a membership change is refused, as it is written in messages.
pub fn membership_error_text(e: MembershipError) -> (r: String)
    ensures
        r@ == membership_error_view(e),
{
    match e {
        MembershipError::ChangeInProgress => "ChangeInProgress".to_string(),
        MembershipError::NodeAlreadyExists(id) => joined(
            "NodeAlreadyExists(",
            decimal_text(id).as_str(),
        ).concat(")"),
        MembershipError::NodeNotFound(id) => joined(
            "NodeNotFound(",
            decimal_text(id).as_str(),
        ).concat(")"),
        MembershipError::CannotRemoveLastNode => "CannotRemoveLastNode".to_string(),
        MembershipError::InvalidConfigData => "InvalidConfigData".to_string(),
        MembershipError::NotLeader => "NotLeader".to_string(),
    }
}

/// Why a transfer is refused, as it is written in messages.
pub open spec fn transfer_error_view(e: TransferError) -> Seq<char> {
    match e {
        TransferError::NotLeader => "NotLeader"@,
        TransferError::AlreadyInProgress => "AlreadyInProgress"@,
        TransferError::TargetNotInCluster => "TargetNotInCluster"@,
        TransferError::AlreadyLeader => "AlreadyLeader"@,
    }
}

/// Why a transfer is refused, as it is written in messages.
pub fn transfer_error_text(e: TransferError) -> (r: String)
    ensures
        r@ == transfer_error_view(e),
{
    match e {
        TransferError::NotLeader => "NotLeader".to_string(),
        TransferError::AlreadyInProgress => "AlreadyInProgress".to_string(),
        TransferError::TargetNotInCluster => "TargetNotInCluster".to_string(),
        TransferError::AlreadyLeader => "AlreadyLeader".to_string(),
    }
}

/// Why a lease operation fails, as it is written in messages.
pub open spec fn lease_error_view(e: LeaseError) -> Seq<char> {
    match e {
        LeaseError::NotFound(id) => "NotFound("@ + signed_decimal(id as int) + ")"@,
        LeaseError::AlreadyExists(id) => "AlreadyExists("@ + signed_decimal(id as int) + ")"@,
        LeaseError::Expired(id) => "Expired("@ + signed_decimal(id as int) + ")"@,
        LeaseError::InvalidTtl => "InvalidTtl"@,
    }
}

/// Why a lease operation fails, as it is written in messages.
pub fn lease_error_text(e: LeaseError) -> (r: String)
    ensures
        r@ == lease_error_view(e),
{
    match e {
        LeaseError::NotFound(id) => joined("NotFound(", signed_text(id).as_str()).concat(")"),
        LeaseError::AlreadyExists(id) => joined(
            "AlreadyExists(",
            signed_text(id).as_str(),
        ).concat(")"),
        LeaseError::Expired(id) => joined("Expired(", signed_text(id).as_str()).concat(")"),
        LeaseError::InvalidTtl => "InvalidTtl".to_string(),
    }
}

/// Why a proposal is refused, as it is written in messages.
pub open spec fn refusal_view(e: ProposalResult) -> Seq<char> {
    match e {
        ProposalResult::NotLeader { leader_id } => "NotLeader { leader_id: "@ + option_view(
            leader_id,
        ) + " }"@,
        ProposalResult::TransferInProgress => "TransferInProgress"@,
        ProposalResult::Success { index } => "Success { index: "@ + decimal(index as nat)
            + " }"@,
        ProposalResult::Error(message) => "Error("@ + quoted(message@) + ")"@,
    }
}

/// Why a proposal is refused, as it is written in messages.
pub fn refusal_text(e: ProposalResult) -> (r: String)
    ensures
        r@ == refusal_view(e),
{
    match e {
        ProposalResult::NotLeader { leader_id } => joined(
            "NotLeader { leader_id: ",
            option_text(leader_id).as_str(),
        ).concat(" }"),
        ProposalResult::TransferInProgress => "TransferInProgress".to_string(),
        ProposalResult::Success { index } => joined(
            "Success { index: ",
            decimal_text(index).as_str(),
        ).concat(" }"),
        ProposalResult::Error(message) => joined("Error(", quote(message.as_str()).as_str()).concat(
            ")",
        ),
    }
}

} // verus!
