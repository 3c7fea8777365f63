//! Handing leadership to another node.

use vstd::prelude::*;
use crate::clock::{between, nanos_between, Clock, NANOS_PER_MILLISECOND};
use crate::types::NodeId;

verus! {

/// The whole milliseconds from one reading to another, as far as 64 bits hold
/// them.
pub open spec fn taken_ms(started_at: u128, now: u128) -> u64 {
    (between(started_at, now) as u128 / NANOS_PER_MILLISECOND) as u64
}

/// A leadership transfer under way.
///
/// The leader takes no proposals, brings the target up to date and then tells
/// it to start an election. A transfer that takes too long is given up.
#[derive(Debug)]
pub struct TransferState {
    /// The node that is to lead.
    pub target: NodeId,
    /// The clock of the transfer.
    pub clock: Clock,
    /// The reading of the clock when the transfer began.
    pub started_at: u128,
    /// Whether the target was told to start an election.
    pub timeout_now_sent: bool,
}

/// What a transfer stands at.
pub struct TransferView {
    pub target: NodeId,
    pub started_at: u128,
    pub timeout_now_sent: bool,
}

impl View for TransferState {
    type V = TransferView;

    open spec fn view(&self) -> TransferView {
        TransferView {
            target: self.target,
            started_at: self.started_at,
            timeout_now_sent: self.timeout_now_sent,
        }
    }
}

impl TransferState {
    /// A transfer that begins now.
    pub fn new(target: NodeId) -> (r: Self)
        ensures
            exists|now: u128| r@ == #[trigger] new_transfer(target, now),
    {
        let clock = Clock::new();
        let now: u128 = clock.reading();
        TransferState::new_at(target, clock, now)
    }

    /// A transfer that begins at a reading of its clock.
    pub fn new_at(target: NodeId, clock: Clock, now: u128) -> (r: Self)
        ensures
            r@ == new_transfer(target, now),
    {
        TransferState { target, clock, started_at: now, timeout_now_sent: false }
    }

    /// Whether the transfer has taken longer than allowed by now.
    pub fn is_expired(&self, timeout_ms: u64) -> (r: bool)
        ensures
            exists|now: u128| r == (#[trigger] taken_ms(self.started_at, now) > timeout_ms),
    {
        let now: u128 = self.clock.reading();
        self.is_expired_at(now, timeout_ms)
    }

    /// Whether the transfer has taken longer than allowed at a reading.
    pub fn is_expired_at(&self, now: u128, timeout_ms: u64) -> (r: bool)
        ensures
            r == (taken_ms(self.started_at, now) > timeout_ms),
    {
        let millis: u128 = nanos_between(self.started_at, now) / NANOS_PER_MILLISECOND;
        let taken: u64 = #[verifier::truncate] (millis as u64);
        taken > timeout_ms
    }
}

/// A transfer that begins at a reading.
pub open spec fn new_transfer(target: NodeId, now: u128) -> TransferView {
    TransferView { target, started_at: now, timeout_now_sent: false }
}

/// Why a transfer is refused.
#[derive(Debug, Clone, Copy, PartialEq, Eq, Structural)]
pub enum TransferError {
    NotLeader,
    AlreadyInProgress,
    TargetNotInCluster,
    AlreadyLeader,
}

} // verus!
