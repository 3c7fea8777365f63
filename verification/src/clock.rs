//! Readings of a clock.

use std::time::{Duration, Instant};
use vstd::prelude::*;

verus! {

/// The type `std::time::Instant`.
#[verifier::external_type_specification]
#[verifier::external_body]
pub struct ExInstant(Instant);

/// `Instant::now`: the present moment. Nothing is claimed of it.
pub assume_specification[ Instant::now ]() -> (r: Instant)
;

/// `Instant::elapsed`: how long ago a moment was. Nothing is claimed of it.
pub assume_specification[ Instant::elapsed ](since: &Instant) -> (r: Duration)
;

/// `Duration::as_nanos`: a length of time in nanoseconds. Nothing is claimed of
/// it.
pub assume_specification[ Duration::as_nanos ](length: &Duration) -> (r: u128)
;

pub const NANOS_PER_SECOND: u128 = 1_000_000_000;

pub const NANOS_PER_MILLISECOND: u128 = 1_000_000;

/// The nanoseconds from one reading to a later one; none where it is not later.
pub open spec fn between(since: u128, now: u128) -> nat {
    if now > since {
        (now - since) as nat
    } else {
        0
    }
}

/// The nanoseconds from one reading to a later one.
pub fn nanos_between(since: u128, now: u128) -> (r: u128)
    ensures
        r == between(since, now),
{
    if now > since {
        now - since
    } else {
        0
    }
}

/// A clock, whose readings are the nanoseconds since it was made.
#[derive(Debug)]
pub struct Clock {
    start: Instant,
}

impl Clock {
    pub fn new() -> Self {
        Clock { start: Instant::now() }
    }

    /// The present reading. Nothing is claimed of it; what depends on it takes
    /// a reading as an argument.
    pub fn reading(&self) -> u128 {
        self.start.elapsed().as_nanos()
    }
}

} // verus!
