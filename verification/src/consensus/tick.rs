//! How long a node waits.

use rand::Rng;
use vstd::prelude::*;

verus! {

/// `rand::Rng::gen_range` over an inclusive range, with the generator of the
/// thread: some number of the range. It panics where the range is empty.
#[verifier::external_body]
pub(crate) fn random_in(min: u64, max: u64) -> (r: u64)
    requires
        min <= max,
    ensures
        min <= r <= max,
{
    rand::thread_rng().gen_range(min..=max)
}

/// The times of a node, in milliseconds.
#[derive(Debug, Clone, Copy, PartialEq, Eq, Structural)]
pub struct TickConfig {
    pub election_timeout_min: u64,
    pub election_timeout_max: u64,
    pub heartbeat_interval: u64,
}

impl TickConfig {
    pub fn new(
        election_timeout_min_ms: u64,
        election_timeout_max_ms: u64,
        heartbeat_interval_ms: u64,
    ) -> (r: Self)
        ensures
            r.election_timeout_min == election_timeout_min_ms,
            r.election_timeout_max == election_timeout_max_ms,
            r.heartbeat_interval == heartbeat_interval_ms,
    {
        TickConfig {
            election_timeout_min: election_timeout_min_ms,
            election_timeout_max: election_timeout_max_ms,
            heartbeat_interval: heartbeat_interval_ms,
        }
    }

    /// The longest election timeout, which also bounds a leadership transfer.
    pub fn election_timeout_max_ms(&self) -> (r: u64)
        ensures
            r == self.election_timeout_max,
    {
        self.election_timeout_max
    }

    /// An election timeout by chance, so that nodes do not all start elections
    /// at once.
    pub fn random_election_timeout(&self) -> (r: u64)
        requires
            self.election_timeout_min <= self.election_timeout_max,
        ensures
            self.election_timeout_min <= r <= self.election_timeout_max,
    {
        random_in(self.election_timeout_min, self.election_timeout_max)
    }
}

impl Default for TickConfig {
    fn default() -> (r: Self)
        ensures
            r.election_timeout_min == 150,
            r.election_timeout_max == 300,
            r.heartbeat_interval == 50,
    {
        TickConfig::new(150, 300, 50)
    }
}

} // verus!
