//! A clock that can run ahead or behind, jump, and stand still.
//!
//! Times are readings in nanoseconds of the machine's steady clock, which the
//! embedding program takes.

use vstd::prelude::*;

verus! {

/// The nanoseconds of a millisecond.
pub const NANOS_PER_MS: u128 = 1_000_000;

/// A simulated clock.
#[derive(Debug, Clone, Copy, PartialEq, Eq, Structural)]
pub struct ClockSim {
    /// How far the clock is ahead, in milliseconds; negative where it is behind.
    offset_ms: i64,
    frozen: bool,
    /// The reading at which the clock was stopped.
    frozen_at: Option<u128>,
}

/// What a clock shows that is off by some milliseconds. A clock that would be
/// behind the beginning of time shows the real time.
pub open spec fn skewed(real_now: u128, offset_ms: i64) -> int {
    let shown = real_now + offset_ms * NANOS_PER_MS;
    if shown < 0 {
        real_now as int
    } else {
        shown
    }
}

/// How many numbers 64 bits hold.
pub const WORD: i128 = 0x1_0000_0000_0000_0000;

/// A number as 64 bits hold it, where it is less than that range away from
/// what they can hold.
pub open spec fn wrapped(x: int) -> int {
    if x > i64::MAX {
        x - WORD
    } else if x < i64::MIN {
        x + WORD
    } else {
        x
    }
}

fn wrap(x: i128) -> (r: i64)
    requires
        i64::MIN - WORD < x < i64::MAX + WORD,
    ensures
        r == wrapped(x as int),
{
    if x > i64::MAX as i128 {
        (x - WORD) as i64
    } else if x < i64::MIN as i128 {
        (x + WORD) as i64
    } else {
        x as i64
    }
}

impl ClockSim {
    pub closed spec fn offset_of(&self) -> i64 {
        self.offset_ms
    }

    /// The reading at which the clock stands still, if it does.
    pub closed spec fn stopped_at(&self) -> Option<u128> {
        if self.frozen {
            self.frozen_at
        } else {
            None
        }
    }

    /// What the clock shows when the real time is the given one.
    pub open spec fn shows(&self, real_now: u128) -> int {
        match self.stopped_at() {
            Some(t) => t as int,
            None => skewed(real_now, self.offset_of()),
        }
    }

    /// The clock stands still exactly where it knows at which reading.
    pub closed spec fn well_formed(&self) -> bool {
        self.frozen == (self.frozen_at is Some)
    }

    /// A clock that shows the real time.
    pub fn new() -> (r: Self)
        ensures
            r.well_formed(),
            r.offset_of() == 0,
            r.stopped_at() is None,
    {
        ClockSim { offset_ms: 0, frozen: false, frozen_at: None }
    }

    /// What the clock shows.
    pub fn now(&self, real_now: u128) -> (r: u128)
        requires
            self.shows(real_now) <= u128::MAX,
        ensures
            r == self.shows(real_now),
    {
        if self.frozen {
            match self.frozen_at {
                Some(t) => {
                    return t;
                },
                None => {},
            }
        }
        if self.offset_ms >= 0 {
            real_now + (self.offset_ms as u128) * NANOS_PER_MS
        } else {
            let back: u128 = ((-(self.offset_ms as i128)) as u128) * NANOS_PER_MS;
            if back <= real_now {
                real_now - back
            } else {
                real_now
            }
        }
    }

    /// Sets how far the clock is ahead.
    pub fn set_offset(&mut self, ms: i64)
        ensures
            final(self).offset_of() == ms,
            final(self).stopped_at() == old(self).stopped_at(),
            final(self).well_formed() == old(self).well_formed(),
    {
        self.offset_ms = ms;
    }

    /// How far the clock is ahead, in milliseconds.
    pub fn offset(&self) -> (r: i64)
        ensures
            r == self.offset_of(),
    {
        self.offset_ms
    }

    /// Puts the clock forward; an offset that grows too large wraps round.
    pub fn jump_forward(&mut self, ms: u64)
        ensures
            final(self).offset_of() == wrapped(old(self).offset_of() + ms),
            final(self).stopped_at() == old(self).stopped_at(),
            final(self).well_formed() == old(self).well_formed(),
    {
        self.offset_ms = wrap(self.offset_ms as i128 + ms as i128);
    }

    /// Puts the clock back; an offset that grows too large wraps round.
    pub fn jump_backward(&mut self, ms: u64)
        ensures
            final(self).offset_of() == wrapped(old(self).offset_of() - ms),
            final(self).stopped_at() == old(self).stopped_at(),
            final(self).well_formed() == old(self).well_formed(),
    {
        self.offset_ms = wrap(self.offset_ms as i128 - ms as i128);
    }

    /// Stops the clock at what it shows.
    pub fn freeze(&mut self, real_now: u128)
        requires
            old(self).shows(real_now) <= u128::MAX,
        ensures
            final(self).well_formed(),
            final(self).offset_of() == old(self).offset_of(),
            final(self).stopped_at() == Some(old(self).shows(real_now) as u128),
    {
        self.frozen_at = Some(self.now(real_now));
        self.frozen = true;
    }

    /// Lets the clock run again.
    pub fn unfreeze(&mut self)
        ensures
            final(self).well_formed(),
            final(self).offset_of() == old(self).offset_of(),
            final(self).stopped_at() is None,
    {
        self.frozen = false;
        self.frozen_at = None;
    }

    /// Whether the clock stands still.
    pub fn is_frozen(&self) -> (r: bool)
        requires
            self.well_formed(),
        ensures
            r == (self.stopped_at() is Some),
    {
        self.frozen
    }

    /// How much time the clock says has gone by since a reading; none where the
    /// reading lies ahead.
    pub fn elapsed_since(&self, since: u128, real_now: u128) -> (r: u128)
        requires
            self.shows(real_now) <= u128::MAX,
        ensures
            r == if self.shows(real_now) > since {
                self.shows(real_now) - since
            } else {
                0
            },
    {
        let now: u128 = self.now(real_now);
        if now > since {
            now - since
        } else {
            0
        }
    }

    /// Has the clock show the real time again.
    pub fn reset(&mut self)
        ensures
            final(self).well_formed(),
            final(self).offset_of() == 0,
            final(self).stopped_at() is None,
    {
        self.offset_ms = 0;
        self.frozen = false;
        self.frozen_at = None;
    }
}

impl Default for ClockSim {
    fn default() -> (r: Self)
        ensures
            r.well_formed(),
            r.offset_of() == 0,
            r.stopped_at() is None,
    {
        ClockSim::new()
    }
}

/// A clock that stands still shows the same at all times.
pub proof fn law_frozen_clock_stands(clock: ClockSim, a: u128, b: u128)
    requires
        clock.stopped_at() is Some,
    ensures
        clock.shows(a) == clock.shows(b),
{
}

/// A running clock shows the real time, moved by its offset in milliseconds, or
/// the real time itself where that would be before the beginning.
pub proof fn law_skewed_clocks_are_moved(clock: ClockSim, real_now: u128)
    requires
        clock.stopped_at() is None,
    ensures
        real_now + clock.offset_of() * 1_000_000 >= 0 ==> clock.shows(real_now) - real_now
            == clock.offset_of() * 1_000_000,
        real_now + clock.offset_of() * 1_000_000 < 0 ==> clock.shows(real_now) == real_now,
{
}

/// Two running clocks differ by as much as their offsets do, and time passes on
/// each as it does in reality.
pub proof fn law_running_clocks_keep_pace(a: ClockSim, b: ClockSim, earlier: u128, later: u128)
    requires
        a.stopped_at() is None,
        b.stopped_at() is None,
        earlier + a.offset_of() * 1_000_000 >= 0,
        earlier + b.offset_of() * 1_000_000 >= 0,
        earlier <= later,
    ensures
        a.shows(later) - a.shows(earlier) == later - earlier,
        a.shows(later) - b.shows(later) == (a.offset_of() - b.offset_of()) * 1_000_000,
{
}

/// Jumps add up as long as the offset fits, and a jump back undoes one forward.
pub proof fn law_jumps_add_up(offset: i64, ms: u64)
    ensures
        offset + ms <= i64::MAX ==> wrapped(offset + ms) == offset + ms,
        offset - ms >= i64::MIN ==> wrapped(offset - ms) == offset - ms,
        wrapped(wrapped(offset + ms) - ms) == offset,
        i64::MIN <= wrapped(offset + ms) <= i64::MAX,
{
}

} // verus!
