//! Where a node gets the time from.

use vstd::prelude::*;

verus! {

/// A clock that reads milliseconds since the Unix epoch and never goes back.
pub trait Clock {
    fn now_millis(&self) -> u64;
}

/// What a clock reads that stood at `base_millis` when it was started.
pub fn reading_after(base_millis: u64, elapsed_millis: u64) -> (now: u64)
    ensures
        now == if base_millis + elapsed_millis <= u64::MAX {
            base_millis + elapsed_millis
        } else {
            u64::MAX as int
        },
{
    base_millis.saturating_add(elapsed_millis)
}

/// A clock moved by hand.
#[derive(Debug)]
pub struct FixedClock(u64);

impl FixedClock {
    pub closed spec fn view(&self) -> u64 {
        self.0
    }

    pub fn new(now_millis: u64) -> (clock: FixedClock)
        ensures
            clock@ == now_millis,
    {
        FixedClock(now_millis)
    }

    pub fn set(&mut self, now_millis: u64)
        ensures
            final(self)@ == now_millis,
    {
        self.0 = now_millis;
    }

    /// Moves the clock on, at most to the last moment it can show.
    pub fn advance(&mut self, delta_millis: u64)
        ensures
            final(self)@ == if old(self)@ + delta_millis <= u64::MAX {
                old(self)@ + delta_millis
            } else {
                u64::MAX as int
            },
    {
        self.0 = reading_after(self.0, delta_millis);
    }
}

impl Default for FixedClock {
    fn default() -> (clock: FixedClock)
        ensures
            clock@ == 0,
    {
        FixedClock(0)
    }
}

impl Clock for FixedClock {
    fn now_millis(&self) -> (now: u64)
        ensures
            now == self@,
    {
        self.0
    }
}

/// A clock that is only moved on never goes back.
pub proof fn lemma_advancing_is_monotone(before: u64, delta_millis: u64)
    ensures
        before <= if before + delta_millis <= u64::MAX {
            before + delta_millis
        } else {
            u64::MAX as int
        },
{
}

} // verus!
