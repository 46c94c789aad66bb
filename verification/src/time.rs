//! Spans of time as plain numbers.

use vstd::prelude::*;

verus! {

/// A span of time: whole seconds and the nanoseconds below one second.
#[derive(Clone, Copy, Debug, PartialEq, Eq, Structural)]
pub struct Duration {
    pub secs: u64,
    pub nanos: u32,
}

impl Duration {
    /// Less than a second is held in `nanos`.
    pub open spec fn wf(self) -> bool {
        self.nanos < 1_000_000_000
    }

    /// The span in nanoseconds.
    pub open spec fn total_nanos(self) -> nat {
        self.secs as nat * 1_000_000_000 + self.nanos as nat
    }

    /// The span in whole milliseconds, rounded down, capped at `u64::MAX`.
    pub open spec fn spec_millis(self) -> u64 {
        let millis = self.total_nanos() / 1_000_000;
        if millis <= u64::MAX {
            millis as u64
        } else {
            u64::MAX
        }
    }

    /// The empty span.
    pub fn zero() -> (d: Duration)
        ensures
            d.wf(),
            d.total_nanos() == 0,
            d == (Duration { secs: 0, nanos: 0 }),
    {
        Duration { secs: 0, nanos: 0 }
    }

    pub fn from_secs(secs: u64) -> (d: Duration)
        ensures
            d.wf(),
            d == (Duration { secs, nanos: 0 }),
            d.total_nanos() == secs * 1_000_000_000,
    {
        Duration { secs, nanos: 0 }
    }

    pub fn from_millis(millis: u64) -> (d: Duration)
        ensures
            d.wf(),
            d.total_nanos() == millis * 1_000_000,
            d.spec_millis() == millis,
    {
        Duration { secs: millis / 1_000, nanos: ((millis % 1_000) * 1_000_000) as u32 }
    }

    pub fn is_zero(&self) -> (zero: bool)
        ensures
            zero == (self.total_nanos() == 0),
    {
        self.secs == 0 && self.nanos == 0
    }

    /// Whether this span is the shorter one.
    pub fn shorter_than(&self, other: &Duration) -> (shorter: bool)
        requires
            self.wf(),
            other.wf(),
        ensures
            shorter == (self.total_nanos() < other.total_nanos()),
    {
        self.secs < other.secs || (self.secs == other.secs && self.nanos < other.nanos)
    }

    /// Whole milliseconds, rounded down, capped at `u64::MAX`.
    pub fn saturating_millis(&self) -> (millis: u64)
        ensures
            millis == self.spec_millis(),
    {
        let millis: u128 = (self.secs as u128 * 1_000_000_000 + self.nanos as u128) / 1_000_000;
        if millis <= u64::MAX as u128 {
            millis as u64
        } else {
            u64::MAX
        }
    }
}

} // verus!
