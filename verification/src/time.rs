//! Points in time and spans of time, counted in nanoseconds.
//!
//! The library never reads a clock: a caller counts nanoseconds from a start of
//! its own choosing and passes them in.
use vstd::prelude::*;

verus! {

/// A span of time.
#[derive(Debug, Clone, Copy, PartialEq, Eq, PartialOrd, Ord, Structural)]
pub struct Duration {
    /// The length in nanoseconds.
    pub nanos: u128,
}

/// A point in time.
#[derive(Debug, Clone, Copy, PartialEq, Eq, PartialOrd, Ord, Structural)]
pub struct Instant {
    /// The nanoseconds since the caller's start.
    pub nanos: u128,
}

impl Duration {
    /// The span of the given number of nanoseconds.
    #[must_use]
    pub fn from_nanos(nanos: u128) -> (d: Duration)
        ensures
            d.nanos == nanos,
    {
        Duration { nanos }
    }

    /// The span of the given number of milliseconds.
    #[must_use]
    pub fn from_millis(millis: u64) -> (d: Duration)
        ensures
            d.nanos == millis * 1_000_000,
    {
        Duration { nanos: millis as u128 * 1_000_000 }
    }

    /// The span of the given number of seconds.
    #[must_use]
    pub fn from_secs(secs: u64) -> (d: Duration)
        ensures
            d.nanos == secs * 1_000_000_000,
    {
        Duration { nanos: secs as u128 * 1_000_000_000 }
    }
}

impl Instant {
    /// The point that many nanoseconds after the caller's start.
    #[must_use]
    pub fn from_nanos(nanos: u128) -> (t: Instant)
        ensures
            t.nanos == nanos,
    {
        Instant { nanos }
    }

    /// The span from `earlier` to `self`, zero where `earlier` is later.
    #[must_use]
    pub fn duration_since(&self, earlier: Instant) -> (d: Duration)
        ensures
            d.nanos == (if self.nanos >= earlier.nanos {
                self.nanos - earlier.nanos
            } else {
                0
            }),
    {
        if self.nanos >= earlier.nanos {
            Duration { nanos: self.nanos - earlier.nanos }
        } else {
            Duration { nanos: 0 }
        }
    }
}

impl core::ops::Add<Duration> for Instant {
    type Output = Instant;

    fn add(self, rhs: Duration) -> (out: Instant) {
        Instant { nanos: self.nanos + rhs.nanos }
    }
}

impl vstd::std_specs::ops::AddSpecImpl<Duration> for Instant {
    open spec fn obeys_add_spec() -> bool {
        true
    }

    open spec fn add_req(self, rhs: Duration) -> bool {
        self.nanos + rhs.nanos <= u128::MAX
    }

    open spec fn add_spec(self, rhs: Duration) -> Instant {
        Instant { nanos: (self.nanos + rhs.nanos) as u128 }
    }
}

} // verus!
