//! The clock as the state machines see it.
//!
//! Nothing in this crate reads a clock. A caller hands in the current
//! [`Instant`], counted in nanoseconds from an origin of its own choosing, and
//! every timeout is a [`Duration`] compared with the distance of two instants.

use vstd::prelude::*;

verus! {

/// Nanoseconds in one millisecond.
pub const NANOS_PER_MILLI: u128 = 1_000_000;

/// Nanoseconds in one second.
pub const NANOS_PER_SEC: u128 = 1_000_000_000;

/// A span of time. Its view is its length in nanoseconds.
#[derive(Debug, Clone, Copy, PartialEq, Eq, PartialOrd, Ord, Hash)]
pub struct Duration {
    nanos: u128,
}

impl View for Duration {
    type V = nat;

    closed spec fn view(&self) -> nat {
        self.nanos as nat
    }
}

impl Duration {
    pub fn from_nanos(nanos: u128) -> (d: Self)
        ensures
            d@ == nanos,
    {
        Duration { nanos }
    }

    pub fn from_millis(millis: u64) -> (d: Self)
        ensures
            d@ == millis * NANOS_PER_MILLI,
    {
        Duration { nanos: millis as u128 * NANOS_PER_MILLI }
    }

    pub fn from_secs(secs: u64) -> (d: Self)
        ensures
            d@ == secs * NANOS_PER_SEC,
    {
        Duration { nanos: secs as u128 * NANOS_PER_SEC }
    }

    pub fn as_nanos(self) -> (n: u128)
        ensures
            n == self@,
    {
        self.nanos
    }
}

/// A point in time. Its view is its distance from the caller's origin, in
/// nanoseconds; the range covers more than five hundred years.
#[derive(Debug, Clone, Copy, PartialEq, Eq, PartialOrd, Ord, Hash)]
pub struct Instant {
    nanos: u64,
}

impl View for Instant {
    type V = nat;

    closed spec fn view(&self) -> nat {
        self.nanos as nat
    }
}

/// Time from `earlier` to `later`, or zero when they are the other way round.
pub open spec fn elapsed(later: int, earlier: int) -> nat {
    if later >= earlier {
        (later - earlier) as nat
    } else {
        0
    }
}

impl Instant {
    pub fn from_nanos(nanos: u64) -> (t: Self)
        ensures
            t@ == nanos,
    {
        Instant { nanos }
    }

    pub fn as_nanos(self) -> (n: u64)
        ensures
            n == self@,
    {
        self.nanos
    }

    /// The time that has passed since `earlier`; zero if `earlier` is later.
    pub fn duration_since(self, earlier: Instant) -> (d: Duration)
        ensures
            d@ == elapsed(self@ as int, earlier@ as int),
    {
        Duration { nanos: self.nanos.saturating_sub(earlier.nanos) as u128 }
    }

    /// The instant `d` after this one, if it can be represented.
    pub fn checked_add(self, d: Duration) -> (t: Option<Instant>)
        ensures
            t is Some <==> self@ + d@ <= u64::MAX,
            t matches Some(t) ==> t@ == self@ + d@,
    {
        if d.nanos <= (u64::MAX - self.nanos) as u128 {
            Some(Instant { nanos: self.nanos + d.nanos as u64 })
        } else {
            None
        }
    }

    /// No instant lies further from the origin than 64 bits can say.
    pub proof fn lemma_bound(self)
        ensures
            self@ <= u64::MAX,
    {
    }
}

} // verus!
