//! Points and spans of monotonic time, in nanoseconds.
//!
//! No clock is read here. A driver converts its own clock's readings.

use vstd::prelude::*;

verus! {

/// A span of time.
#[derive(Clone, Copy, Debug, PartialEq, Eq, PartialOrd, Ord, Hash)]
pub struct Duration {
    nanos: u128,
}

/// A point in time, counted from whatever origin the driver chose.
#[derive(Clone, Copy, Debug, PartialEq, Eq, PartialOrd, Ord, Hash)]
pub struct Instant {
    nanos: u128,
}

impl View for Duration {
    type V = nat;

    closed spec fn view(&self) -> nat {
        self.nanos as nat
    }
}

impl View for Instant {
    type V = nat;

    closed spec fn view(&self) -> nat {
        self.nanos as nat
    }
}

/// The last point in time that can be told.
pub open spec fn end_of_time() -> nat {
    u128::MAX as nat
}

/// The point `d` after `t`.
pub open spec fn after(t: nat, d: nat) -> nat {
    if t + d > end_of_time() {
        end_of_time()
    } else {
        t + d
    }
}

impl Duration {
    #[verifier::type_invariant]
    spec fn inv(self) -> bool {
        self.nanos < 0x1_0000_0000_0000_0000u128 * 1_000_000_000u128
    }

    pub fn from_secs(secs: u64) -> (r: Duration)
        ensures
            r@ == secs * 1_000_000_000,
    {
        Duration { nanos: (secs as u128) * 1_000_000_000u128 }
    }

    pub fn from_millis(millis: u64) -> (r: Duration)
        ensures
            r@ == millis * 1_000_000,
    {
        Duration { nanos: (millis as u128) * 1_000_000u128 }
    }

    pub fn from_nanos(nanos: u64) -> (r: Duration)
        ensures
            r@ == nanos,
    {
        Duration { nanos: nanos as u128 }
    }

    /// The whole seconds.
    pub fn as_secs(self) -> (r: u64)
        ensures
            r == self@ / 1_000_000_000,
    {
        proof {
            use_type_invariant(self);
        }
        (self.nanos / 1_000_000_000u128) as u64
    }

    pub fn as_nanos(self) -> (r: u128)
        ensures
            r == self@,
    {
        self.nanos
    }
}

impl Instant {
    pub fn from_nanos(nanos: u128) -> (r: Instant)
        ensures
            r@ == nanos,
    {
        Instant { nanos }
    }

    pub fn as_nanos(self) -> (r: u128)
        ensures
            r == self@,
    {
        self.nanos
    }

    /// The point `d` later, or the last that can be told.
    pub fn plus(self, d: Duration) -> (r: Instant)
        ensures
            r@ == after(self@, d@),
    {
        Instant { nanos: self.nanos.saturating_add(d.nanos) }
    }

    /// Whether `self` is at or past `other`.
    pub fn reached(self, other: Instant) -> (r: bool)
        ensures
            r == (self@ >= other@),
    {
        self.nanos >= other.nanos
    }

    pub fn earlier(self, other: Instant) -> (r: Instant)
        ensures
            r@ == (if self@ <= other@ {
                self@
            } else {
                other@
            }),
    {
        if self.nanos <= other.nanos {
            self
        } else {
            other
        }
    }
}

} // verus!
