//! Points and spans of time, counted in whole microseconds.

use vstd::prelude::*;

verus! {

/// The largest count of microseconds that a point or span of time can hold.
pub open spec fn max_micros() -> int {
    0xFFFF_FFFF_FFFF_FFFF
}

/// `v` held to the range of a microsecond count.
pub open spec fn clamp_micros(v: int) -> int {
    if v < 0 {
        0
    } else if v > max_micros() {
        max_micros()
    } else {
        v
    }
}

/// A point of local monotonic time: microseconds since the local origin.
#[derive(Clone, Copy, Debug, PartialEq, Eq, Hash, Structural)]
pub struct Instant {
    pub micros: u64,
}

/// A span of time in microseconds.
#[derive(Clone, Copy, Debug, PartialEq, Eq, Hash, Structural)]
pub struct Duration {
    pub micros: u64,
}

/// The peer's clock as packets carry it: microseconds since the peer's
/// socket start, in 32 bits.
#[derive(Clone, Copy, Debug, PartialEq, Eq, Hash, Structural)]
pub struct TimeStamp {
    pub micros: u32,
}

impl View for Instant {
    type V = int;

    open spec fn view(&self) -> int {
        self.micros as int
    }
}

impl View for Duration {
    type V = int;

    open spec fn view(&self) -> int {
        self.micros as int
    }
}

impl View for TimeStamp {
    type V = int;

    open spec fn view(&self) -> int {
        self.micros as int
    }
}

impl Instant {
    pub fn from_micros(micros: u64) -> (r: Instant)
        ensures
            r@ == micros,
    {
        Instant { micros }
    }

    pub fn as_micros(self) -> (r: u64)
        ensures
            r == self@,
    {
        self.micros
    }

    /// The point `span` after `self`, held at the largest point that can be told.
    pub fn saturating_add(self, span: Duration) -> (r: Instant)
        ensures
            r@ == clamp_micros(self@ + span@),
    {
        if self.micros > u64::MAX - span.micros {
            Instant { micros: u64::MAX }
        } else {
            Instant { micros: self.micros + span.micros }
        }
    }

    /// The span from `earlier` to `self`; zero when `earlier` is in fact later.
    pub fn saturating_since(self, earlier: Instant) -> (r: Duration)
        ensures
            r@ == clamp_micros(self@ - earlier@),
    {
        if self.micros >= earlier.micros {
            Duration { micros: self.micros - earlier.micros }
        } else {
            Duration { micros: 0 }
        }
    }
}

impl Duration {
    pub fn from_micros(micros: u64) -> (r: Duration)
        ensures
            r@ == micros,
    {
        Duration { micros }
    }

    /// A span of `millis` milliseconds, held at the largest span that can be told.
    pub fn from_millis(millis: u64) -> (r: Duration)
        ensures
            r@ == clamp_micros(millis * 1000),
    {
        if millis > u64::MAX / 1000 {
            Duration { micros: u64::MAX }
        } else {
            Duration { micros: millis * 1000 }
        }
    }

    pub fn as_micros(self) -> (r: u64)
        ensures
            r == self@,
    {
        self.micros
    }

    /// The longer of two spans.
    pub fn max(self, other: Duration) -> (r: Duration)
        ensures
            r@ == if self@ >= other@ { self@ } else { other@ },
    {
        if self.micros >= other.micros {
            self
        } else {
            other
        }
    }
}

impl TimeStamp {
    pub fn from_micros(micros: u32) -> (r: TimeStamp)
        ensures
            r@ == micros,
    {
        TimeStamp { micros }
    }

    pub fn as_micros(self) -> (r: u32)
        ensures
            r == self@,
    {
        self.micros
    }
}

} // verus!
