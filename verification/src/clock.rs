//! Mapping of the peer's packet timestamps to local time, with drift correction.

use crate::time::{clamp_micros, Duration, Instant, TimeStamp};
use vstd::prelude::*;

verus! {

/// Drift that is tolerated without a correction, in microseconds (5 ms).
pub const DEFAULT_DRIFT_TOLERANCE_MICROS: u64 = 5_000;

/// The part of an observed drift that one correction takes up: one in this many.
pub const DEFAULT_DRIFT_DIVISOR: u64 = 16;

/// A correction that `Clock::synchronize` applied.
#[derive(Clone, Copy, Debug, PartialEq, Eq, Structural)]
pub struct ClockAdjustment {
    /// Observed epoch minus the epoch held before, in microseconds.
    pub drift_micros: i128,
    /// Epoch held after minus the epoch held before, in microseconds.
    pub correction_micros: i128,
}

/// The epoch that a drift correction moves to: from `epoch` a `divisor`-th of the way
/// toward `observed`, rounded toward `epoch`.
pub open spec fn corrected_epoch(epoch: int, observed: int, divisor: int) -> int {
    if observed >= epoch {
        epoch + (observed - epoch) / divisor
    } else {
        epoch - (epoch - observed) / divisor
    }
}

/// What a sample at `now` of a packet stamped `ts` makes of the clock `before`: the clock
/// `after` and the adjustment `r` that is reported.
pub open spec fn synchronized(
    before: Clock,
    after: Clock,
    now: int,
    ts: int,
    r: Option<ClockAdjustment>,
) -> bool {
    let observed = now - ts;
    let drift = observed - before.epoch();
    &&& after.wf()
    &&& after.latency() == before.latency()
    &&& after.tolerance() == before.tolerance()
    &&& after.divisor() == before.divisor()
    &&& after.is_synchronized()
    &&& if !before.is_synchronized() {
        r.is_none() && after.epoch() == observed
    } else if -before.tolerance() <= drift <= before.tolerance() {
        r.is_none() && after.epoch() == before.epoch()
    } else {
        &&& after.epoch() == corrected_epoch(before.epoch(), observed, before.divisor())
        &&& r == Some(
            ClockAdjustment {
                drift_micros: drift as i128,
                correction_micros: (after.epoch() - before.epoch()) as i128,
            },
        )
    }
}

/// Local time of the peer's timestamp zero, and the latency added on delivery.
#[derive(Clone, Copy, Debug)]
pub struct Clock {
    epoch_local: i128,
    latency: u64,
    synchronized: bool,
    tolerance: u64,
    divisor: u64,
}

impl Clock {
    /// What holds of every clock: the divisor of a correction is at least one, the epoch
    /// lies no further before the local origin than a timestamp reaches, and the spans
    /// are spans of 64 bits.
    #[verifier::type_invariant]
    pub open spec fn wf(self) -> bool {
        &&& 1 <= self.divisor() <= u64::MAX
        &&& -0x1_0000_0000 < self.epoch() < 0x1_0000_0000_0000_0000
        &&& 0 <= self.latency() <= u64::MAX
        &&& 0 <= self.tolerance() <= u64::MAX
    }

    /// Local time, in microseconds, at which the peer's timestamp was zero. May be negative.
    pub closed spec fn epoch(self) -> int {
        self.epoch_local as int
    }

    /// The delay between a packet's timestamp and its release.
    pub closed spec fn latency(self) -> int {
        self.latency as int
    }

    /// Whether a packet has set the epoch yet.
    pub closed spec fn is_synchronized(self) -> bool {
        self.synchronized
    }

    pub closed spec fn tolerance(self) -> int {
        self.tolerance as int
    }

    pub closed spec fn divisor(self) -> int {
        self.divisor as int
    }

    /// Local time at which a packet stamped `ts` is due for release.
    pub open spec fn release_time(self, ts: int) -> int {
        clamp_micros(self.epoch() + ts + self.latency())
    }

    /// A clock whose epoch is `start` until the first packet sets it, with the default
    /// tolerance and correction step.
    pub fn new(start: Instant, latency: Duration) -> (r: Clock)
        ensures
            r.wf(),
            r.epoch() == start@,
            r.latency() == latency@,
            !r.is_synchronized(),
            r.tolerance() == DEFAULT_DRIFT_TOLERANCE_MICROS,
            r.divisor() == DEFAULT_DRIFT_DIVISOR,
    {
        Clock {
            epoch_local: start.micros as i128,
            latency: latency.micros,
            synchronized: false,
            tolerance: DEFAULT_DRIFT_TOLERANCE_MICROS,
            divisor: DEFAULT_DRIFT_DIVISOR,
        }
    }

    /// The same clock with another drift policy. A `divisor` of zero stands for one:
    /// every correction then jumps to the observed epoch.
    pub fn with_drift_policy(self, tolerance: Duration, divisor: u64) -> (r: Clock)
        ensures
            r.wf(),
            r.epoch() == self.epoch(),
            r.latency() == self.latency(),
            r.is_synchronized() == self.is_synchronized(),
            r.tolerance() == tolerance@,
            r.divisor() == if divisor == 0 { 1 } else { divisor as int },
    {
        proof {
            use_type_invariant(&self);
        }
        Clock {
            epoch_local: self.epoch_local,
            latency: self.latency,
            synchronized: self.synchronized,
            tolerance: tolerance.micros,
            divisor: if divisor == 0 { 1 } else { divisor },
        }
    }

    /// Takes the sample that a packet stamped `ts` arrived at `now`.
    ///
    /// The first sample sets the epoch to `now - ts`. A later one leaves the epoch alone
    /// while the observed epoch is within the tolerance of it, and otherwise moves it one
    /// step toward the observed epoch and reports the adjustment.
    pub fn synchronize(&mut self, now: Instant, ts: TimeStamp) -> (r: Option<ClockAdjustment>)
        ensures
            synchronized(*old(self), *final(self), now@, ts@, r),
    {
        proof {
            use_type_invariant(&*self);
        }
        let observed: i128 = now.micros as i128 - ts.micros as i128;
        if !self.synchronized {
            self.epoch_local = observed;
            self.synchronized = true;
            return None;
        }
        let previous: i128 = self.epoch_local;
        let late: bool = observed >= previous;
        let magnitude: u128 = if late {
            (observed - previous) as u128
        } else {
            (previous - observed) as u128
        };
        if magnitude <= self.tolerance as u128 {
            return None;
        }
        let step: u128 = magnitude / (self.divisor as u128);
        assert(step <= magnitude) by (nonlinear_arith)
            requires
                step == magnitude / (self.divisor as u128),
                self.divisor >= 1,
        ;
        let adjusted: i128 = if late {
            previous + step as i128
        } else {
            previous - step as i128
        };
        self.epoch_local = adjusted;
        Some(ClockAdjustment { drift_micros: observed - previous, correction_micros: adjusted - previous })
    }

    /// Local time at which a packet stamped `ts` is due for release:
    /// epoch plus timestamp plus latency.
    pub fn tsbpd_release(&self, ts: TimeStamp) -> (r: Instant)
        ensures
            r@ == self.release_time(ts@),
    {
        proof {
            use_type_invariant(self);
        }
        let due: i128 = self.epoch_local + ts.micros as i128 + self.latency as i128;
        if due < 0 {
            Instant { micros: 0 }
        } else if due > u64::MAX as i128 {
            Instant { micros: u64::MAX }
        } else {
            Instant { micros: due as u64 }
        }
    }

    /// The configured delivery latency.
    pub fn tsbpd_latency(&self) -> (r: Duration)
        ensures
            r@ == self.latency(),
    {
        Duration { micros: self.latency }
    }
}

} // verus!
