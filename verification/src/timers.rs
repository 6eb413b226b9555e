//! The settings of the timers of a connection. The timers themselves run outside:
//! every event carries the time at which it fires.

use crate::time::Duration;
use vstd::prelude::*;

verus! {

/// The period of the full-acknowledgement timer, in microseconds (10 ms).
pub const FULL_ACK_PERIOD_MICROS: u64 = 10_000;

/// The settings of the timers of one connection.
#[derive(Clone, Copy, Debug, PartialEq, Eq, Structural)]
pub struct Timers {
    /// The period of the full-acknowledgement timer.
    pub full_ack_period: Duration,
    /// The time without a packet after which the connection is closed.
    pub close_timeout: Duration,
    /// The sample of the round-trip time that was taken last.
    pub rtt: Option<Duration>,
}

impl Timers {
    /// The timers of a connection that is closed after `close_timeout` without a packet.
    pub fn new(close_timeout: Duration) -> (r: Timers)
        ensures
            r.full_ack_period@ == FULL_ACK_PERIOD_MICROS,
            r.close_timeout == close_timeout,
            r.rtt.is_none(),
    {
        Timers {
            full_ack_period: Duration { micros: FULL_ACK_PERIOD_MICROS },
            close_timeout,
            rtt: None,
        }
    }

    /// The timers after the round-trip time `rtt` was taken.
    pub open spec fn with_rtt(before: Timers, rtt: Duration) -> Timers {
        Timers { rtt: Some(rtt), ..before }
    }

    /// Takes a new sample of the round-trip time.
    pub fn update_rtt(&mut self, rtt: Duration)
        ensures
            *final(self) == Self::with_rtt(*old(self), rtt),
    {
        self.rtt = Some(rtt);
    }
}

} // verus!
