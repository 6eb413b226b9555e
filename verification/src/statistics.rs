//! The counters that the receiver keeps.

use vstd::prelude::*;

verus! {

/// `a + b`, held at the largest count that can be told.
pub open spec fn sat_add(a: u64, b: u64) -> u64 {
    if a + b > u64::MAX {
        u64::MAX
    } else {
        (a + b) as u64
    }
}

/// Counters of one connection. A counter that is full stays full.
#[derive(Clone, Copy, Debug, PartialEq, Eq, Structural)]
pub struct SocketStatistics {
    pub rx_data: u64,
    pub rx_bytes: u64,
    pub rx_unique_data: u64,
    pub rx_unique_bytes: u64,
    pub rx_retransmit_data: u64,
    pub rx_dropped_data: u64,
    pub rx_dropped_bytes: u64,
    pub rx_decrypted_data: u64,
    pub rx_decrypt_errors: u64,
    pub rx_decrypt_error_bytes: u64,
    pub rx_ack2: u64,
    pub rx_ack2_errors: u64,
    pub rx_clock_adjustments: u64,
}

impl SocketStatistics {
    /// Counters that all stand at zero.
    pub fn new() -> (r: SocketStatistics)
        ensures
            r == (SocketStatistics {
                rx_data: 0,
                rx_bytes: 0,
                rx_unique_data: 0,
                rx_unique_bytes: 0,
                rx_retransmit_data: 0,
                rx_dropped_data: 0,
                rx_dropped_bytes: 0,
                rx_decrypted_data: 0,
                rx_decrypt_errors: 0,
                rx_decrypt_error_bytes: 0,
                rx_ack2: 0,
                rx_ack2_errors: 0,
                rx_clock_adjustments: 0,
            }),
    {
        SocketStatistics {
            rx_data: 0,
            rx_bytes: 0,
            rx_unique_data: 0,
            rx_unique_bytes: 0,
            rx_retransmit_data: 0,
            rx_dropped_data: 0,
            rx_dropped_bytes: 0,
            rx_decrypted_data: 0,
            rx_decrypt_errors: 0,
            rx_decrypt_error_bytes: 0,
            rx_ack2: 0,
            rx_ack2_errors: 0,
            rx_clock_adjustments: 0,
        }
    }
}

/// `a + b`, held at the largest count that can be told.
pub fn add_count(a: u64, b: u64) -> (r: u64)
    ensures
        r == sat_add(a, b),
{
    if a > u64::MAX - b {
        u64::MAX
    } else {
        a + b
    }
}

} // verus!
