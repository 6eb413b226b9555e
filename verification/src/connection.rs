//! What the handshake settles for a connection.

use crate::encryption::CipherSettings;
use crate::seq_number::SeqNumber;
use crate::time::{Duration, Instant};
use vstd::prelude::*;

verus! {

/// The settings of a connection, as far as the receiver reads them.
#[derive(Debug)]
pub struct ConnectionSettings {
    /// Local time at which the peer's clock stood at zero.
    pub socket_start_time: Instant,
    /// The delay between a packet's timestamp and its release.
    pub recv_tsbpd_latency: Duration,
    /// The first sequence number that the peer sends.
    pub init_seq_num: SeqNumber,
    /// The number of slots of the receive buffer.
    pub recv_buffer_size: usize,
    /// How payloads are decrypted; nothing for a connection without encryption.
    pub cipher: Option<CipherSettings>,
}

} // verus!
