//! Receiver side of a reliable, low-latency media transport over datagrams.
//!
//! Packets carry a sequence number on a circle of `2^31` values and a timestamp of the
//! sender. The receiver keeps them in a ring of slots until their release time, reports
//! the numbers that are missing, acknowledges what it has, and gives up what comes too
//! late. Every operation is a plain function of the state and of the time that the caller
//! hands in: timers and sockets live outside.
//!
//! - [`seq_number`]: arithmetic on the circle of sequence numbers.
//! - [`time`], [`clock`]: microsecond time, and the mapping of the sender's timestamps
//!   to local time.
//! - [`loss_list`]: lists of missing ranges and their form on the wire.
//! - [`buffer`]: the receive buffer.
//! - [`loss_ranges`], [`history`]: the history of losses.
//! - [`ack_history`], [`rtt`]: acknowledgements awaiting confirmation, and the
//!   round-trip time that confirmations measure.
//! - [`arq`]: the loss recovery that owns and joins the parts above.
//! - [`encryption`]: decryption of payloads and the exchange of keys.
//! - [`packet`], [`statistics`], [`output`], [`timers`], [`connection`]: the values
//!   around a receiver.
//! - [`receiver`]: a connection's receiver and the handling of its events.

pub mod seq_number;
pub mod time;
pub mod clock;
pub mod loss_list;
pub mod buffer;
pub mod loss_ranges;
pub mod history;
pub mod ack_history;
pub mod rtt;
pub mod packet;
pub mod statistics;
pub mod output;
pub mod timers;
pub mod connection;
pub mod encryption;
pub mod receiver;
pub mod arq;
