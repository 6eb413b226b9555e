//! The packets that the receiver takes in and sends out, as values.

use crate::ack_history::FullAckSeqNumber;
use crate::loss_list::CompressedLossList;
use crate::seq_number::SeqNumber;
use crate::time::{Duration, TimeStamp};
use vstd::prelude::*;

verus! {

/// Bytes of header that every data packet carries on the wire.
pub const DATA_HEADER_SIZE: u64 = 16;

/// Which key a data packet's payload is encrypted with.
#[derive(Clone, Copy, Debug, PartialEq, Eq, Structural)]
pub enum DataEncryption {
    /// The payload is not encrypted.
    Plain,
    /// The payload is encrypted with the key of the even stream.
    Even,
    /// The payload is encrypted with the key of the odd stream.
    Odd,
}

/// A data packet.
#[derive(Debug, PartialEq, Eq)]
pub struct DataPacket {
    pub seq_number: SeqNumber,
    pub msg_number: u32,
    pub timestamp: TimeStamp,
    pub dest_socket_id: u32,
    pub encryption: DataEncryption,
    pub payload: Vec<u8>,
}

impl DataPacket {
    /// Bytes that the packet takes on the wire: the header and the payload.
    pub open spec fn wire_bytes(&self) -> u64 {
        if self.payload@.len() + DATA_HEADER_SIZE > u64::MAX {
            u64::MAX
        } else {
            (self.payload@.len() + DATA_HEADER_SIZE) as u64
        }
    }

    /// Bytes that the packet takes on the wire: the header and the payload.
    pub fn wire_size(&self) -> (r: u64)
        ensures
            r == self.wire_bytes(),
    {
        (self.payload.len() as u64).saturating_add(DATA_HEADER_SIZE)
    }
}

/// The body of a full acknowledgement.
#[derive(Clone, Copy, Debug, PartialEq, Eq, Structural)]
pub struct FullAcknowledgement {
    pub ack_seq_no: FullAckSeqNumber,
    /// The first sequence number that is not acknowledged.
    pub acked_up_to: SeqNumber,
    pub rtt_mean: Duration,
    pub rtt_variance: Duration,
    /// Slots of the receive buffer beyond the high-water mark.
    pub available_buffer_size: u32,
    /// Packets per second at which data arrives.
    pub pkt_recv_rate: u32,
    /// Packets per second that the link is estimated to carry.
    pub estimated_link_bandwidth: u32,
}

/// An acknowledgement: a light one carries a sequence number only.
#[derive(Clone, Copy, Debug, PartialEq, Eq, Structural)]
pub enum Acknowledgement {
    Lite(SeqNumber),
    Full(FullAcknowledgement),
}

/// Keys for the payload, encrypted under the key that the passphrase gives.
#[derive(Debug, PartialEq, Eq)]
pub struct KeyingMaterialMessage {
    /// The message carries the key of the even stream.
    pub even: bool,
    /// The message carries the key of the odd stream.
    pub odd: bool,
    pub salt: Vec<u8>,
    /// The keys that the message carries, the even one first, wrapped together.
    pub wrapped_keys: Vec<u8>,
}

/// A keying-material message, as values.
pub struct KeyingMaterialView {
    pub even: bool,
    pub odd: bool,
    pub salt: Seq<u8>,
    pub wrapped_keys: Seq<u8>,
}

impl View for KeyingMaterialMessage {
    type V = KeyingMaterialView;

    open spec fn view(&self) -> KeyingMaterialView {
        KeyingMaterialView {
            even: self.even,
            odd: self.odd,
            salt: self.salt@,
            wrapped_keys: self.wrapped_keys@,
        }
    }
}

/// The control packets of the key exchange that the receiver sends.
#[derive(Debug, PartialEq, Eq)]
pub enum SrtControlPacket {
    KeyRefreshResponse(KeyingMaterialMessage),
}

/// The control packets that the receiver sends.
#[derive(Debug, PartialEq, Eq)]
pub enum ControlTypes {
    Ack(Acknowledgement),
    Nak(CompressedLossList),
    Srt(SrtControlPacket),
}

/// A control packet, as values.
pub enum ControlView {
    Ack(Acknowledgement),
    Nak(Seq<(int, int)>),
    KeyRefreshResponse(KeyingMaterialView),
}

impl View for ControlTypes {
    type V = ControlView;

    open spec fn view(&self) -> ControlView {
        match self {
            ControlTypes::Ack(ack) => ControlView::Ack(*ack),
            ControlTypes::Nak(list) => ControlView::Nak(list@),
            ControlTypes::Srt(SrtControlPacket::KeyRefreshResponse(material)) => {
                ControlView::KeyRefreshResponse(material@)
            },
        }
    }
}

} // verus!
