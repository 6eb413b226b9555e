//! The receiver of one connection and the handling of its events.

use crate::ack_history::{absent, position, FullAckSeqNumber};
use crate::arq::AutomaticRepeatRequestAlgorithm;
use crate::buffer::{acknowledged_time, BufferError};
use crate::clock::ClockAdjustment;
use crate::connection::ConnectionSettings;
use crate::encryption::{Decryption, DecryptionError, KeyMaterialError};
use crate::loss_list::CompressedLossList;
use crate::output::Output;
use crate::packet::{
    Acknowledgement, ControlTypes, ControlView, DataPacket, FullAcknowledgement,
    KeyingMaterialMessage, SrtControlPacket,
};
use crate::seq_number::{circle_add, circle_distance, on_circle, SeqNumber};
use crate::statistics::{add_count, sat_add, SocketStatistics};
use crate::time::{clamp_micros, Duration, Instant, TimeStamp};
use crate::timers::Timers;
use vstd::prelude::*;

verus! {

/// Why a data packet was dropped.
#[derive(Debug, Eq, PartialEq)]
pub enum DataPacketError {
    /// The packet is one window ahead and the slot it maps to still holds data.
    BufferFull { seq_number: SeqNumber, buffer_size: usize },
    /// The packet is too far ahead for the receive buffer, which would need to be
    /// `buffer_required` packets larger.
    PacketTooEarly { seq_number: SeqNumber, buffer_available: usize, buffer_required: usize },
    /// The packet lies before `seq_number_0`, the next number to release.
    PacketTooLate { seq_number: SeqNumber, seq_number_0: SeqNumber },
    /// The packet is already in the buffer.
    DiscardedDuplicate { seq_number: SeqNumber },
    DecryptionError(DecryptionError),
}

impl DataPacketError {
    /// The error of a data packet for the error of the buffer, variant for variant.
    pub fn from_buffer(error: BufferError) -> (r: DataPacketError)
        ensures
            match error {
                BufferError::BufferFull { seq_number, buffer_size } => r == (
                DataPacketError::BufferFull { seq_number, buffer_size }),
                BufferError::PacketTooEarly { seq_number, buffer_available, buffer_required } => r
                    == (DataPacketError::PacketTooEarly {
                    seq_number,
                    buffer_available,
                    buffer_required,
                }),
                BufferError::PacketTooLate { seq_number, seq_number_0 } => r == (
                DataPacketError::PacketTooLate { seq_number, seq_number_0 }),
                BufferError::DiscardedDuplicate { seq_number } => r == (
                DataPacketError::DiscardedDuplicate { seq_number }),
            },
    {
        match error {
            BufferError::BufferFull { seq_number, buffer_size } => DataPacketError::BufferFull {
                seq_number,
                buffer_size,
            },
            BufferError::PacketTooEarly { seq_number, buffer_available, buffer_required } => {
                DataPacketError::PacketTooEarly { seq_number, buffer_available, buffer_required }
            },
            BufferError::PacketTooLate { seq_number, seq_number_0 } => {
                DataPacketError::PacketTooLate { seq_number, seq_number_0 }
            },
            BufferError::DiscardedDuplicate { seq_number } => DataPacketError::DiscardedDuplicate {
                seq_number,
            },
        }
    }
}

/// What became of a data packet that was accepted.
#[derive(Debug, Eq, PartialEq)]
pub enum DataPacketAction {
    /// The packet was stored; `lrsn` is the first sequence number not yet acknowledged.
    Received { lrsn: SeqNumber, recovered: bool },
    /// The packet was stored and showed the listed numbers to be missing.
    ReceivedWithLoss(CompressedLossList),
    /// The packet was stored, and a light acknowledgement up to `light_ack` is due.
    ReceivedWithLightAck { light_ack: SeqNumber, recovered: bool },
}

impl DataPacketAction {
    /// Whether the packet filled a slot that had been reported missing.
    pub open spec fn recovered(&self) -> bool {
        match *self {
            DataPacketAction::Received { recovered, .. } => recovered,
            DataPacketAction::ReceivedWithLightAck { recovered, .. } => recovered,
            DataPacketAction::ReceivedWithLoss(_) => false,
        }
    }

    /// Whether the packet filled a slot that had been reported missing.
    pub fn is_recovered(&self) -> (r: bool)
        ensures
            r == self.recovered(),
    {
        match self {
            DataPacketAction::Received { recovered, .. } => *recovered,
            DataPacketAction::ReceivedWithLightAck { recovered, .. } => *recovered,
            DataPacketAction::ReceivedWithLoss(_) => false,
        }
    }
}

/// Where a receiver stands between its connection's start and end.
#[derive(Clone, Copy, Debug, PartialEq, Eq, Structural)]
pub enum ReceiverState {
    /// Every event is taken.
    Open,
    /// Only the timers are still served, and losses are no longer reported.
    Draining,
    /// Nothing is held any more, and no event has an effect.
    Closed,
}

/// The receiving side of one connection.
#[derive(Debug)]
pub struct Receiver {
    pub arq: AutomaticRepeatRequestAlgorithm,
    pub decryption: Decryption,
    pub state: ReceiverState,
}

impl Receiver {
    /// Both parts are in order.
    pub open spec fn wf(&self) -> bool {
        &&& self.arq.wf()
        &&& self.decryption.wf()
    }

    /// The receiver of a connection with the given settings, open and empty.
    pub fn new(settings: ConnectionSettings) -> (r: Receiver)
        ensures
            r.wf(),
            r.state == ReceiverState::Open,
            AutomaticRepeatRequestAlgorithm::is_new(
                r.arq,
                settings.socket_start_time,
                settings.recv_tsbpd_latency,
                settings.init_seq_num,
                settings.recv_buffer_size,
            ),
            r.decryption.passphrase() == match settings.cipher {
                Some(cipher) => Some(cipher.passphrase@),
                None => None,
            },
            r.decryption.key_len() == match settings.cipher {
                Some(cipher) => cipher.key_size.len(),
                None => 0,
            },
            r.decryption.even_key().is_none(),
            r.decryption.odd_key().is_none(),
            r.decryption.last_material().is_none(),
    {
        Receiver {
            arq: AutomaticRepeatRequestAlgorithm::new(
                settings.socket_start_time,
                settings.recv_tsbpd_latency,
                settings.init_seq_num,
                settings.recv_buffer_size,
            ),
            decryption: Decryption::new(settings.cipher),
            state: ReceiverState::Open,
        }
    }

    /// Whether the buffer holds no packet.
    pub fn is_flushed(&self) -> (r: bool)
        requires
            self.wf(),
        ensures
            r == forall|i: int|
                0 <= i < self.arq.buffer().cap() ==> !(
                #[trigger] self.arq.buffer().window()[i] is Filled),
    {
        self.arq.is_flushed()
    }

    /// The time over which the acknowledged packets at the front of the buffer are to be
    /// released.
    pub fn rx_acknowledged_time(&self) -> (r: Duration)
        requires
            self.wf(),
        ensures
            r@ == acknowledged_time(self.arq.buffer().window(), self.arq.buffer().expected()),
    {
        self.arq.rx_acknowledged_time()
    }

    /// Whether the receiver has nothing more to hand out: it is closed, or it is draining
    /// and its buffer holds no packet.
    pub fn is_finished(&self) -> (r: bool)
        requires
            self.wf(),
        ensures
            r == (self.state == ReceiverState::Closed || (self.state == ReceiverState::Draining
                && forall|i: int|
                0 <= i < self.arq.buffer().cap() ==> !(
                #[trigger] self.arq.buffer().window()[i] is Filled))),
    {
        match self.state {
            ReceiverState::Closed => true,
            ReceiverState::Draining => self.arq.is_flushed(),
            ReceiverState::Open => false,
        }
    }

    /// Starts to drain an open receiver: from now on only the timers are served. A
    /// receiver that is draining or closed stays as it is.
    pub fn begin_draining(&mut self)
        ensures
            final(self).arq == old(self).arq,
            final(self).decryption == old(self).decryption,
            final(self).state == if old(self).state == ReceiverState::Open {
                ReceiverState::Draining
            } else {
                old(self).state
            },
    {
        if self.state == ReceiverState::Open {
            self.state = ReceiverState::Draining;
        }
    }
}

/// What a context holds at one moment, as values.
pub struct ContextState {
    pub timers: Timers,
    pub output: Seq<(int, ControlView)>,
    pub stats: SocketStatistics,
    pub receiver: Receiver,
}

/// The counters after a packet of `bytes` bytes on the wire was counted as arrived.
pub open spec fn stats_after_arrival(stats: SocketStatistics, bytes: u64) -> SocketStatistics {
    SocketStatistics {
        rx_data: sat_add(stats.rx_data, 1),
        rx_bytes: sat_add(stats.rx_bytes, bytes),
        ..stats
    }
}

/// The counters after a packet of which `decrypted` bytes were decrypted.
pub open spec fn stats_after_decryption(stats: SocketStatistics, decrypted: usize) -> SocketStatistics {
    if decrypted > 0 {
        SocketStatistics { rx_decrypted_data: sat_add(stats.rx_decrypted_data, 1), ..stats }
    } else {
        stats
    }
}

/// The counters after a packet of `bytes` bytes on the wire met the given end: a
/// recovered one counts as retransmitted and any other accepted one as unique; one that
/// the buffer had no place for counts as dropped, one that could not be decrypted as
/// a decryption error, and a duplicate not at all.
pub open spec fn stats_after_packet(
    stats: SocketStatistics,
    bytes: u64,
    result: Result<DataPacketAction, DataPacketError>,
) -> SocketStatistics {
    match result {
        Ok(action) => if action.recovered() {
            SocketStatistics { rx_retransmit_data: sat_add(stats.rx_retransmit_data, 1), ..stats }
        } else {
            SocketStatistics {
                rx_unique_data: sat_add(stats.rx_unique_data, 1),
                rx_unique_bytes: sat_add(stats.rx_unique_bytes, bytes),
                ..stats
            }
        },
        Err(DataPacketError::DiscardedDuplicate { .. }) => stats,
        Err(DataPacketError::DecryptionError(_)) => SocketStatistics {
            rx_decrypt_errors: sat_add(stats.rx_decrypt_errors, 1),
            rx_decrypt_error_bytes: sat_add(stats.rx_decrypt_error_bytes, bytes),
            ..stats
        },
        Err(_) => SocketStatistics {
            rx_dropped_data: sat_add(stats.rx_dropped_data, 1),
            rx_dropped_bytes: sat_add(stats.rx_dropped_bytes, bytes),
            ..stats
        },
    }
}

/// The queue after a packet met the given end at `now`: a loss is reported, and a
/// light acknowledgement is sent where one is due.
pub open spec fn output_after_packet(
    output: Seq<(int, ControlView)>,
    now: Instant,
    result: Result<DataPacketAction, DataPacketError>,
) -> Seq<(int, ControlView)> {
    match result {
        Ok(DataPacketAction::ReceivedWithLoss(list)) => output.push((now@, ControlView::Nak(list@))),
        Ok(DataPacketAction::ReceivedWithLightAck { light_ack, .. }) => output.push(
            (now@, ControlView::Ack(Acknowledgement::Lite(light_ack))),
        ),
        _ => output,
    }
}

/// What `handle_decrypted_packet` makes of the state `pre`.
pub open spec fn decrypted_packet_event(
    pre: ContextState,
    post: ContextState,
    now: Instant,
    bytes: u64,
    decrypted: Result<(usize, DataPacket), DecryptionError>,
) -> bool {
    if pre.receiver.state != ReceiverState::Open {
        post == pre
    } else {
        &&& post.timers == pre.timers
        &&& post.receiver.decryption == pre.receiver.decryption
        &&& post.receiver.state == pre.receiver.state
        &&& match decrypted {
            Err(error) => {
                &&& post.receiver.arq == pre.receiver.arq
                &&& post.output == pre.output
                &&& post.stats == stats_after_packet(
                    pre.stats,
                    bytes,
                    Err(DataPacketError::DecryptionError(error)),
                )
            },
            Ok((size, packet)) => exists|result: Result<DataPacketAction, DataPacketError>|
                {
                    &&& #[trigger] AutomaticRepeatRequestAlgorithm::data_packet_handled(
                        pre.receiver.arq,
                        post.receiver.arq,
                        now,
                        packet,
                        result,
                    )
                    &&& post.stats == stats_after_packet(
                        stats_after_decryption(pre.stats, size),
                        bytes,
                        result,
                    )
                    &&& post.output == output_after_packet(pre.output, now, result)
                },
        }
    }
}

/// What `handle_data_packet` makes of the state `pre`: the packet is counted,
/// decrypted, and handled as `handle_decrypted_packet` does.
pub open spec fn data_packet_event(
    pre: ContextState,
    post: ContextState,
    now: Instant,
    packet: DataPacket,
) -> bool {
    if pre.receiver.state != ReceiverState::Open {
        post == pre
    } else {
        exists|decrypted: Result<(usize, DataPacket), DecryptionError>|
            {
                &&& #[trigger] pre.receiver.decryption.decrypted(packet, decrypted)
                &&& decrypted_packet_event(
                    ContextState {
                        stats: stats_after_arrival(pre.stats, packet.wire_bytes()),
                        ..pre
                    },
                    post,
                    now,
                    packet.wire_bytes(),
                    decrypted,
                )
            }
    }
}

/// What `synchronize_clock` makes of the state `pre`.
pub open spec fn clock_event(pre: ContextState, post: ContextState, now: Instant, ts: TimeStamp) -> bool {
    if pre.receiver.state != ReceiverState::Open {
        post == pre
    } else {
        exists|r: Option<ClockAdjustment>|
            {
                &&& #[trigger] AutomaticRepeatRequestAlgorithm::clock_synchronized(
                    pre.receiver.arq,
                    post.receiver.arq,
                    now,
                    ts,
                    r,
                )
                &&& post.receiver.decryption == pre.receiver.decryption
                &&& post.receiver.state == pre.receiver.state
                &&& post.timers == pre.timers
                &&& post.output == pre.output
                &&& post.stats == if r.is_some() {
                    SocketStatistics {
                        rx_clock_adjustments: sat_add(pre.stats.rx_clock_adjustments, 1),
                        ..pre.stats
                    }
                } else {
                    pre.stats
                }
            }
    }
}

/// What a confirmation makes of an open receiver's state `pre`, where the loss recovery
/// answered it with `r`: the confirmation is counted, and one that matched no
/// acknowledgement is counted as an error besides. The counters apart, nothing but
/// the loss recovery changes.
pub open spec fn ack2_counted(
    pre: ContextState,
    post: ContextState,
    now: Instant,
    seq_num: FullAckSeqNumber,
    r: Option<Duration>,
) -> bool {
    &&& AutomaticRepeatRequestAlgorithm::ack2_handled(
        pre.receiver.arq,
        post.receiver.arq,
        now,
        seq_num,
        r,
    )
    &&& post.receiver.decryption == pre.receiver.decryption
    &&& post.receiver.state == pre.receiver.state
    &&& post.output == pre.output
    &&& post.timers == pre.timers
    &&& post.stats == match r {
        Some(_) => SocketStatistics {
            rx_ack2: sat_add(pre.stats.rx_ack2, 1),
            rx_ack2_errors: sat_add(pre.stats.rx_ack2_errors, 1),
            ..pre.stats
        },
        None => SocketStatistics { rx_ack2: sat_add(pre.stats.rx_ack2, 1), ..pre.stats },
    }
}

/// What `handle_ack2_packet` makes of the state `pre`: an open receiver takes the
/// confirmation as `ack2_counted` says, and any other lets it pass without any effect.
pub open spec fn ack2_event(
    pre: ContextState,
    post: ContextState,
    now: Instant,
    seq_num: FullAckSeqNumber,
) -> bool {
    if pre.receiver.state != ReceiverState::Open {
        post == pre
    } else {
        exists|r: Option<Duration>| #[trigger] ack2_counted(pre, post, now, seq_num, r)
    }
}

/// What a drop request makes of an open receiver's state `pre`, where `end` is the
/// number after `last` and the loss recovery gave up `dropped` slots: the slots are
/// counted as dropped, and nothing else but the loss recovery changes.
pub open spec fn drop_counted(
    pre: ContextState,
    post: ContextState,
    first: SeqNumber,
    last: SeqNumber,
    end: SeqNumber,
    dropped: usize,
) -> bool {
    &&& AutomaticRepeatRequestAlgorithm::drop_request_handled(
        pre.receiver.arq,
        post.receiver.arq,
        first,
        end,
        dropped,
    )
    &&& end@ == circle_add(last@, 1)
    &&& post.receiver.decryption == pre.receiver.decryption
    &&& post.receiver.state == pre.receiver.state
    &&& post.timers == pre.timers
    &&& post.output == pre.output
    &&& post.stats == SocketStatistics {
        rx_dropped_data: sat_add(pre.stats.rx_dropped_data, dropped as u64),
        ..pre.stats
    }
}

/// What `handle_drop_request` makes of the state `pre`: an open receiver gives up the
/// numbers from `first` through `last` as `drop_counted` says, and any other lets the
/// request pass without any effect.
pub open spec fn drop_event(
    pre: ContextState,
    post: ContextState,
    first: SeqNumber,
    last: SeqNumber,
) -> bool {
    if pre.receiver.state != ReceiverState::Open {
        post == pre
    } else {
        exists|end: SeqNumber, dropped: usize| #[trigger]
            drop_counted(pre, post, first, last, end, dropped)
    }
}

/// A confirmation that matches no acknowledgement of an open receiver is counted, and
/// counted as an error, and has no other effect: the timers, the queue, the estimate of
/// the round-trip time, both histories and the buffer stay as they are.
pub proof fn lemma_unmatched_ack2_only_counts(
    pre: ContextState,
    post: ContextState,
    now: Instant,
    seq_num: FullAckSeqNumber,
)
    requires
        pre.receiver.wf(),
        pre.receiver.state == ReceiverState::Open,
        ack2_event(pre, post, now, seq_num),
        absent(pre.receiver.arq.acks().entries(), seq_num),
    ensures
        post.stats == (SocketStatistics {
            rx_ack2: sat_add(pre.stats.rx_ack2, 1),
            rx_ack2_errors: sat_add(pre.stats.rx_ack2_errors, 1),
            ..pre.stats
        }),
        post.timers == pre.timers,
        post.output == pre.output,
        post.receiver.state == pre.receiver.state,
        post.receiver.decryption == pre.receiver.decryption,
        post.receiver.arq.rtt() == pre.receiver.arq.rtt(),
        post.receiver.arq.acks().entries() == pre.receiver.arq.acks().entries(),
        post.receiver.arq.acks().capacity() == pre.receiver.arq.acks().capacity(),
        post.receiver.arq.buffer() == pre.receiver.arq.buffer(),
        post.receiver.arq.loss() == pre.receiver.arq.loss(),
        post.receiver.arq.clock() == pre.receiver.arq.clock(),
        post.receiver.arq.unacked() == pre.receiver.arq.unacked(),
        post.receiver.arq.ack_counter() == pre.receiver.arq.ack_counter(),
        post.receiver.arq.last_full_acked() == pre.receiver.arq.last_full_acked(),
        post.receiver.arq.last_ack2() == pre.receiver.arq.last_ack2(),
{
    let r = choose|r: Option<Duration>| #[trigger] ack2_counted(pre, post, now, seq_num, r);
    AutomaticRepeatRequestAlgorithm::lemma_ack2_outcome(
        pre.receiver.arq,
        post.receiver.arq,
        now,
        seq_num,
        r,
    );
}

/// A confirmation that matches an acknowledgement of an open receiver is counted and
/// gives a sample of the round-trip time, the time since the acknowledgement was sent.
/// The mean becomes seven parts of the old mean and one of the sample: it lies between
/// the two, an eighth of their distance away from the old mean. The variance becomes
/// three parts of the old variance and one of that distance. Neither becomes negative,
/// and the acknowledgement leaves the history.
pub proof fn lemma_matched_ack2_samples(
    pre: ContextState,
    post: ContextState,
    now: Instant,
    seq_num: FullAckSeqNumber,
)
    requires
        pre.receiver.wf(),
        pre.receiver.state == ReceiverState::Open,
        ack2_event(pre, post, now, seq_num),
        !absent(pre.receiver.arq.acks().entries(), seq_num),
    ensures
        post.stats == (SocketStatistics { rx_ack2: sat_add(pre.stats.rx_ack2, 1), ..pre.stats }),
        post.timers == pre.timers,
        post.output == pre.output,
        absent(post.receiver.arq.acks().entries(), seq_num),
        ({
            let entries = pre.receiver.arq.acks().entries();
            let sample = clamp_micros(now@ - entries[position(entries, seq_num)].sent_at@);
            let old_mean = pre.receiver.arq.rtt().mean@;
            let mean = post.receiver.arq.rtt().mean@;
            let apart = if old_mean >= sample {
                old_mean - sample
            } else {
                sample - old_mean
            };
            &&& mean == (7 * old_mean + sample) / 8
            &&& post.receiver.arq.rtt().variance@ == (3 * pre.receiver.arq.rtt().variance@ + apart)
                / 4
            &&& 0 <= mean
            &&& 0 <= post.receiver.arq.rtt().variance@
            &&& sample >= old_mean ==> old_mean <= mean <= sample && mean - old_mean == (sample
                - old_mean) / 8
            &&& sample < old_mean ==> sample <= mean < old_mean && old_mean - mean == (old_mean
                - sample + 7) / 8
        }),
{
    let r = choose|r: Option<Duration>| #[trigger] ack2_counted(pre, post, now, seq_num, r);
    AutomaticRepeatRequestAlgorithm::lemma_ack2_outcome(
        pre.receiver.arq,
        post.receiver.arq,
        now,
        seq_num,
        r,
    );
}

/// What a drop request leaves behind in an open receiver. The low-water mark does not
/// move backward. The slots of the numbers from `first` through `last` that lay at or
/// after the mark are empty, and no slot stands for a number before the new mark. A
/// request whose last number lies before the mark moves nothing and counts nothing.
pub proof fn lemma_drop_request_gives_up(
    pre: ContextState,
    post: ContextState,
    first: SeqNumber,
    last: SeqNumber,
)
    requires
        pre.receiver.wf(),
        pre.receiver.state == ReceiverState::Open,
        drop_event(pre, post, first, last),
    ensures
        post.receiver.wf(),
        circle_distance(
            pre.receiver.arq.buffer().next_release(),
            post.receiver.arq.buffer().next_release(),
        ) >= 0,
        forall|s: int|
            on_circle(s) && 0 <= circle_distance(pre.receiver.arq.buffer().next_release(), s)
                && circle_distance(pre.receiver.arq.buffer().next_release(), first@)
                <= circle_distance(pre.receiver.arq.buffer().next_release(), s) < circle_distance(
                pre.receiver.arq.buffer().next_release(),
                circle_add(last@, 1),
            ) ==> #[trigger] post.receiver.arq.buffer().slot_at(s) is Empty,
        forall|s: int|
            circle_distance(post.receiver.arq.buffer().next_release(), s) < 0
                ==> #[trigger] post.receiver.arq.buffer().slot_at(s) is Empty,
        circle_distance(pre.receiver.arq.buffer().next_release(), circle_add(last@, 1)) <= 0 ==> {
            &&& post.stats == pre.stats
            &&& post.receiver.arq.buffer().next_release()
                == pre.receiver.arq.buffer().next_release()
            &&& post.receiver.arq.buffer().window() == pre.receiver.arq.buffer().window()
            &&& post.receiver.arq.buffer().span() == pre.receiver.arq.buffer().span()
            &&& post.receiver.arq.loss().ranges() == pre.receiver.arq.loss().ranges()
        },
{
    let (end, dropped) = choose|end: SeqNumber, dropped: usize| #[trigger]
        drop_counted(pre, post, first, last, end, dropped);
    AutomaticRepeatRequestAlgorithm::lemma_drop_request_gives_up(
        pre.receiver.arq,
        post.receiver.arq,
        first,
        end,
        dropped,
    );
}

/// What `handle_key_refresh_request` makes of the state `pre`: new keys are taken and
/// answered; a duplicate and a message that is refused have no effect.
pub open spec fn key_refresh_event(
    pre: ContextState,
    post: ContextState,
    now: Instant,
    material: KeyingMaterialMessage,
) -> bool {
    if pre.receiver.state != ReceiverState::Open {
        post == pre
    } else {
        exists|r: Result<Option<KeyingMaterialMessage>, KeyMaterialError>|
            {
                &&& #[trigger] Decryption::material_taken(
                    pre.receiver.decryption,
                    post.receiver.decryption,
                    material,
                    r,
                )
                &&& post.receiver.arq == pre.receiver.arq
                &&& post.receiver.state == pre.receiver.state
                &&& post.timers == pre.timers
                &&& post.stats == pre.stats
                &&& post.output == match r {
                    Ok(Some(response)) => pre.output.push(
                        (now@, ControlView::KeyRefreshResponse(response@)),
                    ),
                    _ => pre.output,
                }
            }
    }
}

/// What `on_full_ack_event` makes of the state `pre`: an open or draining receiver
/// sends the full acknowledgement that is due, if one is.
pub open spec fn full_ack_event(pre: ContextState, post: ContextState, now: Instant) -> bool {
    if pre.receiver.state == ReceiverState::Closed {
        post == pre
    } else {
        exists|r: Option<FullAcknowledgement>|
            {
                &&& #[trigger] AutomaticRepeatRequestAlgorithm::full_ack_made(
                    pre.receiver.arq,
                    post.receiver.arq,
                    now,
                    r,
                )
                &&& post.receiver.decryption == pre.receiver.decryption
                &&& post.receiver.state == pre.receiver.state
                &&& post.timers == pre.timers
                &&& post.stats == pre.stats
                &&& post.output == match r {
                    Some(ack) => pre.output.push(
                        (now@, ControlView::Ack(Acknowledgement::Full(ack))),
                    ),
                    None => pre.output,
                }
            }
    }
}

/// What `on_nak_event` makes of the state `pre`: an open receiver reports the losses
/// that are due, if there are any.
pub open spec fn nak_event(pre: ContextState, post: ContextState, now: Instant) -> bool {
    if pre.receiver.state != ReceiverState::Open {
        post == pre
    } else {
        exists|r: Option<CompressedLossList>|
            {
                &&& #[trigger] AutomaticRepeatRequestAlgorithm::nak_made(
                    pre.receiver.arq,
                    post.receiver.arq,
                    now,
                    r,
                )
                &&& post.receiver.decryption == pre.receiver.decryption
                &&& post.receiver.state == pre.receiver.state
                &&& post.timers == pre.timers
                &&& post.stats == pre.stats
                &&& post.output == match r {
                    Some(list) => pre.output.push((now@, ControlView::Nak(list@))),
                    None => pre.output,
                }
            }
    }
}

/// What `on_close_timeout` makes of the state `pre`: the receiver lets go of everything
/// and is closed.
pub open spec fn close_event(pre: ContextState, post: ContextState) -> bool {
    &&& AutomaticRepeatRequestAlgorithm::cleared(pre.receiver.arq, post.receiver.arq)
    &&& post.receiver.decryption == pre.receiver.decryption
    &&& post.receiver.state == ReceiverState::Closed
    &&& post.timers == pre.timers
    &&& post.stats == pre.stats
    &&& post.output == pre.output
}

/// The receiver of a connection together with the timers, the queue of control packets
/// and the counters that its events work on.
pub struct ReceiverContext<'a> {
    pub timers: &'a mut Timers,
    pub output: &'a mut Output,
    pub stats: &'a mut SocketStatistics,
    pub receiver: &'a mut Receiver,
}

impl<'a> ReceiverContext<'a> {
    /// What the context holds now.
    pub open spec fn state(&self) -> ContextState {
        ContextState {
            timers: *self.timers,
            output: self.output@,
            stats: *self.stats,
            receiver: *self.receiver,
        }
    }

    /// A context over the given parts.
    pub fn new(
        timers: &'a mut Timers,
        output: &'a mut Output,
        stats: &'a mut SocketStatistics,
        receiver: &'a mut Receiver,
    ) -> (r: Self)
        ensures
            *r.timers == *old(timers),
            *r.output == *old(output),
            *r.stats == *old(stats),
            *r.receiver == *old(receiver),
            *final(r.timers) == *final(timers),
            *final(r.output) == *final(output),
            *final(r.stats) == *final(stats),
            *final(r.receiver) == *final(receiver),
    {
        Self { timers, stats, output, receiver }
    }

    /// Takes the sample that a packet stamped `ts` arrived at `now`, and counts the
    /// adjustment of the clock where the sample led to one.
    pub fn synchronize_clock(&mut self, now: Instant, ts: TimeStamp)
        requires
            old(self).receiver.wf(),
        ensures
            final(self).receiver.wf(),
            clock_event(old(self).state(), final(self).state(), now, ts),
            *final(final(self).timers) == *final(old(self).timers),
            *final(final(self).output) == *final(old(self).output),
            *final(final(self).stats) == *final(old(self).stats),
            *final(final(self).receiver) == *final(old(self).receiver),
    {
        if self.receiver.state != ReceiverState::Open {
            return ;
        }
        let ghost before = self.receiver.arq;
        let adjustment = self.receiver.arq.synchronize_clock(now, ts);
        if adjustment.is_some() {
            self.stats.rx_clock_adjustments = add_count(self.stats.rx_clock_adjustments, 1);
        }
        proof {
            assert(AutomaticRepeatRequestAlgorithm::clock_synchronized(
                before,
                self.receiver.arq,
                now,
                ts,
                adjustment,
            ));
        }
    }

    /// Takes what the decryption made of a data packet of `bytes` bytes on the wire that
    /// arrived at `now`.
    ///
    /// A packet that could not be decrypted is counted as a decryption error. Any other
    /// goes to the loss recovery; what becomes of it there is counted, a loss that it
    /// shows is reported at once, and a light acknowledgement is sent where one is due.
    /// A receiver that is not open lets the packet pass without any effect.
    pub fn handle_decrypted_packet(
        &mut self,
        now: Instant,
        bytes: u64,
        decrypted: Result<(usize, DataPacket), DecryptionError>,
    )
        requires
            old(self).receiver.wf(),
        ensures
            final(self).receiver.wf(),
            decrypted_packet_event(old(self).state(), final(self).state(), now, bytes, decrypted),
            *final(final(self).timers) == *final(old(self).timers),
            *final(final(self).output) == *final(old(self).output),
            *final(final(self).stats) == *final(old(self).stats),
            *final(final(self).receiver) == *final(old(self).receiver),
    {
        if self.receiver.state != ReceiverState::Open {
            return ;
        }
        let ghost before = self.receiver.arq;
        let ghost queue = self.output@;
        match decrypted {
            Err(_) => {
                self.stats.rx_decrypt_errors = add_count(self.stats.rx_decrypt_errors, 1);
                self.stats.rx_decrypt_error_bytes =
                add_count(self.stats.rx_decrypt_error_bytes, bytes);
            },
            Ok((size, packet)) => {
                if size > 0 {
                    self.stats.rx_decrypted_data = add_count(self.stats.rx_decrypted_data, 1);
                }
                let result = self.receiver.arq.handle_data_packet(now, packet);
                let ghost witness = result;
                match result {
                    Ok(action) => {
                        if action.is_recovered() {
                            self.stats.rx_retransmit_data =
                            add_count(self.stats.rx_retransmit_data, 1);
                        } else {
                            self.stats.rx_unique_data = add_count(self.stats.rx_unique_data, 1);
                            self.stats.rx_unique_bytes =
                            add_count(self.stats.rx_unique_bytes, bytes);
                        }
                        match action {
                            DataPacketAction::ReceivedWithLoss(loss_list) => {
                                self.output.send_control(now, ControlTypes::Nak(loss_list));
                            },
                            DataPacketAction::ReceivedWithLightAck { light_ack, .. } => {
                                self.output.send_control(
                                    now,
                                    ControlTypes::Ack(Acknowledgement::Lite(light_ack)),
                                );
                            },
                            DataPacketAction::Received { .. } => {},
                        }
                    },
                    Err(error) => {
                        match error {
                            DataPacketError::BufferFull { .. }
                            | DataPacketError::PacketTooEarly { .. }
                            | DataPacketError::PacketTooLate { .. } => {
                                self.stats.rx_dropped_data =
                                add_count(self.stats.rx_dropped_data, 1);
                                self.stats.rx_dropped_bytes =
                                add_count(self.stats.rx_dropped_bytes, bytes);
                            },
                            DataPacketError::DecryptionError(_) => {
                                self.stats.rx_decrypt_errors =
                                add_count(self.stats.rx_decrypt_errors, 1);
                                self.stats.rx_decrypt_error_bytes =
                                add_count(self.stats.rx_decrypt_error_bytes, bytes);
                            },
                            DataPacketError::DiscardedDuplicate { .. } => {},
                        }
                    },
                }
                proof {
                    assert(AutomaticRepeatRequestAlgorithm::data_packet_handled(
                        before,
                        self.receiver.arq,
                        now,
                        packet,
                        witness,
                    ));
                    assert(self.output@ == output_after_packet(queue, now, witness));
                }
            },
        }
    }

    /// Takes a data packet that arrived at `now`: it is counted, decrypted, and handled
    /// as `handle_decrypted_packet` does. A receiver that is not open lets the packet
    /// pass without any effect.
    pub fn handle_data_packet(&mut self, now: Instant, data: DataPacket)
        requires
            old(self).receiver.wf(),
        ensures
            final(self).receiver.wf(),
            data_packet_event(old(self).state(), final(self).state(), now, data),
            *final(final(self).timers) == *final(old(self).timers),
            *final(final(self).output) == *final(old(self).output),
            *final(final(self).stats) == *final(old(self).stats),
            *final(final(self).receiver) == *final(old(self).receiver),
    {
        if self.receiver.state != ReceiverState::Open {
            return ;
        }
        let bytes: u64 = data.wire_size();
        self.stats.rx_data = add_count(self.stats.rx_data, 1);
        self.stats.rx_bytes = add_count(self.stats.rx_bytes, bytes);
        let ghost counted = self.state();
        let decrypted = self.receiver.decryption.decrypt(data);
        let ghost witness = decrypted;
        self.handle_decrypted_packet(now, bytes, decrypted);
        proof {
            assert(old(self).state().receiver.decryption.decrypted(data, witness));
            assert(counted == ContextState {
                stats: stats_after_arrival(old(self).state().stats, data.wire_bytes()),
                ..old(self).state()
            });
        }
    }

    /// Takes the confirmation of the full acknowledgement numbered `seq_num`, which
    /// arrived at `now`. A receiver that is not open lets it pass without any effect.
    pub fn handle_ack2_packet(&mut self, now: Instant, seq_num: FullAckSeqNumber)
        requires
            old(self).receiver.wf(),
        ensures
            final(self).receiver.wf(),
            ack2_event(old(self).state(), final(self).state(), now, seq_num),
            *final(final(self).timers) == *final(old(self).timers),
            *final(final(self).output) == *final(old(self).output),
            *final(final(self).stats) == *final(old(self).stats),
            *final(final(self).receiver) == *final(old(self).receiver),
    {
        if self.receiver.state != ReceiverState::Open {
            return ;
        }
        self.stats.rx_ack2 = add_count(self.stats.rx_ack2, 1);
        let rtt = self.receiver.arq.handle_ack2_packet(now, seq_num);
        if rtt.is_some() {
            self.stats.rx_ack2_errors = add_count(self.stats.rx_ack2_errors, 1);
        }
        proof {
            assert(ack2_counted(old(self).state(), self.state(), now, seq_num, rtt));
        }
    }

    /// Gives up the sequence numbers from `first` through `last`, which the sender will
    /// not send again. A receiver that is not open lets the request pass without any
    /// effect.
    pub fn handle_drop_request(&mut self, now: Instant, first: SeqNumber, last: SeqNumber)
        requires
            old(self).receiver.wf(),
        ensures
            final(self).receiver.wf(),
            drop_event(old(self).state(), final(self).state(), first, last),
            *final(final(self).timers) == *final(old(self).timers),
            *final(final(self).output) == *final(old(self).output),
            *final(final(self).stats) == *final(old(self).stats),
            *final(final(self).receiver) == *final(old(self).receiver),
    {
        if self.receiver.state != ReceiverState::Open {
            return ;
        }
        let end: SeqNumber = last.add(1);
        let dropped: usize = self.receiver.arq.handle_drop_request(now, first, end);
        if dropped > 0 {
            self.stats.rx_dropped_data = add_count(self.stats.rx_dropped_data, dropped as u64);
        }
        proof {
            assert(drop_counted(old(self).state(), self.state(), first, last, end, dropped));
        }
    }

    /// Takes a keying-material message of the peer, and answers it where it brought new
    /// keys. A receiver that is not open lets the message pass without any effect.
    pub fn handle_key_refresh_request(&mut self, now: Instant, keying_material: KeyingMaterialMessage)
        requires
            old(self).receiver.wf(),
        ensures
            final(self).receiver.wf(),
            key_refresh_event(old(self).state(), final(self).state(), now, keying_material),
            *final(final(self).timers) == *final(old(self).timers),
            *final(final(self).output) == *final(old(self).output),
            *final(final(self).stats) == *final(old(self).stats),
            *final(final(self).receiver) == *final(old(self).receiver),
    {
        if self.receiver.state != ReceiverState::Open {
            return ;
        }
        let ghost before = self.receiver.decryption;
        let result = self.receiver.decryption.refresh_key_material(keying_material);
        let ghost witness = result;
        match result {
            Ok(Some(response)) => {
                self.output.send_control(
                    now,
                    ControlTypes::Srt(SrtControlPacket::KeyRefreshResponse(response)),
                );
            },
            Ok(None) => {},
            Err(_) => {},
        }
        proof {
            assert(Decryption::material_taken(
                before,
                self.receiver.decryption,
                keying_material,
                witness,
            ));
        }
    }

    /// The full-acknowledgement timer fired at `now`: the full acknowledgement that is
    /// due is sent, if one is. A closed receiver does nothing.
    pub fn on_full_ack_event(&mut self, now: Instant)
        requires
            old(self).receiver.wf(),
        ensures
            final(self).receiver.wf(),
            full_ack_event(old(self).state(), final(self).state(), now),
            *final(final(self).timers) == *final(old(self).timers),
            *final(final(self).output) == *final(old(self).output),
            *final(final(self).stats) == *final(old(self).stats),
            *final(final(self).receiver) == *final(old(self).receiver),
    {
        if self.receiver.state == ReceiverState::Closed {
            return ;
        }
        let ghost before = self.receiver.arq;
        let made = self.receiver.arq.on_full_ack_event(now);
        if let Some(ack) = made {
            self.output.send_control(now, ControlTypes::Ack(Acknowledgement::Full(ack)));
        }
        proof {
            assert(AutomaticRepeatRequestAlgorithm::full_ack_made(
                before,
                self.receiver.arq,
                now,
                made,
            ));
        }
    }

    /// The report timer fired at `now`: the losses that are due are reported, if there
    /// are any. A receiver that is draining or closed reports nothing.
    pub fn on_nak_event(&mut self, now: Instant)
        requires
            old(self).receiver.wf(),
        ensures
            final(self).receiver.wf(),
            nak_event(old(self).state(), final(self).state(), now),
            *final(final(self).timers) == *final(old(self).timers),
            *final(final(self).output) == *final(old(self).output),
            *final(final(self).stats) == *final(old(self).stats),
            *final(final(self).receiver) == *final(old(self).receiver),
    {
        if self.receiver.state != ReceiverState::Open {
            return ;
        }
        let ghost before = self.receiver.arq;
        let made = self.receiver.arq.on_nak_event(now);
        let ghost witness = made;
        if let Some(loss_list) = made {
            self.output.send_control(now, ControlTypes::Nak(loss_list));
        }
        proof {
            assert(AutomaticRepeatRequestAlgorithm::nak_made(
                before,
                self.receiver.arq,
                now,
                witness,
            ));
        }
    }

    /// The connection timed out: the receiver lets go of everything that it holds and
    /// is closed.
    pub fn on_close_timeout(&mut self, now: Instant)
        requires
            old(self).receiver.wf(),
        ensures
            final(self).receiver.wf(),
            close_event(old(self).state(), final(self).state()),
            *final(final(self).timers) == *final(old(self).timers),
            *final(final(self).output) == *final(old(self).output),
            *final(final(self).stats) == *final(old(self).stats),
            *final(final(self).receiver) == *final(old(self).receiver),
    {
        self.receiver.arq.clear();
        self.receiver.state = ReceiverState::Closed;
    }
}

} // verus!
