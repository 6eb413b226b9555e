//! The receiver's loss recovery: it owns the receive buffer, the history of losses,
//! the history of acknowledgements and the clock, and keeps them in step.

use crate::ack_history::{
    absent, lemma_position, position, recorded, without, AckEntry, AckHistory, FullAckSeqNumber,
    DEFAULT_ACK_HISTORY_SIZE,
};
use crate::buffer::{
    acknowledged_time, arrival_stats, clamp, leading_empty, occupied_count, release_count,
    released_prefix, released_views, shifted, window_after_clear, window_after_insert,
    ArrivalStats, ArrivalSummary, ReceiveBuffer, Released, SlotView, MAX_CAPACITY,
};
use crate::clock::{Clock, ClockAdjustment};
use crate::history::{due_ranges, LossHistory};
use crate::loss_list::{lemma_offsets_make_range, range_values, CompressedLossList, SeqRange};
use crate::loss_ranges::{
    advance, contains, cut, in_range, insert_range, lemma_cut_below, range_valid, refresh,
    LossRange,
};
use crate::packet::{DataPacket, FullAcknowledgement};
use crate::receiver::{DataPacketAction, DataPacketError};
use crate::rtt::{
    lemma_mean_follows_sample, lemma_variance_bounds, smoothed_mean, smoothed_variance, Rtt,
};
use crate::seq_number::{
    circle_add, circle_distance, lemma_distance_after_step, lemma_distance_of_add,
    lemma_distance_zero, on_circle, SeqNumber,
};
use crate::time::{clamp_micros, Duration, Instant, TimeStamp};
use vstd::prelude::*;

verus! {

/// Accepted packets after which a light acknowledgement is due.
pub const DEFAULT_LIGHT_ACK_THRESHOLD: u32 = 64;

/// `v` held to 32 bits.
pub open spec fn clamp_u32(v: int) -> int {
    if v > 0xFFFF_FFFF {
        0xFFFF_FFFF
    } else if v < 0 {
        0
    } else {
        v
    }
}

/// Packets per second at which the packets of a buffer arrived: those after the first,
/// over the time from the earliest arrival to the latest. Zero for fewer than two
/// packets, or where no time passed between them.
pub open spec fn receive_rate(stats: ArrivalStats) -> int {
    if stats.packets >= 2 && stats.latest > stats.earliest {
        clamp_u32((stats.packets - 1) * 1_000_000 / (stats.latest - stats.earliest))
    } else {
        0
    }
}

/// Packets per second that the link is estimated to carry: one packet in the shortest
/// time by which a packet followed its neighbour. Zero where no packet did.
pub open spec fn link_bandwidth(stats: ArrivalStats) -> int {
    if stats.shortest_gap > 0 {
        1_000_000int / stats.shortest_gap
    } else {
        0
    }
}

fn compute_receive_rate(summary: &ArrivalSummary) -> (r: u32)
    ensures
        r == receive_rate(summary@),
{
    if summary.packets >= 2 && summary.latest.micros > summary.earliest.micros {
        let over: u128 = (summary.latest.micros - summary.earliest.micros) as u128;
        let rate: u128 = (summary.packets as u128 - 1) * 1_000_000 / over;
        if rate > u32::MAX as u128 {
            u32::MAX
        } else {
            rate as u32
        }
    } else {
        0
    }
}

fn compute_link_bandwidth(summary: &ArrivalSummary) -> (r: u32)
    ensures
        r == link_bandwidth(summary@),
{
    if summary.shortest_gap.micros > 0 {
        let rate: u64 = 1_000_000 / summary.shortest_gap.micros;
        assert(rate <= 1_000_000) by (nonlinear_arith)
            requires
                rate == 1_000_000int / summary.shortest_gap.micros as int,
                summary.shortest_gap.micros > 0,
        ;
        rate as u32
    } else {
        0
    }
}

/// The state of loss recovery on the receiving side of one connection.
#[derive(Debug)]
pub struct AutomaticRepeatRequestAlgorithm {
    buffer: ReceiveBuffer,
    loss: LossHistory,
    acks: AckHistory,
    clock: Clock,
    rtt: Rtt,
    unacked_count: u32,
    light_ack_threshold: u32,
    full_ack_counter: u32,
    last_full_acked: SeqNumber,
    last_ack2: Option<FullAckSeqNumber>,
}

impl AutomaticRepeatRequestAlgorithm {
    pub closed spec fn buffer(&self) -> ReceiveBuffer {
        self.buffer
    }

    pub closed spec fn loss(&self) -> LossHistory {
        self.loss
    }

    pub closed spec fn acks(&self) -> AckHistory {
        self.acks
    }

    pub closed spec fn clock(&self) -> Clock {
        self.clock
    }

    pub closed spec fn rtt(&self) -> Rtt {
        self.rtt
    }

    /// Packets accepted since the last light acknowledgement.
    pub closed spec fn unacked(&self) -> int {
        self.unacked_count as int
    }

    pub closed spec fn light_ack_threshold(&self) -> int {
        self.light_ack_threshold as int
    }

    /// The number of the last full acknowledgement.
    pub closed spec fn ack_counter(&self) -> int {
        self.full_ack_counter as int
    }

    /// The sequence number up to which the last full acknowledgement acknowledged.
    pub closed spec fn last_full_acked(&self) -> int {
        self.last_full_acked@
    }

    /// The number of the full acknowledgement that was confirmed last.
    pub closed spec fn last_ack2(&self) -> Option<FullAckSeqNumber> {
        self.last_ack2
    }

    /// The history of losses holds exactly the numbers whose slots are marked missing.
    pub open spec fn loss_matches_buffer(&self) -> bool {
        &&& self.loss().base() == self.buffer().next_release()
        &&& forall|x: int| #[trigger]
            contains(self.loss().ranges(), x) <==> 0 <= x < self.buffer().cap()
                && self.buffer().window()[x] is Missing
    }

    /// The parts are in order each, and the history of losses agrees with the buffer.
    /// The window starts with a slot that holds a packet or waits for one, unless it
    /// holds nothing at all; the counts are counts of 32 bits.
    pub open spec fn wf(&self) -> bool {
        &&& self.buffer().wf()
        &&& self.loss().wf()
        &&& self.acks().wf()
        &&& self.clock().wf()
        &&& self.loss_matches_buffer()
        &&& self.buffer().span() == 0 || !(self.buffer().window()[0] is Empty)
        &&& 0 <= self.unacked() <= u32::MAX
        &&& 0 <= self.light_ack_threshold() <= u32::MAX
        &&& 0 <= self.ack_counter() <= u32::MAX
    }

    /// The first sequence number that is not acknowledged.
    pub open spec fn next_expected(&self) -> int {
        circle_add(self.buffer().next_release(), self.buffer().expected())
    }

    /// The runs of the history of losses are pairwise disjoint, and each lies in the
    /// window between the low-water mark and the high-water mark.
    pub proof fn lemma_losses_in_window(&self, i: int, j: int)
        requires
            self.wf(),
            0 <= i < self.loss().ranges().len(),
            0 <= j < self.loss().ranges().len(),
            i != j,
        ensures
            0 <= self.loss().ranges()[i].lo <= self.loss().ranges()[i].hi < self.buffer().span(),
            self.loss().ranges()[i].hi < self.loss().ranges()[j].lo || self.loss().ranges()[j].hi
                < self.loss().ranges()[i].lo,
    {
        let rs = self.loss().ranges();
        assert(range_valid(rs[i]));
        assert(in_range(rs[i], rs[i].hi));
        assert(contains(rs, rs[i].hi));
        if i < j {
            assert(rs[i].hi + 1 < rs[j].lo);
        } else {
            assert(rs[j].hi + 1 < rs[i].lo);
        }
    }

    /// Every sequence number of the history of losses lies at or after the low-water
    /// mark and at or before the high-water mark.
    pub proof fn lemma_loss_between_marks(&self, seq: int)
        requires
            self.wf(),
            self.loss().contains_seq(seq),
        ensures
            0 <= circle_distance(self.buffer().next_release(), seq) < self.buffer().span(),
            self.buffer().slot_at(seq) is Missing,
    {
    }

    /// Whether `r` is the state at the start of a connection: an empty buffer of
    /// `recv_buffer_size` slots, or of as many as a buffer may have, no losses, no
    /// acknowledgements, and a clock whose epoch is `socket_start_time` until the first
    /// packet sets it.
    pub open spec fn is_new(
        r: Self,
        socket_start_time: Instant,
        tsbpd_latency: Duration,
        init_seq: SeqNumber,
        recv_buffer_size: usize,
    ) -> bool {
        &&& r.wf()
        &&& r.buffer().next_release() == init_seq@
        &&& r.buffer().span() == 0
        &&& r.buffer().grace() == 0
        &&& r.buffer().cap() == if recv_buffer_size <= MAX_CAPACITY {
            recv_buffer_size as int
        } else {
            MAX_CAPACITY as int
        }
        &&& forall|i: int| 0 <= i < r.buffer().cap() ==> #[trigger] r.buffer().window()[i] is Empty
        &&& r.loss().ranges() == Seq::<LossRange>::empty()
        &&& r.loss().nak_interval() == crate::history::DEFAULT_NAK_INTERVAL_MICROS
        &&& r.acks().entries() == Seq::<AckEntry>::empty()
        &&& r.acks().capacity() == DEFAULT_ACK_HISTORY_SIZE
        &&& r.clock().epoch() == socket_start_time@
        &&& r.clock().latency() == tsbpd_latency@
        &&& !r.clock().is_synchronized()
        &&& r.clock().tolerance() == crate::clock::DEFAULT_DRIFT_TOLERANCE_MICROS
        &&& r.clock().divisor() == crate::clock::DEFAULT_DRIFT_DIVISOR
        &&& r.rtt().mean@ == crate::rtt::INITIAL_RTT_MICROS
        &&& r.rtt().variance@ == crate::rtt::INITIAL_RTT_VARIANCE_MICROS
        &&& r.unacked() == 0
        &&& r.light_ack_threshold() == DEFAULT_LIGHT_ACK_THRESHOLD
        &&& r.ack_counter() == 0
        &&& r.last_full_acked() == init_seq@
        &&& r.last_ack2().is_none()
    }

    /// The state at the start of a connection whose first sequence number is `init_seq`.
    pub fn new(
        socket_start_time: Instant,
        tsbpd_latency: Duration,
        init_seq: SeqNumber,
        recv_buffer_size: usize,
    ) -> (r: AutomaticRepeatRequestAlgorithm)
        ensures
            Self::is_new(r, socket_start_time, tsbpd_latency, init_seq, recv_buffer_size),
    {
        let r = AutomaticRepeatRequestAlgorithm {
            buffer: ReceiveBuffer::new(init_seq, recv_buffer_size),
            loss: LossHistory::new(init_seq),
            acks: AckHistory::new(DEFAULT_ACK_HISTORY_SIZE),
            clock: Clock::new(socket_start_time, tsbpd_latency),
            rtt: Rtt::new(),
            unacked_count: 0,
            light_ack_threshold: DEFAULT_LIGHT_ACK_THRESHOLD,
            full_ack_counter: 0,
            last_full_acked: init_seq,
            last_ack2: None,
        };
        proof {
            assert forall|x: int| #[trigger]
                contains(r.loss().ranges(), x) <==> 0 <= x < r.buffer().cap()
                    && r.buffer().window()[x] is Missing by {
                if 0 <= x < r.buffer().cap() {
                    assert(r.buffer().window()[x] is Empty);
                }
            }
        }
        r
    }

    /// What `handle_data_packet` makes of the state `before`: the state `after` and the result.
    pub open spec fn data_packet_handled(before: Self, after: Self, now: Instant, packet: DataPacket, r: Result<DataPacketAction, DataPacketError>) -> bool {
        &&& after.wf()
        &&& after.clock() == before.clock()
        &&& after.acks() == before.acks()
        &&& after.rtt() == before.rtt()
        &&& after.light_ack_threshold() == before.light_ack_threshold()
        &&& after.ack_counter() == before.ack_counter()
        &&& after.last_full_acked() == before.last_full_acked()
        &&& after.last_ack2() == before.last_ack2()
        &&& after.loss().nak_interval() == before.loss().nak_interval()
        &&& after.buffer().next_release() == before.buffer().next_release()
        &&& after.buffer().cap() == before.buffer().cap()
        &&& after.buffer().grace() == before.buffer().grace()
        &&& ({
            let low = before.buffer().next_release();
            let d = circle_distance(low, packet.seq_number@);
            let cap = before.buffer().cap();
            let window = before.buffer().window();
            let span = before.buffer().span();
            let release = before.clock().release_time(packet.timestamp@);
            match r {
                Err(DataPacketError::PacketTooLate { seq_number, seq_number_0 }) => {
                    &&& d < 0
                    &&& seq_number == packet.seq_number
                    &&& seq_number_0@ == low
                    &&& after == before
                },
                Err(DataPacketError::BufferFull { seq_number, buffer_size }) => {
                    &&& d == cap
                    &&& cap > 0
                    &&& window[0] is Filled
                    &&& seq_number == packet.seq_number
                    &&& buffer_size == cap
                    &&& after == before
                },
                Err(
                    DataPacketError::PacketTooEarly {
                        seq_number,
                        buffer_available,
                        buffer_required,
                    },
                ) => {
                    &&& d >= cap
                    &&& !(d == cap && cap > 0 && window[0] is Filled)
                    &&& seq_number == packet.seq_number
                    &&& buffer_available == cap - span
                    &&& buffer_required == d - cap + 1
                    &&& after == before
                },
                Err(DataPacketError::DiscardedDuplicate { seq_number }) => {
                    &&& 0 <= d < cap
                    &&& window[d] is Filled
                    &&& seq_number == packet.seq_number
                    &&& after == before
                },
                Err(DataPacketError::DecryptionError(_)) => false,
                Ok(action) => {
                    &&& 0 <= d < cap
                    &&& !(window[d] is Filled)
                    &&& after.buffer().window() == window_after_insert(
                        window,
                        span,
                        d,
                        SlotView::Filled {
                            payload: packet.payload@,
                            arrival: now@,
                            release_at: release,
                        },
                        release,
                    )
                    &&& after.buffer().span() == if d >= span {
                        d + 1
                    } else {
                        span
                    }
                    &&& after.loss().ranges() == if d > span {
                        insert_range(
                            before.loss().ranges(),
                            LossRange {
                                lo: span,
                                hi: d - 1,
                                first_feedback: now@,
                                next_feedback: clamp_micros(
                                    now@ + before.loss().nak_interval(),
                                ),
                            },
                        )
                    } else if window[d] is Missing {
                        cut(before.loss().ranges(), d, d)
                    } else {
                        before.loss().ranges()
                    }
                    &&& match action {
                        DataPacketAction::ReceivedWithLoss(list) => {
                            &&& d > span
                            &&& list@ == seq![(circle_add(low, span), circle_add(low, d - 1))]
                            &&& after.unacked() == clamp_u32(before.unacked() + 1)
                        },
                        DataPacketAction::ReceivedWithLightAck { light_ack, recovered } => {
                            &&& d <= span
                            &&& before.unacked() + 1 >= before.light_ack_threshold()
                            &&& after.unacked() == 0
                            &&& light_ack@ == after.next_expected()
                            &&& recovered == (window[d] is Missing)
                        },
                        DataPacketAction::Received { lrsn, recovered } => {
                            &&& d <= span
                            &&& before.unacked() + 1 < before.light_ack_threshold()
                            &&& after.unacked() == before.unacked() + 1
                            &&& lrsn@ == after.next_expected()
                            &&& recovered == (window[d] is Missing)
                        },
                    }
                },
            }
        })
    }

    /// Takes a data packet that arrived at `now`.
    ///
    /// The buffer decides whether the packet is accepted; its refusals come back variant
    /// for variant and leave everything as it was. An accepted packet that lies beyond
    /// the high-water mark adds the numbers in between to the history of losses and is
    /// answered with their list. Any other accepted packet leaves the history of losses,
    /// if its number was in it, and is answered with the first number that is not
    /// acknowledged: as a light acknowledgement where the threshold of accepted packets
    /// is reached, which starts the count again.
    pub fn handle_data_packet(&mut self, now: Instant, packet: DataPacket) -> (r: Result<
        DataPacketAction,
        DataPacketError,
    >)
        requires
            old(self).wf(),
        ensures
            Self::data_packet_handled(*old(self), *final(self), now, packet, r),
    {
        let seq: SeqNumber = packet.seq_number;
        let clock: Clock = self.clock;
        let ghost low = self.buffer.next_release();
        let ghost d = circle_distance(low, seq@);
        let ghost span = self.buffer.span();
        let ghost window = self.buffer.window();
        let ghost losses = self.loss.ranges();
        proof {
            use_type_invariant(&seq);
        }
        match self.buffer.insert(&clock, seq, packet.payload, now, packet.timestamp) {
            Err(error) => Err(DataPacketError::from_buffer(error)),
            Ok(inserted) => {
                if self.unacked_count < u32::MAX {
                    self.unacked_count = self.unacked_count + 1;
                }
                match inserted.gap {
                    Some(range) => {
                        proof {
                            lemma_distance_of_add(low, span);
                            lemma_distance_of_add(low, d - 1);
                            lemma_offsets_make_range(low, span, d - 1);
                        }
                        self.loss.add_range(range.first, range.last, now);
                        let mut ranges: Vec<SeqRange> = Vec::new();
                        ranges.push(range);
                        proof {
                            assert(range_values(ranges@) =~= seq![range@]);
                            assert forall|x: int| #[trigger]
                                contains(self.loss.ranges(), x) <==> 0 <= x < self.buffer.cap()
                                    && self.buffer.window()[x] is Missing by {
                                assert(contains(losses, x) <==> 0 <= x < self.buffer.cap()
                                    && window[x] is Missing);
                            }
                        }
                        let list = CompressedLossList::from_ranges(ranges).unwrap();
                        Ok(DataPacketAction::ReceivedWithLoss(list))
                    },
                    None => {
                        if inserted.recovered {
                            self.loss.remove(seq);
                        }
                        proof {
                            assert forall|x: int| #[trigger]
                                contains(self.loss.ranges(), x) <==> 0 <= x < self.buffer.cap()
                                    && self.buffer.window()[x] is Missing by {
                                assert(contains(losses, x) <==> 0 <= x < self.buffer.cap()
                                    && window[x] is Missing);
                            }
                        }
                        let lrsn: SeqNumber = self.buffer.next_expected_seq();
                        if self.unacked_count >= self.light_ack_threshold {
                            self.unacked_count = 0;
                            Ok(
                                DataPacketAction::ReceivedWithLightAck {
                                    light_ack: lrsn,
                                    recovered: inserted.recovered,
                                },
                            )
                        } else {
                            Ok(DataPacketAction::Received { lrsn, recovered: inserted.recovered })
                        }
                    },
                }
            },
        }
    }

    /// What `pop_ready` makes of the state `before`: the state `after` and the packets
    /// that are handed out.
    pub open spec fn released(before: Self, after: Self, now: Instant, out: Vec<Released>) -> bool {
        &&& after.wf()
        &&& after.clock() == before.clock()
        &&& after.acks() == before.acks()
        &&& after.rtt() == before.rtt()
        &&& after.unacked() == before.unacked()
        &&& after.light_ack_threshold() == before.light_ack_threshold()
        &&& after.ack_counter() == before.ack_counter()
        &&& after.last_full_acked() == before.last_full_acked()
        &&& after.last_ack2() == before.last_ack2()
        &&& after.loss().nak_interval() == before.loss().nak_interval()
        &&& after.buffer().cap() == before.buffer().cap()
        &&& after.buffer().grace() == before.buffer().grace()
        &&& ({
            let k = before.buffer().span() - after.buffer().span();
            &&& release_count(
                before.buffer().window(),
                before.buffer().span(),
                now@,
                before.buffer().grace(),
                k,
            )
            &&& after.buffer().next_release() == circle_add(
                before.buffer().next_release(),
                k,
            )
            &&& circle_distance(
                before.buffer().next_release(),
                after.buffer().next_release(),
            ) == k
            &&& after.buffer().window() == shifted(before.buffer().window(), k)
            &&& released_views(out@) == released_prefix(
                before.buffer().window(),
                before.buffer().next_release(),
                k,
            )
            &&& after.loss().ranges() == if k > 0 {
                advance(before.loss().ranges(), k)
            } else {
                before.loss().ranges()
            }
        })
        &&& forall|i: int| 0 <= i < out@.len() ==> (#[trigger] out@[i]).release_at@ <= now@
    }

    /// Releases what is due at `now`, as the buffer does, and takes the numbers that the
    /// low-water mark passed out of the history of losses.
    pub fn pop_ready(&mut self, now: Instant) -> (out: Vec<Released>)
        requires
            old(self).wf(),
        ensures
            Self::released(*old(self), *final(self), now, out),
    {
        let ghost window = self.buffer.window();
        let ghost losses = self.loss.ranges();
        let before: SeqNumber = self.buffer.next_release_seq();
        let out = self.buffer.pop_ready(now);
        let passed: i32 = before.distance(self.buffer.next_release_seq());
        self.loss.advance_base(passed as u32);
        proof {
            assert forall|x: int| #[trigger]
                contains(self.loss.ranges(), x) <==> 0 <= x < self.buffer.cap()
                    && self.buffer.window()[x] is Missing by {
                assert(contains(losses, x + passed) <==> 0 <= x + passed < self.buffer.cap()
                    && window[x + passed] is Missing);
            }
        }
        out
    }

    /// What `handle_drop_request` makes of the state `before`: the state `after` and the
    /// number of slots that were given up.
    pub open spec fn drop_request_handled(before: Self, after: Self, first: SeqNumber, end: SeqNumber, dropped: usize) -> bool {
        &&& after.wf()
        &&& after.clock() == before.clock()
        &&& after.acks() == before.acks()
        &&& after.rtt() == before.rtt()
        &&& after.unacked() == before.unacked()
        &&& after.light_ack_threshold() == before.light_ack_threshold()
        &&& after.ack_counter() == before.ack_counter()
        &&& after.last_full_acked() == before.last_full_acked()
        &&& after.last_ack2() == before.last_ack2()
        &&& after.loss().nak_interval() == before.loss().nak_interval()
        &&& after.buffer().cap() == before.buffer().cap()
        &&& after.buffer().grace() == before.buffer().grace()
        &&& ({
            let low = before.buffer().next_release();
            let a = circle_distance(low, first@);
            let b = circle_distance(low, end@);
            let lo = clamp(a, 0, before.buffer().cap());
            let hi = clamp(b, 0, before.buffer().cap());
            let cleared = window_after_clear(before.buffer().window(), lo, hi);
            let k = before.buffer().span() - after.buffer().span();
            let kept = if a < b {
                cut(before.loss().ranges(), a, b - 1)
            } else {
                before.loss().ranges()
            };
            &&& dropped == occupied_count(before.buffer().window(), lo, hi)
            &&& leading_empty(cleared, before.buffer().span(), k)
            &&& after.buffer().window() == shifted(cleared, k)
            &&& after.buffer().next_release() == circle_add(low, k)
            &&& circle_distance(low, after.buffer().next_release()) == k
            &&& after.loss().ranges() == if k > 0 {
                advance(kept, k)
            } else {
                kept
            }
        })
    }

    /// Gives up the sequence numbers from `first` to just before `end`, which the sender
    /// will not send again: the buffer empties their slots and moves the low-water mark
    /// past the empty slots at its front, and the numbers leave the history of losses.
    /// Hands back how many of the slots held a packet or were marked missing.
    pub fn handle_drop_request(&mut self, now: Instant, first: SeqNumber, end: SeqNumber) -> (dropped:
        usize)
        requires
            old(self).wf(),
        ensures
            Self::drop_request_handled(*old(self), *final(self), first, end, dropped),
    {
        let ghost window = self.buffer.window();
        let ghost losses = self.loss.ranges();
        let ghost cap = self.buffer.cap();
        let before: SeqNumber = self.buffer.next_release_seq();
        let ghost a = circle_distance(before@, first@);
        let ghost b = circle_distance(before@, end@);
        let dropped = self.buffer.drop_range(first, end);
        self.loss.remove_range(first, end);
        let ghost kept = self.loss.ranges();
        let ghost cleared = window_after_clear(window, clamp(a, 0, cap), clamp(b, 0, cap));
        proof {
            lemma_distance_of_add(before@, window.len() - self.buffer.span());
            lemma_distance_of_add(before@, (old(self).buffer().span() - self.buffer.span()));
            assert forall|y: int| #[trigger]
                contains(kept, y) <==> 0 <= y < cap && cleared[y] is Missing by {
                assert(contains(losses, y) <==> 0 <= y < cap && window[y] is Missing);
            }
        }
        let passed: i32 = before.distance(self.buffer.next_release_seq());
        self.loss.advance_base(passed as u32);
        proof {
            assert forall|x: int| #[trigger]
                contains(self.loss.ranges(), x) <==> 0 <= x < self.buffer.cap()
                    && self.buffer.window()[x] is Missing by {
                assert(contains(kept, x + passed) <==> 0 <= x + passed < cap && cleared[x
                    + passed] is Missing);
            }
        }
        dropped
    }

    /// What `on_full_ack_event` makes of the state `before`: the state `after` and the result.
    pub open spec fn full_ack_made(before: Self, after: Self, now: Instant, r: Option<FullAcknowledgement>) -> bool {
        &&& after.wf()
        &&& after.buffer() == before.buffer()
        &&& after.loss() == before.loss()
        &&& after.clock() == before.clock()
        &&& after.rtt() == before.rtt()
        &&& after.unacked() == before.unacked()
        &&& after.light_ack_threshold() == before.light_ack_threshold()
        &&& after.last_ack2() == before.last_ack2()
        &&& before.next_expected() == before.last_full_acked() ==> r.is_none() && after == before
        &&& before.next_expected() != before.last_full_acked() ==> ({
            let number = FullAckSeqNumber(
                if before.ack_counter() == u32::MAX {
                    0u32
                } else {
                    (before.ack_counter() + 1) as u32
                },
            );
            let stats = arrival_stats(before.buffer().window(), before.buffer().span());
            &&& r.is_some()
            &&& r.unwrap().ack_seq_no == number
            &&& r.unwrap().acked_up_to@ == before.next_expected()
            &&& r.unwrap().rtt_mean == before.rtt().mean
            &&& r.unwrap().rtt_variance == before.rtt().variance
            &&& r.unwrap().available_buffer_size == clamp_u32(
                before.buffer().cap() - before.buffer().span(),
            )
            &&& r.unwrap().pkt_recv_rate == receive_rate(stats)
            &&& r.unwrap().estimated_link_bandwidth == link_bandwidth(stats)
            &&& after.ack_counter() == number.0
            &&& after.last_full_acked() == before.next_expected()
            &&& after.acks().capacity() == before.acks().capacity()
            &&& after.acks().entries() == recorded(
                before.acks().entries(),
                before.acks().capacity(),
                AckEntry {
                    full_ack_seq: number,
                    highest_acked: r.unwrap().acked_up_to,
                    sent_at: now,
                },
            )
        })
    }

    /// Makes the full acknowledgement that is due at `now`, if there is progress to
    /// acknowledge.
    ///
    /// Where the first number that is not acknowledged is the one that the last full
    /// acknowledgement carried, there is nothing to send and nothing changes. Otherwise
    /// the acknowledgement gets the next number of its kind, is recorded, and reports the
    /// round-trip time, the room in the buffer and the rates of arrival.
    pub fn on_full_ack_event(&mut self, now: Instant) -> (r: Option<FullAcknowledgement>)
        requires
            old(self).wf(),
        ensures
            Self::full_ack_made(*old(self), *final(self), now, r),
    {
        let acked_up_to: SeqNumber = self.buffer.next_expected_seq();
        proof {
            acked_up_to.lemma_view_injective(self.last_full_acked);
        }
        if acked_up_to == self.last_full_acked {
            return None;
        }
        let number = FullAckSeqNumber(self.full_ack_counter.wrapping_add(1));
        self.full_ack_counter = number.0;
        self.last_full_acked = acked_up_to;
        self.acks.record(number, acked_up_to, now);
        let summary = self.buffer.arrival_summary();
        let available: usize = self.buffer.available();
        Some(
            FullAcknowledgement {
                ack_seq_no: number,
                acked_up_to,
                rtt_mean: self.rtt.mean,
                rtt_variance: self.rtt.variance,
                available_buffer_size: if available > u32::MAX as usize {
                    u32::MAX
                } else {
                    available as u32
                },
                pkt_recv_rate: compute_receive_rate(&summary),
                estimated_link_bandwidth: compute_link_bandwidth(&summary),
            },
        )
    }

    /// What `handle_ack2_packet` makes of the state `before`: the state `after` and the result.
    pub open spec fn ack2_handled(before: Self, after: Self, now: Instant, full_ack_seq: FullAckSeqNumber, r: Option<Duration>) -> bool {
        &&& after.wf()
        &&& after.buffer() == before.buffer()
        &&& after.loss() == before.loss()
        &&& after.clock() == before.clock()
        &&& after.unacked() == before.unacked()
        &&& after.light_ack_threshold() == before.light_ack_threshold()
        &&& after.ack_counter() == before.ack_counter()
        &&& after.last_full_acked() == before.last_full_acked()
        &&& after.acks().capacity() == before.acks().capacity()
        &&& after.acks().entries() == without(before.acks().entries(), full_ack_seq)
        &&& absent(after.acks().entries(), full_ack_seq)
        &&& ({
            let entries = before.acks().entries();
            let at = position(entries, full_ack_seq);
            match r {
                Some(mean) => {
                    &&& absent(entries, full_ack_seq)
                    &&& mean == before.rtt().mean
                    &&& after.rtt() == before.rtt()
                    &&& after.last_ack2() == before.last_ack2()
                },
                None => {
                    let sample = clamp_micros(now@ - entries[at].sent_at@);
                    &&& 0 <= at < entries.len()
                    &&& entries[at].full_ack_seq == full_ack_seq
                    &&& after.rtt().mean@ == smoothed_mean(before.rtt().mean@, sample)
                    &&& after.rtt().variance@ == smoothed_variance(
                        before.rtt().variance@,
                        before.rtt().mean@,
                        sample,
                    )
                    &&& after.last_ack2() == Some(full_ack_seq)
                },
            }
        })
    }

    /// Takes the confirmation, which arrived at `now`, of the full acknowledgement
    /// numbered `full_ack_seq`.
    ///
    /// Where the history holds the acknowledgement, the time since it was sent is a
    /// sample of the round-trip time, the entry leaves the history, and nothing is handed
    /// back. Where it does not, the estimate stays as it is and its mean is handed back:
    /// a value tells the caller to count a confirmation that matched nothing.
    pub fn handle_ack2_packet(&mut self, now: Instant, full_ack_seq: FullAckSeqNumber) -> (r: Option<
        Duration,
    >)
        requires
            old(self).wf(),
        ensures
            Self::ack2_handled(*old(self), *final(self), now, full_ack_seq, r),
    {
        proof {
            crate::ack_history::lemma_without(self.acks.entries(), full_ack_seq);
        }
        match self.acks.lookup(full_ack_seq) {
            None => Some(self.rtt.mean),
            Some(sent_at) => {
                let sample: Duration = now.saturating_since(sent_at);
                self.rtt.update(sample);
                self.last_ack2 = Some(full_ack_seq);
                None
            },
        }
    }

    /// What `on_nak_event` makes of the state `before`: the state `after` and the result.
    pub open spec fn nak_made(before: Self, after: Self, now: Instant, r: Option<CompressedLossList>) -> bool {
        &&& after.wf()
        &&& after.buffer() == before.buffer()
        &&& after.acks() == before.acks()
        &&& after.clock() == before.clock()
        &&& after.rtt() == before.rtt()
        &&& after.unacked() == before.unacked()
        &&& after.light_ack_threshold() == before.light_ack_threshold()
        &&& after.ack_counter() == before.ack_counter()
        &&& after.last_full_acked() == before.last_full_acked()
        &&& after.last_ack2() == before.last_ack2()
        &&& after.loss().base() == before.loss().base()
        &&& after.loss().nak_interval() == before.loss().nak_interval()
        &&& after.loss().ranges() == refresh(
            before.loss().ranges(),
            now@,
            clamp_micros(
                now@ + if before.rtt().mean@ >= before.loss().nak_interval() {
                    before.rtt().mean@
                } else {
                    before.loss().nak_interval()
                },
            ),
        )
        &&& ({
            let reported = due_ranges(before.loss().ranges(), before.loss().base(), now@);
            match r {
                Some(list) => reported.len() > 0 && list@ == reported,
                None => reported.len() == 0,
            }
        })
    }

    /// The losses that are due for a report at `now`, if there are any. Each of them is
    /// due again after the round-trip time, or after the interval of the history of
    /// losses where that is longer.
    pub fn on_nak_event(&mut self, now: Instant) -> (r: Option<CompressedLossList>)
        requires
            old(self).wf(),
        ensures
            Self::nak_made(*old(self), *final(self), now, r),
    {
        let list = self.loss.due_for_nak(now, self.rtt.mean);
        if list.is_empty() {
            None
        } else {
            Some(list)
        }
    }

    /// What `synchronize_clock` makes of the state `before`: the state `after` and the result.
    pub open spec fn clock_synchronized(before: Self, after: Self, now: Instant, ts: TimeStamp, r: Option<ClockAdjustment>) -> bool {
        &&& after.wf()
        &&& after.buffer() == before.buffer()
        &&& after.loss() == before.loss()
        &&& after.acks() == before.acks()
        &&& after.rtt() == before.rtt()
        &&& after.unacked() == before.unacked()
        &&& after.light_ack_threshold() == before.light_ack_threshold()
        &&& after.ack_counter() == before.ack_counter()
        &&& after.last_full_acked() == before.last_full_acked()
        &&& after.last_ack2() == before.last_ack2()
        &&& crate::clock::synchronized(before.clock(), after.clock(), now@, ts@, r)
    }

    /// Takes the sample that a packet stamped `ts` arrived at `now`, as the clock does.
    pub fn synchronize_clock(&mut self, now: Instant, ts: TimeStamp) -> (r: Option<ClockAdjustment>)
        requires
            old(self).wf(),
        ensures
            Self::clock_synchronized(*old(self), *final(self), now, ts, r),
    {
        self.clock.synchronize(now, ts)
    }

    /// The time over which the acknowledged packets at the front of the buffer are to be
    /// released.
    pub fn rx_acknowledged_time(&self) -> (r: Duration)
        requires
            self.wf(),
        ensures
            r@ == acknowledged_time(self.buffer().window(), self.buffer().expected()),
    {
        self.buffer.rx_acknowledged_time()
    }

    /// Whether the buffer holds no packet.
    pub fn is_flushed(&self) -> (r: bool)
        requires
            self.wf(),
        ensures
            r == forall|i: int|
                0 <= i < self.buffer().cap() ==> !(#[trigger] self.buffer().window()[i] is Filled),
    {
        self.buffer.is_flushed()
    }

    /// What `clear` makes of the state `before`: the state `after`.
    pub open spec fn cleared(before: Self, after: Self) -> bool {
        &&& after.wf()
        &&& after.clock() == before.clock()
        &&& after.rtt() == before.rtt()
        &&& after.light_ack_threshold() == before.light_ack_threshold()
        &&& after.ack_counter() == before.ack_counter()
        &&& after.last_full_acked() == before.last_full_acked()
        &&& after.last_ack2() == before.last_ack2()
        &&& after.loss().nak_interval() == before.loss().nak_interval()
        &&& after.acks().capacity() == before.acks().capacity()
        &&& after.unacked() == 0
        &&& after.buffer().cap() == before.buffer().cap()
        &&& after.buffer().grace() == before.buffer().grace()
        &&& after.buffer().next_release() == before.buffer().next_release()
        &&& after.buffer().span() == 0
        &&& forall|i: int|
            0 <= i < after.buffer().cap() ==> #[trigger] after.buffer().window()[i] is Empty
        &&& after.loss().ranges() == Seq::<LossRange>::empty()
        &&& after.acks().entries() == Seq::<AckEntry>::empty()
    }

    /// Lets go of everything that is held: the buffer is emptied, and both histories
    /// forget what they hold. The low-water mark, the clock and the estimate of the
    /// round-trip time stay.
    pub fn clear(&mut self)
        requires
            old(self).wf(),
        ensures
            Self::cleared(*old(self), *final(self)),
    {
        self.buffer.clear();
        self.loss.clear();
        self.acks.clear();
        self.unacked_count = 0;
        proof {
            assert forall|x: int| #[trigger]
                contains(self.loss.ranges(), x) <==> 0 <= x < self.buffer.cap()
                    && self.buffer.window()[x] is Missing by {
                if 0 <= x < self.buffer.cap() {
                    assert(self.buffer.window()[x] is Empty);
                }
            }
        }
    }

    /// The next sequence number to release: the low-water mark.
    pub fn next_release_seq(&self) -> (r: SeqNumber)
        ensures
            r@ == self.buffer().next_release(),
    {
        self.buffer.next_release_seq()
    }

    /// The first sequence number that is not acknowledged.
    pub fn next_expected_seq(&self) -> (r: SeqNumber)
        requires
            self.wf(),
        ensures
            r@ == self.next_expected(),
    {
        self.buffer.next_expected_seq()
    }

    /// The highest sequence number that was received or is known to be missing: the
    /// high-water mark. Nothing while the window holds nothing.
    pub fn highest_received_seq(&self) -> (r: Option<SeqNumber>)
        requires
            self.wf(),
        ensures
            r.is_some() == (self.buffer().span() > 0),
            r matches Some(seq) ==> seq@ == circle_add(
                self.buffer().next_release(),
                self.buffer().span() - 1,
            ),
    {
        let beyond: usize = self.buffer.capacity() - self.buffer.available();
        if beyond == 0 {
            None
        } else {
            Some(self.buffer.next_release_seq().add((beyond - 1) as u32))
        }
    }

    /// The runs of sequence numbers that are recorded as missing, in order.
    pub fn missing_ranges(&self) -> (r: Vec<SeqRange>)
        requires
            self.wf(),
        ensures
            r@.len() == self.loss().ranges().len(),
            forall|i: int|
                0 <= i < r@.len() ==> (#[trigger] r@[i])@ == (
                    circle_add(self.loss().base(), self.loss().ranges()[i].lo),
                    circle_add(self.loss().base(), self.loss().ranges()[i].hi),
                ),
    {
        self.loss.seq_ranges()
    }

    /// The number of the full acknowledgement that was confirmed last.
    pub fn last_ack2_full_seq(&self) -> (r: Option<FullAckSeqNumber>)
        ensures
            r == self.last_ack2(),
    {
        self.last_ack2
    }

    /// The estimate of the round-trip time.
    pub fn rtt_estimate(&self) -> (r: Rtt)
        ensures
            r == self.rtt(),
    {
        self.rtt
    }

    /// Sets the number of accepted packets after which a light acknowledgement is due.
    pub fn set_light_ack_threshold(&mut self, threshold: u32)
        requires
            old(self).wf(),
        ensures
            final(self).wf(),
            final(self).light_ack_threshold() == threshold,
            final(self).buffer() == old(self).buffer(),
            final(self).loss() == old(self).loss(),
            final(self).acks() == old(self).acks(),
            final(self).clock() == old(self).clock(),
            final(self).rtt() == old(self).rtt(),
            final(self).unacked() == old(self).unacked(),
            final(self).ack_counter() == old(self).ack_counter(),
            final(self).last_full_acked() == old(self).last_full_acked(),
            final(self).last_ack2() == old(self).last_ack2(),
    {
        self.light_ack_threshold = threshold;
    }

    /// Sets how long after its deadline a missing packet is still waited for.
    pub fn set_drop_grace(&mut self, grace: Duration)
        requires
            old(self).wf(),
        ensures
            final(self).wf(),
            final(self).buffer().grace() == grace@,
            final(self).buffer().window() == old(self).buffer().window(),
            final(self).buffer().next_release() == old(self).buffer().next_release(),
            final(self).buffer().span() == old(self).buffer().span(),
            final(self).buffer().expected() == old(self).buffer().expected(),
            final(self).loss() == old(self).loss(),
            final(self).acks() == old(self).acks(),
            final(self).clock() == old(self).clock(),
            final(self).rtt() == old(self).rtt(),
            final(self).unacked() == old(self).unacked(),
            final(self).light_ack_threshold() == old(self).light_ack_threshold(),
            final(self).ack_counter() == old(self).ack_counter(),
            final(self).last_full_acked() == old(self).last_full_acked(),
            final(self).last_ack2() == old(self).last_ack2(),
    {
        self.buffer.set_drop_grace(grace);
    }

    /// Sets the drift that the clock tolerates and the part of a drift that one
    /// correction takes up; see `Clock::with_drift_policy`.
    pub fn set_drift_policy(&mut self, tolerance: Duration, divisor: u64)
        requires
            old(self).wf(),
        ensures
            final(self).wf(),
            final(self).clock().epoch() == old(self).clock().epoch(),
            final(self).clock().latency() == old(self).clock().latency(),
            final(self).clock().is_synchronized() == old(self).clock().is_synchronized(),
            final(self).clock().tolerance() == tolerance@,
            final(self).clock().divisor() == if divisor == 0 {
                1
            } else {
                divisor as int
            },
            final(self).buffer() == old(self).buffer(),
            final(self).loss() == old(self).loss(),
            final(self).acks() == old(self).acks(),
            final(self).rtt() == old(self).rtt(),
            final(self).unacked() == old(self).unacked(),
            final(self).light_ack_threshold() == old(self).light_ack_threshold(),
            final(self).ack_counter() == old(self).ack_counter(),
            final(self).last_full_acked() == old(self).last_full_acked(),
            final(self).last_ack2() == old(self).last_ack2(),
    {
        self.clock = self.clock.with_drift_policy(tolerance, divisor);
    }

    /// Whether one operation leads from the state `before` to the state `after`.
    pub open spec fn step(before: Self, after: Self) -> bool {
        ||| exists|now: Instant, packet: DataPacket, r: Result<DataPacketAction, DataPacketError>|
            Self::data_packet_handled(before, after, now, packet, r)
        ||| exists|now: Instant, out: Vec<Released>| Self::released(before, after, now, out)
        ||| exists|first: SeqNumber, end: SeqNumber, dropped: usize|
            Self::drop_request_handled(before, after, first, end, dropped)
        ||| exists|now: Instant, r: Option<FullAcknowledgement>|
            Self::full_ack_made(before, after, now, r)
        ||| exists|now: Instant, seq: FullAckSeqNumber, r: Option<Duration>|
            Self::ack2_handled(before, after, now, seq, r)
        ||| exists|now: Instant, r: Option<CompressedLossList>| Self::nak_made(before, after, now, r)
        ||| exists|now: Instant, ts: TimeStamp, r: Option<ClockAdjustment>|
            Self::clock_synchronized(before, after, now, ts, r)
        ||| Self::cleared(before, after)
    }

    /// No operation moves the low-water mark backward on the circle, and every
    /// operation leaves the state in order.
    pub proof fn lemma_low_water_never_retreats(before: Self, after: Self)
        requires
            before.wf(),
            Self::step(before, after),
        ensures
            after.wf(),
            circle_distance(before.buffer().next_release(), after.buffer().next_release()) >= 0,
    {
        lemma_distance_zero(before.buffer().next_release(), before.buffer().next_release());
    }

    /// What a drop request leaves behind. The low-water mark does not move backward. The
    /// slots of the numbers of the request that lay at or after the mark are empty, and
    /// no slot stands for a number before the new mark. A request that ends at or
    /// before the mark gives up nothing and moves nothing.
    pub proof fn lemma_drop_request_gives_up(
        before: Self,
        after: Self,
        first: SeqNumber,
        end: SeqNumber,
        dropped: usize,
    )
        requires
            before.wf(),
            Self::drop_request_handled(before, after, first, end, dropped),
        ensures
            circle_distance(before.buffer().next_release(), after.buffer().next_release()) >= 0,
            forall|s: int|
                on_circle(s) && 0 <= circle_distance(before.buffer().next_release(), s)
                    && circle_distance(before.buffer().next_release(), first@) <= circle_distance(
                    before.buffer().next_release(),
                    s,
                ) < circle_distance(before.buffer().next_release(), end@) ==> #[trigger] after.buffer().slot_at(
                    s,
                ) is Empty,
            forall|s: int|
                circle_distance(after.buffer().next_release(), s) < 0 ==> #[trigger] after.buffer().slot_at(
                    s,
                ) is Empty,
            circle_distance(before.buffer().next_release(), end@) <= 0 ==> {
                &&& dropped == 0
                &&& after.buffer().next_release() == before.buffer().next_release()
                &&& after.buffer().window() == before.buffer().window()
                &&& after.buffer().span() == before.buffer().span()
                &&& after.loss().ranges() == before.loss().ranges()
            },
    {
        let low = before.buffer().next_release();
        let cap = before.buffer().cap();
        let a = circle_distance(low, first@);
        let b = circle_distance(low, end@);
        let lo = clamp(a, 0, cap);
        let hi = clamp(b, 0, cap);
        let window = before.buffer().window();
        let cleared = window_after_clear(window, lo, hi);
        let k = before.buffer().span() - after.buffer().span();
        assert forall|s: int|
            on_circle(s) && 0 <= circle_distance(low, s) && a <= circle_distance(low, s)
                < b implies #[trigger] after.buffer().slot_at(s) is Empty by {
            lemma_distance_after_step(low, s, k);
        }
        if b <= 0 {
            assert(cleared =~= window);
            assert(k == 0);
            assert(shifted(cleared, 0) =~= window);
            lemma_distance_zero(low, low);
            if a < b {
                lemma_cut_below(before.loss().ranges(), a, b - 1);
            }
        }
    }

    /// What a confirmation leaves behind. It matches nothing exactly when the history
    /// holds no acknowledgement of its number; then the mean comes back, and the estimate
    /// and the history stay as they are. Otherwise the time since the acknowledgement
    /// was sent is the sample: the mean becomes seven parts of the old mean and one of the
    /// sample, which lies between the two and is an eighth of their distance away from
    /// the old mean, and the variance becomes three parts of the old variance and one
    /// of that distance. Neither becomes negative.
    pub proof fn lemma_ack2_outcome(
        before: Self,
        after: Self,
        now: Instant,
        full_ack_seq: FullAckSeqNumber,
        r: Option<Duration>,
    )
        requires
            before.wf(),
            Self::ack2_handled(before, after, now, full_ack_seq, r),
        ensures
            r.is_some() <==> absent(before.acks().entries(), full_ack_seq),
            r.is_some() ==> {
                &&& r == Some(before.rtt().mean)
                &&& after.rtt() == before.rtt()
                &&& after.acks().entries() == before.acks().entries()
                &&& after.last_ack2() == before.last_ack2()
            },
            r.is_none() ==> ({
                let entries = before.acks().entries();
                let sample = clamp_micros(
                    now@ - entries[position(entries, full_ack_seq)].sent_at@,
                );
                let old_mean = before.rtt().mean@;
                let mean = after.rtt().mean@;
                let apart = if old_mean >= sample {
                    old_mean - sample
                } else {
                    sample - old_mean
                };
                &&& mean == (7 * old_mean + sample) / 8
                &&& after.rtt().variance@ == (3 * before.rtt().variance@ + apart) / 4
                &&& 0 <= mean
                &&& 0 <= after.rtt().variance@
                &&& sample >= old_mean ==> old_mean <= mean <= sample && mean - old_mean == (sample
                    - old_mean) / 8
                &&& sample < old_mean ==> sample <= mean < old_mean && old_mean - mean == (old_mean
                    - sample + 7) / 8
            }),
    {
        let entries = before.acks().entries();
        if absent(entries, full_ack_seq) {
            lemma_position(entries, full_ack_seq, entries.len() as int);
        }
        if r.is_none() {
            let sample = clamp_micros(now@ - entries[position(entries, full_ack_seq)].sent_at@);
            lemma_mean_follows_sample(before.rtt().mean@, sample);
            lemma_variance_bounds(before.rtt().variance@, before.rtt().mean@, sample);
        }
    }

    /// A data packet that was accepted is refused as a duplicate when it comes again,
    /// and the state stays as it is: no packet is held, or released, twice.
    pub proof fn lemma_second_packet_is_duplicate(
        before: Self,
        between: Self,
        after: Self,
        now: Instant,
        later: Instant,
        packet: DataPacket,
        first: Result<DataPacketAction, DataPacketError>,
        second: Result<DataPacketAction, DataPacketError>,
    )
        requires
            before.wf(),
            packet.seq_number.wf(),
            Self::data_packet_handled(before, between, now, packet, first),
            Self::data_packet_handled(between, after, later, packet, second),
            first.is_ok(),
        ensures
            second == Err::<DataPacketAction, DataPacketError>(
                DataPacketError::DiscardedDuplicate { seq_number: packet.seq_number },
            ),
            after == between,
    {
    }

    /// Letting go twice is letting go once: a second `clear` leaves everything that can
    /// be told of the state as the first one left it.
    pub proof fn lemma_clear_is_idempotent(before: Self, once: Self, twice: Self)
        requires
            before.wf(),
            Self::cleared(before, once),
            Self::cleared(once, twice),
        ensures
            twice.wf(),
            twice.buffer().window() == once.buffer().window(),
            twice.buffer().next_release() == once.buffer().next_release(),
            twice.buffer().span() == once.buffer().span(),
            twice.buffer().expected() == once.buffer().expected(),
            twice.buffer().grace() == once.buffer().grace(),
            twice.loss().ranges() == once.loss().ranges(),
            twice.acks().entries() == once.acks().entries(),
            twice.clock() == once.clock(),
            twice.rtt() == once.rtt(),
            twice.unacked() == once.unacked(),
            twice.light_ack_threshold() == once.light_ack_threshold(),
            twice.ack_counter() == once.ack_counter(),
            twice.last_full_acked() == once.last_full_acked(),
            twice.last_ack2() == once.last_ack2(),
    {
        assert(twice.buffer().window() =~= once.buffer().window());
    }
}

} // verus!
