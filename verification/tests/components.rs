use srt_protocol::ack_history::{AckHistory, FullAckSeqNumber};
use srt_protocol::buffer::{BufferError, Inserted, ReceiveBuffer};
use srt_protocol::clock::{Clock, ClockAdjustment};
use srt_protocol::history::LossHistory;
use srt_protocol::loss_list::{CompressedLossList, SeqRange};
use srt_protocol::output::Output;
use srt_protocol::packet::{Acknowledgement, ControlTypes, DataEncryption, DataPacket};
use srt_protocol::receiver::{DataPacketAction, DataPacketError};
use srt_protocol::rtt::Rtt;
use srt_protocol::seq_number::{cmp, SeqNumber};
use srt_protocol::statistics::{add_count, SocketStatistics};
use srt_protocol::time::{Duration, Instant, TimeStamp};
use srt_protocol::timers::Timers;
use std::cmp::Ordering;

fn sq(n: u32) -> SeqNumber {
    SeqNumber::new_truncate(n)
}

fn at(micros: u64) -> Instant {
    Instant::from_micros(micros)
}

fn stamp(micros: u32) -> TimeStamp {
    TimeStamp::from_micros(micros)
}

fn range(first: u32, last: u32) -> SeqRange {
    SeqRange::new(sq(first), sq(last))
}

#[test]
fn distance_wraps_around_the_circle() {
    let a = sq(0x7FFF_FFFF);
    let b = sq(1);
    assert_eq!(a.distance(b), 2);
    assert_eq!(b.distance(a), -2);
    assert_eq!(sq(5).distance(sq(5)), 0);
    assert_eq!(sq(0).distance(sq(0x3FFF_FFFF)), 0x3FFF_FFFF);
    assert_eq!(sq(0).distance(sq(0x4000_0000)), -0x4000_0000);
    assert_eq!(sq(0x4000_0000).distance(sq(0)), -0x4000_0000);
}

#[test]
fn new_truncate_keeps_thirty_one_bits() {
    assert_eq!(sq(0x8000_0005).as_raw(), 5);
    assert_eq!(sq(0xFFFF_FFFF).as_raw(), 0x7FFF_FFFF);
    assert_eq!(sq(0x8000_0005), sq(5));
}

#[test]
fn add_and_sub_wrap() {
    assert_eq!(sq(0x7FFF_FFFF).add(1), sq(0));
    assert_eq!(sq(0x7FFF_FFFF).next(), sq(0));
    assert_eq!(sq(0).sub(1), sq(0x7FFF_FFFF));
    assert_eq!(sq(10).add(0xFFFF_FFFF), sq(9));
    assert_eq!(sq(10).sub(0xFFFF_FFFF), sq(11));
    assert_eq!(sq(100).add(28).sub(28), sq(100));
}

#[test]
fn cmp_orders_by_distance() {
    assert_eq!(cmp(sq(1), sq(2)), Ordering::Less);
    assert_eq!(cmp(sq(2), sq(1)), Ordering::Greater);
    assert_eq!(cmp(sq(7), sq(7)), Ordering::Equal);
    assert_eq!(cmp(sq(0x7FFF_FFFF), sq(0)), Ordering::Less);
    assert_eq!(cmp(sq(0), sq(0x7FFF_FFFF)), Ordering::Greater);
    assert!(sq(0x7FFF_FFFF).is_before(sq(3)));
    assert!(!sq(3).is_before(sq(3)));
}

#[test]
fn time_arithmetic_saturates() {
    assert_eq!(Duration::from_millis(120), Duration::from_micros(120_000));
    assert_eq!(Duration::from_millis(u64::MAX).as_micros(), u64::MAX);
    assert_eq!(at(u64::MAX - 1).saturating_add(Duration::from_micros(5)), at(u64::MAX));
    assert_eq!(at(10).saturating_add(Duration::from_micros(5)), at(15));
    assert_eq!(at(10).saturating_since(at(4)), Duration::from_micros(6));
    assert_eq!(at(4).saturating_since(at(10)), Duration::from_micros(0));
    assert_eq!(Duration::from_micros(3).max(Duration::from_micros(9)).as_micros(), 9);
    assert_eq!(at(77).as_micros(), 77);
    assert_eq!(stamp(9).as_micros(), 9);
}

#[test]
fn first_sample_sets_the_epoch() {
    let mut clock = Clock::new(at(1_000), Duration::from_millis(120));
    assert_eq!(clock.tsbpd_release(stamp(500)), at(121_500));
    assert_eq!(clock.tsbpd_latency(), Duration::from_millis(120));
    assert_eq!(clock.synchronize(at(10_000), stamp(4_000)), None);
    assert_eq!(clock.tsbpd_release(stamp(0)), at(126_000));
    assert_eq!(clock.tsbpd_release(stamp(4_000)), at(130_000));
}

#[test]
fn drift_within_tolerance_is_ignored() {
    let mut clock = Clock::new(at(0), Duration::from_millis(120));
    clock.synchronize(at(10_000), stamp(4_000));
    assert_eq!(clock.synchronize(at(21_000), stamp(10_000)), None);
    assert_eq!(clock.synchronize(at(11_000), stamp(10_000)), None);
    assert_eq!(clock.tsbpd_release(stamp(0)), at(126_000));
}

#[test]
fn drift_beyond_tolerance_moves_the_epoch_one_sixteenth() {
    let mut clock = Clock::new(at(0), Duration::from_millis(120));
    clock.synchronize(at(10_000), stamp(4_000));
    assert_eq!(
        clock.synchronize(at(100_000), stamp(14_000)),
        Some(ClockAdjustment { drift_micros: 80_000, correction_micros: 5_000 })
    );
    assert_eq!(clock.tsbpd_release(stamp(0)), at(131_000));
    assert_eq!(
        clock.synchronize(at(20_000), stamp(25_001)),
        Some(ClockAdjustment { drift_micros: -16_001, correction_micros: -1_000 })
    );
    assert_eq!(clock.tsbpd_release(stamp(0)), at(130_000));
}

#[test]
fn epoch_before_the_local_origin_is_kept() {
    let mut clock = Clock::new(at(0), Duration::from_millis(1));
    assert_eq!(clock.synchronize(at(1_000), stamp(5_000)), None);
    assert_eq!(clock.tsbpd_release(stamp(1_000)), at(0));
    assert_eq!(clock.tsbpd_release(stamp(3_000)), at(0));
    assert_eq!(clock.tsbpd_release(stamp(5_000)), at(2_000));
}

#[test]
fn drift_policy_can_be_set() {
    let mut clock = Clock::new(at(0), Duration::from_millis(0))
        .with_drift_policy(Duration::from_micros(100), 0);
    clock.synchronize(at(1_000), stamp(0));
    assert_eq!(
        clock.synchronize(at(2_000), stamp(0)),
        Some(ClockAdjustment { drift_micros: 1_000, correction_micros: 1_000 })
    );
    let mut clock = Clock::new(at(0), Duration::from_millis(0))
        .with_drift_policy(Duration::from_micros(100), 4);
    clock.synchronize(at(1_000), stamp(0));
    assert_eq!(
        clock.synchronize(at(2_000), stamp(0)),
        Some(ClockAdjustment { drift_micros: 1_000, correction_micros: 250 })
    );
}

#[test]
fn loss_list_encodes_singles_and_ranges() {
    let list = CompressedLossList::from_ranges(vec![range(5, 5), range(10, 12)]).unwrap();
    assert_eq!(list.len(), 2);
    assert!(!list.is_empty());
    assert_eq!(list.range_at(1), Some(range(10, 12)));
    assert_eq!(list.range_at(2), None);
    assert_eq!(list.encode(), vec![5, 0x8000_000A, 12]);
    let back = CompressedLossList::decode(&[5, 0x8000_000A, 12]).unwrap();
    assert_eq!(back, list);
    assert_eq!(back.ranges(), vec![range(5, 5), range(10, 12)]);
    assert_eq!(list.clone(), list);
}

#[test]
fn loss_list_round_trip_over_the_wrap() {
    let list = CompressedLossList::from_ranges(vec![range(0x7FFF_FFFE, 3), range(9, 9)]).unwrap();
    let words = list.encode();
    assert_eq!(words, vec![0xFFFF_FFFE, 3, 9]);
    assert_eq!(CompressedLossList::decode(&words), Some(list));
    let empty = CompressedLossList::from_ranges(Vec::new()).unwrap();
    assert!(empty.is_empty());
    assert_eq!(empty.encode(), Vec::<u32>::new());
    assert_eq!(CompressedLossList::decode(&[]), Some(empty));
}

#[test]
fn loss_list_refuses_what_spells_no_list() {
    assert_eq!(CompressedLossList::decode(&[0x8000_0005]), None);
    assert_eq!(CompressedLossList::decode(&[0x8000_0005, 0x8000_0006]), None);
    assert_eq!(CompressedLossList::decode(&[0x8000_0005, 5]), None);
    assert_eq!(CompressedLossList::decode(&[0x8000_0005, 4]), None);
    assert_eq!(CompressedLossList::decode(&[1, 0x8000_0005]), None);
    assert!(CompressedLossList::decode(&[0x8000_0005, 6]).is_some());
    assert_eq!(CompressedLossList::from_ranges(vec![range(5, 4)]), None);
    assert!(!range(5, 4).is_ordered());
    assert!(range(5, 5).is_ordered());
}

#[test]
fn loss_history_merges_overlapping_and_touching_ranges() {
    let mut history = LossHistory::new(sq(100));
    assert!(history.is_empty());
    history.add_range(sq(101), sq(102), at(0));
    history.add_range(sq(106), sq(107), at(1));
    assert_eq!(history.seq_ranges(), vec![range(101, 102), range(106, 107)]);
    history.add_range(sq(104), sq(104), at(2));
    assert_eq!(history.len(), 3);
    history.add_range(sq(103), sq(103), at(3));
    assert_eq!(history.seq_ranges(), vec![range(101, 104), range(106, 107)]);
    history.add_range(sq(102), sq(110), at(4));
    assert_eq!(history.seq_ranges(), vec![range(101, 110)]);
    history.add_range(sq(95), sq(99), at(5));
    assert_eq!(history.seq_ranges(), vec![range(101, 110)]);
    history.add_range(sq(98), sq(100), at(5));
    assert_eq!(history.seq_ranges(), vec![range(100, 110)]);
    history.add_range(sq(120), sq(119), at(6));
    assert_eq!(history.seq_ranges(), vec![range(100, 110)]);
    assert_eq!(history.base_seq(), sq(100));
}

#[test]
fn loss_history_remove_splits_a_range() {
    let mut history = LossHistory::new(sq(100));
    history.add_range(sq(101), sq(105), at(0));
    history.remove(sq(103));
    assert_eq!(history.seq_ranges(), vec![range(101, 102), range(104, 105)]);
    history.remove(sq(101));
    assert_eq!(history.seq_ranges(), vec![range(102, 102), range(104, 105)]);
    history.remove(sq(102));
    history.remove(sq(99));
    history.remove(sq(200));
    assert_eq!(history.seq_ranges(), vec![range(104, 105)]);
    history.remove(sq(105));
    history.remove(sq(104));
    assert!(history.is_empty());
}

#[test]
fn loss_history_is_empty_after_every_number_is_removed() {
    let mut history = LossHistory::new(sq(0x7FFF_FFF0));
    history.add_range(sq(0x7FFF_FFFA), sq(5), at(0));
    assert_eq!(history.len(), 1);
    for n in [3u32, 0x7FFF_FFFF, 0, 5, 0x7FFF_FFFA, 1, 4, 0x7FFF_FFFC, 2, 0x7FFF_FFFB, 0x7FFF_FFFD,
        0x7FFF_FFFE]
    {
        assert!(!history.is_empty());
        history.remove(sq(n));
    }
    assert!(history.is_empty());
}

#[test]
fn loss_history_remove_range_and_advance() {
    let mut history = LossHistory::new(sq(100));
    history.add_range(sq(101), sq(110), at(0));
    history.remove_range(sq(103), sq(106));
    assert_eq!(history.seq_ranges(), vec![range(101, 102), range(106, 110)]);
    history.remove_range(sq(106), sq(106));
    history.remove_range(sq(108), sq(107));
    assert_eq!(history.seq_ranges(), vec![range(101, 102), range(106, 110)]);
    history.advance_base(0);
    assert_eq!(history.seq_ranges(), vec![range(101, 102), range(106, 110)]);
    history.advance_base(2);
    assert_eq!(history.base_seq(), sq(102));
    assert_eq!(history.seq_ranges(), vec![range(102, 102), range(106, 110)]);
    history.advance_base(6);
    assert_eq!(history.seq_ranges(), vec![range(108, 110)]);
    history.advance_base(1000);
    assert!(history.is_empty());
    assert_eq!(history.base_seq(), sq(1108));
    history.add_range(sq(1110), sq(1111), at(9));
    history.clear();
    assert!(history.is_empty());
}

#[test]
fn loss_history_reports_what_is_due() {
    let mut history = LossHistory::new(sq(100));
    history.add_range(sq(101), sq(102), at(0));
    history.add_range(sq(105), sq(105), at(15_000));
    assert!(history.due_for_nak(at(19_999), Duration::from_micros(100_000)).is_empty());
    let due = history.due_for_nak(at(20_000), Duration::from_micros(100_000));
    assert_eq!(due.ranges(), vec![range(101, 102)]);
    let due = history.due_for_nak(at(35_000), Duration::from_micros(1_000));
    assert_eq!(due.ranges(), vec![range(105, 105)]);
    assert!(history.due_for_nak(at(54_999), Duration::from_micros(1_000)).is_empty());
    let due = history.due_for_nak(at(55_000), Duration::from_micros(1_000));
    assert_eq!(due.ranges(), vec![range(105, 105)]);
    assert!(history.due_for_nak(at(74_999), Duration::from_micros(0)).is_empty());
    let due = history.due_for_nak(at(120_000), Duration::from_micros(0));
    assert_eq!(due.ranges(), vec![range(101, 102), range(105, 105)]);
    history.set_nak_interval(Duration::from_micros(5));
    history.add_range(sq(110), sq(110), at(200_000));
    assert_eq!(
        history.due_for_nak(at(200_005), Duration::from_micros(0)).ranges(),
        vec![range(101, 102), range(105, 105), range(110, 110)]
    );
}

#[test]
fn merged_range_is_due_with_its_earliest_part() {
    let mut history = LossHistory::new(sq(100));
    history.add_range(sq(101), sq(101), at(0));
    history.add_range(sq(102), sq(102), at(10_000));
    assert_eq!(history.len(), 1);
    let due = history.due_for_nak(at(20_000), Duration::from_micros(0));
    assert_eq!(due.ranges(), vec![range(101, 102)]);
}

#[test]
fn ack_history_evicts_the_oldest() {
    let mut history = AckHistory::new(2);
    history.record(FullAckSeqNumber(1), sq(10), at(100));
    history.record(FullAckSeqNumber(2), sq(20), at(200));
    history.record(FullAckSeqNumber(3), sq(30), at(300));
    assert_eq!(history.len(), 2);
    assert_eq!(history.lookup(FullAckSeqNumber(1)), None);
    assert_eq!(history.lookup(FullAckSeqNumber(2)), Some(at(200)));
    assert_eq!(history.lookup(FullAckSeqNumber(2)), None);
    assert_eq!(history.len(), 1);
    assert_eq!(history.lookup(FullAckSeqNumber(3)), Some(at(300)));
    assert_eq!(history.len(), 0);
}

#[test]
fn ack_history_keeps_one_entry_per_number() {
    let mut history = AckHistory::new(4);
    history.record(FullAckSeqNumber(7), sq(10), at(100));
    history.record(FullAckSeqNumber(8), sq(11), at(150));
    history.record(FullAckSeqNumber(7), sq(12), at(200));
    assert_eq!(history.len(), 2);
    assert_eq!(history.lookup(FullAckSeqNumber(7)), Some(at(200)));
    assert_eq!(history.lookup(FullAckSeqNumber(7)), None);
    history.clear();
    assert_eq!(history.lookup(FullAckSeqNumber(8)), None);
    let mut none = AckHistory::new(0);
    none.record(FullAckSeqNumber(1), sq(1), at(1));
    assert_eq!(none.len(), 0);
}

#[test]
fn rtt_follows_samples_by_an_eighth() {
    let mut rtt = Rtt::new();
    assert_eq!(rtt.mean.as_micros(), 100_000);
    assert_eq!(rtt.variance.as_micros(), 50_000);
    rtt.update(Duration::from_micros(30_000));
    assert_eq!(rtt.mean.as_micros(), 91_250);
    assert_eq!(rtt.variance.as_micros(), 55_000);
    rtt.update(Duration::from_micros(891_250));
    assert_eq!(rtt.mean.as_micros(), 191_250);
    assert_eq!(rtt.variance.as_micros(), 241_250);
    let mut big = Rtt { mean: Duration::from_micros(u64::MAX), variance: Duration::from_micros(u64::MAX) };
    big.update(Duration::from_micros(u64::MAX));
    assert_eq!(big.mean.as_micros(), u64::MAX);
    assert_eq!(big.variance.as_micros(), 13_835_058_055_282_163_711);
    let mut small = Rtt { mean: Duration::from_micros(10), variance: Duration::from_micros(0) };
    small.update(Duration::from_micros(9));
    assert_eq!(small.mean.as_micros(), 9);
}

#[test]
fn nak_period_has_a_floor() {
    let rtt = Rtt::new();
    assert_eq!(rtt.nak_period().as_micros(), 300_000);
    let quick = Rtt { mean: Duration::from_micros(1_000), variance: Duration::from_micros(100) };
    assert_eq!(quick.nak_period().as_micros(), 20_000);
    let huge = Rtt { mean: Duration::from_micros(u64::MAX), variance: Duration::from_micros(5) };
    assert_eq!(huge.nak_period().as_micros(), u64::MAX);
}

#[test]
fn timers_take_the_round_trip_time() {
    let mut timers = Timers::new(Duration::from_millis(5_000));
    assert_eq!(timers.full_ack_period, Duration::from_millis(10));
    assert_eq!(timers.close_timeout, Duration::from_millis(5_000));
    assert_eq!(timers.rtt, None);
    timers.update_rtt(Duration::from_millis(7));
    assert_eq!(timers.rtt, Some(Duration::from_millis(7)));
    timers.update_rtt(Duration::from_millis(70));
    assert_eq!(timers.rtt, Some(Duration::from_millis(70)));
    assert_eq!(timers.full_ack_period, Duration::from_millis(10));
}

#[test]
fn counters_stay_full() {
    assert_eq!(add_count(u64::MAX, 1), u64::MAX);
    assert_eq!(add_count(u64::MAX - 1, 1), u64::MAX);
    assert_eq!(add_count(3, 4), 7);
    assert_eq!(SocketStatistics::new().rx_data, 0);
}

#[test]
fn output_keeps_the_order() {
    let mut output = Output::new();
    output.send_control(at(1), ControlTypes::Ack(Acknowledgement::Lite(sq(5))));
    output.send_control(
        at(2),
        ControlTypes::Nak(CompressedLossList::from_ranges(vec![range(1, 2)]).unwrap()),
    );
    assert_eq!(output.len(), 2);
    let sent = output.take_packets();
    assert_eq!(sent[0].time, at(1));
    assert_eq!(sent[0].packet, ControlTypes::Ack(Acknowledgement::Lite(sq(5))));
    assert_eq!(sent[1].time, at(2));
    assert_eq!(output.len(), 0);
    assert!(output.take_packets().is_empty());
}

#[test]
fn wire_size_counts_the_header() {
    let packet = DataPacket {
        seq_number: sq(1),
        msg_number: 1,
        timestamp: stamp(0),
        dest_socket_id: 0,
        encryption: DataEncryption::Plain,
        payload: vec![0; 1316],
    };
    assert_eq!(packet.wire_size(), 1332);
}

#[test]
fn buffer_errors_map_one_to_one() {
    assert_eq!(
        DataPacketError::from_buffer(BufferError::BufferFull { seq_number: sq(1), buffer_size: 8 }),
        DataPacketError::BufferFull { seq_number: sq(1), buffer_size: 8 }
    );
    assert_eq!(
        DataPacketError::from_buffer(BufferError::PacketTooEarly {
            seq_number: sq(1),
            buffer_available: 2,
            buffer_required: 3
        }),
        DataPacketError::PacketTooEarly { seq_number: sq(1), buffer_available: 2, buffer_required: 3 }
    );
    assert_eq!(
        DataPacketError::from_buffer(BufferError::PacketTooLate {
            seq_number: sq(1),
            seq_number_0: sq(4)
        }),
        DataPacketError::PacketTooLate { seq_number: sq(1), seq_number_0: sq(4) }
    );
    assert_eq!(
        DataPacketError::from_buffer(BufferError::DiscardedDuplicate { seq_number: sq(1) }),
        DataPacketError::DiscardedDuplicate { seq_number: sq(1) }
    );
}

#[test]
fn is_recovered_reads_the_action() {
    assert!(DataPacketAction::Received { lrsn: sq(1), recovered: true }.is_recovered());
    assert!(!DataPacketAction::Received { lrsn: sq(1), recovered: false }.is_recovered());
    assert!(DataPacketAction::ReceivedWithLightAck { light_ack: sq(1), recovered: true }
        .is_recovered());
    assert!(!DataPacketAction::ReceivedWithLoss(
        CompressedLossList::from_ranges(vec![range(1, 2)]).unwrap()
    )
    .is_recovered());
}

#[test]
fn buffer_insert_marks_the_gap() {
    let clock = Clock::new(at(0), Duration::from_millis(120));
    let mut buffer = ReceiveBuffer::new(sq(100), 8);
    assert_eq!(buffer.capacity(), 8);
    assert_eq!(buffer.available(), 8);
    assert_eq!(
        buffer.insert(&clock, sq(102), vec![2], at(0), stamp(0)),
        Ok(Inserted { recovered: false, gap: Some(range(100, 101)) })
    );
    assert_eq!(buffer.available(), 5);
    assert_eq!(buffer.next_expected_seq(), sq(100));
    assert_eq!(
        buffer.insert(&clock, sq(100), vec![0], at(1), stamp(1)),
        Ok(Inserted { recovered: true, gap: None })
    );
    assert_eq!(buffer.next_expected_seq(), sq(101));
    assert_eq!(
        buffer.insert(&clock, sq(103), vec![3], at(2), stamp(2)),
        Ok(Inserted { recovered: false, gap: None })
    );
    assert_eq!(
        buffer.insert(&clock, sq(103), vec![3], at(2), stamp(2)),
        Err(BufferError::DiscardedDuplicate { seq_number: sq(103) })
    );
    assert_eq!(
        buffer.insert(&clock, sq(99), vec![9], at(2), stamp(2)),
        Err(BufferError::PacketTooLate { seq_number: sq(99), seq_number_0: sq(100) })
    );
    assert!(!buffer.is_flushed());
    let summary = buffer.arrival_summary();
    assert_eq!(summary.packets, 3);
    assert_eq!(summary.earliest, at(0));
    assert_eq!(summary.latest, at(2));
    assert_eq!(summary.shortest_gap, Duration::from_micros(2));
}

#[test]
fn buffer_mark_missing_and_clear() {
    let mut buffer = ReceiveBuffer::new(sq(100), 4);
    buffer.mark_missing(sq(98), sq(101), at(50));
    assert_eq!(buffer.available(), 2);
    assert_eq!(buffer.next_expected_seq(), sq(100));
    assert!(buffer.pop_ready(at(50)).is_empty());
    assert_eq!(buffer.next_release_seq(), sq(100));
    buffer.set_drop_grace(Duration::from_micros(5));
    assert!(buffer.pop_ready(at(55)).is_empty());
    assert_eq!(buffer.next_release_seq(), sq(100));
    assert!(buffer.pop_ready(at(56)).is_empty());
    assert_eq!(buffer.next_release_seq(), sq(102));
    buffer.mark_missing(sq(103), sq(200), at(60));
    assert_eq!(buffer.available(), 0);
    assert_eq!(buffer.next_expected_seq(), sq(103));
    assert_eq!(buffer.drop_range(sq(100), sq(105)), 2);
    assert_eq!(buffer.next_release_seq(), sq(105));
    buffer.mark_missing(sq(105), sq(105), at(70));
    buffer.clear();
    assert_eq!(buffer.available(), 4);
    assert_eq!(buffer.next_release_seq(), sq(105));
    assert!(buffer.is_flushed());
    let empty = ReceiveBuffer::new(sq(1), 0);
    assert_eq!(empty.capacity(), 0);
}

#[test]
fn buffer_without_slots_takes_nothing() {
    let clock = Clock::new(at(0), Duration::from_millis(120));
    let mut buffer = ReceiveBuffer::new(sq(100), 0);
    assert_eq!(
        buffer.insert(&clock, sq(100), vec![1], at(0), stamp(0)),
        Err(BufferError::PacketTooEarly {
            seq_number: sq(100),
            buffer_available: 0,
            buffer_required: 1
        })
    );
    assert!(buffer.pop_ready(at(1_000_000)).is_empty());
    assert_eq!(buffer.drop_range(sq(100), sq(110)), 0);
}

#[test]
fn loss_history_keeps_the_times_of_its_runs() {
    let mut history = LossHistory::new(sq(100));
    history.add_range(sq(105), sq(106), at(7));
    assert_eq!(history.feedback_at(0), Some((at(7), at(20_007))));
    history.add_range(sq(101), sq(102), at(9));
    assert_eq!(history.feedback_at(0), Some((at(9), at(20_009))));
    assert_eq!(history.feedback_at(1), Some((at(7), at(20_007))));
    history.add_range(sq(103), sq(104), at(11));
    assert_eq!(history.len(), 1);
    assert_eq!(history.feedback_at(0), Some((at(7), at(20_007))));
    history.due_for_nak(at(30_000), Duration::from_micros(50_000));
    assert_eq!(history.feedback_at(0), Some((at(7), at(80_000))));
    history.remove(sq(103));
    assert_eq!(history.feedback_at(0), Some((at(7), at(80_000))));
    assert_eq!(history.feedback_at(1), Some((at(7), at(80_000))));
    assert!(history.is_missing(sq(101)));
    assert!(!history.is_missing(sq(103)));
    assert!(history.is_missing(sq(106)));
    assert!(!history.is_missing(sq(107)));
    assert!(!history.is_missing(sq(99)));
    assert_eq!(history.feedback_at(2), None);
}
