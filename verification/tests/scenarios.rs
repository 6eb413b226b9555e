use srt_protocol::ack_history::FullAckSeqNumber;
use srt_protocol::arq::AutomaticRepeatRequestAlgorithm;
use srt_protocol::buffer::Released;
use srt_protocol::connection::ConnectionSettings;
use srt_protocol::loss_list::SeqRange;
use srt_protocol::output::Output;
use srt_protocol::packet::{
    Acknowledgement, ControlTypes, DataEncryption, DataPacket,
};
use srt_protocol::receiver::{
    DataPacketAction, DataPacketError, Receiver, ReceiverContext, ReceiverState,
};
use srt_protocol::seq_number::SeqNumber;
use srt_protocol::statistics::SocketStatistics;
use srt_protocol::time::{Duration, Instant, TimeStamp};
use srt_protocol::timers::Timers;

fn seq(n: u32) -> SeqNumber {
    SeqNumber::new_truncate(n)
}

fn ms(n: u64) -> Instant {
    Instant::from_micros(n * 1000)
}

fn packet(number: u32, stamp_ms: u32) -> DataPacket {
    DataPacket {
        seq_number: seq(number),
        msg_number: number,
        timestamp: TimeStamp::from_micros(stamp_ms * 1000),
        dest_socket_id: 7,
        encryption: DataEncryption::Plain,
        payload: vec![number as u8, 1, 2, 3],
    }
}

fn new_arq() -> AutomaticRepeatRequestAlgorithm {
    AutomaticRepeatRequestAlgorithm::new(ms(0), Duration::from_millis(120), seq(100), 8)
}

fn new_receiver() -> Receiver {
    Receiver::new(ConnectionSettings {
        socket_start_time: ms(0),
        recv_tsbpd_latency: Duration::from_millis(120),
        init_seq_num: seq(100),
        recv_buffer_size: 8,
        cipher: None,
    })
}

fn numbers(released: &[Released]) -> Vec<u32> {
    released.iter().map(|p| p.seq_number.as_raw()).collect()
}

#[test]
fn in_order_packets_are_received_and_released_in_order() {
    let mut arq = new_arq();
    assert_eq!(
        arq.handle_data_packet(ms(0), packet(100, 0)),
        Ok(DataPacketAction::Received { lrsn: seq(101), recovered: false })
    );
    assert_eq!(
        arq.handle_data_packet(ms(5), packet(101, 5)),
        Ok(DataPacketAction::Received { lrsn: seq(102), recovered: false })
    );
    assert_eq!(
        arq.handle_data_packet(ms(10), packet(102, 10)),
        Ok(DataPacketAction::Received { lrsn: seq(103), recovered: false })
    );
    assert_eq!(arq.on_nak_event(ms(10)), None);
    assert!(arq.pop_ready(ms(119)).is_empty());
    let released = arq.pop_ready(ms(130));
    assert_eq!(numbers(&released), vec![100, 101, 102]);
    assert_eq!(released[0].payload, vec![100, 1, 2, 3]);
    assert_eq!(released[0].arrival, ms(0));
    assert_eq!(released[0].release_at, ms(120));
    assert_eq!(released[2].release_at, ms(130));
    assert_eq!(arq.next_release_seq(), seq(103));
    assert!(arq.is_flushed());
}

#[test]
fn in_order_packets_send_no_control_packet() {
    let mut receiver = new_receiver();
    let mut timers = Timers::new(Duration::from_millis(5000));
    let mut output = Output::new();
    let mut stats = SocketStatistics::new();
    {
        let mut context = ReceiverContext::new(&mut timers, &mut output, &mut stats, &mut receiver);
        context.handle_data_packet(ms(0), packet(100, 0));
        context.handle_data_packet(ms(5), packet(101, 5));
        context.handle_data_packet(ms(10), packet(102, 10));
    }
    assert_eq!(output.len(), 0);
    assert_eq!(stats.rx_data, 3);
    assert_eq!(stats.rx_bytes, 3 * 20);
    assert_eq!(stats.rx_unique_data, 3);
    assert_eq!(stats.rx_unique_bytes, 60);
    assert_eq!(stats.rx_retransmit_data, 0);
    assert_eq!(stats.rx_decrypted_data, 0);
    assert_eq!(numbers(&receiver.arq.pop_ready(ms(130))), vec![100, 101, 102]);
}

#[test]
fn gap_is_reported_and_filled() {
    let mut arq = new_arq();
    assert_eq!(
        arq.handle_data_packet(ms(0), packet(100, 0)),
        Ok(DataPacketAction::Received { lrsn: seq(101), recovered: false })
    );
    let with_loss = arq.handle_data_packet(ms(5), packet(103, 5)).unwrap();
    match &with_loss {
        DataPacketAction::ReceivedWithLoss(list) => {
            assert_eq!(list.ranges(), vec![SeqRange::new(seq(101), seq(102))]);
        }
        other => panic!("{:?}", other),
    }
    assert!(!with_loss.is_recovered());
    assert_eq!(
        arq.handle_data_packet(ms(7), packet(102, 7)),
        Ok(DataPacketAction::Received { lrsn: seq(101), recovered: true })
    );
    assert_eq!(
        arq.handle_data_packet(ms(9), packet(101, 9)),
        Ok(DataPacketAction::Received { lrsn: seq(104), recovered: true })
    );
    assert_eq!(numbers(&arq.pop_ready(ms(130))), vec![100, 101, 102, 103]);
    assert_eq!(arq.on_nak_event(ms(1000)), None);
}

#[test]
fn gap_sends_a_nak_at_once() {
    let mut receiver = new_receiver();
    let mut timers = Timers::new(Duration::from_millis(5000));
    let mut output = Output::new();
    let mut stats = SocketStatistics::new();
    {
        let mut context = ReceiverContext::new(&mut timers, &mut output, &mut stats, &mut receiver);
        context.handle_data_packet(ms(0), packet(100, 0));
        context.handle_data_packet(ms(5), packet(103, 5));
        context.handle_data_packet(ms(7), packet(102, 7));
    }
    let sent = output.take_packets();
    assert_eq!(sent.len(), 1);
    assert_eq!(sent[0].time, ms(5));
    match &sent[0].packet {
        ControlTypes::Nak(list) => {
            assert_eq!(list.ranges(), vec![SeqRange::new(seq(101), seq(102))]);
            assert_eq!(list.encode(), vec![0x8000_0000 + 101, 102]);
        }
        other => panic!("{:?}", other),
    }
    assert_eq!(output.len(), 0);
    assert_eq!(stats.rx_unique_data, 2);
    assert_eq!(stats.rx_retransmit_data, 1);
}

#[test]
fn packet_before_the_low_water_mark_is_too_late() {
    let mut receiver = new_receiver();
    let mut timers = Timers::new(Duration::from_millis(5000));
    let mut output = Output::new();
    let mut stats = SocketStatistics::new();
    for i in 0..4u32 {
        let mut context = ReceiverContext::new(&mut timers, &mut output, &mut stats, &mut receiver);
        context.handle_data_packet(ms(i as u64), packet(100 + i, i));
    }
    assert_eq!(numbers(&receiver.arq.pop_ready(ms(200))), vec![100, 101, 102, 103]);
    assert_eq!(receiver.arq.next_release_seq(), seq(104));
    assert_eq!(stats.rx_dropped_data, 0);
    {
        let mut context = ReceiverContext::new(&mut timers, &mut output, &mut stats, &mut receiver);
        context.handle_data_packet(ms(201), packet(102, 2));
    }
    assert_eq!(stats.rx_dropped_data, 1);
    assert_eq!(stats.rx_dropped_bytes, 20);
    assert_eq!(stats.rx_data, 5);
    assert_eq!(stats.rx_unique_data, 4);
    assert_eq!(
        receiver.arq.handle_data_packet(ms(202), packet(102, 2)),
        Err(DataPacketError::PacketTooLate { seq_number: seq(102), seq_number_0: seq(104) })
    );
    assert!(receiver.arq.pop_ready(ms(300)).is_empty());
}

#[test]
fn packet_beyond_the_window_is_too_early() {
    let mut arq = new_arq();
    assert_eq!(
        arq.handle_data_packet(ms(0), packet(108, 0)),
        Err(DataPacketError::PacketTooEarly {
            seq_number: seq(108),
            buffer_available: 8,
            buffer_required: 1,
        })
    );
    assert_eq!(
        arq.handle_data_packet(ms(0), packet(110, 0)),
        Err(DataPacketError::PacketTooEarly {
            seq_number: seq(110),
            buffer_available: 8,
            buffer_required: 3,
        })
    );
    assert_eq!(arq.on_nak_event(ms(1000)), None);
    assert!(arq.is_flushed());
    assert_eq!(
        arq.handle_data_packet(ms(0), packet(107, 0)).map(|a| a.is_recovered()),
        Ok(false)
    );
}

#[test]
fn packet_one_window_ahead_of_held_data_finds_the_buffer_full() {
    let mut arq = new_arq();
    arq.handle_data_packet(ms(0), packet(100, 0)).unwrap();
    assert_eq!(
        arq.handle_data_packet(ms(1), packet(108, 1)),
        Err(DataPacketError::BufferFull { seq_number: seq(108), buffer_size: 8 })
    );
    assert_eq!(
        arq.handle_data_packet(ms(1), packet(109, 1)),
        Err(DataPacketError::PacketTooEarly {
            seq_number: seq(109),
            buffer_available: 7,
            buffer_required: 2,
        })
    );
}

#[test]
fn duplicate_is_discarded_and_not_counted() {
    let mut receiver = new_receiver();
    let mut timers = Timers::new(Duration::from_millis(5000));
    let mut output = Output::new();
    let mut stats = SocketStatistics::new();
    {
        let mut context = ReceiverContext::new(&mut timers, &mut output, &mut stats, &mut receiver);
        context.handle_data_packet(ms(0), packet(100, 0));
        context.handle_data_packet(ms(1), packet(100, 0));
    }
    assert_eq!(stats.rx_data, 2);
    assert_eq!(stats.rx_unique_data, 1);
    assert_eq!(stats.rx_dropped_data, 0);
    assert_eq!(stats.rx_retransmit_data, 0);
    assert_eq!(
        receiver.arq.handle_data_packet(ms(2), packet(100, 0)),
        Err(DataPacketError::DiscardedDuplicate { seq_number: seq(100) })
    );
    assert_eq!(numbers(&receiver.arq.pop_ready(ms(500))), vec![100]);
}

#[test]
fn sixty_fourth_packet_asks_for_a_light_ack() {
    let mut receiver = new_receiver();
    let mut timers = Timers::new(Duration::from_millis(5000));
    let mut output = Output::new();
    let mut stats = SocketStatistics::new();
    for i in 0..63u32 {
        let now = ms(i as u64 * 200);
        receiver.arq.pop_ready(now);
        assert_eq!(
            receiver.arq.handle_data_packet(now, packet(100 + i, i * 200)),
            Ok(DataPacketAction::Received { lrsn: seq(101 + i), recovered: false })
        );
    }
    let now = ms(63 * 200);
    receiver.arq.pop_ready(now);
    assert_eq!(
        receiver.arq.handle_data_packet(now, packet(163, 63 * 200)),
        Ok(DataPacketAction::ReceivedWithLightAck { light_ack: seq(164), recovered: false })
    );
    let now = ms(64 * 200);
    receiver.arq.pop_ready(now);
    {
        let mut context = ReceiverContext::new(&mut timers, &mut output, &mut stats, &mut receiver);
        context.handle_data_packet(now, packet(164, 64 * 200));
    }
    assert_eq!(output.len(), 0);
    for i in 65..127u32 {
        let now = ms(i as u64 * 200);
        receiver.arq.pop_ready(now);
        let mut context = ReceiverContext::new(&mut timers, &mut output, &mut stats, &mut receiver);
        context.handle_data_packet(now, packet(100 + i, i * 200));
    }
    assert_eq!(output.len(), 0);
    let now = ms(127 * 200);
    receiver.arq.pop_ready(now);
    {
        let mut context = ReceiverContext::new(&mut timers, &mut output, &mut stats, &mut receiver);
        context.handle_data_packet(now, packet(227, 127 * 200));
    }
    let sent = output.take_packets();
    assert_eq!(sent.len(), 1);
    assert_eq!(sent[0].time, now);
    assert_eq!(sent[0].packet, ControlTypes::Ack(Acknowledgement::Lite(seq(228))));
}

#[test]
fn light_ack_comes_without_releases_in_a_large_buffer() {
    let mut arq = AutomaticRepeatRequestAlgorithm::new(ms(0), Duration::from_millis(120), seq(100), 128);
    for i in 0..63u32 {
        assert_eq!(
            arq.handle_data_packet(ms(0), packet(100 + i, 0)),
            Ok(DataPacketAction::Received { lrsn: seq(101 + i), recovered: false })
        );
    }
    assert_eq!(
        arq.handle_data_packet(ms(0), packet(163, 0)),
        Ok(DataPacketAction::ReceivedWithLightAck { light_ack: seq(164), recovered: false })
    );
    assert_eq!(arq.next_release_seq(), seq(100));
}

#[test]
fn ack2_gives_a_round_trip_sample_once() {
    let mut receiver = new_receiver();
    let mut timers = Timers::new(Duration::from_millis(5000));
    let mut output = Output::new();
    let mut stats = SocketStatistics::new();
    {
        let mut context = ReceiverContext::new(&mut timers, &mut output, &mut stats, &mut receiver);
        context.on_full_ack_event(ms(0));
    }
    assert_eq!(output.len(), 0);
    {
        let mut context = ReceiverContext::new(&mut timers, &mut output, &mut stats, &mut receiver);
        context.handle_data_packet(ms(0), packet(100, 0));
        context.on_full_ack_event(ms(0));
    }
    let sent = output.take_packets();
    assert_eq!(sent.len(), 1);
    match &sent[0].packet {
        ControlTypes::Ack(Acknowledgement::Full(ack)) => {
            assert_eq!(ack.ack_seq_no, FullAckSeqNumber(1));
            assert_eq!(ack.acked_up_to, seq(101));
            assert_eq!(ack.rtt_mean, Duration::from_micros(100_000));
            assert_eq!(ack.rtt_variance, Duration::from_micros(50_000));
            assert_eq!(ack.available_buffer_size, 7);
            assert_eq!(ack.pkt_recv_rate, 0);
            assert_eq!(ack.estimated_link_bandwidth, 0);
        }
        other => panic!("{:?}", other),
    }
    {
        let mut context = ReceiverContext::new(&mut timers, &mut output, &mut stats, &mut receiver);
        context.on_full_ack_event(ms(10));
    }
    assert_eq!(output.len(), 0);
    {
        let mut context = ReceiverContext::new(&mut timers, &mut output, &mut stats, &mut receiver);
        context.handle_ack2_packet(ms(30), FullAckSeqNumber(1));
    }
    assert_eq!(stats.rx_ack2, 1);
    assert_eq!(stats.rx_ack2_errors, 0);
    assert_eq!(timers.rtt, None);
    let rtt = receiver.arq.rtt_estimate();
    assert_eq!(rtt.mean, Duration::from_micros(91_250));
    assert_eq!(rtt.variance, Duration::from_micros(55_000));
    {
        let mut context = ReceiverContext::new(&mut timers, &mut output, &mut stats, &mut receiver);
        context.handle_ack2_packet(ms(40), FullAckSeqNumber(1));
    }
    assert_eq!(stats.rx_ack2, 2);
    assert_eq!(stats.rx_ack2_errors, 1);
    assert_eq!(timers, Timers::new(Duration::from_millis(5000)));
    assert_eq!(output.len(), 0);
    assert_eq!(receiver.arq.rtt_estimate(), rtt);
    assert_eq!(
        receiver.arq.handle_ack2_packet(ms(50), FullAckSeqNumber(9)),
        Some(Duration::from_micros(91_250))
    );
}

#[test]
fn full_ack_reports_rates_from_arrivals() {
    let mut arq = new_arq();
    arq.handle_data_packet(Instant::from_micros(0), packet(100, 0)).unwrap();
    arq.handle_data_packet(Instant::from_micros(1_000), packet(101, 1)).unwrap();
    arq.handle_data_packet(Instant::from_micros(3_000), packet(102, 3)).unwrap();
    let ack = arq.on_full_ack_event(ms(4)).unwrap();
    assert_eq!(ack.ack_seq_no, FullAckSeqNumber(1));
    assert_eq!(ack.acked_up_to, seq(103));
    assert_eq!(ack.available_buffer_size, 5);
    assert_eq!(ack.pkt_recv_rate, 666);
    assert_eq!(ack.estimated_link_bandwidth, 1000);
    assert_eq!(arq.rx_acknowledged_time(), Duration::from_micros(3_000));
    assert_eq!(arq.on_full_ack_event(ms(14)), None);
    arq.handle_data_packet(ms(15), packet(103, 15)).unwrap();
    assert_eq!(arq.on_full_ack_event(ms(24)).unwrap().ack_seq_no, FullAckSeqNumber(2));
}

#[test]
fn missing_packet_is_given_up_after_its_deadline() {
    let mut arq = new_arq();
    arq.handle_data_packet(ms(0), packet(100, 0)).unwrap();
    arq.handle_data_packet(ms(5), packet(103, 5)).unwrap();
    assert_eq!(numbers(&arq.pop_ready(ms(125))), vec![100]);
    assert_eq!(arq.next_release_seq(), seq(101));
    assert_eq!(arq.next_expected_seq(), seq(101));
    let due = arq.on_nak_event(ms(125)).unwrap();
    assert_eq!(due.ranges(), vec![SeqRange::new(seq(101), seq(102))]);
    assert_eq!(numbers(&arq.pop_ready(Instant::from_micros(125_001))), vec![103]);
    assert_eq!(arq.next_release_seq(), seq(104));
    assert_eq!(arq.on_nak_event(ms(10_000)), None);
    assert_eq!(
        arq.handle_data_packet(ms(126), packet(101, 1)),
        Err(DataPacketError::PacketTooLate { seq_number: seq(101), seq_number_0: seq(104) })
    );
}

#[test]
fn grace_keeps_a_missing_packet_waited_for() {
    let mut arq = new_arq();
    arq.set_drop_grace(Duration::from_millis(10));
    arq.handle_data_packet(ms(0), packet(100, 0)).unwrap();
    arq.handle_data_packet(ms(5), packet(102, 5)).unwrap();
    assert_eq!(numbers(&arq.pop_ready(ms(135))), vec![100]);
    assert_eq!(
        arq.handle_data_packet(ms(135), packet(101, 1)),
        Ok(DataPacketAction::Received { lrsn: seq(103), recovered: true })
    );
    assert_eq!(numbers(&arq.pop_ready(ms(135))), vec![101, 102]);
}

#[test]
fn nak_is_repeated_after_the_interval() {
    let mut arq = new_arq();
    arq.handle_data_packet(ms(0), packet(100, 0)).unwrap();
    arq.handle_data_packet(ms(1), packet(102, 1)).unwrap();
    assert_eq!(arq.on_nak_event(ms(20)), None);
    let due = arq.on_nak_event(ms(21)).unwrap();
    assert_eq!(due.ranges(), vec![SeqRange::new(seq(101), seq(101))]);
    assert_eq!(due.encode(), vec![101]);
    assert_eq!(arq.on_nak_event(ms(120)), None);
    assert!(arq.on_nak_event(ms(121)).is_some());
}

#[test]
fn drop_request_gives_up_missing_packets() {
    let mut receiver = new_receiver();
    let mut timers = Timers::new(Duration::from_millis(5000));
    let mut output = Output::new();
    let mut stats = SocketStatistics::new();
    {
        let mut context = ReceiverContext::new(&mut timers, &mut output, &mut stats, &mut receiver);
        context.handle_data_packet(ms(0), packet(100, 0));
        context.handle_data_packet(ms(5), packet(103, 5));
        context.handle_drop_request(ms(6), seq(101), seq(102));
    }
    assert_eq!(stats.rx_dropped_data, 2);
    assert_eq!(receiver.arq.next_release_seq(), seq(100));
    assert_eq!(receiver.arq.next_expected_seq(), seq(104));
    assert_eq!(receiver.arq.on_nak_event(ms(1000)), None);
    assert_eq!(numbers(&receiver.arq.pop_ready(ms(130))), vec![100, 103]);
    assert_eq!(receiver.arq.next_release_seq(), seq(104));
}

#[test]
fn drop_request_at_the_front_moves_the_low_water_mark() {
    let mut arq = new_arq();
    arq.handle_data_packet(ms(0), packet(102, 0)).unwrap();
    assert_eq!(arq.next_expected_seq(), seq(100));
    assert_eq!(arq.handle_drop_request(ms(1), seq(100), seq(102)), 2);
    assert_eq!(arq.next_release_seq(), seq(102));
    assert_eq!(arq.next_expected_seq(), seq(103));
    assert_eq!(arq.handle_drop_request(ms(2), seq(102), seq(103)), 1);
    assert_eq!(arq.next_release_seq(), seq(103));
    assert!(arq.is_flushed());
    assert_eq!(arq.handle_drop_request(ms(3), seq(90), seq(95)), 0);
    assert_eq!(arq.next_release_seq(), seq(103));
}

#[test]
fn clock_adjustment_is_counted() {
    let mut receiver = new_receiver();
    let mut timers = Timers::new(Duration::from_millis(5000));
    let mut output = Output::new();
    let mut stats = SocketStatistics::new();
    {
        let mut context = ReceiverContext::new(&mut timers, &mut output, &mut stats, &mut receiver);
        context.synchronize_clock(ms(10), TimeStamp::from_micros(4_000));
        context.synchronize_clock(ms(20), TimeStamp::from_micros(10_000));
    }
    assert_eq!(stats.rx_clock_adjustments, 0);
    {
        let mut context = ReceiverContext::new(&mut timers, &mut output, &mut stats, &mut receiver);
        context.synchronize_clock(ms(100), TimeStamp::from_micros(14_000));
    }
    assert_eq!(stats.rx_clock_adjustments, 1);
    receiver.arq.handle_data_packet(ms(100), packet(100, 0)).unwrap();
    let released = receiver.arq.pop_ready(ms(1000));
    assert_eq!(released[0].release_at, Instant::from_micros(11_000 + 120_000));
}

#[test]
fn draining_receiver_serves_only_the_full_ack_timer() {
    let mut receiver = new_receiver();
    let mut timers = Timers::new(Duration::from_millis(5000));
    let mut output = Output::new();
    let mut stats = SocketStatistics::new();
    {
        let mut context = ReceiverContext::new(&mut timers, &mut output, &mut stats, &mut receiver);
        context.handle_data_packet(ms(0), packet(100, 0));
        context.handle_data_packet(ms(1), packet(102, 1));
    }
    assert_eq!(output.take_packets().len(), 1);
    assert!(!receiver.is_finished());
    receiver.begin_draining();
    assert_eq!(receiver.state, ReceiverState::Draining);
    assert!(!receiver.is_finished());
    {
        let mut context = ReceiverContext::new(&mut timers, &mut output, &mut stats, &mut receiver);
        context.handle_data_packet(ms(2), packet(101, 2));
        context.on_nak_event(ms(500));
        context.handle_ack2_packet(ms(500), FullAckSeqNumber(1));
        context.handle_drop_request(ms(500), seq(101), seq(101));
        context.synchronize_clock(ms(900), TimeStamp::from_micros(0));
    }
    assert_eq!(output.len(), 0);
    assert_eq!(stats.rx_data, 2);
    assert_eq!(stats.rx_ack2, 0);
    assert_eq!(stats.rx_dropped_data, 0);
    assert_eq!(stats.rx_clock_adjustments, 0);
    assert_eq!(receiver.arq.next_expected_seq(), seq(101));
    {
        let mut context = ReceiverContext::new(&mut timers, &mut output, &mut stats, &mut receiver);
        context.on_full_ack_event(ms(510));
    }
    let sent = output.take_packets();
    assert_eq!(sent.len(), 1);
    match &sent[0].packet {
        ControlTypes::Ack(Acknowledgement::Full(ack)) => assert_eq!(ack.acked_up_to, seq(101)),
        other => panic!("{:?}", other),
    }
    receiver.begin_draining();
    assert_eq!(receiver.state, ReceiverState::Draining);
    assert_eq!(numbers(&receiver.arq.pop_ready(ms(10_000))), vec![100, 102]);
    assert!(receiver.is_finished());
}

#[test]
fn close_timeout_clears_and_closes() {
    let mut receiver = new_receiver();
    let mut timers = Timers::new(Duration::from_millis(5000));
    let mut output = Output::new();
    let mut stats = SocketStatistics::new();
    {
        let mut context = ReceiverContext::new(&mut timers, &mut output, &mut stats, &mut receiver);
        context.handle_data_packet(ms(0), packet(100, 0));
        context.handle_data_packet(ms(1), packet(103, 1));
    }
    assert!(!receiver.is_flushed());
    assert_eq!(receiver.rx_acknowledged_time(), Duration::from_micros(0));
    output.take_packets();
    {
        let mut context = ReceiverContext::new(&mut timers, &mut output, &mut stats, &mut receiver);
        context.on_close_timeout(ms(6000));
    }
    assert_eq!(receiver.state, ReceiverState::Closed);
    assert!(receiver.is_flushed());
    assert!(receiver.is_finished());
    let before = stats;
    {
        let mut context = ReceiverContext::new(&mut timers, &mut output, &mut stats, &mut receiver);
        context.on_close_timeout(ms(6001));
        context.handle_data_packet(ms(6002), packet(104, 2));
        context.on_full_ack_event(ms(6003));
        context.on_nak_event(ms(6004));
    }
    assert_eq!(stats, before);
    assert_eq!(output.len(), 0);
    assert!(receiver.arq.pop_ready(ms(9000)).is_empty());
    receiver.begin_draining();
    assert_eq!(receiver.state, ReceiverState::Closed);
}

#[test]
fn sequence_numbers_wrap_inside_the_window() {
    let start = 0x7FFF_FFFE;
    let mut arq = AutomaticRepeatRequestAlgorithm::new(ms(0), Duration::from_millis(120), seq(start), 8);
    assert_eq!(
        arq.handle_data_packet(ms(0), packet(start, 0)),
        Ok(DataPacketAction::Received { lrsn: seq(0x7FFF_FFFF), recovered: false })
    );
    let with_loss = arq.handle_data_packet(ms(1), packet(1, 1)).unwrap();
    match &with_loss {
        DataPacketAction::ReceivedWithLoss(list) => {
            assert_eq!(list.ranges(), vec![SeqRange::new(seq(0x7FFF_FFFF), seq(0))]);
            assert_eq!(list.encode(), vec![0xFFFF_FFFF, 0]);
        }
        other => panic!("{:?}", other),
    }
    assert_eq!(
        arq.handle_data_packet(ms(2), packet(0, 2)),
        Ok(DataPacketAction::Received { lrsn: seq(0x7FFF_FFFF), recovered: true })
    );
    assert_eq!(
        arq.handle_data_packet(ms(3), packet(0x7FFF_FFFF, 3)),
        Ok(DataPacketAction::Received { lrsn: seq(2), recovered: true })
    );
    assert_eq!(numbers(&arq.pop_ready(ms(200))), vec![0x7FFF_FFFE, 0x7FFF_FFFF, 0, 1]);
    assert_eq!(arq.next_release_seq(), seq(2));
}

#[test]
fn losses_stay_between_the_marks() {
    let mut arq = new_arq();
    assert_eq!(arq.highest_received_seq(), None);
    assert_eq!(arq.last_ack2_full_seq(), None);
    arq.handle_data_packet(ms(0), packet(101, 0)).unwrap();
    assert_eq!(arq.missing_ranges(), vec![SeqRange::new(seq(100), seq(100))]);
    arq.handle_data_packet(ms(1), packet(105, 1)).unwrap();
    arq.handle_data_packet(ms(2), packet(103, 2)).unwrap();
    assert_eq!(
        arq.missing_ranges(),
        vec![
            SeqRange::new(seq(100), seq(100)),
            SeqRange::new(seq(102), seq(102)),
            SeqRange::new(seq(104), seq(104)),
        ]
    );
    assert_eq!(arq.highest_received_seq(), Some(seq(105)));
    let low = arq.next_release_seq();
    let high = arq.highest_received_seq().unwrap();
    for range in arq.missing_ranges() {
        assert!(low.distance(range.first) >= 0);
        assert!(range.first.distance(range.last) >= 0);
        assert!(range.last.distance(high) > 0);
    }
    assert_eq!(numbers(&arq.pop_ready(Instant::from_micros(120_001))), vec![101]);
    assert_eq!(arq.next_release_seq(), seq(102));
    assert_eq!(
        arq.missing_ranges(),
        vec![SeqRange::new(seq(102), seq(102)), SeqRange::new(seq(104), seq(104))]
    );
    assert!(arq.pop_ready(Instant::from_micros(121_001)).is_empty());
    assert_eq!(arq.next_release_seq(), seq(103));
    assert_eq!(arq.missing_ranges(), vec![SeqRange::new(seq(104), seq(104))]);
    arq.clear();
    assert!(arq.missing_ranges().is_empty());
    assert_eq!(arq.highest_received_seq(), None);
    assert_eq!(arq.next_release_seq(), seq(103));
    arq.on_full_ack_event(ms(200));
    arq.handle_ack2_packet(ms(210), FullAckSeqNumber(1));
    assert_eq!(arq.last_ack2_full_seq(), Some(FullAckSeqNumber(1)));
}

#[test]
fn light_ack_threshold_can_be_set() {
    let mut arq = new_arq();
    arq.set_light_ack_threshold(2);
    assert_eq!(
        arq.handle_data_packet(ms(0), packet(100, 0)),
        Ok(DataPacketAction::Received { lrsn: seq(101), recovered: false })
    );
    assert_eq!(
        arq.handle_data_packet(ms(0), packet(101, 0)),
        Ok(DataPacketAction::ReceivedWithLightAck { light_ack: seq(102), recovered: false })
    );
    assert_eq!(
        arq.handle_data_packet(ms(0), packet(102, 0)),
        Ok(DataPacketAction::Received { lrsn: seq(103), recovered: false })
    );
    assert!(arq.handle_data_packet(ms(0), packet(104, 0)).is_ok());
    assert_eq!(
        arq.handle_data_packet(ms(0), packet(103, 0)),
        Ok(DataPacketAction::ReceivedWithLightAck { light_ack: seq(105), recovered: true })
    );
}

#[test]
fn drift_policy_of_the_receiver_can_be_set() {
    let mut arq = new_arq();
    arq.set_drift_policy(Duration::from_micros(10), 2);
    assert_eq!(arq.synchronize_clock(ms(1), TimeStamp::from_micros(0)), None);
    assert_eq!(arq.synchronize_clock(Instant::from_micros(1_010), TimeStamp::from_micros(0)), None);
    let adjustment = arq.synchronize_clock(Instant::from_micros(1_100), TimeStamp::from_micros(0));
    assert_eq!(adjustment.map(|a| (a.drift_micros, a.correction_micros)), Some((100, 50)));
    arq.handle_data_packet(ms(2), packet(100, 0)).unwrap();
    assert_eq!(arq.pop_ready(ms(500))[0].release_at, Instant::from_micros(121_050));
}

#[test]
fn clearing_twice_is_clearing_once() {
    let mut arq = new_arq();
    arq.handle_data_packet(ms(0), packet(100, 0)).unwrap();
    arq.handle_data_packet(ms(1), packet(104, 1)).unwrap();
    arq.on_full_ack_event(ms(2));
    arq.clear();
    assert!(arq.is_flushed());
    assert!(arq.missing_ranges().is_empty());
    assert_eq!(arq.handle_ack2_packet(ms(3), FullAckSeqNumber(1)), Some(Duration::from_micros(100_000)));
    arq.clear();
    assert!(arq.is_flushed());
    assert!(arq.missing_ranges().is_empty());
    assert_eq!(arq.next_release_seq(), seq(100));
    assert_eq!(arq.on_nak_event(ms(1_000)), None);
    assert!(arq.pop_ready(ms(1_000)).is_empty());
    assert_eq!(
        arq.handle_data_packet(ms(1_001), packet(100, 0)),
        Ok(DataPacketAction::Received { lrsn: seq(101), recovered: false })
    );
}

#[test]
fn drop_request_before_the_mark_has_no_effect() {
    let mut receiver = new_receiver();
    let mut timers = Timers::new(Duration::from_millis(5000));
    let mut output = Output::new();
    let mut stats = SocketStatistics::new();
    {
        let mut context = ReceiverContext::new(&mut timers, &mut output, &mut stats, &mut receiver);
        context.handle_data_packet(ms(0), packet(100, 0));
        context.handle_data_packet(ms(1), packet(103, 1));
    }
    output.take_packets();
    let before = stats;
    {
        let mut context = ReceiverContext::new(&mut timers, &mut output, &mut stats, &mut receiver);
        context.handle_drop_request(ms(2), seq(90), seq(99));
        context.handle_drop_request(ms(2), seq(99), seq(90));
    }
    assert_eq!(stats, before);
    assert_eq!(output.len(), 0);
    assert_eq!(receiver.arq.next_release_seq(), seq(100));
    assert_eq!(receiver.arq.missing_ranges(), vec![SeqRange::new(seq(101), seq(102))]);
    {
        let mut context = ReceiverContext::new(&mut timers, &mut output, &mut stats, &mut receiver);
        context.handle_drop_request(ms(3), seq(98), seq(101));
    }
    assert_eq!(stats.rx_dropped_data, 2);
    assert_eq!(receiver.arq.next_release_seq(), seq(102));
    assert_eq!(receiver.arq.missing_ranges(), vec![SeqRange::new(seq(102), seq(102))]);
    {
        let mut context = ReceiverContext::new(&mut timers, &mut output, &mut stats, &mut receiver);
        context.handle_drop_request(ms(4), seq(98), seq(101));
    }
    assert_eq!(stats.rx_dropped_data, 2);
    assert_eq!(receiver.arq.next_release_seq(), seq(102));
}
