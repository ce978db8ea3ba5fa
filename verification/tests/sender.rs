use prism_core::net::cc::LossReading;
use prism_core::net::fec::{max_data_shards_for, parity_shards_for};
use prism_core::net::packet::{
    ClockPing, FeedbackPacket, InputEvent, InputPacket, VideoPacket, CLOCK_PING_LEN,
    FEEDBACK_PACKET_LEN, FLAG_IDR, FLAG_LAST_OF_FRAME, INPUT_PACKET_LEN, MAX_VIDEO_PAYLOAD,
};
use prism_core::net::packetize::SlicePacketizer;
use prism_core::net::reassemble::{FrameReassembler, PushOutcome};
use prism_core::net::sender::{
    max_slice_bytes, Outbound, ReturnAction, ReturnHandler, ReturnPath, SliceSender,
    KEYFRAME_REQUEST_INTERVAL_US,
};

/// A moment far enough from zero that the interval arithmetic is not measuring startup.
const NOW: u64 = 10_000_000;

#[test]
fn nothing_is_forced_until_a_client_asks() {
    let mut feedback = ReturnPath::default();

    assert!(!feedback.take_keyframe_request(NOW));
}

#[test]
fn the_first_request_is_answered_at_once() {
    // The whole point is that the client is stuck and stays stuck until this arrives. Making it
    // wait out an interval it never started would add a quarter of a second of black to every
    // recovery.
    let mut feedback = ReturnPath::default();
    feedback.keyframe_wanted = true;

    assert!(feedback.take_keyframe_request(NOW));
}

#[test]
fn one_request_produces_one_keyframe() {
    let mut feedback = ReturnPath::default();
    feedback.keyframe_wanted = true;

    assert!(feedback.take_keyframe_request(NOW));
    assert!(
        !feedback.take_keyframe_request(NOW + KEYFRAME_REQUEST_INTERVAL_US * 10),
        "a request already answered was answered again"
    );
}

#[test]
fn a_client_asking_on_every_frame_does_not_get_a_keyframe_on_every_frame() {
    // The bound on what one bit of the return path can make the host do. A peer that sets it on
    // every report, through a bug or on purpose, would otherwise have every frame encoded
    // intra, and the picture would fall apart with nothing on the host saying why.
    let mut feedback = ReturnPath::default();

    feedback.keyframe_wanted = true;
    assert!(feedback.take_keyframe_request(NOW));

    // A frame at a hundred and twenty a second, which is the fastest anything asks.
    for frame in 1..KEYFRAME_REQUEST_INTERVAL_US / 8_000 {
        feedback.keyframe_wanted = true;
        assert!(
            !feedback.take_keyframe_request(NOW + frame * 8_000),
            "a second keyframe went out {} us after the first",
            frame * 8_000
        );
    }

    feedback.keyframe_wanted = true;
    assert!(
        feedback.take_keyframe_request(NOW + KEYFRAME_REQUEST_INTERVAL_US),
        "a client still stuck after the interval was never answered again"
    );
    assert_eq!(feedback.keyframes_forced, 2);
}

#[test]
fn a_capture_is_remembered_until_its_slot_is_taken() {
    let mut feedback = ReturnPath::default();
    assert_eq!(feedback.capture_of(0), None);
    assert_eq!(feedback.capture_of(u32::MAX), None);

    feedback.remember_capture(7, 1_000);
    feedback.remember_capture(8, 2_000);
    assert_eq!(feedback.capture_of(7), Some(1_000));

    // Sixty-four frames on, the slot holds another frame.
    feedback.remember_capture(71, 3_000);
    assert_eq!(feedback.capture_of(7), None);
    assert_eq!(feedback.capture_of(71), Some(3_000));
    assert_eq!(feedback.capture_of(8), Some(2_000));

    // The reserved identifier yields no sample.
    feedback.remember_capture(u32::MAX, 4_000);
    assert_eq!(feedback.capture_of(u32::MAX), None);
}

#[test]
fn a_wire_slice_fits_one_parity_block() {
    assert_eq!(max_slice_bytes(None), usize::MAX);
    assert!(max_slice_bytes(Some(5)) < usize::MAX);
    assert_eq!(
        max_slice_bytes(Some(20)),
        max_data_shards_for(20) * MAX_VIDEO_PAYLOAD
    );
    assert_eq!(max_data_shards_for(20), 212);
    assert_eq!(max_data_shards_for(10), 231);
}

#[test]
fn slices_are_numbered_from_the_start_of_each_frame() {
    let mut sender = SliceSender::new();

    let first = sender.cut(9, 5_000, true, false);
    assert_eq!(first.len(), 1);
    assert_eq!((first[0].start, first[0].end), (0, 5_000));
    assert_eq!((first[0].slice_id, first[0].flags), (0, FLAG_IDR));

    let second = sender.cut(9, 10, true, true);
    assert_eq!(
        (second[0].slice_id, second[0].flags),
        (1, FLAG_IDR | FLAG_LAST_OF_FRAME)
    );

    let next = sender.cut(10, 10, false, true);
    assert_eq!((next[0].slice_id, next[0].flags), (0, FLAG_LAST_OF_FRAME));
}

#[test]
fn a_long_slice_is_cut_into_several_and_only_the_last_ends_the_frame() {
    let mut sender = SliceSender::new();
    sender.enable_parity(20);
    let limit = max_slice_bytes(Some(20));

    let slices = sender.cut(1, limit * 2 + 1, false, true);

    assert_eq!(slices.len(), 3);
    assert_eq!((slices[0].start, slices[0].end), (0, limit));
    assert_eq!((slices[1].start, slices[1].end), (limit, 2 * limit));
    assert_eq!((slices[2].start, slices[2].end), (2 * limit, 2 * limit + 1));
    assert_eq!(
        slices.iter().map(|s| s.slice_id).collect::<Vec<_>>(),
        [0, 1, 2]
    );
    assert_eq!(
        slices.iter().map(|s| s.flags).collect::<Vec<_>>(),
        [0, 0, FLAG_LAST_OF_FRAME]
    );
}

#[test]
fn what_is_sent_is_what_is_reassembled_even_with_packets_lost() {
    let mut sender = SliceSender::new();
    sender.enable_parity(10);
    let data: Vec<u8> = (0..400_000usize).map(|i| (i % 251) as u8).collect();
    let mut receiver = FrameReassembler::new(4);

    let slices = sender.cut(3, data.len(), true, true);
    assert_eq!(slices.len(), 2);
    for slice in &slices {
        let piece = &data[slice.start..slice.end];
        let mut packetizer = SlicePacketizer::new(3, slice.slice_id, slice.flags, 77, piece).unwrap();
        let mut sent = 0u32;
        while let Some(packet) = packetizer.next() {
            sent += 1;
            // One packet in fifty is lost.
            if sent % 50 != 0 {
                receiver.push(&packet);
            }
        }
        let shape = sender.protect(piece).expect("every piece fits one block");
        assert_eq!(shape.data_count as usize, piece.len().div_ceil(MAX_VIDEO_PAYLOAD));
        assert_eq!(
            shape.parity_count as usize,
            parity_shards_for(shape.data_count as usize, 10)
        );
        for index in 0..shape.parity_count {
            let packet = sender
                .parity_packet(3, slice.slice_id, shape, 77, index)
                .unwrap();
            receiver.push_fec(&packet);
        }
        assert!(sender
            .parity_packet(3, slice.slice_id, shape, 77, shape.parity_count)
            .is_none());
    }

    let frame = receiver.take_completed().expect("repaired from parity");
    assert_eq!(frame.frame_id, 3);
    assert!(frame.is_idr);
    assert_eq!(frame.data, &data[..]);
    assert_eq!(receiver.stats().recovered, 2);
}

#[test]
fn a_sent_frame_is_rebuilt_from_its_bytes() {
    let mut sender = SliceSender::new();
    sender.enable_parity(15);
    let mut receiver = FrameReassembler::new(4);

    for frame in 1..=3u32 {
        let slices: Vec<Vec<u8>> = (0..3u8)
            .map(|n| vec![n.wrapping_mul(frame as u8); 3_000 + usize::from(n)])
            .collect();
        let mut complete = false;
        for (n, data) in slices.iter().enumerate() {
            let packets = sender.send_slice(frame, data, 1_000, frame == 1, n == 2);
            // Three video packets and then one of parity.
            assert_eq!(packets.len(), 4);
            for (index, packet) in packets.iter().enumerate() {
                let outcome = match packet {
                    // The middle packet of every slice is lost.
                    Outbound::Video(_) if index == 1 => continue,
                    Outbound::Video(bytes) => {
                        let packet = VideoPacket::decode(bytes).unwrap();
                        assert_eq!(usize::from(packet.slice_id), n);
                        assert_eq!(packet.capture_ts_us, 1_000);
                        receiver.push(&packet)
                    }
                    Outbound::Parity(packet) => {
                        assert_eq!(index, 3);
                        receiver.push_fec(&packet.as_packet())
                    }
                };
                complete = outcome == PushOutcome::FrameComplete;
            }
        }
        assert!(complete);
        let rebuilt = receiver.take_completed().unwrap();
        assert_eq!(rebuilt.frame_id, frame);
        assert_eq!(rebuilt.is_idr, frame == 1);
        assert_eq!(rebuilt.data, slices.concat());
    }
}

#[test]
fn parity_is_only_made_where_it_is_on_and_fits() {
    let mut sender = SliceSender::new();
    assert!(sender.protect(&[1, 2, 3]).is_none());

    sender.enable_parity(10);
    assert!(sender.protect(&[]).is_none());
    let shape = sender.protect(&[1, 2, 3]).unwrap();
    assert_eq!((shape.data_count, shape.parity_count, shape.tail_len), (1, 1, 3));
    // With one data shard and one parity shard the parity is the shard itself, padded.
    let packet = sender.parity_packet(0, 0, shape, 0, 0).unwrap();
    assert_eq!(&packet.payload[..3], &[1, 2, 3]);
    assert!(packet.payload[3..].iter().all(|&b| b == 0));
    assert!(sender
        .protect(&vec![0u8; max_slice_bytes(Some(10)) + 1])
        .is_none());
}

#[test]
fn packets_are_paced_counted_and_dropped() {
    let mut sender = SliceSender::new();
    let plain = sender.emit(1200, 0, NOW);
    assert_eq!((plain.wait_ns, plain.send), (0, true));
    assert_eq!((sender.packets(), sender.bytes()), (1, 1200));

    // Everything is dropped at a rate of a million, and still counted.
    sender.inject_loss(1_000_000, 1);
    assert!(!sender.emit(1200, 0, NOW).send);
    assert_eq!((sender.packets(), sender.bytes()), (2, 2400));
    assert_eq!(sender.loss().unwrap().tally(), (1, 1));

    // 8 Mbps is paced at 10 Mbps, where a packet costs 960 us and the burst is four of them.
    sender.enable_pacing(8_000_000, true);
    let waits: Vec<u64> = (0..8).map(|_| sender.emit(1200, 0, 0).wait_ns).collect();
    assert_eq!(waits, [0, 0, 0, 0, 0, 0, 1_920_000, 2_880_000]);

    // Feedback moves the rate, from the next packet on.
    sender.emit(1200, 16_000_000, 0);
    assert_eq!(sender.pacer().unwrap().bitrate_bps(), 16_000_000);

    sender.count_unpaced(18);
    sender.count_audio(100);
    sender.count_parity();
    assert_eq!(sender.audio_frames(), 1);
    assert_eq!(sender.parity_sent(), 1);
    assert_eq!(sender.packets(), 13);
}

fn feedback_bytes(frame: u32, bitmap: u32, client_ts_us: u64) -> [u8; FEEDBACK_PACKET_LEN] {
    let mut bytes = [0u8; FEEDBACK_PACKET_LEN];
    FeedbackPacket {
        last_frame_id: frame,
        recv_bitmap: bitmap,
        client_ts_us,
    }
    .encode_into(&mut bytes)
    .unwrap();
    bytes
}

#[test]
fn a_clock_ping_is_answered_with_its_own_stamp() {
    let mut handler = ReturnHandler::new(false, 0);
    let mut path = ReturnPath::default();
    let mut bytes = [0u8; CLOCK_PING_LEN];
    ClockPing { t1_us: 42 }.encode_into(&mut bytes).unwrap();

    let action = handler.handle(&mut path, &bytes, false, 99, LossReading::Low, 0);

    assert!(matches!(action, ReturnAction::Pong { t1_us: 42, t2_us: 99 }));
    assert!(matches!(
        handler.handle(&mut path, &bytes[..9], false, 99, LossReading::Low, 0),
        ReturnAction::Nothing
    ));
    assert!(matches!(
        handler.handle(&mut path, &[], false, 99, LossReading::Low, 0),
        ReturnAction::Nothing
    ));
}

#[test]
fn input_is_timed_and_summed_up_every_five_hundred_events() {
    let mut handler = ReturnHandler::new(false, 0);
    let mut path = ReturnPath::default();
    let mut bytes = [0u8; INPUT_PACKET_LEN];
    let event = InputEvent::MouseMove { dx: 3, dy: -4 };
    InputPacket {
        origin_ts_us: 1_000,
        event,
    }
    .encode_into(&mut bytes)
    .unwrap();

    for n in 1..=500u64 {
        match handler.handle(&mut path, &bytes, false, 1_250, LossReading::Low, 0) {
            ReturnAction::Inject {
                event: seen,
                events,
                confirm,
                summary,
            } => {
                assert_eq!(seen, event);
                assert_eq!(events, n);
                assert_eq!(confirm, n == 20);
                assert_eq!(summary.is_some(), n == 500);
                if let Some(summary) = summary {
                    assert_eq!((summary.p50_us, summary.p99_us), (250, 250));
                    assert_eq!(summary.count, 500);
                }
            }
            other => panic!("{other:?}"),
        }
    }
}

#[test]
fn only_the_newest_report_counts() {
    let mut handler = ReturnHandler::new(false, 0);
    let mut path = ReturnPath::default();

    let newest = feedback_bytes(10, 0xffff_ff00, 0);
    handler.handle(&mut path, &newest, true, 0, LossReading::Low, 0);
    assert_eq!(path.newest_acked, 10);
    assert_eq!(path.missing_in_last, 8);
    assert!(path.keyframe_wanted);
    assert_eq!(path.keyframe_requests, 1);

    // An older one is counted as a report and otherwise ignored, its request too.
    let older = feedback_bytes(9, 0, 0);
    handler.handle(&mut path, &older, true, 0, LossReading::Low, 0);
    assert_eq!((path.newest_acked, path.missing_in_last), (10, 8));
    assert_eq!(path.keyframe_requests, 1);
    assert_eq!(path.reports, 2);
}

#[test]
fn a_delay_sample_is_taken_once_of_each_frame_that_is_remembered() {
    let mut handler = ReturnHandler::new(true, 30_000_000);
    let mut path = ReturnPath::default();
    assert_eq!(handler.target_bps(), Some(30_000_000));
    path.remember_capture(5, 500);

    let report = feedback_bytes(5, 0xffff_fffe, 700);
    let action = handler.handle(&mut path, &report, false, 1_000, LossReading::Low, 0);
    assert!(matches!(
        action,
        ReturnAction::Heard {
            sampled: Some(1),
            closed: false
        }
    ));
    assert_eq!(path.target_bps, 30_000_000);

    // The same frame again is not a sample, nor is one that is not remembered.
    let action = handler.handle(&mut path, &report, false, 2_000, LossReading::Low, 0);
    assert!(matches!(action, ReturnAction::Heard { sampled: None, .. }));
    let unknown = feedback_bytes(6, 0, 0);
    let action = handler.handle(&mut path, &unknown, false, 2_000, LossReading::Low, 0);
    assert!(matches!(action, ReturnAction::Heard { sampled: None, .. }));
}

#[test]
fn delay_that_keeps_rising_brings_the_rate_down() {
    let mut handler = ReturnHandler::new(true, 40_000_000);
    let mut path = ReturnPath::default();

    // A frame every fifty milliseconds, each one five milliseconds later than the last.
    for frame in 0..20u32 {
        let captured = u64::from(frame) * 50_000;
        path.remember_capture(frame, captured);
        let report = feedback_bytes(frame, u32::MAX, captured + u64::from(frame) * 5_000);
        handler.handle(
            &mut path,
            &report,
            false,
            captured,
            LossReading::Low,
            28_000_000,
        );
    }

    assert_eq!(path.target_bps, 28_000_000);
    assert_eq!(path.rate_changes, 1);
}
