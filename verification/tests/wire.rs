use prism_core::net::fec::{
    codec_error, max_data_shards_for, parity_shards_for, CodecFault, FecCodec, FecError,
    ParityBlock,
};
use prism_core::net::packet::{
    channel_of, control_type_of, Channel, ClockPing, ClockPong, ControlType, CursorPosition,
    FecPacket, FeedbackPacket, InputEvent, InputPacket, MouseButton, ProtocolError, VideoPacket,
    CLOCK_PONG_LEN, CURSOR_POSITION_LEN, FEEDBACK_PACKET_LEN, FLAG_IDR, FLAG_LAST_OF_FRAME,
    INPUT_PACKET_LEN, MAX_PACKET_SIZE, MAX_VIDEO_PAYLOAD, VIDEO_HEADER_LEN,
};
use prism_core::net::packetize::{PacketizeError, SlicePacketizer};
use prism_core::net::reassemble::{FrameReassembler, PushOutcome};
use prism_core::net::rendezvous::{
    answer, challenge, challenge_with, IpOctets, Message, PeerAddress, RendezvousError,
    MAX_MESSAGE_LEN,
};

#[test]
fn a_video_packet_reads_back() {
    let packet = VideoPacket {
        frame_id: 0x0102_0304,
        slice_id: 5,
        pkt_idx: 6,
        pkt_count: 7,
        flags: FLAG_IDR,
        capture_ts_us: 9,
        payload: b"slice",
    };
    let mut buf = [0u8; MAX_PACKET_SIZE];
    let len = packet.encode_into(&mut buf).unwrap();
    assert_eq!(len, packet.encoded_len());
    assert_eq!(len, VIDEO_HEADER_LEN + 5);
    assert_eq!(&buf[..5], &[1, 4, 3, 2, 1]);
    let read = VideoPacket::decode(&buf[..len]).unwrap();
    assert_eq!(read.frame_id, packet.frame_id);
    assert_eq!((read.slice_id, read.pkt_idx, read.pkt_count), (5, 6, 7));
    assert_eq!(read.payload, b"slice");
    assert_eq!(channel_of(&buf[..len]), Ok(Channel::Video));
}

#[test]
fn a_bad_packet_is_refused_for_what_is_wrong_with_it() {
    assert_eq!(channel_of(&[]), Err(ProtocolError::Empty));
    assert_eq!(channel_of(&[200]), Err(ProtocolError::UnknownChannel(200)));
    assert_eq!(
        FeedbackPacket::decode(&[1; 17]),
        Err(ProtocolError::WrongChannel {
            expected: Channel::Feedback,
            got: 1
        })
    );
    assert!(matches!(
        VideoPacket::decode(&[1, 0]),
        Err(ProtocolError::TooShort {
            actual: 2,
            needed: VIDEO_HEADER_LEN
        })
    ));
    let packet = VideoPacket {
        frame_id: 0,
        slice_id: 0,
        pkt_idx: 0,
        pkt_count: 1,
        flags: 0x80,
        capture_ts_us: 0,
        payload: b"",
    };
    assert_eq!(
        packet.encode_into(&mut [0; 64]),
        Err(ProtocolError::ReservedFlags(0x80))
    );
    let long = VideoPacket {
        flags: 0,
        payload: &[0; MAX_VIDEO_PAYLOAD + 1],
        ..packet
    };
    assert_eq!(
        long.encode_into(&mut [0; 2000]),
        Err(ProtocolError::PayloadTooLarge {
            actual: MAX_VIDEO_PAYLOAD + 1
        })
    );
}

#[test]
fn the_small_packets_read_back() {
    let mut buf = [0u8; 64];

    let report = FeedbackPacket {
        last_frame_id: 7,
        recv_bitmap: 0xf0f0_f0f0,
        client_ts_us: 123,
    };
    assert_eq!(report.encode_into(&mut buf), Ok(FEEDBACK_PACKET_LEN));
    assert_eq!(FeedbackPacket::decode(&buf[..FEEDBACK_PACKET_LEN]), Ok(report));
    assert_eq!(
        report.encode_into(&mut [0; 3]),
        Err(ProtocolError::BufferTooSmall {
            actual: 3,
            needed: FEEDBACK_PACKET_LEN
        })
    );

    let pong = ClockPong {
        t1_us: 1,
        t2_us: 2,
        t3_us: u64::MAX,
    };
    assert_eq!(pong.encode_into(&mut buf), Ok(CLOCK_PONG_LEN));
    assert_eq!(ClockPong::decode(&buf[..CLOCK_PONG_LEN]), Ok(pong));
    assert_eq!(control_type_of(&buf), Ok(ControlType::ClockPong));
    assert!(ClockPing::decode(&buf[..CLOCK_PONG_LEN]).is_err());

    let cursor = CursorPosition {
        sample_ts_us: 5,
        x: 10,
        y: 20,
        screen_width: 1920,
        screen_height: 1080,
    };
    assert_eq!(cursor.encode_into(&mut buf), Ok(CURSOR_POSITION_LEN));
    assert_eq!(CursorPosition::decode(&buf[..CURSOR_POSITION_LEN]), Ok(cursor));
    let nowhere = CursorPosition {
        screen_width: 0,
        ..cursor
    };
    assert_eq!(
        nowhere.encode_into(&mut buf),
        Err(ProtocolError::EmptyScreen {
            width: 0,
            height: 1080
        })
    );

    for event in [
        InputEvent::MouseMove { dx: -3, dy: 4 },
        InputEvent::MouseButton {
            button: MouseButton::Right,
            pressed: true,
        },
        InputEvent::MouseScroll { dx: 0, dy: -120 },
        InputEvent::Key {
            usage: 0x04,
            pressed: false,
        },
    ] {
        let packet = InputPacket {
            origin_ts_us: 77,
            event,
        };
        assert_eq!(packet.encode_into(&mut buf), Ok(INPUT_PACKET_LEN));
        assert_eq!(InputPacket::decode(&buf[..INPUT_PACKET_LEN]), Ok(packet));
    }
    assert_eq!(
        InputPacket::decode(&buf[..14]),
        Err(ProtocolError::WrongLength {
            actual: 14,
            expected: INPUT_PACKET_LEN
        })
    );
    buf[1] = 99;
    assert_eq!(
        InputPacket::decode(&buf[..INPUT_PACKET_LEN]),
        Err(ProtocolError::UnknownInputKind(99))
    );
    assert_eq!(
        control_type_of(&[0, 77]),
        Err(ProtocolError::UnknownControlType(77))
    );
}

#[test]
fn a_slice_is_cut_into_full_packets_and_a_tail() {
    let data = vec![3u8; MAX_VIDEO_PAYLOAD * 2 + 10];
    let mut packetizer = SlicePacketizer::new(1, 2, FLAG_LAST_OF_FRAME, 4, &data).unwrap();
    assert_eq!(packetizer.packet_count(), 3);
    assert_eq!(packetizer.size_hint(), (3, Some(3)));
    let mut lengths = Vec::new();
    while let Some(packet) = packetizer.next() {
        assert_eq!(packet.pkt_count, 3);
        assert_eq!(packet.pkt_idx as usize, lengths.len());
        lengths.push(packet.payload.len());
    }
    assert_eq!(lengths, [MAX_VIDEO_PAYLOAD, MAX_VIDEO_PAYLOAD, 10]);
    assert!(matches!(
        SlicePacketizer::new(1, 2, 0, 4, &[]),
        Err(PacketizeError::EmptySlice)
    ));
    let huge = vec![0u8; 65_535 * MAX_VIDEO_PAYLOAD + 1];
    assert!(matches!(
        SlicePacketizer::new(1, 2, 0, 4, &huge),
        Err(PacketizeError::SliceTooLarge { actual }) if actual == huge.len()
    ));
}

fn packets_of(data: &[u8], frame: u32, slice: u16, flags: u8) -> Vec<VideoPacket<'_>> {
    let mut packetizer = SlicePacketizer::new(frame, slice, flags, 11, data).unwrap();
    let mut packets = Vec::new();
    while let Some(packet) = packetizer.next() {
        packets.push(packet);
    }
    packets
}

#[test]
fn a_frame_comes_back_whole_in_whatever_order_it_arrives() {
    let first: Vec<u8> = (0..3000u32).map(|i| i as u8).collect();
    let second = vec![9u8; 50];
    let mut receiver = FrameReassembler::new(2);
    let mut packets = packets_of(&first, 8, 0, FLAG_IDR);
    packets.extend(packets_of(&second, 8, 1, FLAG_IDR | FLAG_LAST_OF_FRAME));
    packets.reverse();

    for packet in &packets[..packets.len() - 1] {
        assert_eq!(receiver.push(packet), PushOutcome::Accepted);
        assert_eq!(receiver.push(packet), PushOutcome::Duplicate);
    }
    assert!(receiver.take_completed().is_none());
    assert_eq!(
        receiver.push(packets.last().unwrap()),
        PushOutcome::FrameComplete
    );

    {
        let frame = receiver.take_completed().unwrap();
        assert_eq!(frame.data[..3000], first[..]);
        assert_eq!(frame.data[3000..], second[..]);
        assert_eq!((frame.frame_id, frame.capture_ts_us), (8, 11));
        assert!(frame.is_idr);
    }
    assert_eq!(receiver.push(&packets[0]), PushOutcome::Stale);
    let stats = receiver.stats();
    assert_eq!((stats.accepted, stats.completed, stats.stale), (4, 1, 1));
    assert_eq!(stats.duplicates, 3);
}

#[test]
fn the_oldest_unfinished_frame_gives_way() {
    let data = vec![1u8; 2000];
    let mut receiver = FrameReassembler::new(2);
    for frame in 1..=3 {
        let packets = packets_of(&data, frame, 0, FLAG_LAST_OF_FRAME);
        assert_eq!(receiver.push(&packets[0]), PushOutcome::Accepted);
    }
    assert_eq!(receiver.stats().dropped_incomplete, 1);
    // The first frame has been evicted, and what is left of it is stale.
    let packets = packets_of(&data, 1, 0, FLAG_LAST_OF_FRAME);
    assert_eq!(receiver.push(&packets[1]), PushOutcome::Stale);
    let packets = packets_of(&data, 3, 0, FLAG_LAST_OF_FRAME);
    assert_eq!(receiver.push(&packets[1]), PushOutcome::FrameComplete);
}

#[test]
fn a_contradictory_packet_is_invalid() {
    let mut receiver = FrameReassembler::new(2);
    let packet = VideoPacket {
        frame_id: 1,
        slice_id: 0,
        pkt_idx: 4,
        pkt_count: 4,
        flags: 0,
        capture_ts_us: 0,
        payload: b"x",
    };
    assert_eq!(receiver.push(&packet), PushOutcome::Invalid);
    let far = VideoPacket {
        slice_id: 64,
        pkt_idx: 0,
        pkt_count: 1,
        ..packet
    };
    assert_eq!(receiver.push(&far), PushOutcome::Invalid);
    assert_eq!(receiver.stats().invalid, 2);
}

#[test]
fn parity_alone_does_not_make_a_frame_but_repairs_one() {
    let data: Vec<u8> = (0..5000u32).map(|i| (i % 253) as u8).collect();
    let mut codec = FecCodec::new();
    let mut parity = ParityBlock::new();
    codec.encode(&data, MAX_VIDEO_PAYLOAD, 2, &mut parity).unwrap();
    let packets = packets_of(&data, 1, 0, FLAG_LAST_OF_FRAME);
    assert_eq!(packets.len(), 5);

    let mut receiver = FrameReassembler::new(2);
    for packet in &packets[2..] {
        assert_eq!(receiver.push(packet), PushOutcome::Accepted);
    }
    let shard = |index: u8| FecPacket {
        frame_id: 1,
        slice_id: 0,
        data_count: 5,
        parity_count: 2,
        shard_index: index,
        tail_len: (5000 - 4 * MAX_VIDEO_PAYLOAD) as u16,
        capture_ts_us: 11,
        payload: parity.shard(index as usize).unwrap(),
    };
    assert_eq!(shard(0).slice_len(), 5000);
    assert_eq!(receiver.push_fec(&shard(0)), PushOutcome::Accepted);
    assert_eq!(receiver.push_fec(&shard(1)), PushOutcome::FrameComplete);
    assert_eq!(receiver.take_completed().unwrap().data, &data[..]);
    assert_eq!(receiver.stats().recovered, 1);
}

#[test]
fn a_block_is_repaired_from_as_many_shards_as_it_has_data() {
    let mut codec = FecCodec::new();
    let mut parity = ParityBlock::new();
    let block: Vec<u8> = (0..40u8).collect();
    codec.encode(&block, 10, 2, &mut parity).unwrap();
    assert_eq!((parity.shard_count(), parity.shard_len()), (2, 10));
    assert_eq!(parity.present_count(), 2);
    assert_ne!(parity.shard(0).unwrap(), &block[..10]);

    let mut data = block.clone();
    data[0..10].fill(0);
    data[30..40].fill(0);
    let mut present = [false, true, true, false];
    assert_eq!(codec.reconstruct(&mut data, &mut present, &mut parity, 10), Ok(2));
    assert_eq!(data, block);
    assert_eq!(present, [true; 4]);
    assert_eq!(codec.prepared_shapes(), 1);

    let mut present = [false, false, false, true];
    assert_eq!(
        codec.reconstruct(&mut data, &mut present, &mut parity, 10),
        Err(FecError::Unrecoverable {
            missing: 3,
            present: 3,
            needed: 4
        })
    );
}

#[test]
fn parity_counts_follow_the_loss_inside_their_band() {
    assert_eq!(parity_shards_for(3, 0), 1);
    assert_eq!(parity_shards_for(100, 5), 10);
    assert_eq!(parity_shards_for(100, 15), 15);
    assert_eq!(parity_shards_for(100, 90), 20);
    assert_eq!(parity_shards_for(0, 15), 0);
    assert_eq!(parity_shards_for(255, 15), 0);
    assert_eq!(parity_shards_for(250, 20), 5);
    assert!(max_data_shards_for(20) < max_data_shards_for(10));
}

#[test]
fn what_cannot_be_encoded_says_why() {
    let mut codec = FecCodec::new();
    let mut parity = ParityBlock::new();
    assert_eq!(
        codec.encode(&[], 10, 2, &mut parity),
        Err(FecError::EmptyBlock)
    );
    assert_eq!(
        codec.encode(&[1], 0, 2, &mut parity),
        Err(FecError::ZeroShardLen)
    );
    assert_eq!(
        codec.encode(&[1], 10, 0, &mut parity),
        Err(FecError::NoParity)
    );
    assert_eq!(
        codec.prepare(250, 10),
        Err(FecError::BlockTooLarge {
            data_shards: 250,
            parity_shards: 10
        })
    );
    assert!(codec.prepare(4, 2).is_ok());
    assert_eq!(
        codec_error(CodecFault::EmptyShard),
        FecError::Codec("empty shard")
    );
    parity.reset(2, 8);
    assert!(parity.shard_mut(2).is_none());
    parity.shard_mut(1).unwrap()[0] = 5;
    parity.set_present(1, true);
    assert!(parity.is_present(1) && !parity.is_present(0) && !parity.is_present(9));
    assert_eq!(
        codec.reconstruct(&mut [0; 7], &mut [true], &mut parity, 8),
        Err(FecError::DataLenMismatch {
            actual: 7,
            expected: 8,
            shards: 1
        })
    );
    assert_eq!(
        codec.reconstruct(&mut [0; 4], &mut [true], &mut parity, 4),
        Ok(0),
        "nothing is missing"
    );
    assert_eq!(
        codec.reconstruct(&mut [0; 4], &mut [false], &mut parity, 4),
        Err(FecError::ShardLenMismatch {
            actual: 8,
            expected: 4
        })
    );
}

#[test]
fn rendezvous_messages_read_back() {
    let v4 = PeerAddress {
        ip: IpOctets::V4([10, 0, 0, 7]),
        port: 4711,
    };
    let v6 = PeerAddress {
        ip: IpOctets::V6([0xfe; 16]),
        port: 65_535,
    };
    for message in [
        Message::Register { host: [1; 32] },
        Message::Challenge {
            ephemeral: [2; 32],
            sealed: [3; 32],
        },
        Message::Prove {
            host: [4; 32],
            secret: [5; 16],
        },
        Message::Registered { observed: v6 },
        Message::Connect {
            host: [6; 32],
            client: [7; 32],
        },
        Message::Incoming {
            client: [8; 32],
            address: v4,
        },
        Message::Found {
            address: v4,
            observed: v6,
        },
        Message::UnknownHost,
        Message::Relay {
            host: [9; 32],
            client: [10; 32],
        },
    ] {
        let mut out = [0u8; MAX_MESSAGE_LEN];
        let len = message.encode_into(&mut out).unwrap();
        assert_eq!(Message::decode(&out[..len]).as_ref(), Ok(&message));
        assert!(message.encode_into(&mut out[..len - 1]).is_err());
    }
    assert_eq!(Message::decode(&[]), Err(RendezvousError::Empty));
    assert_eq!(
        Message::decode(&[0x7f]),
        Err(RendezvousError::UnknownType { tag: 0x7f })
    );
    // What follows the tag is what is counted.
    assert_eq!(
        Message::decode(&[1, 2, 3]),
        Err(RendezvousError::BadLength {
            kind: "register",
            actual: 2,
            expected: 32
        })
    );
}

#[test]
fn a_challenge_is_answered_by_the_holder_of_the_key() {
    let host = prism_core::net::handshake::public_key(&[9; 32]).unwrap();
    let (message, secret) = challenge_with(&host, &[5; 32], &[3; 16]).unwrap();
    assert_eq!(secret, [3; 16]);
    let Message::Challenge { ephemeral, sealed } = message else {
        panic!("a challenge is a challenge");
    };
    assert_eq!(&ephemeral[..4], &[0x50, 0xa6, 0x14, 0x09]);
    assert_eq!(
        &sealed[..8],
        &[0xcd, 0x07, 0x79, 0xa0, 0x22, 0x43, 0xb6, 0x22]
    );
    assert_eq!(answer(&[9; 32], &ephemeral, &sealed), Ok([3; 16]));
    assert_eq!(
        answer(&[8; 32], &ephemeral, &sealed),
        Err(RendezvousError::NotProven)
    );

    let (message, secret) = challenge(&host).unwrap();
    let Message::Challenge { ephemeral, sealed } = message else {
        panic!("a challenge is a challenge");
    };
    assert_eq!(answer(&[9; 32], &ephemeral, &sealed), Ok(secret));
}
