use aes_gcm::aead::AeadInPlace;
use aes_gcm::{Aes256Gcm, KeyInit, Tag};
use prism_core::net::handshake::{
    agree, public_key, Answer, Handshake, HandshakeError, Identity, Initiator, PeerPolicy,
    Responder, INIT_OVERHEAD, MAX_HANDSHAKE_PAYLOAD, RESPONSE_OVERHEAD,
};
use prism_core::net::negotiate::{
    decide, Accept, Codec, Codecs, HostAbility, NegotiateError, Offer, ACCEPT_LEN, AV1, H264, HEVC,
    OFFER_LEN,
};
use prism_core::net::packet::{MAX_PLAINTEXT_SIZE, SEAL_OVERHEAD};
use prism_core::net::pairing::{
    digit_from, PairingClient, PairingError, PairingHost, Pin, ACCEPT_LEN as PAIR_ACCEPT_LEN,
    HELLO_LEN, OFFER_LEN as PAIR_OFFER_LEN,
};
use prism_core::net::seal::{next_counter, seal_with, Opener, SealError, Sealer, MAX_COUNTER};
use prism_core::net::secure::{Received, RejectBudget, REJECT_BUDGET};

fn bytes_of(hex: &str) -> Vec<u8> {
    (0..hex.len() / 2)
        .map(|i| u8::from_str_radix(&hex[2 * i..2 * i + 2], 16).unwrap())
        .collect()
}

fn key_of(hex: &str) -> [u8; 32] {
    bytes_of(hex).try_into().unwrap()
}

#[test]
fn a_sealed_packet_is_its_counter_and_the_cipher_over_it() {
    let mut out = [0u8; 64];
    let written = seal_with(&[7; 32], 5, b"hello", &mut out).unwrap();
    assert_eq!(
        out[..written],
        bytes_of("0500000000000000668d2eaa4757e5343d0e16a4f670c34a03ca957421")[..]
    );

    // And the outside cipher opens it.
    let mut text = out[8..13].to_vec();
    let mut nonce = [0u8; 12];
    nonce[0] = 5;
    Aes256Gcm::new((&[7u8; 32]).into())
        .decrypt_in_place_detached(
            (&nonce).into(),
            &[],
            &mut text,
            Tag::from_slice(&out[13..29]),
        )
        .unwrap();
    assert_eq!(text, b"hello");
}

#[test]
fn what_is_sealed_opens_once() {
    let mut sealer = Sealer::new(&[1; 32]);
    assert_eq!(sealer.sent(), 0);
    let mut opener = Opener::new(&[1; 32]);
    let mut packet = [0u8; 64];

    let len = sealer.seal(b"picture", &mut packet).unwrap();
    assert_eq!(len, 7 + SEAL_OVERHEAD);
    let mut again = packet;
    assert_eq!(opener.open(&mut packet[..len]).unwrap(), b"picture");
    assert_eq!(
        opener.open(&mut again[..len]),
        Err(SealError::Replay { counter: 0 })
    );
    assert_eq!((opener.forged(), opener.replayed()), (0, 1));
    assert_eq!(sealer.sent(), 1);
}

#[test]
fn two_handles_on_one_direction_never_share_a_counter() {
    let mut video = Sealer::new(&[1; 32]);
    let mut audio = video.split();
    let mut opener = Opener::new(&[1; 32]);
    let mut packet = [0u8; 64];
    for round in 0..4 {
        let len = if round % 2 == 0 {
            video.seal(b"v", &mut packet).unwrap()
        } else {
            audio.seal(b"a", &mut packet).unwrap()
        };
        assert_eq!(packet[0], round);
        assert!(opener.open(&mut packet[..len]).is_ok());
    }
}

#[test]
fn a_forgery_is_refused_and_leaves_the_window_alone() {
    let mut opener = Opener::new(&[1; 32]);
    let mut packet = [0u8; 64];
    let len = seal_with(&[2; 32], 900, b"x", &mut packet).unwrap();
    assert_eq!(opener.open(&mut packet[..len]), Err(SealError::NotAuthentic));
    assert_eq!(
        opener.open(&mut packet[..23]),
        Err(SealError::TooShort { actual: 23 })
    );
    let len = seal_with(&[1; 32], 3, b"x", &mut packet).unwrap();
    assert!(opener.open(&mut packet[..len]).is_ok());
    assert_eq!(opener.forged(), 1);
}

#[test]
fn the_replay_window_is_sixty_four_wide() {
    let mut opener = Opener::new(&[1; 32]);
    let mut packet = [0u8; 64];
    let mut offer = |counter: u64| {
        let len = seal_with(&[1; 32], counter, b"x", &mut packet).unwrap();
        opener.open(&mut packet[..len]).map(<[u8]>::len)
    };
    assert_eq!(offer(100), Ok(1));
    assert_eq!(offer(164), Ok(1));
    // Exactly the width of the window behind, and seen.
    assert_eq!(offer(100), Err(SealError::Replay { counter: 100 }));
    assert_eq!(offer(101), Ok(1), "late, and not seen");
    assert_eq!(offer(101), Err(SealError::Replay { counter: 101 }));
    assert_eq!(offer(99), Err(SealError::Replay { counter: 99 }), "too old");
    assert_eq!(offer(10_000), Ok(1));
    assert_eq!(offer(164), Err(SealError::Replay { counter: 164 }));
}

#[test]
fn what_cannot_be_sealed_is_refused() {
    let mut sealer = Sealer::new(&[1; 32]);
    let mut out = [0u8; 1200];
    assert_eq!(
        sealer.seal(&[0; MAX_PLAINTEXT_SIZE + 1], &mut out),
        Err(SealError::TooLarge {
            actual: MAX_PLAINTEXT_SIZE + 1
        })
    );
    assert_eq!(
        sealer.seal(&[0; 10], &mut out[..33]),
        Err(SealError::BufferTooSmall {
            actual: 33,
            needed: 34
        })
    );
    assert_eq!(next_counter(5), Some(6));
    assert_eq!(next_counter(MAX_COUNTER), None);
}

#[test]
fn junk_is_skipped_until_the_budget_is_spent() {
    let mut opener = Opener::new(&[1; 32]);
    let mut budget = RejectBudget::new();
    let mut packet = [0u8; 64];
    let len = seal_with(&[1; 32], 0, b"good", &mut packet).unwrap();
    let received = budget.take(&mut opener, &mut packet[..len]);
    assert_eq!(received, Received::Opened { start: 8, end: 12 });
    assert_eq!(&packet[8..12], b"good");

    for _ in 1..REJECT_BUDGET {
        assert_eq!(budget.take(&mut opener, &mut [9; 30]), Received::Skipped);
    }
    assert_eq!(budget.take(&mut opener, &mut [9; 30]), Received::Spent);
    assert_eq!(opener.forged(), 64);
}

#[test]
fn what_is_skipped_is_counted_for_what_it_is() {
    let mut opener = Opener::new(&[1; 32]);
    let mut budget = RejectBudget::new();
    let mut packet = [0u8; 64];
    let len = seal_with(&[1; 32], 0, b"good", &mut packet).unwrap();
    let mut again = packet;
    budget.take(&mut opener, &mut packet[..len]);

    assert_eq!(budget.take(&mut opener, &mut [9; 5]), Received::Skipped);
    assert_eq!((opener.forged(), opener.replayed()), (0, 0));
    assert_eq!(budget.take(&mut opener, &mut [9; 30]), Received::Skipped);
    assert_eq!((opener.forged(), opener.replayed()), (1, 0));
    assert_eq!(
        budget.take(&mut opener, &mut again[..len]),
        Received::Skipped
    );
    assert_eq!((opener.forged(), opener.replayed()), (1, 1));
}

#[test]
fn curve25519_gives_its_known_keys() {
    assert_eq!(
        public_key(&[9; 32]).unwrap(),
        key_of("57db4b359f23ae5e146e4e2512056704722506348c150c14753d0c933d04d421")
    );
    let bob = public_key(&[5; 32]).unwrap();
    assert_eq!(
        bob,
        key_of("50a61409b1ddd0325e9b16b700e719e9772c07000b1bd7786e907c653d20495d")
    );
    assert_eq!(
        agree(&[9; 32], &bob).unwrap(),
        agree(&[5; 32], &public_key(&[9; 32]).unwrap()).unwrap()
    );
    // The published multiplication of a scalar with a point.
    assert_eq!(
        agree(
            &key_of("a546e36bf0527c9d3b16154b82465edd62144c0ac1fc5a18506a2244ba449ac4"),
            &key_of("e6db6867583030db3594c1a424b15f7c726624ec26b3353b10a903a6d0ab1c4c"),
        )
        .unwrap(),
        key_of("c3da55379de9c6908e94ea4df28d084f32eccf03491c71f754b4075577a28552")
    );
    let identity = Identity::from_private(&[9; 32]).unwrap();
    assert_eq!(identity.public(), &public_key(&[9; 32]).unwrap());
    assert_eq!(identity.private(), &[9; 32]);
}

/// Runs a whole handshake and gives both ends' sessions.
fn established(
    initiator: &Identity,
    responder: Identity,
    policy: PeerPolicy,
) -> Option<(
    prism_core::net::handshake::Established,
    prism_core::net::handshake::Established,
)> {
    let host = *responder.public();
    let mut client = Initiator::new(initiator, &host, b"offer").unwrap();
    let mut server = Responder::new(responder, policy);
    let mut reply = [0u8; 256];
    let Answer::Reply(len) = server.accept(client.first_message(), b"accept", &mut reply) else {
        return None;
    };
    // A repeat of the first message gets the same bytes back.
    let mut repeat = [0u8; 256];
    assert_eq!(
        server.accept(client.first_message(), b"accept", &mut repeat),
        Answer::Reply(len)
    );
    assert_eq!(reply, repeat);
    let theirs = server.take().unwrap();
    assert!(server.take().is_none());
    assert!(!client.accept(&[1, 2, 3]), "junk is not an answer");
    assert!(client.accept(&reply[..len]));
    Some((client.take().unwrap(), theirs))
}

#[test]
fn each_side_of_a_handshake_opens_what_the_other_seals() {
    let client = Identity::generate().unwrap();
    let host = Identity::generate().unwrap();
    let (client_key, host_key) = (*client.public(), *host.public());
    let (mut ours, mut theirs) =
        established(&client, host, PeerPolicy::Paired(vec![client_key])).unwrap();

    assert_eq!(ours.session.peer_static, host_key);
    assert_eq!(theirs.session.peer_static, client_key);
    assert_eq!(ours.peer_payload, b"accept");
    assert_eq!(theirs.peer_payload, b"offer");

    let mut packet = [0u8; 64];
    let len = ours.session.sealer.seal(b"up", &mut packet).unwrap();
    assert_eq!(theirs.session.opener.open(&mut packet[..len]).unwrap(), b"up");
    let len = theirs.session.sealer.seal(b"down", &mut packet).unwrap();
    assert_eq!(ours.session.opener.open(&mut packet[..len]).unwrap(), b"down");
    // The two directions have different keys.
    let len = theirs.session.sealer.seal(b"down", &mut packet).unwrap();
    assert_eq!(
        theirs.session.opener.open(&mut packet[..len]),
        Err(SealError::NotAuthentic)
    );
}

#[test]
fn a_stranger_is_not_answered() {
    let client = Identity::generate().unwrap();
    let host = Identity::generate().unwrap();
    assert!(established(&client, host, PeerPolicy::Paired(vec![[1; 32]])).is_none());
    let host = Identity::generate().unwrap();
    assert!(established(&client, host, PeerPolicy::Any).is_some());

    let mut server = Responder::new(Identity::generate().unwrap(), PeerPolicy::Any);
    assert_eq!(server.accept(&[0; 100], b"", &mut [0; 256]), Answer::Ignored);
    assert!(PeerPolicy::Paired(vec![[2; 32], [3; 32]]).admits(&[3; 32]));
    assert!(!PeerPolicy::Paired(vec![]).admits(&[3; 32]));
}

#[test]
fn a_handshake_keeps_its_turns_and_its_limits() {
    let client = Identity::generate().unwrap();
    let host = Identity::generate().unwrap();
    let mut ours = Handshake::initiator(&client, host.public()).unwrap();
    let mut theirs = Handshake::responder(&host).unwrap();
    let mut out = [0u8; 2048];

    assert!(ours.is_my_turn() && !theirs.is_my_turn());
    assert_eq!(theirs.write_message(b"", &mut out), Err(HandshakeError::OutOfTurn));
    assert_eq!(
        ours.write_message(&[0; MAX_HANDSHAKE_PAYLOAD + 1], &mut out),
        Err(HandshakeError::PayloadTooLarge {
            actual: MAX_HANDSHAKE_PAYLOAD + 1
        })
    );
    assert_eq!(
        ours.write_message(b"abc", &mut out[..10]),
        Err(HandshakeError::BufferTooSmall {
            actual: 10,
            needed: 3 + INIT_OVERHEAD
        })
    );
    let len = ours.write_message(b"abc", &mut out).unwrap();
    assert_eq!(len, 3 + INIT_OVERHEAD);
    let mut payload = [0u8; 2048];
    let read = theirs.read_message(&out[..len], &mut payload).unwrap();
    assert_eq!(&payload[..read], b"abc");
    assert_eq!(theirs.peer_static(), Some(*client.public()));
    let len = theirs.write_message(b"", &mut out).unwrap();
    assert_eq!(len, RESPONSE_OVERHEAD);
    assert!(theirs.is_finished() && !ours.is_finished());
    assert!(matches!(
        Handshake::initiator(&client, host.public())
            .unwrap()
            .into_session(),
        Err(HandshakeError::Unfinished)
    ));
    out[3] ^= 1;
    assert_eq!(
        ours.read_message(&out[..len], &mut payload),
        Err(HandshakeError::NotAuthentic)
    );
}

#[test]
fn a_finished_handshake_is_taken_over() {
    let client = Identity::generate().unwrap();
    let host = Identity::generate().unwrap();
    let mut ours = Handshake::initiator(&client, host.public()).unwrap();
    let mut theirs = Handshake::responder(&host).unwrap();
    let (mut first, mut reply, mut payload) = ([0u8; 256], [0u8; 256], [0u8; 2048]);
    let first_len = ours.write_message(b"offer", &mut first).unwrap();
    let first = &first[..first_len];
    theirs.read_message(first, &mut payload).unwrap();
    let len = theirs.write_message(b"accept", &mut reply).unwrap();

    let mut server = Responder::new(host.clone(), PeerPolicy::Any);
    let unfinished = Handshake::responder(&host).unwrap();
    assert_eq!(
        server.conclude(unfinished, first, b"offer".to_vec(), &reply[..len]),
        Answer::Ignored
    );
    assert!(server.take().is_none());
    assert_eq!(
        server.conclude(theirs, first, b"offer".to_vec(), &reply[..len]),
        Answer::Reply(len)
    );
    let established = server.take().unwrap();
    assert_eq!(established.peer_payload, b"offer");
    assert_eq!(&established.session.peer_static, client.public());
    let mut repeat = [0u8; 256];
    assert_eq!(server.accept(first, b"accept", &mut repeat), Answer::Reply(len));
    assert_eq!(repeat, reply);
}

#[test]
fn two_machines_with_the_same_code_learn_each_others_keys() {
    let pin = Pin::parse(" 482913 ").unwrap();
    let mut host = PairingHost::new(Pin::parse("482913").unwrap(), [1; 32]);
    let mut client = PairingClient::new(&pin, [2; 32]);
    let mut offer = [0u8; 128];
    let mut accept = [0u8; 64];

    assert_eq!(client.hello().len(), HELLO_LEN);
    let len = host.answer(client.hello(), &mut offer).unwrap();
    assert_eq!(len, PAIR_OFFER_LEN);
    let (host_key, len) = client.finish(&offer[..len], &mut accept).unwrap();
    assert_eq!(host_key, [1; 32]);
    assert_eq!(len, PAIR_ACCEPT_LEN);
    assert_eq!(host.accept(&accept[..len]).unwrap(), [2; 32]);
}

#[test]
fn a_wrong_code_pairs_with_nobody() {
    let mut host = PairingHost::new(Pin::parse("482913").unwrap(), [1; 32]);
    let mut client = PairingClient::new(&Pin::parse("482914").unwrap(), [2; 32]);
    let mut offer = [0u8; 128];
    let len = host.answer(client.hello(), &mut offer).unwrap();
    assert!(client.finish(&offer[..len], &mut [0; 64]).is_err());

    let mut host = PairingHost::new(Pin::parse("482913").unwrap(), [1; 32]);
    assert!(matches!(
        host.answer(&[0; 5], &mut offer),
        Err(PairingError::BadLength {
            actual: 5,
            expected: HELLO_LEN
        })
    ));
    assert!(matches!(
        host.accept(&[0; 5]),
        Err(PairingError::BadLength {
            actual: 5,
            expected: PAIR_ACCEPT_LEN
        })
    ));
}

#[test]
fn a_code_is_six_digits() {
    let pin = Pin::generate().unwrap();
    let text = pin.to_display();
    assert_eq!(text.len(), 6);
    assert!(text.bytes().all(|b| b.is_ascii_digit()));
    assert_eq!(Pin::parse(&text).unwrap().to_display(), text);
    for bad in ["", "12345", "1234567", "12a456", "123 456"] {
        assert!(Pin::parse(bad).is_err(), "{bad}");
    }
    // Every digit is as likely as any other, so bytes that would favour some are drawn again.
    assert_eq!(digit_from(249), Some(9));
    assert_eq!(digit_from(250), None);
}

#[test]
fn a_code_is_made_of_the_first_six_usable_draws() {
    let pin = Pin::from_draws(&[251, 12, 33, 250, 4, 105, 249, 7, 8]).unwrap();
    assert_eq!(pin.to_display(), "234597");
    assert!(Pin::from_draws(&[251, 12, 33, 250, 4, 105, 249]).is_none());
    assert!(Pin::from_draws(&[]).is_none());
    assert_eq!(Pin::from_draws(&[0; 6]).unwrap().to_display(), "000000");
}

fn ability(codecs: Codecs) -> HostAbility {
    HostAbility {
        codecs,
        width: 2560,
        height: 1440,
        fps: 120,
        bitrate_bps: 40_000_000,
        audio: true,
    }
}

fn offer_of(codecs: Codecs) -> Offer {
    Offer {
        codecs,
        max_width: 1921,
        max_height: 1081,
        max_fps: 60,
        audio: true,
    }
}

#[test]
fn the_session_is_the_most_both_can_do() {
    let all = Codecs::from_bits(0xff);
    assert_eq!(all.bits(), H264 | HEVC | AV1);
    let accept = decide(ability(all), offer_of(Codecs::from_bits(H264 | HEVC))).unwrap();
    assert_eq!(accept.codec, Codec::Hevc);
    assert_eq!((accept.width, accept.height, accept.fps), (1920, 1080, 60));
    assert_eq!(accept.bitrate_bps, 40_000_000);
    assert!(accept.audio);

    assert_eq!(
        decide(ability(Codec::Av1.as_set()), offer_of(Codec::H264.as_set())),
        Err(NegotiateError::NoCommonCodec)
    );
    let mut still = offer_of(all);
    still.max_fps = 0;
    still.audio = false;
    let accept = decide(ability(all), still).unwrap();
    assert_eq!((accept.codec, accept.fps, accept.audio), (Codec::Av1, 1, false));
}

#[test]
fn sets_of_codecs_behave_as_sets() {
    let none = Codecs::none();
    assert!(none.is_empty() && none.best().is_none());
    assert_eq!(Codecs::default(), none);
    let two = none.with(Codec::H264.as_set()).with(Codec::Av1.as_set());
    assert!(two.has(Codec::H264.as_set()) && !two.has(Codec::Hevc.as_set()));
    assert!(!two.has(none), "nothing is not something to have");
    assert_eq!(two.intersection(Codec::Av1.as_set()), Codec::Av1.as_set());
    assert_eq!(two.best(), Some(Codec::Av1));
}

#[test]
fn bits_that_are_not_defined_are_dropped() {
    for bits in 0..=255u8 {
        let set = Codecs::from_bits(bits);
        assert_eq!(set.bits(), bits & 7);
        assert_eq!(Codecs::from_bits(set.bits()), set);
    }
    let offer = offer_of(Codecs::from_bits(HEVC));
    let mut out = [0u8; OFFER_LEN];
    offer.encode_into(&mut out).unwrap();
    out[2] |= 0xf8;
    out[10] = 7;
    out[11] = 9;
    assert_eq!(Offer::decode(&out), Ok(offer));
}

#[test]
fn offers_and_decisions_read_back() {
    let offer = offer_of(Codecs::from_bits(HEVC));
    let mut out = [9u8; 20];
    assert_eq!(offer.encode_into(&mut out), Ok(OFFER_LEN));
    assert_eq!(
        &out[..13],
        &[1, 0, 2, 1, 0x81, 0x07, 0x39, 0x04, 60, 0, 0, 0, 9]
    );
    assert_eq!(Offer::decode(&out[..OFFER_LEN]), Ok(offer));
    assert_eq!(
        Offer::decode(&out[..11]),
        Err(NegotiateError::BadLength {
            kind: "offer",
            actual: 11,
            expected: OFFER_LEN
        })
    );
    assert_eq!(
        offer.encode_into(&mut [0; 3]),
        Err(NegotiateError::BufferTooSmall {
            actual: 3,
            expected: OFFER_LEN
        })
    );

    let accept = Accept {
        codec: Codec::Av1,
        width: 2,
        height: 4,
        fps: 60,
        bitrate_bps: 0x0102_0304,
        audio: false,
    };
    assert_eq!(accept.encode_into(&mut out), Ok(ACCEPT_LEN));
    assert_eq!(&out[..14], &[1, 0, 2, 0, 2, 0, 4, 0, 60, 0, 4, 3, 2, 1]);
    assert_eq!(Accept::decode(&out[..ACCEPT_LEN]), Ok(accept));
    out[2] = 3;
    assert_eq!(
        Accept::decode(&out[..ACCEPT_LEN]),
        Err(NegotiateError::UnknownCodec { byte: 3 })
    );
    out[0] = 2;
    assert_eq!(
        Accept::decode(&out[..ACCEPT_LEN]),
        Err(NegotiateError::WrongRevision { theirs: 2 })
    );
    assert_eq!(
        Offer::decode(&out[..OFFER_LEN]),
        Err(NegotiateError::WrongRevision { theirs: 2 })
    );
}
