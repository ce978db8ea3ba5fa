use prism_core::net::ack::{is_newer, missing_in_history, AckTracker};
use prism_core::net::cc::{
    CongestionConfig, CongestionController, DelaySample, LossReading, RateAction,
};
use prism_core::net::clocksync::ClockSync;
use prism_core::net::loss::LossInjector;
use prism_core::net::packet::ClockPong;
use prism_core::net::sendpace::{PacerConfig, SendPacer, MIN_BITRATE_BPS, MIN_BURST_BYTES};

#[test]
fn nothing_is_reported_before_a_frame_arrives() {
    let mut tracker = AckTracker::new();
    assert!(tracker.report(5).is_none());

    tracker.received(0);
    let report = tracker.report(5).unwrap();
    assert_eq!(
        (report.last_frame_id, report.recv_bitmap, report.client_ts_us),
        (0, 0, 5)
    );
}

#[test]
fn the_history_follows_the_newest_frame() {
    let mut tracker = AckTracker::new();
    tracker.received(10);
    tracker.received(11);
    tracker.received(13);
    assert_eq!(tracker.newest(), Some(13));
    assert_eq!(tracker.report(0).unwrap().recv_bitmap, 0b110);

    // The missing one turns up late, and a frame older than the window is dropped.
    tracker.received(12);
    assert_eq!(tracker.report(0).unwrap().recv_bitmap, 0b111);
    tracker.received(13u32.wrapping_sub(33));
    assert_eq!(tracker.report(0).unwrap().recv_bitmap, 0b111);
    tracker.received(13u32.wrapping_sub(32));
    assert_eq!(tracker.report(0).unwrap().recv_bitmap, 0x8000_0007);
}

#[test]
fn a_jump_keeps_what_the_window_can_still_describe() {
    let mut tracker = AckTracker::new();
    tracker.received(100);
    tracker.received(132);
    assert_eq!(
        tracker.report(0).unwrap().recv_bitmap,
        0x8000_0000,
        "the frame thirty-two before the newest arrived"
    );

    let mut tracker = AckTracker::new();
    tracker.received(100);
    tracker.received(133);
    assert_eq!(tracker.report(0).unwrap().recv_bitmap, 0);
}

#[test]
fn frames_are_compared_round_the_wrap() {
    assert!(is_newer(5, 4));
    assert!(!is_newer(4, 5));
    assert!(!is_newer(4, 4));
    assert!(is_newer(0, u32::MAX), "the frame after a wrap is newer");
    assert!(!is_newer(0x8000_0000, 0));

    let mut tracker = AckTracker::new();
    tracker.received(u32::MAX);
    tracker.received(0);
    assert_eq!(tracker.newest(), Some(0));
    assert_eq!(tracker.report(0).unwrap().recv_bitmap, 1);
}

#[test]
fn gaps_are_counted() {
    assert_eq!(missing_in_history(0xFFFF_FFFF), 0);
    assert_eq!(missing_in_history(0), 32);
    assert_eq!(missing_in_history(0x8000_0001), 30);
}

#[test]
fn a_rate_of_zero_never_drops() {
    let mut injector = LossInjector::new(0, 1);
    assert!(!injector.should_drop());
    assert_eq!(injector.tally(), (1, 0));
    assert_eq!(LossInjector::new(5, 5).achieved_per_million(), 0);
}

#[test]
fn a_rate_of_a_million_drops_everything() {
    let mut injector = LossInjector::new(2_000_000, 0);
    for _ in 0..100 {
        assert!(injector.should_drop());
    }
    assert_eq!(injector.achieved_per_million(), 1_000_000);
}

#[test]
fn the_same_seed_drops_the_same_packets() {
    let mut a = LossInjector::new(50_000, 7);
    let mut b = LossInjector::new(50_000, 7);
    let first: Vec<bool> = (0..10_000).map(|_| a.should_drop()).collect();
    let second: Vec<bool> = (0..10_000).map(|_| b.should_drop()).collect();
    assert_eq!(first, second);
    let rate = a.achieved_per_million();
    assert!((40_000..60_000).contains(&rate), "{rate}");

    // The first state after a seed of one is 1 ^ (1 << 13), and so on down the sequence.
    let state = 1u64 ^ (1 << 13);
    let state = state ^ (state >> 7);
    let state = state ^ (state << 17);
    let mut one = LossInjector::new((state % 1_000_000) as u32, 1);
    assert!(!one.should_drop(), "at the threshold");
    let mut one = LossInjector::new((state % 1_000_000) as u32 + 1, 1);
    assert!(one.should_drop(), "below it");
}

#[test]
fn settings_below_the_floor_are_raised_to_it() {
    let pacer = SendPacer::new(PacerConfig {
        bitrate_bps: 0,
        burst_bytes: 0,
        ..PacerConfig::default()
    });
    assert_eq!(pacer.bitrate_bps(), MIN_BITRATE_BPS);
    assert_eq!(pacer.burst_bytes(), MIN_BURST_BYTES);
    assert_eq!(pacer.min_sleep(), 1_000_000);
    assert_eq!(pacer.pacing_rate_bps(), 1_250_000);
}

#[test]
fn a_frame_takes_as_long_as_its_bytes() {
    let mut pacer = SendPacer::new(PacerConfig {
        bitrate_bps: 40_000_000,
        min_sleep: 0,
        ..PacerConfig::default()
    });

    let mut now = 0u64;
    for _ in 0..35 {
        now += pacer.wait_before(1200, now);
    }

    // Thirty-five packets is 42 kB, which at the paced 50 Mbps takes 6.7 ms, less the burst.
    assert!(now > 5_000_000 && now < 7_000_000, "{now} ns");
    assert_eq!(now, 30 * 192_000);
    assert_eq!(pacer.packets(), 35);
    assert_eq!(pacer.total_wait(), now);
    assert_eq!(pacer.waits(), 30);
}

#[test]
fn short_waits_are_collected_into_long_ones() {
    let mut pacer = SendPacer::new(PacerConfig {
        bitrate_bps: 40_000_000,
        min_sleep: 1_000_000,
        ..PacerConfig::default()
    });

    let waits: Vec<u64> = (0..12).map(|_| pacer.wait_before(1200, 0)).collect();

    assert!(waits.iter().all(|&w| w == 0 || w >= 1_000_000));
    assert!(waits.iter().any(|&w| w != 0));
    assert_eq!(waits[10], 6 * 192_000);
}

#[test]
fn debt_outlives_a_change_of_rate() {
    let mut pacer = SendPacer::new(PacerConfig {
        bitrate_bps: 8_000_000,
        min_sleep: 0,
        ..PacerConfig::default()
    });
    pacer.set_bitrate_bps(8_000_000);
    assert_eq!(pacer.bitrate_bps(), 8_000_000);
    for _ in 0..10 {
        pacer.wait_before(1200, 0);
    }
    // 9.6 ms owed at the old rate; the burst is worth half as much time at twice the rate.
    pacer.set_bitrate_bps(16_000_000);
    assert_eq!(pacer.wait_before(1200, 0), 9_600_000 - 1_920_000);

    pacer.set_bitrate_bps(0);
    assert_eq!(pacer.bitrate_bps(), MIN_BITRATE_BPS);
}

#[test]
fn a_clock_a_second_ahead_is_measured_exactly() {
    let mut sync = ClockSync::new();
    assert!(sync.offset_us().is_none());
    assert!(sync.to_local_us(5).is_none());

    // The host's clock is a full second ahead, and each leg took 500 us.
    sync.observe(
        &ClockPong {
            t1_us: 1_000_000,
            t2_us: 2_000_500,
            t3_us: 2_000_600,
        },
        1_001_100,
    );

    assert_eq!(sync.offset_us(), Some(1_000_000));
    assert_eq!(sync.round_trip_us(), Some(1_000));
    assert_eq!(sync.accepted(), 1);
}

#[test]
fn an_impossible_exchange_is_rejected() {
    let mut sync = ClockSync::new();
    // The reply claims to predate the ping.
    let pong = ClockPong {
        t1_us: 100,
        t2_us: 0,
        t3_us: 0,
    };
    assert!(sync.observe(&pong, 50).is_none());
    assert_eq!(sync.rejected(), 1);
    // The host answered before it received.
    let pong = ClockPong {
        t1_us: 0,
        t2_us: 9,
        t3_us: 8,
    };
    assert!(sync.observe(&pong, 50).is_none());
    // It handled the question for longer than the exchange took.
    let pong = ClockPong {
        t1_us: 0,
        t2_us: 0,
        t3_us: 60,
    };
    assert!(sync.observe(&pong, 50).is_none());
    assert_eq!(sync.rejected(), 3);
}

#[test]
fn of_equally_fast_exchanges_the_first_is_kept() {
    let mut sync = ClockSync::new();
    // Round trips of 900, 400, none, 400 and 700, each with an offset of its own.
    for (t2_us, t4_us) in [(500, 900), (300, 400), (0, 0), (350, 400), (10, 700)] {
        let pong = ClockPong {
            t1_us: if t4_us == 0 { 1 } else { 0 },
            t2_us,
            t3_us: t2_us,
        };
        sync.observe(&pong, t4_us);
    }
    assert_eq!(sync.round_trip_us(), Some(400));
    assert_eq!(sync.offset_us(), Some(100));
    assert_eq!((sync.accepted(), sync.rejected()), (4, 1));
}

#[test]
fn the_fastest_exchange_is_the_one_kept() {
    let mut sync = ClockSync::new();
    sync.observe(
        &ClockPong {
            t1_us: 1_000,
            t2_us: 6_000,
            t3_us: 6_000,
        },
        2_000,
    );
    assert_eq!(sync.offset_us(), Some(4_500));
    assert_eq!(sync.to_local_us(10_000), Some(5_500));
    assert_eq!(sync.to_local_us(4_499), None);

    // A slower one, badly lopsided, changes nothing; a faster one replaces it.
    sync.observe(
        &ClockPong {
            t1_us: 0,
            t2_us: 9_000,
            t3_us: 9_000,
        },
        5_000,
    );
    assert_eq!(sync.offset_us(), Some(4_500));
    let sample = sync
        .observe(
            &ClockPong {
                t1_us: 0,
                t2_us: 0,
                t3_us: 0,
            },
            3,
        )
        .unwrap();
    assert_eq!((sample.round_trip_us, sample.offset_us), (3, -1));
    assert_eq!(sync.offset_us(), Some(-1));
}

fn sample(one_way_delay_us: i64, observed_at_us: u64) -> DelaySample {
    DelaySample {
        one_way_delay_us,
        observed_at_us,
    }
}

#[test]
fn time_parameters_scale_with_the_round_trip() {
    let lan = CongestionConfig::for_round_trip_us(480);
    assert_eq!(lan.round_trip_us, 480);
    assert_eq!(lan.tick_us(), 20_000, "the floor, not 2 x 0.48 ms");
    assert_eq!(lan.cooldown_us(), 100_000);
    assert_eq!(lan.gradient_rise_us(), 1_000);
    assert_eq!(lan.stale_us(), 500_000);

    let wan = CongestionConfig::for_round_trip_us(40_000);
    assert_eq!(wan.tick_us(), 80_000);
    assert_eq!(wan.cooldown_us(), 320_000);
    assert_eq!(wan.gradient_rise_us(), 5_000);
    assert_eq!(wan.stale_us(), 640_000);

    let endless = CongestionConfig::for_round_trip_us(u64::MAX);
    assert_eq!((endless.tick_us(), endless.cooldown_us()), (100_000, 1_000_000));
}

#[test]
fn a_clean_link_climbs() {
    let mut cc = CongestionController::new(CongestionConfig::for_round_trip_us(480));
    let start = cc.target_bps();

    let mut now = 0;
    for _ in 0..600 {
        cc.observe(&sample(1_400, now), LossReading::Low, start / 2);
        now += 8_333;
    }

    // A window every three frames, of which the first has nothing to be compared with.
    assert_eq!(cc.target_bps(), start + 198 * 250_000);
    assert_eq!(cc.stats().increases, 198);
    assert_eq!(cc.stats().last_action, RateAction::Increase);

    // And stops at the ceiling.
    for _ in 0..600 {
        cc.observe(&sample(1_400, now), LossReading::Low, start / 2);
        now += 8_333;
    }
    assert_eq!(cc.target_bps(), 60_000_000);
}

#[test]
fn a_wrong_clock_does_not_disturb_the_rate() {
    let mut right = CongestionController::new(CongestionConfig::default());
    let mut wrong = CongestionController::new(CongestionConfig::default());

    let mut now = 0;
    for frame in 0..400i64 {
        let delay = 1_000 + (frame * frame) % 9_000;
        let a = right.observe(&sample(delay, now), LossReading::Low, 7_000_000);
        let b = wrong.observe(&sample(delay - 818_760, now), LossReading::Low, 7_000_000);
        assert_eq!(a, b);
        now += 16_667;
    }
    assert_eq!(right.stats(), wrong.stats());
}

#[test]
fn loss_cuts_the_rate_and_holds_it_through_the_cooldown() {
    let mut cc = CongestionController::new(CongestionConfig::for_round_trip_us(480));
    cc.observe(&sample(0, 0), LossReading::High, 7_000_000);
    assert!(!cc.closes_window(19_999));
    assert!(cc.closes_window(20_000));
    // The first window has nothing to be compared with.
    assert_eq!(cc.observe(&sample(0, 20_000), LossReading::High, 7_000_000), 10_000_000);
    assert_eq!(cc.observe(&sample(0, 40_000), LossReading::High, 7_000_000), 7_000_000);
    assert_eq!(cc.stats().last_action, RateAction::DecreaseLoss);
    assert!(cc.stats().cooling_down);
    // Still dropping, and already answered.
    assert_eq!(cc.observe(&sample(0, 60_000), LossReading::High, 4_900_000), 7_000_000);
    assert_eq!(cc.observe(&sample(0, 139_999), LossReading::High, 4_900_000), 7_000_000);
    assert_eq!(cc.observe(&sample(0, 160_000), LossReading::High, 4_900_000), 4_900_000);
    assert_eq!(cc.stats().backoffs, 2);
    // Middling loss neither raises nor cuts.
    assert_eq!(cc.observe(&sample(0, 400_000), LossReading::Middling, 1), 4_900_000);
    assert_eq!(cc.stats().last_action, RateAction::Hold);
}

#[test]
fn one_spike_costs_nothing_and_a_trend_backs_off() {
    let config = CongestionConfig::for_round_trip_us(480);
    let mut cc = CongestionController::new(config);
    let mut now = 0;
    // A spike that owns its window every fourth window.
    for window in 0..40u64 {
        let delay = if window % 4 == 3 { 58_000 } else { 1_400 };
        cc.observe(&sample(delay, now), LossReading::Middling, 1);
        now += 20_000;
    }
    assert_eq!(cc.stats().backoffs, 0);
    assert_eq!(cc.target_bps(), config.start_bps);

    // Three rising windows are a trend.
    let mut cc = CongestionController::new(config);
    for window in 0..5i64 {
        cc.observe(
            &sample(window * 2_000, window as u64 * 20_000),
            LossReading::Low,
            5,
        );
    }
    assert_eq!(cc.stats().last_action, RateAction::DecreaseDelay);
    assert_eq!(cc.target_bps(), 1_000_000, "never below the floor");
    assert_eq!(cc.stats().last_gradient_us, 2_000);
}

#[test]
fn a_silence_is_not_a_measurement() {
    let mut cc = CongestionController::new(CongestionConfig::for_round_trip_us(480));
    for window in 0..3i64 {
        cc.observe(
            &sample(window * 2_000, window as u64 * 20_000),
            LossReading::Low,
            5,
        );
    }
    assert_eq!(cc.stats().rising_ticks, 1);
    cc.observe(&sample(900_000, 10_000_000), LossReading::High, 5);
    assert_eq!(cc.stats().rising_ticks, 0);
    cc.observe(&sample(900_000, 10_020_000), LossReading::High, 5);
    assert_eq!(cc.stats().last_action, RateAction::Hold, "no baseline");
    assert_eq!(cc.stats().backoffs, 0);

    cc.set_round_trip_us(40_000);
    assert_eq!(cc.config().tick_us(), 80_000);
}
