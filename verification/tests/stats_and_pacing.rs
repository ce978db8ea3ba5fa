use prism_core::render::hud::{stage, BACKDROP_ALPHA};
use prism_core::render::pacing::PresentPacer;
use prism_core::render::planes::{bitmap_fits, resized, PlaneCache, PlaneChoice};
use prism_core::stats::LatencyRecorder;

#[test]
fn a_summary_describes_its_samples() {
    let mut recorder = LatencyRecorder::new(128);
    for sample in [10_000, 12_000, 11_000, 40_000] {
        recorder.record(sample);
    }

    let summary = recorder.summarize().unwrap();
    assert_eq!(summary.count, 4);
    assert_eq!(summary.min_us, 10_000);
    assert_eq!(summary.max_us, 40_000);
    assert_eq!(summary.p50_us, 11_000);
    assert_eq!(summary.mean_us, 18_250);
}

#[test]
fn percentiles_are_nearest_rank() {
    let mut recorder = LatencyRecorder::new(100);
    assert!(recorder.summarize().is_none());

    // Descending, so that a recorder that did not sort would be found out.
    for sample in (1..=100).rev() {
        recorder.record(sample);
    }
    let summary = recorder.summarize().unwrap();
    assert_eq!(summary.p50_us, 50);
    assert_eq!(summary.p95_us, 95);
    assert_eq!(summary.p99_us, 99);
    assert_eq!((summary.min_us, summary.max_us), (1, 100));
}

#[test]
fn the_window_forgets_the_oldest_sample() {
    let mut recorder = LatencyRecorder::new(2);
    recorder.record(1);
    recorder.record(2);
    recorder.record(3);
    assert_eq!(recorder.len(), 2);
    assert_eq!(recorder.summarize().unwrap().min_us, 2);
    assert_eq!(recorder.capacity(), 2);

    recorder.clear();
    assert!(recorder.is_empty());
    assert_eq!(LatencyRecorder::new(1024).capacity(), 1024);
}

#[test]
fn a_steady_path_needs_no_smoothing() {
    let mut pacer = PresentPacer::new(30_000);
    for _ in 0..200 {
        pacer.hold_for(5_000);
    }
    assert_eq!(pacer.hold_for(5_000), 0);
    assert_eq!(pacer.delay_us(), 5_000);
    assert_eq!(pacer.total(), 201);
    assert_eq!(pacer.shown_late(), 0);
    assert_eq!(pacer.held_summary().unwrap().max_us, 0);
}

#[test]
fn an_early_picture_waits_for_the_late_ones() {
    let mut pacer = PresentPacer::new(30_000);
    for age in [4_000, 12_000, 5_000, 11_000, 4_500, 13_000] {
        for _ in 0..40 {
            pacer.hold_for(age);
        }
    }
    assert!(pacer.hold_for(4_000) > 0);
    assert_eq!(pacer.hold_for(20_000), 0);
    assert!(pacer.enabled());
    assert!(!PresentPacer::new(0).enabled());
}

#[test]
fn the_delay_rises_at_once_falls_by_a_quarter_and_keeps_its_ceiling() {
    let mut pacer = PresentPacer::new(10_000);
    for _ in 0..30 {
        pacer.hold_for(20_000);
    }
    assert_eq!(pacer.delay_us(), 10_000, "never past the ceiling");
    assert_eq!(pacer.shown_late(), 1, "the one after the target was known");

    let mut pacer = PresentPacer::new(30_000);
    for _ in 0..30 {
        pacer.hold_for(9_000);
    }
    assert_eq!(pacer.delay_us(), 9_000);
    // The window still holds the old ages until they have left it.
    for _ in 0..128 {
        pacer.hold_for(1_000);
    }
    let before = pacer.delay_us();
    for _ in 0..30 {
        pacer.hold_for(1_000);
    }
    assert_eq!(pacer.delay_us(), before - (before - 1_000) / 4);
    for _ in 0..2_000 {
        pacer.hold_for(1_000);
    }
    assert_eq!(pacer.delay_us(), 1_000, "and arrives");
}

#[test]
fn the_panel_is_premultiplied_over_its_backdrop() {
    let drawn = [0, 0, 0, 0, 255, 255, 255, 0, 100, 90, 80, 0];
    let mut staged = [9u8; 14];

    stage(&mut staged, &drawn);

    assert_eq!(&staged[..4], &[0, 0, 0, BACKDROP_ALPHA as u8]);
    assert_eq!(&staged[4..8], &[255, 255, 255, 255]);
    assert_eq!(&staged[8..12], &[100, 100, 100, 185]);
    assert_eq!(&staged[12..], &[9, 9], "what is not a whole pixel is left alone");
}

#[test]
fn views_are_built_once_and_a_refusal_is_remembered() {
    let mut cache = PlaneCache::new();
    assert_eq!(cache.choose_for(7, 0), PlaneChoice::Bind);
    assert_eq!(cache.bound(7, 0), 0);
    assert_eq!(cache.bound(7, 1), 1);
    assert_eq!(cache.choose_for(7, 1), PlaneChoice::Known(1));
    assert_eq!(cache.choose_for(8, 1), PlaneChoice::Bind);
    cache.refused();
    assert_eq!(cache.choose_for(7, 1), PlaneChoice::Copy);

    assert_eq!(resized(640, 480, 640, 480), None);
    assert_eq!(resized(640, 480, 0, 480), Some((1, 480)));
    assert!(bitmap_fits(40 * 40 * 4, 40, 40));
    assert!(!bitmap_fits(40 * 40 * 4 - 1, 40, 40));
}
