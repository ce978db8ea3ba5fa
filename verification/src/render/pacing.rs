//! Deciding when to show a decoded picture.
//!
//! Showing each picture the moment it decodes gives the lowest possible latency and the worst
//! possible smoothness: frames arrive unevenly, so they appear unevenly, and the eye reads that
//! as stutter even when no frame was lost. Holding a fixed two frames smooths it completely and
//! costs a fixed two frames of delay.
//!
//! Neither is right. The delay this pipeline can afford is exactly the spread of arrival times
//! and no more, so the pacer measures that spread and holds each picture only long enough to
//! cover it. On a clean path the spread is near zero and so is the delay.
//!
//! The measurement is the picture's age, how long ago it was captured in this machine's clock.
//! Ages that cluster tightly mean a steady path and allow a short delay; ages that scatter mean
//! the delay has to cover the late ones or they arrive after their turn.

use vstd::prelude::*;

use crate::stats::{
    a_percentile_is_the_least_that_covers_its_share, a_summary_reports_what_occurred,
    how_many_below, summary_of, LatencyRecorder, LatencySummary,
};

verus! {

/// How many pictures to observe before recomputing the target delay.
///
/// The target comes from a percentile, which means sorting, so it is recomputed about twice a
/// second rather than once a frame.
pub const RECOMPUTE_EVERY: u32 = 30;

/// Fraction of the gap the delay closes per recomputation when it is shrinking.
///
/// Delay rises immediately when the path gets worse and comes down geometrically when it
/// recovers. A buffer that collapses the moment conditions improve spends its life oscillating,
/// and every oscillation downward shows up as a repeated or dropped frame, but one that creeps
/// down in fixed steps takes minutes to give back delay the path no longer needs.
pub const SHRINK_DIVISOR: u32 = 4;

/// Smallest amount the delay may shrink per recomputation, in microseconds.
///
/// Without a floor the geometric decay never quite arrives.
pub const SHRINK_FLOOR_US: u32 = 200;

/// How many recent ages to consider when choosing the delay.
///
/// About two seconds at sixty frames per second: long enough that one unlucky frame does not
/// move the target, short enough that the pacer is describing the path as it is now.
pub const WINDOW: usize = 128;

/// The smaller of two durations.
pub open spec fn shorter(a: int, b: int) -> int {
    if a <= b {
        a
    } else {
        b
    }
}

/// The larger of two durations.
pub open spec fn longer(a: int, b: int) -> int {
    if a >= b {
        a
    } else {
        b
    }
}

/// The delay that follows `delay` once the target is `target`: at once where that is more, and a
/// quarter of the way down, but never less than the floor, where it is less.
pub open spec fn following_delay(delay: int, target: int) -> int {
    if target > delay {
        target
    } else {
        let gap = delay - target;
        delay - shorter(gap, longer(SHRINK_FLOOR_US as int, gap / SHRINK_DIVISOR as int))
    }
}

/// The delay rises to a worse path at once, and comes down towards a better one without passing
/// it: by the floor at least, or all the way.
pub proof fn the_delay_moves_towards_its_target(delay: int, target: int)
    requires
        0 <= delay,
        0 <= target,
    ensures
        target >= delay ==> following_delay(delay, target) == target,
        target < delay ==> target <= following_delay(delay, target) < delay,
        target < delay ==> following_delay(delay, target) == target || following_delay(
            delay,
            target,
        ) <= delay - SHRINK_FLOOR_US,
{
}

/// A window of samples once one more has been recorded.
pub open spec fn recorded(window: Seq<u32>, sample: u32) -> Seq<u32> {
    if window.len() < WINDOW {
        window.push(sample)
    } else {
        window.drop_first().push(sample)
    }
}

/// A pacer as its contracts see it.
pub struct PresentModel {
    /// Recent ages.
    pub ages: Seq<u32>,
    /// How long recent pictures were held.
    pub held: Seq<u32>,
    /// The delay the pacer is targeting.
    pub delay: int,
    /// The most it will target.
    pub max_delay: int,
    /// Pictures since the target was last computed.
    pub since: int,
    /// Whether a target has been computed yet.
    pub has_target: bool,
    /// Pictures that arrived too late to be held.
    pub shown_late: int,
    /// Pictures seen.
    pub total: int,
}

impl PresentModel {
    /// Whether the next picture has the target recomputed.
    pub open spec fn recomputes(self) -> bool {
        self.since + 1 >= RECOMPUTE_EVERY
    }

    /// The delay that applies to the next picture, which is of this age.
    pub open spec fn next_delay(self, age_us: u32) -> int {
        if self.recomputes() {
            let p99 = summary_of(recorded(self.ages, age_us)).p99_us;
            following_delay(self.delay, shorter(p99 as int, self.max_delay))
        } else {
            self.delay
        }
    }

    /// How long the next picture is held.
    pub open spec fn hold(self, age_us: u32) -> int {
        longer(0, self.next_delay(age_us) - age_us)
    }

    /// The pacer once it has seen a picture of this age.
    pub open spec fn seeing(self, age_us: u32) -> PresentModel {
        let has_target = self.has_target || self.recomputes();
        PresentModel {
            ages: recorded(self.ages, age_us),
            held: recorded(self.held, self.hold(age_us) as u32),
            delay: self.next_delay(age_us),
            since: if self.recomputes() {
                0
            } else {
                self.since + 1
            },
            has_target,
            shown_late: if has_target && age_us > self.next_delay(age_us) {
                self.shown_late + 1
            } else {
                self.shown_late
            },
            total: self.total + 1,
            ..self
        }
    }
}

/// No picture is held past the ceiling, and an early one is shown at the very age the late ones
/// set: its own age and the time it is held add up to the delay.
pub proof fn a_picture_is_held_until_the_delay(pacer: PresentModel, age_us: u32)
    requires
        0 <= pacer.delay <= pacer.max_delay,
    ensures
        0 <= pacer.hold(age_us) <= pacer.max_delay,
        pacer.seeing(age_us).delay <= pacer.max_delay,
        pacer.hold(age_us) > 0 ==> age_us + pacer.hold(age_us) == pacer.seeing(age_us).delay,
        pacer.hold(age_us) == 0 <==> age_us >= pacer.seeing(age_us).delay,
{
}

/// A path that delivers every picture at the same age needs no smoothing at all: pictures of
/// that age are not held, once the delay is no more than the age.
pub proof fn a_steady_path_is_not_smoothed(pacer: PresentModel, age_us: u32)
    requires
        0 < pacer.ages.len() <= WINDOW,
        forall|i: int| 0 <= i < pacer.ages.len() ==> #[trigger] pacer.ages[i] == age_us,
        0 <= pacer.delay <= age_us,
        pacer.max_delay >= 0,
    ensures
        pacer.hold(age_us) == 0,
        pacer.seeing(age_us).delay <= age_us,
{
    let ages = recorded(pacer.ages, age_us);
    a_summary_reports_what_occurred(ages);
    let summary = summary_of(ages);
    let i = choose|i: int| 0 <= i < ages.len() && ages[i] == summary.p99_us;
    assert(ages[i] == age_us);
}

/// Decides how long each decoded picture should be held before it is shown.
#[derive(Debug)]
pub struct PresentPacer {
    ages: LatencyRecorder,
    delay_us: u32,
    max_delay_us: u32,
    since_recompute: u32,
    has_target: bool,
    shown_late: u64,
    total: u64,
    held: LatencyRecorder,
}

impl View for PresentPacer {
    type V = PresentModel;

    closed spec fn view(&self) -> PresentModel {
        PresentModel {
            ages: self.ages@,
            held: self.held@,
            delay: self.delay_us as int,
            max_delay: self.max_delay_us as int,
            since: self.since_recompute as int,
            has_target: self.has_target,
            shown_late: self.shown_late as int,
            total: self.total as int,
        }
    }
}

impl PresentPacer {
    /// Whether the delay is under its ceiling and the counts agree.
    pub closed spec fn wf(&self) -> bool {
        &&& self.ages.wf() && self.ages.spec_capacity() == WINDOW
        &&& self.held.wf() && self.held.spec_capacity() == WINDOW
        &&& self.delay_us <= self.max_delay_us
        &&& self.since_recompute < RECOMPUTE_EVERY
        &&& self.shown_late <= self.total
    }

    /// Creates a pacer that will never hold a picture longer than `max_delay_us`.
    ///
    /// The ceiling matters because the delay is derived from measurements, and a path that
    /// briefly falls apart would otherwise push it somewhere the session never recovers from.
    /// Beyond the ceiling the right answer is to drop frames, not to add delay nobody asked for.
    #[must_use]
    pub fn new(max_delay_us: u32) -> (pacer: Self)
        ensures
            pacer.wf(),
            pacer@ == (PresentModel {
                ages: Seq::empty(),
                held: Seq::empty(),
                delay: 0,
                max_delay: max_delay_us as int,
                since: 0,
                has_target: false,
                shown_late: 0,
                total: 0,
            }),
    {
        PresentPacer {
            ages: LatencyRecorder::new(WINDOW),
            delay_us: 0,
            max_delay_us,
            since_recompute: 0,
            has_target: false,
            shown_late: 0,
            total: 0,
            held: LatencyRecorder::new(WINDOW),
        }
    }

    /// Records a picture's age and returns how long to hold it before showing it, in
    /// microseconds.
    ///
    /// A picture already older than the target delay is shown immediately and counted as late;
    /// there is nothing to gain by holding a frame that is behind already.
    pub fn hold_for(&mut self, age_us: u32) -> (hold_us: u32)
        requires
            old(self).wf(),
            old(self)@.total < u64::MAX,
        ensures
            final(self).wf(),
            hold_us == old(self)@.hold(age_us),
            final(self)@ == old(self)@.seeing(age_us),
            hold_us <= final(self)@.max_delay,
    {
        self.ages.record(age_us);
        self.total = self.total + 1;
        self.since_recompute = self.since_recompute + 1;
        if self.since_recompute >= RECOMPUTE_EVERY {
            self.since_recompute = 0;
            self.recompute();
        }
        if self.has_target && age_us > self.delay_us {
            self.shown_late = self.shown_late + 1;
        }
        let hold: u32 = self.delay_us.saturating_sub(age_us);
        self.held.record(hold);
        hold
    }

    /// Returns the delay the pacer is currently targeting, in microseconds.
    #[must_use]
    pub fn delay_us(&self) -> (delay_us: u32)
        requires
            self.wf(),
        ensures
            delay_us == self@.delay,
            delay_us <= self@.max_delay,
    {
        self.delay_us
    }

    /// Returns whether the pacer has any room to hold pictures at all.
    ///
    /// A pacer built with a ceiling of zero never delays anything, and its late count is then
    /// meaningless, since every picture is trivially later than a target of nothing. Reports
    /// should say the pacer is off rather than quote that number.
    #[must_use]
    pub fn enabled(&self) -> (enabled: bool)
        ensures
            enabled == (self@.max_delay > 0),
    {
        self.max_delay_us > 0
    }

    /// Returns how many pictures arrived too late to be held.
    ///
    /// A rate near zero means the delay is covering the path's spread. A high rate means the
    /// path is worse than the ceiling allows the pacer to absorb.
    #[must_use]
    pub fn shown_late(&self) -> (count: u64)
        ensures
            count == self@.shown_late,
    {
        self.shown_late
    }

    /// Returns how many pictures the pacer has seen.
    #[must_use]
    pub fn total(&self) -> (count: u64)
        ensures
            count == self@.total,
    {
        self.total
    }

    /// Returns the distribution of how long pictures were actually held.
    ///
    /// This is the latency the pacer added, which is the price paid for smoothness and belongs
    /// next to the end-to-end figure rather than hidden inside it.
    pub fn held_summary(&mut self) -> (summary: Option<LatencySummary>)
        requires
            old(self).wf(),
        ensures
            final(self).wf(),
            final(self)@ == old(self)@,
            summary == (if old(self)@.held.len() == 0 {
                None
            } else {
                Some(summary_of(old(self)@.held))
            }),
    {
        self.held.summarize()
    }

    /// Recomputes the target delay from the ages seen recently.
    ///
    /// The target is the 99th percentile age, so all but the latest one per cent of pictures are
    /// ready before their turn. It rises to a worse path immediately and falls back towards a
    /// better one in steps.
    fn recompute(&mut self)
        requires
            old(self).ages.wf(),
            old(self).delay_us <= old(self).max_delay_us,
            old(self)@.ages.len() > 0,
        ensures
            final(self)@ == (PresentModel {
                delay: following_delay(
                    old(self)@.delay,
                    shorter(summary_of(old(self)@.ages).p99_us as int, old(self)@.max_delay),
                ),
                has_target: true,
                ..old(self)@
            }),
            final(self).delay_us <= final(self).max_delay_us,
            final(self).ages.wf(),
            final(self).ages.spec_capacity() == old(self).ages.spec_capacity(),
            final(self).held == old(self).held,
    {
        let summary: LatencySummary = match self.ages.summarize() {
            Some(summary) => summary,
            None => return ,
        };
        let target: u32 = if summary.p99_us <= self.max_delay_us {
            summary.p99_us
        } else {
            self.max_delay_us
        };
        if target > self.delay_us {
            self.delay_us = target;
        } else {
            let gap: u32 = self.delay_us - target;
            let part: u32 = gap / SHRINK_DIVISOR;
            let step: u32 = if part >= SHRINK_FLOOR_US {
                part
            } else {
                SHRINK_FLOOR_US
            };
            self.delay_us = self.delay_us - if gap <= step {
                gap
            } else {
                step
            };
        }
        self.has_target = true;
    }
}

/// What the delay is for: whenever it is worked out anew, at least ninety-nine in a hundred of
/// the recent pictures were no older than it, unless the ceiling is below that.
pub proof fn the_delay_covers_ninety_nine_in_a_hundred(pacer: PresentModel, age_us: u32)
    requires
        pacer.since + 1 >= 30,
        0 <= pacer.delay <= pacer.max_delay,
        pacer.ages.len() <= 128,
    ensures
        ({
            let after = pacer.seeing(age_us);
            &&& after.delay <= after.max_delay
            &&& after.delay == after.max_delay || 100 * how_many_below(
                after.ages,
                after.delay + 1,
            ) >= 99 * after.ages.len()
            &&& after.has_target
            &&& after.since == 0
        }),
{
    let ages = recorded(pacer.ages, age_us);
    a_percentile_is_the_least_that_covers_its_share(ages);
    let p99 = summary_of(ages).p99_us;
    lemma_more_are_below(ages, p99 + 1, pacer.seeing(age_us).delay + 1);
}

/// No fewer samples are below a higher bound.
proof fn lemma_more_are_below(samples: Seq<u32>, low: int, high: int)
    ensures
        low <= high ==> how_many_below(samples, low) <= how_many_below(samples, high),
    decreases samples.len(),
{
    if samples.len() > 0 {
        lemma_more_are_below(samples.drop_last(), low, high);
    }
}

/// The delay comes down by a quarter of the way where that is more than the floor, by the floor
/// where it is not, and all the way where there is less than the floor to go.
pub proof fn the_delay_comes_down_by_quarters(delay: int, target: int)
    requires
        0 <= target <= delay,
    ensures
        ({
            let step = delay - following_delay(delay, target);
            let gap = delay - target;
            &&& gap >= 800 ==> 4 * step <= gap < 4 * step + 4
            &&& 200 <= gap < 800 ==> step == 200
            &&& gap < 200 ==> step == gap
        }),
{
}

/// Between the pictures at which it is worked out anew the delay stays as it is, and a picture
/// counts as late exactly where it is older than a delay that has been worked out.
pub proof fn the_delay_stays_between(pacer: PresentModel, age_us: u32)
    requires
        pacer.ages.len() <= 128,
    ensures
        ({
            let after = pacer.seeing(age_us);
            &&& pacer.since + 1 < 30 ==> {
                &&& after.delay == pacer.delay
                &&& after.since == pacer.since + 1
                &&& after.has_target == pacer.has_target
            }
            &&& after.max_delay == pacer.max_delay
            &&& after.total == pacer.total + 1
            &&& after.shown_late == pacer.shown_late + if after.has_target && age_us
                > after.delay {
                1int
            } else {
                0int
            }
            &&& after.ages.last() == age_us
            &&& after.ages.len() == if pacer.ages.len() < 128 {
                pacer.ages.len() + 1
            } else {
                128
            }
            &&& forall|i: int|
                0 <= i < after.ages.len() - 1 ==> (#[trigger] after.ages[i]) == pacer.ages[i + (
                pacer.ages.len() + 1 - after.ages.len())]
        }),
{
}

} // verus!
