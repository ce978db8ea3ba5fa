//! Congestion control: turning delay and loss observations into a target bitrate.
//!
//! Latency beats image quality, since in a game a softer picture is always cheaper than a
//! queue. So this is an AIMD controller driven primarily by the gradient of one-way delay, with
//! frame loss as a backstop for paths that drop without ever queueing.
//!
//! It is a pure state machine. It owns no socket, no thread and no clock: every observation
//! carries its own timestamp. Folding one observation is constant time and allocates nothing,
//! which is what lets it sit on the feedback path at frame rate.
//!
//! # Why the gradient, and why a clock offset error cancels
//!
//! The measured one-way delay of a frame is its arrival less its capture, the capture stamp
//! corrected by an estimate of the offset between two clocks. The error left in that estimate
//! dwarfs every latency worth caring about, so a threshold on the absolute delay is meaningless.
//! Each tick the controller compares the minimum over the current window against the minimum
//! over the previous one, and an error that is the same in both cancels exactly, whatever its
//! magnitude and sign: [`a_clock_offset_error_cancels`]. The direct consequence is that
//! [`DelaySample::one_way_delay_us`] is signed.
//!
//! # Loss
//!
//! Thresholds on loss are written in terms of packets while the feedback reports frames, so the
//! loss of a window is averaged, converted and compared outside, in floating point. The
//! controller takes the verdict as a [`LossReading`], and likewise the rate that a cut by the
//! decrease factor would give.
//!
//! # Tuning against a path
//!
//! Every time-based parameter is derived from a round trip the caller measures.
//!
//! | Parameter | Derivation |
//! |---|---|
//! | tick | `2 x rtt`, clamped to 20-100 ms |
//! | back-off cooldown | `8 x rtt`, clamped to 0.1-1 s |
//! | gradient threshold | `rtt / 8`, clamped to 1-5 ms |
//!
//! The tick is two round trips because a controller cannot see the effect of its own change
//! sooner than one. The cooldown is longer because after a cut the bottleneck queue still has to
//! drain before the delay signal reflects it. Inside it the trend counter is frozen rather than
//! merely ignored, so delay still rising is understood as the congestion already answered and
//! not as a fresh event.
//!
//! # Isolated outliers are not a trend
//!
//! The per-window statistic is the minimum: queueing only ever adds to delay, so the smallest
//! sample in a window is the least-queued one, and one enormous sample among clean ones changes
//! nothing ([`an_outlier_changes_no_window`]). And a back-off needs several net-rising ticks: a
//! spike large enough to own an entire window costs one tick up and gets it back on the next
//! ([`a_lone_rise_is_taken_back`]).

use vstd::prelude::*;

verus! {

/// Shortest tick the controller will use, in microseconds.
const MIN_TICK_US: u64 = 20_000;

/// Longest tick the controller will use, in microseconds.
const MAX_TICK_US: u64 = 100_000;

/// Tick length as a multiple of the measured round trip.
const TICK_ROUND_TRIPS: u64 = 2;

/// Shortest post-back-off cooldown, in microseconds.
const MIN_COOLDOWN_US: u64 = 100_000;

/// Longest post-back-off cooldown, in microseconds.
const MAX_COOLDOWN_US: u64 = 1_000_000;

/// Cooldown length as a multiple of the measured round trip.
const COOLDOWN_ROUND_TRIPS: u64 = 8;

/// Smallest delay rise, in microseconds, that counts as rising rather than as jitter.
const MIN_GRADIENT_RISE_US: u64 = 1_000;

/// Largest delay rise threshold, in microseconds.
const MAX_GRADIENT_RISE_US: u64 = 5_000;

/// Divisor applied to the round trip to get the gradient threshold.
const GRADIENT_RISE_DIVISOR: u64 = 8;

/// A window longer than this many ticks is a gap, not a measurement.
const STALE_TICKS: u64 = 8;

/// Floor on the stale cutoff, in microseconds.
///
/// Without it a stream feeding the controller slowly would look permanently stale and the
/// controller would never act at all.
const STALE_FLOOR_US: u64 = 500_000;

/// `value` held between `low` and `high`.
pub open spec fn held_between(value: int, low: int, high: int) -> int {
    if value < low {
        low
    } else if value > high {
        high
    } else {
        value
    }
}

/// One observation of how a single frame fared on its way to the client.
///
/// Produced on the host from a feedback report: the delay comes from the difference between the
/// frame's capture stamp and its acknowledgement.
#[derive(Debug, Clone, Copy, PartialEq, Eq, Structural)]
pub struct DelaySample {
    /// One-way delay for this frame, in microseconds.
    ///
    /// Signed, and deliberately so. Any error left in the clock offset estimate shifts every
    /// reading by the same amount, and that amount can be large and negative. The controller
    /// only ever differentiates this value, so a constant shift cancels; clamping it at zero
    /// would throw away the difference the controller runs on.
    pub one_way_delay_us: i64,
    /// When the observation was made, in microseconds on the observer's own clock.
    ///
    /// Only differences between samples matter, so the epoch is irrelevant as long as it is the
    /// same one throughout a session. Samples are expected in non-decreasing order; one that
    /// arrives out of order is folded into the current window rather than rewinding it.
    pub observed_at_us: u64,
}

/// How the loss over a window compares with the two thresholds.
#[derive(Debug, Clone, Copy, PartialEq, Eq, Structural)]
pub enum LossReading {
    /// Below the loss up to which the rate may still climb.
    Low,
    /// Neither low nor high.
    Middling,
    /// Above the loss at which the rate is cut.
    High,
}

/// What the controller did at the most recent tick.
///
/// Reported so the stats surface can say why the rate moved. A user watching quality drop wants
/// to know whether the path is queueing or dropping, and those two call for different remedies.
#[derive(Debug, Clone, Copy, PartialEq, Eq, Structural)]
pub enum RateAction {
    /// The rate was left alone: no trend, or still inside the post-back-off cooldown.
    Hold,
    /// The rate was raised by one additive step.
    Increase,
    /// The rate was cut because one-way delay has been rising for several ticks.
    DecreaseDelay,
    /// The rate was cut because loss crossed the back-off threshold.
    DecreaseLoss,
}

impl Default for RateAction {
    fn default() -> (action: Self)
        ensures
            action == RateAction::Hold,
    {
        RateAction::Hold
    }
}

/// Everything the controller's own decisions depend on.
///
/// The time-based parameters are not stored but derived from [`Self::round_trip_us`], so
/// updating the round trip as the clock sync estimate improves cannot leave them inconsistent
/// with each other.
#[derive(Debug, Clone, Copy, PartialEq, Eq, Structural)]
pub struct CongestionConfig {
    /// Measured round trip in microseconds, which every time-based parameter scales with.
    ///
    /// The min-RTT sample from clock sync is the right input: it is the round trip least
    /// contaminated by queueing, which is what the controller wants as its baseline.
    pub round_trip_us: u64,
    /// Lowest rate the controller may choose, in bits per second.
    ///
    /// Below this the picture is worse than no picture, so there is nothing left to trade.
    pub min_bps: u32,
    /// Highest rate the controller may choose, in bits per second.
    pub max_bps: u32,
    /// Rate the controller starts at, in bits per second.
    pub start_bps: u32,
    /// How much the rate rises per tick when the path looks clean, in bits per second.
    pub increase_step_bps: u32,
    /// How many net-rising ticks a delay trend needs before it is believed.
    ///
    /// The counter rises on a rising tick and falls on any other, so this is what makes a single
    /// outlier cost nothing.
    pub rising_ticks_to_back_off: u32,
}

/// The settings for a path whose round trip is `round_trip_us`.
pub open spec fn defaults(round_trip_us: u64) -> CongestionConfig {
    CongestionConfig {
        round_trip_us,
        min_bps: 1_000_000,
        max_bps: 60_000_000,
        start_bps: 10_000_000,
        increase_step_bps: 250_000,
        rising_ticks_to_back_off: 3,
    }
}

impl Default for CongestionConfig {
    /// Returns the defaults, assuming a path whose round trip is not yet known.
    ///
    /// Twenty milliseconds is assumed, because mistaking an internet path for a LAN produces
    /// oscillation while the reverse only produces sluggishness. Callers should feed the real
    /// round trip in through [`CongestionController::set_round_trip_us`] as soon as clock sync
    /// produces one.
    fn default() -> (config: Self)
        ensures
            config == defaults(20_000),
            config.sane(),
    {
        CongestionConfig::for_round_trip_us(20_000)
    }
}

impl CongestionConfig {
    /// Whether the settings can produce sane decisions.
    pub open spec fn sane(&self) -> bool {
        &&& 0 < self.min_bps <= self.start_bps <= self.max_bps
        &&& self.increase_step_bps > 0
        &&& self.rising_ticks_to_back_off > 0
    }

    /// The length of a decision window.
    pub open spec fn tick(&self) -> int {
        held_between(self.round_trip_us * 2, 20_000, 100_000)
    }

    /// How long the controller holds still after a cut.
    pub open spec fn cooldown(&self) -> int {
        held_between(self.round_trip_us * 8, 100_000, 1_000_000)
    }

    /// The rise that counts as rising.
    pub open spec fn rise(&self) -> int {
        held_between(self.round_trip_us as int / 8, 1_000, 5_000)
    }

    /// The window length past which a comparison means nothing.
    pub open spec fn stale(&self) -> int {
        if self.tick() * 8 < 500_000 {
            500_000
        } else {
            self.tick() * 8
        }
    }

    /// Returns the defaults tuned for a path with the given round trip.
    #[must_use]
    pub fn for_round_trip_us(round_trip_us: u64) -> (config: Self)
        ensures
            config == defaults(round_trip_us),
            config.sane(),
    {
        CongestionConfig {
            round_trip_us,
            min_bps: 1_000_000,
            max_bps: 60_000_000,
            start_bps: 10_000_000,
            increase_step_bps: 250_000,
            rising_ticks_to_back_off: 3,
        }
    }

    /// Returns how long a decision window lasts, in microseconds.
    ///
    /// Two round trips, floored at 20 ms and capped at 100 ms.
    #[must_use]
    pub fn tick_us(&self) -> (us: u64)
        ensures
            us == self.tick(),
    {
        scaled(self.round_trip_us, TICK_ROUND_TRIPS, MIN_TICK_US, MAX_TICK_US)
    }

    /// Returns how long the controller holds still after a back-off, in microseconds.
    ///
    /// Eight round trips, floored at 100 ms and capped at one second. Long enough for the
    /// bottleneck queue to drain, so the same congestion event is not counted twice.
    #[must_use]
    pub fn cooldown_us(&self) -> (us: u64)
        ensures
            us == self.cooldown(),
    {
        scaled(self.round_trip_us, COOLDOWN_ROUND_TRIPS, MIN_COOLDOWN_US, MAX_COOLDOWN_US)
    }

    /// Returns the delay rise, in microseconds, that counts as rising rather than jitter.
    ///
    /// An eighth of the round trip, floored at 1 ms and capped at 5 ms.
    #[must_use]
    pub fn gradient_rise_us(&self) -> (us: i64)
        ensures
            us == self.rise(),
    {
        let eighth: u64 = self.round_trip_us / GRADIENT_RISE_DIVISOR;
        if eighth < MIN_GRADIENT_RISE_US {
            MIN_GRADIENT_RISE_US as i64
        } else if eighth > MAX_GRADIENT_RISE_US {
            MAX_GRADIENT_RISE_US as i64
        } else {
            eighth as i64
        }
    }

    /// Returns the window length past which a gradient is meaningless, in microseconds.
    ///
    /// A window this long means the feedback stopped rather than that the path slowed down.
    /// Such a window ends the comparison in both directions: it produces no decision of its own,
    /// and it leaves no baseline behind, so the window after the silence is not measured against
    /// one from before it.
    #[must_use]
    pub fn stale_us(&self) -> (us: u64)
        ensures
            us == self.stale(),
    {
        let ticks: u64 = self.tick_us() * STALE_TICKS;
        if ticks < STALE_FLOOR_US {
            STALE_FLOOR_US
        } else {
            ticks
        }
    }
}

/// Returns `times` round trips, held between `low` and `high`.
fn scaled(round_trip_us: u64, times: u64, low: u64, high: u64) -> (us: u64)
    requires
        low <= high,
    ensures
        us == held_between(round_trip_us * times, low as int, high as int),
{
    let product: u64 = match round_trip_us.checked_mul(times) {
        Some(product) => product,
        None => return high,
    };
    if product < low {
        low
    } else if product > high {
        high
    } else {
        product
    }
}

/// A snapshot of the controller, for the stats surface.
///
/// Cheap to take and free of anything the frame path would miss, so the 10 Hz reporter can pull
/// one whenever it likes.
#[derive(Debug, Clone, Copy, PartialEq, Eq, Structural)]
pub struct CongestionStats {
    /// The rate the encoder should be running at, in bits per second.
    pub target_bps: u32,
    /// Change in the minimum one-way delay across the last two windows, in microseconds.
    pub last_gradient_us: i64,
    /// How many net-rising ticks have accumulated toward a delay back-off.
    pub rising_ticks: u32,
    /// Windows closed since the controller started.
    pub ticks: u64,
    /// Ticks that raised the rate.
    pub increases: u64,
    /// Ticks that cut the rate.
    pub backoffs: u64,
    /// Whether the controller is still holding still after a back-off.
    pub cooling_down: bool,
    /// What the last closed window decided.
    pub last_action: RateAction,
}

/// A controller as its contracts see it.
pub struct CongestionModel {
    /// The settings in force.
    pub config: CongestionConfig,
    /// The rate that applies.
    pub target: int,
    /// When the current window opened, once anything has been observed.
    pub window_start: Option<int>,
    /// The smallest delay in the current window, once it holds one.
    pub window_min: Option<int>,
    /// How many observations the current window holds.
    pub window_count: int,
    /// The smallest delay of the window before, where there is one to compare with.
    pub previous_min: Option<int>,
    /// Net-rising ticks so far.
    pub rising_ticks: int,
    /// When the cooldown after the last cut ends.
    pub cooldown_until: int,
    /// When the last observation was made.
    pub last_observed: int,
    /// The last comparison of two windows.
    pub last_gradient: int,
    /// What the last closed window decided.
    pub last_action: RateAction,
    /// Windows closed.
    pub ticks: int,
    /// Windows that raised the rate.
    pub increases: int,
    /// Windows that cut the rate.
    pub backoffs: int,
}

/// How far the trend counter stands after a tick.
pub open spec fn trend(rising_ticks: int, rising: bool) -> int {
    if rising {
        if rising_ticks < u32::MAX {
            rising_ticks + 1
        } else {
            rising_ticks
        }
    } else {
        if rising_ticks > 0 {
            rising_ticks - 1
        } else {
            0
        }
    }
}

impl CongestionModel {
    /// Whether the counters can count one more observation.
    pub open spec fn has_room(self) -> bool {
        self.window_count < u32::MAX && self.ticks < u64::MAX
    }

    /// How long the current window has been open at `now`.
    pub open spec fn elapsed(self, now: int) -> int {
        match self.window_start {
            Some(start) if start < now => now - start,
            _ => 0,
        }
    }

    /// Whether an observation made at `now` closes the current window.
    pub open spec fn closes(self, now: int) -> bool {
        self.window_min is Some && self.elapsed(now) >= self.config.tick()
    }

    /// Whether the window closing at `now` can be compared with the one before it.
    pub open spec fn compares(self, now: int) -> bool {
        self.previous_min is Some && self.elapsed(now) <= self.config.stale()
    }

    /// How the smallest delay moved from the previous window to this one.
    pub open spec fn gradient(self) -> int {
        held_between(
            self.window_min->0 - self.previous_min->0,
            i64::MIN as int,
            i64::MAX as int,
        )
    }

    /// Whether the delay is rising.
    pub open spec fn rising(self) -> bool {
        self.gradient() > self.config.rise()
    }

    /// What the window closing at `now` decides.
    pub open spec fn decision(self, now: int, loss: LossReading) -> RateAction {
        if !self.compares(now) || now < self.cooldown_until {
            RateAction::Hold
        } else if trend(self.rising_ticks, self.rising()) >= self.config.rising_ticks_to_back_off {
            RateAction::DecreaseDelay
        } else if loss == LossReading::High {
            RateAction::DecreaseLoss
        } else if !self.rising() && loss == LossReading::Low {
            RateAction::Increase
        } else {
            RateAction::Hold
        }
    }

    /// The controller once the current window has been closed at `now`.
    pub open spec fn closing(self, now: int, loss: LossReading, reduced_bps: u32) -> CongestionModel {
        let action = self.decision(now, loss);
        let cut = action == RateAction::DecreaseDelay || action == RateAction::DecreaseLoss;
        let stale = self.elapsed(now) > self.config.stale();
        CongestionModel {
            target: if cut {
                held_between(
                    reduced_bps as int,
                    self.config.min_bps as int,
                    self.config.max_bps as int,
                )
            } else if action == RateAction::Increase {
                held_between(
                    self.target + self.config.increase_step_bps,
                    self.config.min_bps as int,
                    self.config.max_bps as int,
                )
            } else {
                self.target
            },
            previous_min: if stale {
                None
            } else {
                self.window_min
            },
            rising_ticks: if stale || cut {
                0
            } else if !self.compares(now) || now < self.cooldown_until {
                self.rising_ticks
            } else {
                trend(self.rising_ticks, self.rising())
            },
            cooldown_until: if cut {
                held_between(now + self.config.cooldown(), 0, u64::MAX as int)
            } else {
                self.cooldown_until
            },
            last_gradient: if self.compares(now) {
                self.gradient()
            } else {
                self.last_gradient
            },
            last_action: action,
            ticks: self.ticks + 1,
            increases: if action == RateAction::Increase {
                self.increases + 1
            } else {
                self.increases
            },
            backoffs: if cut {
                self.backoffs + 1
            } else {
                self.backoffs
            },
            ..self
        }
    }

    /// The controller with a fresh window opened at `now`.
    pub open spec fn opening(self, now: int) -> CongestionModel {
        CongestionModel { window_start: Some(now), window_min: None, window_count: 0, ..self }
    }

    /// The controller once an observation of `delay` made at `now` is in its current window.
    pub open spec fn folding(self, delay: int, now: int) -> CongestionModel {
        CongestionModel {
            window_min: match self.window_min {
                Some(min) if min <= delay => Some(min),
                _ => Some(delay),
            },
            window_count: self.window_count + 1,
            last_observed: now,
            ..self
        }
    }

    /// The controller after an observation.
    pub open spec fn observing(
        self,
        delay: int,
        now: int,
        loss: LossReading,
        reduced_bps: u32,
    ) -> CongestionModel {
        if self.window_start is None {
            self.opening(now).folding(delay, now)
        } else if self.closes(now) {
            self.closing(now, loss, reduced_bps).opening(now).folding(delay, now)
        } else {
            self.folding(delay, now)
        }
    }

    /// The same controller had every delay been measured `by` later.
    pub open spec fn shifted(self, by: int) -> CongestionModel {
        CongestionModel {
            window_min: match self.window_min {
                Some(min) => Some(min + by),
                None => None,
            },
            previous_min: match self.previous_min {
                Some(min) => Some(min + by),
                None => None,
            },
            ..self
        }
    }
}

/// A clock offset error cancels exactly, whatever its size and sign: a controller that measures
/// every delay with the same error takes the same decisions, and stays the same but for that
/// error.
pub proof fn a_clock_offset_error_cancels(
    model: CongestionModel,
    error: int,
    delay: int,
    now: int,
    loss: LossReading,
    reduced_bps: u32,
)
    ensures
        model.shifted(error).observing(delay + error, now, loss, reduced_bps) == model.observing(
            delay,
            now,
            loss,
            reduced_bps,
        ).shifted(error),
        model.shifted(error).observing(delay + error, now, loss, reduced_bps).target
            == model.observing(delay, now, loss, reduced_bps).target,
{
    let other = model.shifted(error);
    if model.compares(now) && model.window_min is Some {
        assert(other.gradient() == model.gradient());
    }
    assert(other.closes(now) == model.closes(now));
    if model.closes(now) {
        assert(other.decision(now, loss) == model.decision(now, loss));
        assert(other.closing(now, loss, reduced_bps) == model.closing(
            now,
            loss,
            reduced_bps,
        ).shifted(error));
    }
}

/// One enormous delay among smaller ones changes nothing that a window will be judged by.
pub proof fn an_outlier_changes_no_window(model: CongestionModel, delay: int, now: int)
    requires
        model.window_min matches Some(min) && min <= delay,
    ensures
        model.folding(delay, now) == (CongestionModel {
            window_count: model.window_count + 1,
            last_observed: now,
            ..model
        }),
{
}

/// The delay a window is judged by is the least of those observed in it, whatever order they came
/// in: an observation that opens a window is all there is to judge it by, and any later one is
/// what it is judged by exactly where it is smaller.
pub proof fn a_window_is_judged_by_its_least_delay(
    model: CongestionModel,
    delay: int,
    now: int,
    loss: LossReading,
    reduced_bps: u32,
)
    ensures
        ({
            let after = model.observing(delay, now, loss, reduced_bps);
            &&& after.window_min is Some
            &&& after.window_min->0 <= delay
            &&& model.window_start is None || model.window_min is None ==> after.window_min
                == Some(delay)
            &&& model.window_start matches Some(start) ==> (model.window_min matches Some(least) ==> {
                if now - start >= model.config.tick() {
                    after.window_min == Some(delay)
                } else {
                    &&& after.window_min->0 <= least
                    &&& after.window_min->0 == delay || after.window_min->0 == least
                }
            })
        }),
{
}

/// The controller after a run of observations, each a delay and when it was made, none of which
/// closes the window.
pub open spec fn folding_all(model: CongestionModel, run: Seq<(int, int)>) -> CongestionModel
    decreases run.len(),
{
    if run.len() == 0 {
        model
    } else {
        folding_all(model, run.drop_last()).folding(run.last().0, run.last().1)
    }
}

/// A whole window is judged by the least of its delays: it is one of them, and none is smaller.
pub proof fn the_least_of_a_window_is_one_of_its_delays(model: CongestionModel, run: Seq<(int, int)>)
    requires
        model.window_min is None,
        run.len() > 0,
    ensures
        folding_all(model, run).window_min is Some,
        exists|i: int|
            0 <= i < run.len() && folding_all(model, run).window_min == Some((#[trigger] run[i]).0),
        forall|i: int|
            0 <= i < run.len() ==> folding_all(model, run).window_min->0 <= (#[trigger] run[i]).0,
        folding_all(model, run).previous_min == model.previous_min,
        folding_all(model, run).target == model.target,
    decreases run.len(),
{
    let before = run.drop_last();
    let last = run.len() - 1;
    if before.len() > 0 {
        the_least_of_a_window_is_one_of_its_delays(model, before);
        let i = choose|i: int|
            0 <= i < before.len() && folding_all(model, before).window_min == Some(
                (#[trigger] before[i]).0,
            );
        assert(before[i] == run[i]);
        assert forall|i: int| 0 <= i < run.len() implies folding_all(model, run).window_min->0 <= (
        #[trigger] run[i]).0 by {
            if i < last {
                assert(before[i] == run[i]);
            }
        }
        assert(run[last] == run.last());
    } else {
        assert(before =~= Seq::empty());
        assert(run[last] == run.last());
    }
}

/// What a closed window is compared by, and what follows from it, where it can be compared at all
/// and no cut is being waited out.
///
/// `rise` is how much the least delay of this window is above that of the one before. A rise is a
/// trend once there have been enough of them, and cuts the rate; so does heavy loss. Without
/// either the rate climbs by one step, up to its ceiling, where the delay did not rise and hardly
/// anything was lost, and stays where it is otherwise.
pub proof fn a_window_is_answered_by_how_its_delay_moved(
    model: CongestionModel,
    start: int,
    least: int,
    previous: int,
    delay: int,
    now: int,
    loss: LossReading,
    reduced_bps: u32,
)
    requires
        model.config.sane(),
        model.config.min_bps <= model.target <= model.config.max_bps,
        0 <= model.rising_ticks < model.config.rising_ticks_to_back_off,
        0 <= start,
        model.window_start == Some(start),
        model.window_min == Some(least),
        model.previous_min == Some(previous),
        i64::MIN <= least - previous <= i64::MAX,
        model.config.tick() <= now - start <= model.config.stale(),
        model.cooldown_until <= now,
    ensures
        ({
            let after = model.observing(delay, now, loss, reduced_bps);
            let rising = least - previous > model.config.rise();
            let believed = rising && model.rising_ticks + 1
                >= model.config.rising_ticks_to_back_off;
            let step = model.target + model.config.increase_step_bps;
            &&& after.last_gradient == least - previous
            &&& after.previous_min == Some(least)
            &&& after.ticks == model.ticks + 1
            &&& after.window_start == Some(now)
            &&& if believed || loss == LossReading::High {
                &&& after.last_action == if believed {
                    RateAction::DecreaseDelay
                } else {
                    RateAction::DecreaseLoss
                }
                &&& model.config.min_bps <= after.target <= model.config.max_bps
                &&& model.config.min_bps <= reduced_bps <= model.config.max_bps ==> after.target
                    == reduced_bps
                &&& reduced_bps < model.config.min_bps ==> after.target == model.config.min_bps
                &&& now + model.config.cooldown() <= u64::MAX ==> after.cooldown_until == now
                    + model.config.cooldown()
                &&& after.rising_ticks == 0
                &&& after.backoffs == model.backoffs + 1
                &&& after.increases == model.increases
            } else {
                &&& after.cooldown_until == model.cooldown_until
                &&& after.backoffs == model.backoffs
                &&& after.rising_ticks == if rising {
                    model.rising_ticks + 1
                } else if model.rising_ticks > 0 {
                    model.rising_ticks - 1
                } else {
                    0
                }
                &&& if !rising && loss == LossReading::Low {
                    &&& after.last_action == RateAction::Increase
                    &&& after.increases == model.increases + 1
                    &&& after.target <= model.config.max_bps
                    &&& after.target == step || (after.target == model.config.max_bps
                        && model.config.max_bps < step)
                } else {
                    &&& after.last_action == RateAction::Hold
                    &&& after.increases == model.increases
                    &&& after.target == model.target
                }
            }
        }),
{
}

/// Nothing is decided before a window is as long as a tick, nor by the first window there is.
pub proof fn nothing_is_decided_early(
    model: CongestionModel,
    delay: int,
    now: int,
    loss: LossReading,
    reduced_bps: u32,
)
    ensures
        ({
            let after = model.observing(delay, now, loss, reduced_bps);
            &&& (model.window_start matches Some(start) ==> now - start < model.config.tick()) ==> {
                &&& after.target == model.target
                &&& after.ticks == model.ticks
                &&& after.rising_ticks == model.rising_ticks
                &&& after.previous_min == model.previous_min
            }
            &&& model.previous_min is None ==> after.target == model.target
            &&& after.config == model.config
            &&& after.last_observed == now
        }),
{
    assert(model.config.tick() > 0);
}

/// The times the controller works by follow the round trip, each inside its own bounds: a tick is
/// two round trips, a cooldown eight, and a rise counts from an eighth of one.
pub proof fn the_times_follow_the_round_trip(config: CongestionConfig)
    ensures
        20_000 <= config.tick() <= 100_000,
        100_000 <= config.cooldown() <= 1_000_000,
        1_000 <= config.rise() <= 5_000,
        10_000 <= config.round_trip_us <= 50_000 ==> config.tick() == 2 * config.round_trip_us,
        12_500 <= config.round_trip_us <= 125_000 ==> config.cooldown() == 8 * config.round_trip_us,
        8_000 <= config.round_trip_us <= 40_000 ==> 8 * config.rise() <= config.round_trip_us < 8
            * config.rise() + 8,
        config.round_trip_us <= 10_000 ==> config.tick() == 20_000,
        config.round_trip_us >= 50_000 ==> config.tick() == 100_000,
        config.round_trip_us <= 12_500 ==> config.cooldown() == 100_000,
        config.round_trip_us >= 125_000 ==> config.cooldown() == 1_000_000,
        config.round_trip_us <= 8_000 ==> config.rise() == 1_000,
        config.round_trip_us >= 40_000 ==> config.rise() == 5_000,
        config.stale() >= 500_000,
        config.stale() == 500_000 || config.stale() == 8 * config.tick(),
        config.stale() >= 8 * config.tick(),
{
}

/// A spike that owns a whole window costs one tick of the trend and gives it back on the next.
pub proof fn a_lone_rise_is_taken_back(rising_ticks: int)
    requires
        0 <= rising_ticks < u32::MAX,
    ensures
        trend(trend(rising_ticks, true), false) == rising_ticks,
{
}

/// One congestion episode is answered once: a window that closes inside the cooldown moves
/// neither the rate nor the trend, unless the feedback had stopped, in which case there is no
/// trend left.
pub proof fn the_cooldown_holds_still(
    model: CongestionModel,
    now: int,
    loss: LossReading,
    reduced_bps: u32,
)
    requires
        now < model.cooldown_until,
    ensures
        ({
            let after = model.closing(now, loss, reduced_bps);
            &&& after.last_action == RateAction::Hold
            &&& after.target == model.target
            &&& after.cooldown_until == model.cooldown_until
            &&& model.elapsed(now) <= model.config.stale() ==> after.rising_ticks
                == model.rising_ticks
        }),
{
}

/// A silence is no measurement: a window that stayed open past the stale cutoff decides nothing
/// and leaves nothing to compare with, so neither does the window after it.
pub proof fn a_silence_decides_nothing(
    model: CongestionModel,
    now: int,
    loss: LossReading,
    reduced_bps: u32,
    delay: int,
    later: int,
    later_loss: LossReading,
)
    requires
        model.elapsed(now) > model.config.stale(),
    ensures
        ({
            let after = model.closing(now, loss, reduced_bps);
            let next = after.opening(now).folding(delay, now);
            &&& after.target == model.target
            &&& after.last_action == RateAction::Hold
            &&& after.rising_ticks == 0
            &&& next.decision(later, later_loss) == RateAction::Hold
        }),
{
}

/// Chooses a target bitrate from one-way delay and frame loss.
///
/// Observations are folded in as they arrive and decisions are taken once per tick, so the
/// controller reacts on a schedule set by the path rather than by the frame rate.
#[derive(Debug, Clone)]
pub struct CongestionController {
    config: CongestionConfig,
    target_bps: u32,
    started: bool,
    window_start_us: u64,
    window_min_us: i64,
    window_count: u32,
    prev_min_us: Option<i64>,
    rising_ticks: u32,
    cooldown_until_us: u64,
    last_observed_us: u64,
    last_gradient_us: i64,
    last_action: RateAction,
    ticks: u64,
    increases: u64,
    backoffs: u64,
}

impl View for CongestionController {
    type V = CongestionModel;

    closed spec fn view(&self) -> CongestionModel {
        CongestionModel {
            config: self.config,
            target: self.target_bps as int,
            window_start: if self.started {
                Some(self.window_start_us as int)
            } else {
                None
            },
            window_min: if self.window_count > 0 {
                Some(self.window_min_us as int)
            } else {
                None
            },
            window_count: self.window_count as int,
            previous_min: match self.prev_min_us {
                Some(min) => Some(min as int),
                None => None,
            },
            rising_ticks: self.rising_ticks as int,
            cooldown_until: self.cooldown_until_us as int,
            last_observed: self.last_observed_us as int,
            last_gradient: self.last_gradient_us as int,
            last_action: self.last_action,
            ticks: self.ticks as int,
            increases: self.increases as int,
            backoffs: self.backoffs as int,
        }
    }
}

impl CongestionController {
    /// Whether the settings are sane, the rate is within them and the counts agree.
    pub closed spec fn wf(&self) -> bool {
        &&& self.config.sane()
        &&& self.config.min_bps <= self.target_bps <= self.config.max_bps
        &&& self.window_count == 0 ==> self.window_min_us == i64::MAX
        &&& !self.started ==> self.window_count == 0
        &&& self.increases + self.backoffs <= self.ticks
    }

    /// Creates a controller sitting at the configured starting rate.
    ///
    /// The settings have to be able to produce sane decisions: bounds in order and around the
    /// start, an increase step, and at least one rising tick before a back-off.
    #[must_use]
    pub fn new(config: CongestionConfig) -> (controller: Self)
        requires
            config.sane(),
        ensures
            controller.wf(),
            controller@ == (CongestionModel {
                config,
                target: config.start_bps as int,
                window_start: None,
                window_min: None,
                window_count: 0,
                previous_min: None,
                rising_ticks: 0,
                cooldown_until: 0,
                last_observed: 0,
                last_gradient: 0,
                last_action: RateAction::Hold,
                ticks: 0,
                increases: 0,
                backoffs: 0,
            }),
    {
        CongestionController {
            config,
            target_bps: config.start_bps,
            started: false,
            window_start_us: 0,
            window_min_us: i64::MAX,
            window_count: 0,
            prev_min_us: None,
            rising_ticks: 0,
            cooldown_until_us: 0,
            last_observed_us: 0,
            last_gradient_us: 0,
            last_action: RateAction::Hold,
            ticks: 0,
            increases: 0,
            backoffs: 0,
        }
    }

    /// Returns whether an observation made at `observed_at_us` closes the current window.
    ///
    /// The loss handed to [`Self::observe`] with such an observation is that of the window it
    /// closes; with any other it is not looked at.
    #[must_use]
    pub fn closes_window(&self, observed_at_us: u64) -> (closes: bool)
        requires
            self.wf(),
        ensures
            closes == self@.closes(observed_at_us as int),
    {
        let elapsed: u64 = observed_at_us.saturating_sub(self.window_start_us);
        self.window_count > 0 && elapsed >= self.config.tick_us()
    }

    /// Folds one observation in and returns the target rate that now applies.
    ///
    /// `loss` is how the loss of the window that this observation closes compares with the
    /// thresholds, and `reduced_bps` is the current target times the decrease factor.
    ///
    /// Constant time and allocation-free. Most calls only update three accumulators; a decision
    /// is taken on the call that first crosses a tick boundary, and even that is a handful of
    /// comparisons.
    ///
    /// The returned value is the same one [`Self::target_bps`] would give, offered here so a
    /// caller feeding the controller from the feedback path does not need a second call.
    pub fn observe(&mut self, sample: &DelaySample, loss: LossReading, reduced_bps: u32) -> (rate:
        u32)
        requires
            old(self).wf(),
            old(self)@.has_room(),
        ensures
            final(self).wf(),
            final(self)@ == old(self)@.observing(
                sample.one_way_delay_us as int,
                sample.observed_at_us as int,
                loss,
                reduced_bps,
            ),
            rate == final(self)@.target,
    {
        let now: u64 = sample.observed_at_us;
        if !self.started {
            self.started = true;
            self.open_window(now);
        }
        if self.closes_window(now) {
            let elapsed: u64 = now.saturating_sub(self.window_start_us);
            self.close_window(now, elapsed, loss, reduced_bps);
            self.open_window(now);
        }
        if sample.one_way_delay_us < self.window_min_us {
            self.window_min_us = sample.one_way_delay_us;
        }
        self.window_count = self.window_count + 1;
        self.last_observed_us = now;
        self.target_bps
    }

    /// Returns the rate the encoder should be running at, in bits per second.
    ///
    /// Always within the configured bounds, before the first observation and after every one.
    #[must_use]
    pub fn target_bps(&self) -> (bps: u32)
        requires
            self.wf(),
        ensures
            bps == self@.target,
            self@.config.min_bps <= bps <= self@.config.max_bps,
    {
        self.target_bps
    }

    /// Returns whether the counters can count one more observation.
    #[must_use]
    pub fn can_count(&self) -> (yes: bool)
        ensures
            yes == self@.has_room(),
    {
        self.window_count < u32::MAX && self.ticks < u64::MAX
    }

    /// Returns the configuration in force.
    #[must_use]
    pub fn config(&self) -> (config: CongestionConfig)
        ensures
            config == self@.config,
    {
        self.config
    }

    /// Retunes the time-based parameters against a freshly measured round trip.
    ///
    /// Clock sync only improves its estimate when a round trip happens to beat every one before
    /// it, so the figure worth acting on arrives some way into a session rather than at the
    /// start. Retuning mid-session is safe: the tick, cooldown and gradient threshold are
    /// derived on demand, so nothing already accumulated is invalidated.
    pub fn set_round_trip_us(&mut self, round_trip_us: u64)
        requires
            old(self).wf(),
        ensures
            final(self).wf(),
            final(self)@ == (CongestionModel {
                config: CongestionConfig { round_trip_us, ..old(self)@.config },
                ..old(self)@
            }),
    {
        self.config.round_trip_us = round_trip_us;
    }

    /// Returns a snapshot for the stats surface.
    #[must_use]
    pub fn stats(&self) -> (stats: CongestionStats)
        ensures
            stats.target_bps == self@.target,
            stats.last_gradient_us == self@.last_gradient,
            stats.rising_ticks == self@.rising_ticks,
            stats.ticks == self@.ticks,
            stats.increases == self@.increases,
            stats.backoffs == self@.backoffs,
            stats.cooling_down == (self@.last_observed < self@.cooldown_until),
            stats.last_action == self@.last_action,
    {
        CongestionStats {
            target_bps: self.target_bps,
            last_gradient_us: self.last_gradient_us,
            rising_ticks: self.rising_ticks,
            ticks: self.ticks,
            increases: self.increases,
            backoffs: self.backoffs,
            cooling_down: self.last_observed_us < self.cooldown_until_us,
            last_action: self.last_action,
        }
    }

    /// Starts a fresh accumulation window at `now`.
    fn open_window(&mut self, now: u64)
        requires
            old(self).wf(),
            old(self).started,
        ensures
            final(self).wf(),
            final(self).started,
            final(self)@ == old(self)@.opening(now as int),
    {
        self.window_start_us = now;
        self.window_min_us = i64::MAX;
        self.window_count = 0;
    }

    /// Closes the current window and decides what the rate should do.
    ///
    /// The window statistic is the minimum delay, not the mean, because queueing only ever adds
    /// to delay: the smallest sample is the one that queued least, so one enormous sample among
    /// clean ones changes nothing.
    fn close_window(&mut self, now: u64, elapsed: u64, loss: LossReading, reduced_bps: u32)
        requires
            old(self).wf(),
            old(self).started,
            old(self)@.window_min is Some,
            old(self)@.ticks < u64::MAX,
            elapsed == old(self)@.elapsed(now as int),
        ensures
            final(self).wf(),
            final(self).started,
            final(self)@ == old(self)@.closing(now as int, loss, reduced_bps),
    {
        self.ticks = self.ticks + 1;
        let min_us: i64 = self.window_min_us;
        let previous: Option<i64> = self.prev_min_us;
        // A window that took far longer than a tick means the feedback stopped, not that the
        // path slowed down. Both the decision this window would produce and the baseline it
        // would leave behind are discarded, because the next window would otherwise be compared
        // against a measurement from before the silence.
        if elapsed > self.config.stale_us() {
            self.prev_min_us = None;
            self.rising_ticks = 0;
            self.last_action = RateAction::Hold;
            return ;
        }
        self.prev_min_us = Some(min_us);
        let previous_us: i64 = match previous {
            Some(previous_us) => previous_us,
            None => {
                self.last_action = RateAction::Hold;
                return ;
            },
        };
        let gradient_us: i64 = difference(min_us, previous_us);
        self.last_gradient_us = gradient_us;
        // Inside the cooldown the trend counter is not merely ignored but frozen, because the
        // rate cut that started the cooldown has not reached the bottleneck yet. Delay still
        // rising here is the previous congestion event, not a new one.
        if now < self.cooldown_until_us {
            self.last_action = RateAction::Hold;
            return ;
        }
        let rising: bool = gradient_us > self.config.gradient_rise_us();
        self.rising_ticks = if rising {
            self.rising_ticks.saturating_add(1)
        } else {
            self.rising_ticks.saturating_sub(1)
        };
        if self.rising_ticks >= self.config.rising_ticks_to_back_off {
            self.decrease(now, RateAction::DecreaseDelay, reduced_bps);
        } else if loss == LossReading::High {
            self.decrease(now, RateAction::DecreaseLoss, reduced_bps);
        } else if !rising && loss == LossReading::Low {
            self.increase();
        } else {
            self.last_action = RateAction::Hold;
        }
    }

    /// Cuts the rate multiplicatively and starts the cooldown.
    fn decrease(&mut self, now: u64, why: RateAction, reduced_bps: u32)
        requires
            old(self).config.sane(),
            old(self).backoffs < u64::MAX,
        ensures
            final(self)@ == (CongestionModel {
                target: held_between(
                    reduced_bps as int,
                    old(self)@.config.min_bps as int,
                    old(self)@.config.max_bps as int,
                ),
                cooldown_until: held_between(
                    now + old(self)@.config.cooldown(),
                    0,
                    u64::MAX as int,
                ),
                rising_ticks: 0,
                backoffs: old(self)@.backoffs + 1,
                last_action: why,
                ..old(self)@
            }),
            final(self).window_min_us == old(self).window_min_us,
            final(self).started == old(self).started,
    {
        self.target_bps = clamped(reduced_bps, self.config.min_bps, self.config.max_bps);
        self.cooldown_until_us = now.saturating_add(self.config.cooldown_us());
        self.rising_ticks = 0;
        self.backoffs = self.backoffs + 1;
        self.last_action = why;
    }

    /// Raises the rate by one additive step.
    fn increase(&mut self)
        requires
            old(self).config.sane(),
            old(self).increases < u64::MAX,
        ensures
            final(self)@ == (CongestionModel {
                target: held_between(
                    old(self)@.target + old(self)@.config.increase_step_bps,
                    old(self)@.config.min_bps as int,
                    old(self)@.config.max_bps as int,
                ),
                increases: old(self)@.increases + 1,
                last_action: RateAction::Increase,
                ..old(self)@
            }),
            final(self).window_min_us == old(self).window_min_us,
            final(self).started == old(self).started,
    {
        self.target_bps = clamped(
            self.target_bps.saturating_add(self.config.increase_step_bps),
            self.config.min_bps,
            self.config.max_bps,
        );
        self.increases = self.increases + 1;
        self.last_action = RateAction::Increase;
    }
}

/// Returns `value` held between `low` and `high`.
fn clamped(value: u32, low: u32, high: u32) -> (result: u32)
    requires
        low <= high,
    ensures
        result == held_between(value as int, low as int, high as int),
{
    if value < low {
        low
    } else if value > high {
        high
    } else {
        value
    }
}

/// Returns `a` less `b`, held at what an `i64` can hold.
fn difference(a: i64, b: i64) -> (result: i64)
    ensures
        result == held_between(a - b, i64::MIN as int, i64::MAX as int),
{
    let exact: i128 = a as i128 - b as i128;
    if exact < i64::MIN as i128 {
        i64::MIN
    } else if exact > i64::MAX as i128 {
        i64::MAX
    } else {
        exact as i64
    }
}

} // verus!
