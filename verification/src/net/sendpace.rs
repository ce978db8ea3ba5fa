//! Deciding when each packet is allowed to leave the host.
//!
//! An encoder that has just finished a frame hands the network its packets in a few hundred
//! microseconds, and a socket will happily put all of them on the link back to back. The
//! narrowest link on the path cannot, so the excess lands in whatever queue sits in front of
//! it, and both outcomes are bad. Either the queue overflows and the loss arrives as a run of
//! consecutive packets, which is the worst shape loss can take for video because consecutive
//! packets belong to the same slice; or the queue absorbs the burst and everything behind it
//! waits, including the input events coming the other way.
//!
//! Spreading the same bytes across roughly [`SPREAD_PERCENT`] of the frame interval costs
//! nothing in throughput and removes both. Nothing here needs the frame rate to do it: a frame
//! carries `bitrate / fps` bytes and is given `0.8 / fps` seconds to send them in, so the frame
//! rate cancels and the whole policy reduces to pacing at a fixed multiple of the target
//! bitrate.
//!
//! # A virtual clock
//!
//! The whole state is one nanosecond timestamp saying when the next packet is due. There is no
//! fractional token balance to round, bounding the credit earned while idle is one maximum
//! against the current time, and a rate change only changes what future packets cost.
//!
//! # Burst allowance
//!
//! A pacer with no burst allowance stalls the very first packet of every frame for a full
//! packet time, which is latency spent to prevent nothing. So the pacer carries a tolerance of
//! [`DEFAULT_BURST_BYTES`], and the floor of [`MIN_BURST_BYTES`] makes a zero allowance
//! impossible to configure by accident. The allowance is counted in bytes because the buffer it
//! protects is itself measured in bytes, and because a byte allowance keeps its meaning as
//! congestion control moves the rate around.
//!
//! # The caller batches its waits
//!
//! At 40 Mbps packets are released 192 us apart, which no thread sleep can honour. A wait
//! shorter than [`PacerConfig::min_sleep`] is therefore reported as zero and the time it was
//! owed is carried in the virtual clock, to be paid off by a longer wait a few packets later.
//! The long-run rate is unchanged, which [`the_rate_is_kept`] states, while the spacing is
//! coarsened into groups the operating system can actually deliver.
//!
//! The pacer owns no socket, no thread, no buffer and no clock: times are nanoseconds the
//! caller passes in.

use vstd::prelude::*;

verus! {

/// Nanoseconds in one second.
const NANOS_PER_SEC: u64 = 1_000_000_000;

/// Percentage of the frame interval a frame's packets are spread across.
///
/// The remaining fifth of the interval is headroom: a frame that encodes larger than its
/// budget, or arrives late, has somewhere to go without colliding with the next one.
pub const SPREAD_PERCENT: u32 = 80;

/// Lowest bitrate the pacer will pace at, in bits per second.
///
/// Congestion control drives the rate and can be asked, by a path that has collapsed, to drive
/// it to zero. Honouring that literally would wedge the session behind an unbounded wait,
/// including the probe that would have raised the rate again. The pacer holds the floor and
/// leaves stopping to the layer that can resume.
pub const MIN_BITRATE_BPS: u32 = 1_000_000;

/// Bitrate a pacer starts at when the caller does not name one, in bits per second.
pub const DEFAULT_BITRATE_BPS: u32 = 20_000_000;

/// Smallest burst allowance the pacer will accept, in bytes.
///
/// One full packet, because an allowance below that delays the first packet after any idle
/// period and prevents nothing by doing so.
pub const MIN_BURST_BYTES: u32 = 1200;

/// Burst allowance used when the caller does not choose one, in bytes.
pub const DEFAULT_BURST_BYTES: u32 = 4800;

/// Shortest wait worth handing to a thread sleep on the platform with the coarsest timer, in
/// nanoseconds.
pub const DEFAULT_MIN_SLEEP: u64 = 1_000_000;

/// How the send pacer should shape its traffic.
#[derive(Debug, Clone, Copy)]
pub struct PacerConfig {
    /// Target bitrate for the video stream, in bits per second.
    ///
    /// This is the rate the stream should average, not the rate packets leave at: the pacer
    /// sends at `bitrate_bps * 100 / SPREAD_PERCENT` so a frame's worth of bytes occupies
    /// [`SPREAD_PERCENT`] of the frame interval. Values below [`MIN_BITRATE_BPS`] are raised to
    /// it.
    pub bitrate_bps: u32,
    /// How many bytes may leave back to back before pacing takes hold.
    ///
    /// Values below [`MIN_BURST_BYTES`] are raised to it.
    pub burst_bytes: u32,
    /// Shortest wait the caller is willing to actually sleep for, in nanoseconds.
    ///
    /// Anything shorter is reported as zero and carried forward. Zero asks for the exact
    /// per-packet answer, which only a caller with a sub-millisecond timer can honour.
    pub min_sleep: u64,
}

impl Default for PacerConfig {
    fn default() -> (config: Self)
        ensures
            config.bitrate_bps == 20_000_000,
            config.burst_bytes == 4800,
            config.min_sleep == 1_000_000,
    {
        PacerConfig {
            bitrate_bps: DEFAULT_BITRATE_BPS,
            burst_bytes: DEFAULT_BURST_BYTES,
            min_sleep: DEFAULT_MIN_SLEEP,
        }
    }
}

/// A count held at what a `u64` can hold.
pub open spec fn saturated(count: int) -> int {
    if count > u64::MAX {
        u64::MAX as int
    } else {
        count
    }
}

/// How long `bytes` take to leave at `rate` bits per second, in whole nanoseconds.
pub open spec fn nanos(bytes: int, rate: int) -> int {
    if rate == 0 {
        0
    } else {
        saturated(bytes * 8_000_000_000) / rate
    }
}

/// The larger of two integers.
pub open spec fn later(a: int, b: int) -> int {
    if a >= b {
        a
    } else {
        b
    }
}

/// A pacer as its contracts see it.
pub struct PacerModel {
    /// Target bitrate in bits per second.
    pub bitrate_bps: int,
    /// Burst allowance in bytes.
    pub burst_bytes: int,
    /// Shortest wait that is reported.
    pub min_sleep: int,
    /// When the next packet is due: the virtual clock.
    pub next: int,
    /// Packets admitted.
    pub packets: int,
    /// Packets held back.
    pub waits: int,
    /// Time asked for in all.
    pub waited: int,
}

impl PacerModel {
    /// The rate packets leave at.
    pub open spec fn rate(self) -> int {
        self.bitrate_bps * 100 / 80
    }

    /// The burst allowance as time at that rate.
    pub open spec fn burst(self) -> int {
        nanos(self.burst_bytes, self.rate())
    }

    /// What a packet of `bytes` costs.
    pub open spec fn cost(self, bytes: int) -> int {
        nanos(bytes, self.rate())
    }

    /// How long a packet offered at `now` is owed a wait, worth sleeping for or not.
    pub open spec fn owed(self, now: int) -> int {
        later(0, later(0, self.next - self.burst()) - now)
    }

    /// The wait reported to a packet offered at `now`.
    pub open spec fn wait(self, now: int) -> int {
        if self.owed(now) < self.min_sleep {
            0
        } else {
            self.owed(now)
        }
    }

    /// The pacer after it has admitted a packet of `bytes` at `now`.
    pub open spec fn admitting(self, bytes: int, now: int) -> PacerModel {
        PacerModel {
            next: saturated(later(self.next, now) + self.cost(bytes)),
            packets: self.packets + 1,
            waits: self.waits + if self.wait(now) > 0 {
                1int
            } else {
                0int
            },
            waited: saturated(self.waited + self.wait(now)),
            ..self
        }
    }

    /// The pacer retuned to another bitrate. What is owed stays owed.
    pub open spec fn retuned(self, bitrate_bps: u32) -> PacerModel {
        PacerModel { bitrate_bps: later(bitrate_bps as int, MIN_BITRATE_BPS as int), ..self }
    }

    /// The pacer after it has admitted each of `offers`, a packet's length and when it was
    /// offered.
    pub open spec fn admitting_all(self, offers: Seq<(int, int)>) -> PacerModel
        decreases offers.len(),
    {
        if offers.len() == 0 {
            self
        } else {
            self.admitting_all(offers.drop_last()).admitting(offers.last().0, offers.last().1)
        }
    }

    /// What the packets of `offers` cost together.
    pub open spec fn cost_of_all(self, offers: Seq<(int, int)>) -> int
        decreases offers.len(),
    {
        if offers.len() == 0 {
            0
        } else {
            self.cost_of_all(offers.drop_last()) + self.cost(offers.last().0)
        }
    }
}

/// A packet that waits as it is told never leaves ahead of the virtual clock by more than the
/// burst allowance and the shortest reported wait together.
pub proof fn a_departure_is_never_early(pacer: PacerModel, now: int)
    requires
        pacer.min_sleep >= 0,
        now >= 0,
    ensures
        pacer.next <= now + pacer.wait(now) + pacer.burst() + pacer.min_sleep,
{
}

/// The long-run rate is kept, however short waits are batched: over any run of packets offered
/// at times that do not go back, the packets before the last one have been given all the time
/// they cost, but for the burst allowance and one unreported wait.
///
/// `offers` holds the earlier packets and `now` is when the last one is offered, so that it
/// leaves at `now` plus the wait it is told.
pub proof fn the_rate_is_kept(pacer: PacerModel, offers: Seq<(int, int)>, now: int)
    requires
        pacer.min_sleep >= 0,
        pacer.bitrate_bps > 0,
        offers.len() > 0,
        forall|i: int|
            0 <= i < offers.len() ==> 0 <= (#[trigger] offers[i]).0 && 0 <= offers[i].1 <= now,
        pacer.admitting_all(offers).next < u64::MAX,
    ensures
        pacer.cost_of_all(offers) <= now + pacer.admitting_all(offers).wait(now) - offers[0].1
            + pacer.burst() + pacer.min_sleep,
{
    lemma_clock_holds_every_cost(pacer, offers);
    let after = pacer.admitting_all(offers);
    a_departure_is_never_early(after, now);
}

/// The virtual clock stands at least as far past the first offer as the packets cost.
proof fn lemma_clock_holds_every_cost(pacer: PacerModel, offers: Seq<(int, int)>)
    requires
        pacer.bitrate_bps > 0,
        offers.len() > 0,
        forall|i: int| 0 <= i < offers.len() ==> 0 <= (#[trigger] offers[i]).0,
        pacer.admitting_all(offers).next < u64::MAX,
    ensures
        pacer.admitting_all(offers).next >= offers[0].1 + pacer.cost_of_all(offers),
        pacer.admitting_all(offers).bitrate_bps == pacer.bitrate_bps,
        pacer.admitting_all(offers).burst_bytes == pacer.burst_bytes,
        pacer.admitting_all(offers).min_sleep == pacer.min_sleep,
    decreases offers.len(),
{
    let earlier = offers.drop_last();
    let before = pacer.admitting_all(earlier);
    if earlier.len() == 0 {
        assert(earlier =~= Seq::<(int, int)>::empty());
        assert(pacer.cost_of_all(earlier) == 0);
    } else {
        lemma_settings_stay(pacer, earlier);
        lemma_cost_is_not_negative(before, offers.last().0);
        assert(before.next < u64::MAX);
        lemma_clock_holds_every_cost(pacer, earlier);
    }
}

/// No packet costs less than nothing.
proof fn lemma_cost_is_not_negative(pacer: PacerModel, bytes: int)
    requires
        pacer.bitrate_bps > 0,
        bytes >= 0,
    ensures
        pacer.cost(bytes) >= 0,
{
    let time = saturated(bytes * 8_000_000_000);
    let rate = pacer.rate();
    assert(rate > 0 ==> time / rate >= 0) by (nonlinear_arith)
        requires
            time >= 0,
    ;
}

/// Admitting packets changes none of a pacer's settings.
proof fn lemma_settings_stay(pacer: PacerModel, offers: Seq<(int, int)>)
    ensures
        pacer.admitting_all(offers).bitrate_bps == pacer.bitrate_bps,
        pacer.admitting_all(offers).burst_bytes == pacer.burst_bytes,
        pacer.admitting_all(offers).min_sleep == pacer.min_sleep,
    decreases offers.len(),
{
    if offers.len() > 0 {
        lemma_settings_stay(pacer, offers.drop_last());
    }
}

/// An idle pacer earns no credit: however long it has been idle, the next packet is due no
/// sooner than its own cost after it was offered.
pub proof fn idling_earns_nothing(pacer: PacerModel, bytes: int, now: int)
    requires
        now + pacer.cost(bytes) <= u64::MAX,
    ensures
        pacer.admitting(bytes, now).next >= now + pacer.cost(bytes),
{
}

/// Decides how long the caller must wait before putting each packet on the wire.
#[derive(Debug)]
pub struct SendPacer {
    bitrate_bps: u32,
    pacing_rate_bps: u64,
    burst_bytes: u32,
    burst_ns: u64,
    min_sleep_ns: u64,
    next_ns: u64,
    packets: u64,
    waits: u64,
    waited_ns: u64,
}

impl View for SendPacer {
    type V = PacerModel;

    closed spec fn view(&self) -> PacerModel {
        PacerModel {
            bitrate_bps: self.bitrate_bps as int,
            burst_bytes: self.burst_bytes as int,
            min_sleep: self.min_sleep_ns as int,
            next: self.next_ns as int,
            packets: self.packets as int,
            waits: self.waits as int,
            waited: self.waited_ns as int,
        }
    }
}

impl SendPacer {
    /// Whether what is derived from the bitrate agrees with it and the settings are above their
    /// floors.
    pub closed spec fn wf(&self) -> bool {
        &&& self.bitrate_bps >= MIN_BITRATE_BPS
        &&& self.burst_bytes >= MIN_BURST_BYTES
        &&& self.pacing_rate_bps == self@.rate()
        &&& self.burst_ns == self@.burst()
        &&& self.waits <= self.packets
    }

    /// Creates a pacer from `config`, raising any out-of-range field to its floor.
    #[must_use]
    pub fn new(config: PacerConfig) -> (pacer: Self)
        ensures
            pacer.wf(),
            pacer@ == (PacerModel {
                bitrate_bps: later(config.bitrate_bps as int, MIN_BITRATE_BPS as int),
                burst_bytes: later(config.burst_bytes as int, MIN_BURST_BYTES as int),
                min_sleep: config.min_sleep as int,
                next: 0,
                packets: 0,
                waits: 0,
                waited: 0,
            }),
    {
        let mut pacer = SendPacer {
            bitrate_bps: if config.bitrate_bps >= MIN_BITRATE_BPS {
                config.bitrate_bps
            } else {
                MIN_BITRATE_BPS
            },
            pacing_rate_bps: 0,
            burst_bytes: if config.burst_bytes >= MIN_BURST_BYTES {
                config.burst_bytes
            } else {
                MIN_BURST_BYTES
            },
            burst_ns: 0,
            min_sleep_ns: config.min_sleep,
            next_ns: 0,
            packets: 0,
            waits: 0,
            waited_ns: 0,
        };
        pacer.retune();
        pacer
    }

    /// Returns how long the caller must wait before sending a packet of `packet_bytes`, in
    /// nanoseconds.
    ///
    /// `now_ns` is the current time in nanoseconds from any fixed origin and must not go
    /// backwards. `packet_bytes` is whatever the caller wants metered.
    ///
    /// Every call accounts for the packet whether or not the returned wait is honoured, so the
    /// packet must actually be sent. A wait shorter than [`PacerConfig::min_sleep`] comes back
    /// as zero and is carried forward rather than forgiven, which is what keeps the long-run
    /// rate exact while the caller sleeps in batches the operating system can deliver.
    ///
    /// Input and control traffic should bypass the pacer entirely rather than be metered here.
    pub fn wait_before(&mut self, packet_bytes: usize, now_ns: u64) -> (wait_ns: u64)
        requires
            old(self).wf(),
            old(self)@.packets < u64::MAX,
        ensures
            final(self).wf(),
            wait_ns == old(self)@.wait(now_ns as int),
            final(self)@ == old(self)@.admitting(packet_bytes as int, now_ns as int),
    {
        let cost_ns: u64 = nanos_for(packet_bytes as u64, self.pacing_rate_bps);
        let wait_ns: u64 = self.next_ns.saturating_sub(self.burst_ns).saturating_sub(now_ns);
        // Taking the later of the two is what bounds the credit an idle pacer earns: once real
        // time has passed the virtual clock, the virtual clock restarts from now and everything
        // older than the burst allowance is gone for good.
        let from: u64 = if self.next_ns >= now_ns {
            self.next_ns
        } else {
            now_ns
        };
        self.next_ns = from.saturating_add(cost_ns);
        self.packets = self.packets + 1;
        if wait_ns == 0 || wait_ns < self.min_sleep_ns {
            return 0;
        }
        self.waits = self.waits + 1;
        self.waited_ns = self.waited_ns.saturating_add(wait_ns);
        wait_ns
    }

    /// Sets the target bitrate, raising it to [`MIN_BITRATE_BPS`] if it is below the floor.
    ///
    /// The new rate applies to every packet from the next call onwards. Debt already owed at
    /// the old rate is kept: it is real time the path has not been given back yet, and
    /// forgiving it on every change would let a controller that oscillates send faster than
    /// either of the rates it oscillates between.
    pub fn set_bitrate_bps(&mut self, bitrate_bps: u32)
        requires
            old(self).wf(),
        ensures
            final(self).wf(),
            final(self)@ == old(self)@.retuned(bitrate_bps),
    {
        self.bitrate_bps = if bitrate_bps >= MIN_BITRATE_BPS {
            bitrate_bps
        } else {
            MIN_BITRATE_BPS
        };
        self.retune();
    }

    /// Returns the target bitrate in bits per second, after clamping.
    #[must_use]
    pub fn bitrate_bps(&self) -> (bps: u32)
        ensures
            bps == self@.bitrate_bps,
    {
        self.bitrate_bps
    }

    /// Returns the rate packets actually leave at, in bits per second.
    ///
    /// This is the target bitrate divided by [`SPREAD_PERCENT`], and it is the number a
    /// measured send rate should be compared against: the target bitrate is what the stream
    /// averages over a whole frame interval, not what it does while a frame is going out.
    #[must_use]
    pub fn pacing_rate_bps(&self) -> (bps: u64)
        requires
            self.wf(),
        ensures
            bps == self@.rate(),
    {
        self.pacing_rate_bps
    }

    /// Returns the burst allowance in bytes, after clamping.
    #[must_use]
    pub fn burst_bytes(&self) -> (bytes: u32)
        ensures
            bytes == self@.burst_bytes,
    {
        self.burst_bytes
    }

    /// Returns the shortest wait this pacer will report rather than carry forward, in
    /// nanoseconds.
    #[must_use]
    pub fn min_sleep(&self) -> (ns: u64)
        ensures
            ns == self@.min_sleep,
    {
        self.min_sleep_ns
    }

    /// Returns how many packets the pacer has admitted.
    #[must_use]
    pub fn packets(&self) -> (packets: u64)
        ensures
            packets == self@.packets,
    {
        self.packets
    }

    /// Returns how many packets were held back rather than released immediately.
    #[must_use]
    pub fn waits(&self) -> (waits: u64)
        ensures
            waits == self@.waits,
    {
        self.waits
    }

    /// Returns the total time the pacer has asked the caller to wait, in nanoseconds.
    ///
    /// Set against wall time this is the honest measure of whether the encoder is outrunning
    /// the rate: a sender held for most of a second is producing bytes faster than the path has
    /// been judged able to carry them, and it is the bitrate that should come down rather than
    /// the pacer that should be loosened.
    #[must_use]
    pub fn total_wait(&self) -> (ns: u64)
        ensures
            ns == self@.waited,
    {
        self.waited_ns
    }

    /// Recomputes everything derived from the bitrate.
    ///
    /// Kept in one place so the invariant the rest of the module leans on, that
    /// `pacing_rate_bps` is never zero, has exactly one thing holding it up.
    fn retune(&mut self)
        requires
            old(self).bitrate_bps >= MIN_BITRATE_BPS,
            old(self).burst_bytes >= MIN_BURST_BYTES,
            old(self).waits <= old(self).packets,
        ensures
            final(self).wf(),
            final(self)@ == old(self)@,
    {
        self.pacing_rate_bps = self.bitrate_bps as u64 * 100 / SPREAD_PERCENT as u64;
        self.burst_ns = nanos_for(self.burst_bytes as u64, self.pacing_rate_bps);
    }
}

/// Returns how long `bytes` take to leave at `rate_bps`, in nanoseconds.
///
/// Saturating multiplication keeps a nonsensical packet length from wrapping into a short wait;
/// truncating division makes each packet cost up to one nanosecond less than its true time,
/// which is far inside the accuracy of the timer that will honour the wait.
///
/// A zero rate cannot reach here, since both places that set the rate clamp it, but were one
/// ever to slip through the answer is no pacing rather than an unbounded wait: an unpaced
/// session is a worse session, and a stalled one is no session at all.
fn nanos_for(bytes: u64, rate_bps: u64) -> (ns: u64)
    ensures
        ns == nanos(bytes as int, rate_bps as int),
{
    let bits: u64 = match bytes.checked_mul(8) {
        Some(bits) => bits,
        None => u64::MAX,
    };
    let scaled: u64 = match bits.checked_mul(NANOS_PER_SEC) {
        Some(scaled) => scaled,
        None => u64::MAX,
    };
    assert(scaled == saturated(bytes * 8_000_000_000));
    if rate_bps == 0 {
        0
    } else {
        scaled / rate_bps
    }
}

/// A packet costs the time its bits take at the pacing rate, to the nanosecond below, and the
/// pacing rate is five quarters of the bitrate.
pub proof fn a_packet_costs_the_time_its_bits_take(pacer: PacerModel, bytes: int)
    requires
        pacer.bitrate_bps > 0,
        0 <= bytes,
        bytes * 8_000_000_000 <= u64::MAX,
    ensures
        4 * pacer.rate() <= 5 * pacer.bitrate_bps < 4 * pacer.rate() + 4,
        pacer.cost(bytes) * pacer.rate() <= bytes * 8_000_000_000,
        bytes * 8_000_000_000 < (pacer.cost(bytes) + 1) * pacer.rate(),
        pacer.burst() == pacer.cost(pacer.burst_bytes),
{
    let time = bytes * 8_000_000_000;
    let rate = pacer.rate();
    let cost = pacer.cost(bytes);
    assert(cost * rate <= time && time < (cost + 1) * rate) by (nonlinear_arith)
        requires
            cost == time / rate,
            rate > 0,
            time >= 0,
    ;
}

/// Time that passed unused is neither credit nor debt: a packet offered once the virtual clock
/// has been passed leaves that clock at exactly its own cost from now, and one offered before
/// leaves it at its own cost past where it stood.
pub proof fn an_idle_clock_restarts_from_now(pacer: PacerModel, bytes: int, now: int)
    ensures
        ({
            let after = pacer.admitting(bytes, now).next;
            &&& pacer.next <= now && now + pacer.cost(bytes) <= u64::MAX ==> after == now
                + pacer.cost(bytes)
            &&& pacer.next >= now && pacer.next + pacer.cost(bytes) <= u64::MAX ==> after
                == pacer.next + pacer.cost(bytes)
        }),
{
}

/// A wait is told only where it is worth sleeping for, and then it ends exactly where the virtual
/// clock is the burst allowance ahead; where the clock is no further ahead than that, nothing is
/// waited for.
pub proof fn a_wait_ends_at_the_burst_allowance(pacer: PacerModel, now: int)
    requires
        now >= 0,
        pacer.min_sleep >= 0,
    ensures
        ({
            let wait = pacer.wait(now);
            &&& wait == 0 || (wait >= pacer.min_sleep && now + wait + pacer.burst() == pacer.next)
            &&& pacer.next <= now + pacer.burst() ==> wait == 0
            &&& pacer.next > now + pacer.burst() && pacer.next - pacer.burst() - now
                >= pacer.min_sleep ==> wait == pacer.next - pacer.burst() - now
        }),
{
}

/// No packet waits for more than what has been sent: over any run of packets offered to a fresh
/// pacer at times that do not go back, the wait told is at most what the packets before it cost
/// together less the burst allowance, and nothing where they cost no more than that.
pub proof fn nothing_waits_for_more_than_was_sent(
    pacer: PacerModel,
    offers: Seq<(int, int)>,
    now: int,
)
    requires
        pacer.bitrate_bps > 0,
        pacer.burst_bytes >= 0,
        pacer.next == 0,
        pacer.min_sleep >= 0,
        now >= 0,
        forall|i: int|
            0 <= i < offers.len() ==> 0 <= (#[trigger] offers[i]).0 && 0 <= offers[i].1 <= now,
        forall|i: int, j: int|
            0 <= i < j < offers.len() ==> (#[trigger] offers[i]).1 <= (#[trigger] offers[j]).1,
    ensures
        pacer.admitting_all(offers).wait(now) <= later(
            0,
            pacer.cost_of_all(offers) - pacer.burst(),
        ),
{
    lemma_settings_stay(pacer, offers);
    lemma_clock_holds_no_more(pacer, offers, now);
    lemma_cost_is_not_negative(pacer, pacer.burst_bytes);
}

/// The virtual clock of a fresh pacer stands no further past the last offer than the packets cost.
proof fn lemma_clock_holds_no_more(pacer: PacerModel, offers: Seq<(int, int)>, now: int)
    requires
        pacer.bitrate_bps > 0,
        pacer.next == 0,
        now >= 0,
        forall|i: int|
            0 <= i < offers.len() ==> 0 <= (#[trigger] offers[i]).0 && 0 <= offers[i].1 <= now,
    ensures
        pacer.admitting_all(offers).next <= now + pacer.cost_of_all(offers),
        pacer.cost_of_all(offers) >= 0,
    decreases offers.len(),
{
    if offers.len() > 0 {
        let earlier = offers.drop_last();
        let (bytes, at) = offers.last();
        assert(offers[offers.len() - 1] == (bytes, at));
        assert forall|i: int| 0 <= i < earlier.len() implies 0 <= (#[trigger] earlier[i]).0 && 0
            <= earlier[i].1 <= now by {
            assert(earlier[i] == offers[i]);
        }
        lemma_clock_holds_no_more(pacer, earlier, now);
        lemma_settings_stay(pacer, earlier);
        lemma_cost_is_not_negative(pacer, bytes);
        assert(pacer.admitting_all(earlier).cost(bytes) == pacer.cost(bytes));
    }
}

/// Another bitrate changes what packets cost from then on and nothing that is owed already, and is
/// never below the floor.
pub proof fn retuning_keeps_what_is_owed(pacer: PacerModel, bitrate_bps: u32)
    ensures
        ({
            let after = pacer.retuned(bitrate_bps);
            &&& after.next == pacer.next
            &&& after.burst_bytes == pacer.burst_bytes && after.min_sleep == pacer.min_sleep
            &&& after.packets == pacer.packets && after.waits == pacer.waits && after.waited
                == pacer.waited
            &&& bitrate_bps >= 1_000_000 ==> after.bitrate_bps == bitrate_bps
            &&& bitrate_bps < 1_000_000 ==> after.bitrate_bps == 1_000_000
        }),
{
}

/// What was waited is what was told: each wait that is told is counted, and added up.
pub proof fn waits_are_counted_as_they_are_told(pacer: PacerModel, bytes: int, now: int)
    ensures
        ({
            let after = pacer.admitting(bytes, now);
            &&& after.packets == pacer.packets + 1
            &&& after.waits == pacer.waits + if pacer.wait(now) > 0 {
                1int
            } else {
                0int
            }
            &&& pacer.waited + pacer.wait(now) <= u64::MAX ==> after.waited == pacer.waited
                + pacer.wait(now)
            &&& after.bitrate_bps == pacer.bitrate_bps && after.burst_bytes == pacer.burst_bytes
        }),
{
}

} // verus!
