//! Deliberately dropping packets, to prove that recovery works.
//!
//! Recovery is judged on a number, zero keyframe hitches at five percent packet loss, and a
//! number needs a way to produce the loss. The alternative is the operating system's own
//! traffic shaper, which exercises the real socket path but needs administrator rights and
//! differs on every platform. This runs anywhere and is seeded so a failure reproduces exactly.
//!
//! What it does not exercise is the kernel path: real loss arrives with reordering, bursts and
//! queue delay that dropping at the application layer does not reproduce. Both are worth
//! having.

use vstd::prelude::*;

verus! {

/// One million, the whole of which a rate is a part.
const MILLION: u32 = 1_000_000;

/// State an injector starts from when it is seeded with zero.
const FALLBACK_SEED: u64 = 0x9E37_79B9_7F4A_7C15;

/// The state that follows `state` in the xorshift64 sequence.
pub open spec fn xorshift(state: u64) -> u64 {
    let a = state ^ (state << 13);
    let b = a ^ (a >> 7);
    b ^ (b << 17)
}

/// The generator never reaches the all-zero state, in which it would stay for ever.
pub proof fn the_generator_never_stalls(state: u64)
    requires
        state != 0,
    ensures
        xorshift(state) != 0,
{
    assert(state != 0 ==> state ^ (state << 13) != 0) by (bit_vector);
    let a = state ^ (state << 13);
    assert(a != 0 ==> a ^ (a >> 7) != 0) by (bit_vector);
    let b = a ^ (a >> 7);
    assert(b != 0 ==> b ^ (b << 17) != 0) by (bit_vector);
}

/// Decides which packets to drop, reproducibly.
///
/// The generator is a plain xorshift rather than a dependency. Nothing here needs cryptographic
/// quality: it needs to be the same sequence on every machine and every run for a given seed,
/// which a hand-written generator guarantees and a crate's internal changes do not.
#[derive(Debug, Clone)]
pub struct LossInjector {
    state: u64,
    threshold: u32,
    considered: u64,
    dropped: u64,
}

/// An injector as its contracts see it.
pub struct LossModel {
    /// Where in its sequence the generator is.
    pub state: u64,
    /// How many packets in a million are dropped.
    pub threshold: u32,
    /// Packets asked about.
    pub considered: u64,
    /// Packets dropped.
    pub dropped: u64,
}

impl LossModel {
    /// Whether the next packet is to be dropped.
    pub open spec fn drops_next(self) -> bool {
        self.threshold > 0 && xorshift(self.state) % 1_000_000 < self.threshold
    }

    /// The injector after it has been asked about one more packet.
    pub open spec fn asked(self) -> LossModel {
        LossModel {
            state: if self.threshold == 0 {
                self.state
            } else {
                xorshift(self.state)
            },
            considered: (self.considered + 1) as u64,
            dropped: (self.dropped + if self.drops_next() {
                1int
            } else {
                0int
            }) as u64,
            ..self
        }
    }
}

/// A rate of zero drops nothing, and a rate of a million drops everything.
pub proof fn the_extreme_rates_are_exact(model: LossModel)
    ensures
        model.threshold == 0 ==> !model.drops_next(),
        model.threshold == 1_000_000 ==> model.drops_next(),
{
}

impl View for LossInjector {
    type V = LossModel;

    closed spec fn view(&self) -> LossModel {
        LossModel {
            state: self.state,
            threshold: self.threshold,
            considered: self.considered,
            dropped: self.dropped,
        }
    }
}

impl LossInjector {
    /// Whether the generator is alive and the counts make sense.
    pub open spec fn wf(&self) -> bool {
        self@.state != 0 && self@.threshold <= 1_000_000 && self@.dropped <= self@.considered
    }

    /// Creates an injector that drops roughly `per_million` packets in every million.
    ///
    /// Parts per million rather than a float so the configuration is exact and the decision is
    /// integer comparison. Five percent is `50_000`.
    ///
    /// A seed of zero is replaced, because an all-zero xorshift state produces nothing but
    /// zeroes and would drop every packet or none forever.
    #[must_use]
    pub fn new(per_million: u32, seed: u64) -> (injector: Self)
        ensures
            injector.wf(),
            injector@ == (LossModel {
                state: if seed == 0 {
                    0x9E37_79B9_7F4A_7C15u64
                } else {
                    seed
                },
                threshold: if per_million < 1_000_000 {
                    per_million
                } else {
                    1_000_000u32
                },
                considered: 0,
                dropped: 0,
            }),
    {
        LossInjector {
            state: if seed == 0 {
                FALLBACK_SEED
            } else {
                seed
            },
            threshold: if per_million < MILLION {
                per_million
            } else {
                MILLION
            },
            considered: 0,
            dropped: 0,
        }
    }

    /// Returns whether this packet should be thrown away.
    pub fn should_drop(&mut self) -> (drop: bool)
        requires
            old(self).wf(),
            old(self)@.considered < u64::MAX,
        ensures
            final(self).wf(),
            drop == old(self)@.drops_next(),
            final(self)@ == old(self)@.asked(),
    {
        proof {
            the_generator_never_stalls(self.state);
        }
        self.considered = self.considered + 1;
        if self.threshold == 0 {
            return false;
        }
        let drop: bool = self.next() % 1_000_000 < self.threshold as u64;
        if drop {
            self.dropped = self.dropped + 1;
        }
        drop
    }

    /// Returns how many packets were considered and how many were dropped.
    ///
    /// Reported rather than assumed: the achieved rate on a short run differs from the
    /// configured one, and a measurement that quietly used a different loss rate than it
    /// claimed would be meaningless.
    #[must_use]
    pub fn tally(&self) -> (tally: (u64, u64))
        ensures
            tally == (self@.considered, self@.dropped),
    {
        (self.considered, self.dropped)
    }

    /// Returns the loss actually applied, in parts per million.
    #[must_use]
    pub fn achieved_per_million(&self) -> (rate: u32)
        requires
            self.wf(),
            self@.dropped * 1_000_000 <= u64::MAX,
        ensures
            self@.considered == 0 ==> rate == 0,
            self@.considered > 0 ==> rate == self@.dropped * 1_000_000 / self@.considered as int,
            rate <= 1_000_000,
    {
        if self.considered == 0 {
            return 0;
        }
        let scaled: u64 = self.dropped * 1_000_000;
        let rate: u64 = scaled / self.considered;
        assert(rate <= 1_000_000) by (nonlinear_arith)
            requires
                self.dropped <= self.considered,
                self.considered > 0,
                scaled == self.dropped * 1_000_000,
                rate == scaled / self.considered,
        ;
        rate as u32
    }

    /// Advances the xorshift64 state and returns it.
    fn next(&mut self) -> (value: u64)
        ensures
            value == xorshift(old(self)@.state),
            final(self)@ == (LossModel { state: value, ..old(self)@ }),
    {
        self.state = self.state ^ (self.state << 13);
        self.state = self.state ^ (self.state >> 7);
        self.state = self.state ^ (self.state << 17);
        self.state
    }
}

/// A higher rate drops every packet that a lower one does, at the same place in the sequence, and
/// how many were dropped counts exactly those.
pub proof fn a_higher_rate_drops_no_less(low: LossModel, high: LossModel)
    requires
        low.state == high.state,
        low.threshold <= high.threshold,
        low.dropped < u64::MAX,
        low.considered < u64::MAX,
    ensures
        low.drops_next() ==> high.drops_next(),
        0 < low.threshold ==> low.asked().state == high.asked().state,
        low.asked().dropped == low.dropped + if low.drops_next() {
            1int
        } else {
            0int
        },
        low.asked().considered == low.considered + 1,
        low.asked().threshold == low.threshold,
{
}

/// A packet is dropped exactly where the sequence falls among the first of a million places, as
/// many of them as the rate says.
pub proof fn the_rate_is_a_share_of_a_million(model: LossModel)
    requires
        0 < model.threshold,
    ensures
        model.drops_next() == (model.asked().state % 1_000_000 < model.threshold),
{
}

/// The sequence never runs two states together, so it comes back to where it began before it
/// repeats anything.
pub proof fn no_two_states_lead_to_one(left: u64, right: u64)
    requires
        xorshift(left) == xorshift(right),
    ensures
        left == right,
{
    let (a, b) = (left ^ (left << 13), right ^ (right << 13));
    let (c, d) = (a ^ (a >> 7), b ^ (b >> 7));
    assert(c ^ (c << 17) == d ^ (d << 17) ==> c == d) by (bit_vector);
    assert(a ^ (a >> 7) == b ^ (b >> 7) ==> a == b) by (bit_vector);
    assert(left ^ (left << 13) == right ^ (right << 13) ==> left == right) by (bit_vector);
}

/// A step can be taken back: each of its three folds, by 13 up, by 7 down and by 17 up, gives what
/// it was folded from when it is undone, last one first.
pub proof fn a_step_can_be_taken_back(state: u64)
    ensures
        ({
            let after = xorshift(state);
            let second = after ^ (after << 17) ^ (after << 34) ^ (after << 51);
            let first = second ^ (second >> 7) ^ (second >> 14) ^ (second >> 21) ^ (second >> 28) ^ (
            second >> 35) ^ (second >> 42) ^ (second >> 49) ^ (second >> 56) ^ (second >> 63);
            state == first ^ (first << 13) ^ (first << 26) ^ (first << 39) ^ (first << 52)
        }),
{
    let a = state ^ (state << 13);
    let b = a ^ (a >> 7);
    let c = b ^ (b << 17);
    assert(b == c ^ (c << 17) ^ (c << 34) ^ (c << 51)) by (bit_vector)
        requires
            c == b ^ (b << 17),
    ;
    assert(a == b ^ (b >> 7) ^ (b >> 14) ^ (b >> 21) ^ (b >> 28) ^ (b >> 35) ^ (b >> 42) ^ (b >> 49)
        ^ (b >> 56) ^ (b >> 63)) by (bit_vector)
        requires
            b == a ^ (a >> 7),
    ;
    assert(state == a ^ (a << 13) ^ (a << 26) ^ (a << 39) ^ (a << 52)) by (bit_vector)
        requires
            a == state ^ (state << 13),
    ;
}

} // verus!
