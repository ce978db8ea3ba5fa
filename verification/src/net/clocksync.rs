//! Estimating the offset between two machines' clocks.
//!
//! Both sides stamp frames against the Unix epoch, which only makes the numbers comparable on
//! one machine. Across machines the offset is unknown, and without correcting for it a latency
//! figure is not merely imprecise but meaningless: a client whose clock trails the host's
//! measures negative latency.
//!
//! The exchange is Cristian's algorithm, and its one assumption is that the two legs of the
//! round trip took equally long. That assumption is wrong in general and least wrong when the
//! round trip was fast, so the sample with the smallest round trip is kept and the rest
//! discarded.

use vstd::prelude::*;

use crate::net::packet::ClockPong;

verus! {

/// One usable measurement of the offset between the two clocks.
#[derive(Debug, Clone, Copy, PartialEq, Eq, Structural)]
pub struct ClockSample {
    /// How long the exchange took, excluding the host's own handling time.
    pub round_trip_us: u64,
    /// How far the host's clock is ahead of this one. Negative means it is behind.
    pub offset_us: i64,
}

/// Half of `n`, rounded towards zero.
pub open spec fn half(n: int) -> int {
    if n >= 0 {
        n / 2
    } else {
        -((-n) / 2)
    }
}

/// `n` as 64 signed bits hold it: exact where it fits, and a lap round otherwise.
pub open spec fn as_signed(n: int) -> int {
    if n > i64::MAX {
        n - 0x1_0000_0000_0000_0000
    } else if n < i64::MIN {
        n + 0x1_0000_0000_0000_0000
    } else {
        n
    }
}

/// `n` as 64 unsigned bits hold it: exact where it fits, and a lap round otherwise.
pub open spec fn as_unsigned(n: int) -> int {
    if n > u64::MAX {
        n - 0x1_0000_0000_0000_0000
    } else {
        n
    }
}

/// How long an exchange took once the host's handling of it is taken off.
pub open spec fn round_trip(pong: ClockPong, t4_us: u64) -> int {
    (t4_us - pong.t1_us) - (pong.t3_us - pong.t2_us)
}

/// Whether an exchange can have happened: no reply before its question, on either clock.
pub open spec fn possible(pong: ClockPong, t4_us: u64) -> bool {
    pong.t2_us <= pong.t3_us && pong.t1_us <= t4_us && round_trip(pong, t4_us) >= 0
}

/// The sample an exchange gives: the offset is what the two legs disagree on, halved.
pub open spec fn sample_of(pong: ClockPong, t4_us: u64) -> ClockSample {
    ClockSample {
        round_trip_us: round_trip(pong, t4_us) as u64,
        offset_us: as_signed(half((pong.t2_us - pong.t1_us) + (pong.t3_us - t4_us))) as i64,
    }
}

/// The better of what is known and a new sample: the new one only where it was faster.
pub open spec fn better(best: Option<ClockSample>, sample: ClockSample) -> ClockSample {
    match best {
        Some(best) if best.round_trip_us <= sample.round_trip_us => best,
        _ => sample,
    }
}

/// The best sample once one more exchange has been looked at.
pub open spec fn observing(best: Option<ClockSample>, pong: ClockPong, t4_us: u64) -> Option<
    ClockSample,
> {
    if possible(pong, t4_us) {
        Some(better(best, sample_of(pong, t4_us)))
    } else {
        best
    }
}

/// The best sample after a run of exchanges: each an answer, and when it arrived.
pub open spec fn best_of(run: Seq<(ClockPong, u64)>) -> Option<ClockSample>
    decreases run.len(),
{
    if run.len() == 0 {
        None
    } else {
        observing(best_of(run.drop_last()), run.last().0, run.last().1)
    }
}

/// Whether exchange `i` of a run gave a sample that was faster than any before it and that none
/// after it beat.
pub open spec fn is_first_of_the_fastest(run: Seq<(ClockPong, u64)>, i: int) -> bool {
    let fastest = sample_of(run[i].0, run[i].1).round_trip_us;
    &&& 0 <= i < run.len()
    &&& possible(run[i].0, run[i].1)
    &&& forall|j: int|
        0 <= j < run.len() && #[trigger] possible(run[j].0, run[j].1) ==> {
            &&& fastest <= sample_of(run[j].0, run[j].1).round_trip_us
            &&& j < i ==> fastest < sample_of(run[j].0, run[j].1).round_trip_us
        }
}

/// The estimate is never off by more than half of the round trip it rests on, but for the half
/// microsecond that whole microseconds cannot show, and is exact where
/// the two legs took equally long.
///
/// The host's clock is ahead by `offset`, the legs took `there` and `back`, and the host handled
/// the question for `handling`.
pub proof fn the_offset_is_within_half_a_round_trip(
    t1_us: u64,
    offset: int,
    there: nat,
    handling: nat,
    back: nat,
    pong: ClockPong,
    t4_us: u64,
)
    requires
        pong.t1_us == t1_us,
        pong.t2_us == t1_us + there + offset,
        pong.t3_us == pong.t2_us + handling,
        t4_us == pong.t3_us - offset + back,
        i64::MIN <= offset + there,
        i64::MIN <= offset - back,
        offset + there <= i64::MAX,
        offset - back <= i64::MAX,
    ensures
        possible(pong, t4_us),
        sample_of(pong, t4_us).round_trip_us == there + back,
        2 * (sample_of(pong, t4_us).offset_us - offset) <= there + back + 1,
        2 * (offset - sample_of(pong, t4_us).offset_us) <= there + back + 1,
        there == back ==> sample_of(pong, t4_us).offset_us == offset,
{
}

/// Tracks the best offset estimate seen so far.
#[derive(Debug, Clone, Copy)]
pub struct ClockSync {
    best: Option<ClockSample>,
    accepted: u32,
    rejected: u32,
}

impl ClockSync {
    /// The sample the estimate rests on.
    pub closed spec fn best(&self) -> Option<ClockSample> {
        self.best
    }

    /// Exchanges that gave a sample.
    pub closed spec fn spec_accepted(&self) -> u32 {
        self.accepted
    }

    /// Exchanges that cannot have happened.
    pub closed spec fn spec_rejected(&self) -> u32 {
        self.rejected
    }

    /// Creates an estimator with no samples yet.
    #[must_use]
    pub fn new() -> (sync: Self)
        ensures
            sync.best() is None,
            sync.spec_accepted() == 0,
            sync.spec_rejected() == 0,
    {
        ClockSync { best: None, accepted: 0, rejected: 0 }
    }

    /// Folds one answer into the estimate and returns the sample it produced.
    ///
    /// Returns `None` for an exchange that cannot have happened, the reply arriving before the
    /// ping was sent or the host answering before it received, which is what a clock stepping
    /// mid-exchange looks like. Such a sample is counted as rejected rather than allowed to
    /// poison the estimate.
    pub fn observe(&mut self, pong: &ClockPong, t4_us: u64) -> (sample: Option<ClockSample>)
        requires
            old(self).spec_accepted() < u32::MAX,
            old(self).spec_rejected() < u32::MAX,
        ensures
            final(self).best() == observing(old(self).best(), *pong, t4_us),
            possible(*pong, t4_us) ==> {
                &&& sample == Some(sample_of(*pong, t4_us))
                &&& final(self).best() == Some(better(old(self).best(), sample_of(*pong, t4_us)))
                &&& final(self).spec_accepted() == old(self).spec_accepted() + 1
                &&& final(self).spec_rejected() == old(self).spec_rejected()
            },
            !possible(*pong, t4_us) ==> {
                &&& sample is None
                &&& final(self).best() == old(self).best()
                &&& final(self).spec_accepted() == old(self).spec_accepted()
                &&& final(self).spec_rejected() == old(self).spec_rejected() + 1
            },
    {
        let t1: i128 = pong.t1_us as i128;
        let t2: i128 = pong.t2_us as i128;
        let t3: i128 = pong.t3_us as i128;
        let t4: i128 = t4_us as i128;
        let handling: i128 = t3 - t2;
        let elapsed: i128 = t4 - t1;
        let round_trip: i128 = elapsed - handling;
        if handling < 0 || elapsed < 0 || round_trip < 0 {
            self.rejected = self.rejected + 1;
            return None;
        }
        let sample = ClockSample {
            round_trip_us: round_trip as u64,
            offset_us: signed_from(halved((t2 - t1) + (t3 - t4))),
        };
        self.accepted = self.accepted + 1;
        let keep: bool = match self.best {
            Some(best) => best.round_trip_us <= sample.round_trip_us,
            None => false,
        };
        if !keep {
            self.best = Some(sample);
        }
        Some(sample)
    }

    /// Returns how far the host's clock is ahead of this one, once a sample exists.
    #[must_use]
    pub fn offset_us(&self) -> (offset: Option<i64>)
        ensures
            offset == (match self.best() {
                Some(best) => Some(best.offset_us),
                None => None,
            }),
    {
        match self.best {
            Some(best) => Some(best.offset_us),
            None => None,
        }
    }

    /// Returns the round trip of the sample the estimate rests on.
    ///
    /// Worth reporting alongside the offset: the estimate is only as trustworthy as this number
    /// is small, because a slow exchange had more room to be delayed unevenly.
    #[must_use]
    pub fn round_trip_us(&self) -> (round_trip: Option<u64>)
        ensures
            round_trip == (match self.best() {
                Some(best) => Some(best.round_trip_us),
                None => None,
            }),
    {
        match self.best {
            Some(best) => Some(best.round_trip_us),
            None => None,
        }
    }

    /// Returns how many exchanges produced a usable sample.
    #[must_use]
    pub fn accepted(&self) -> (count: u32)
        ensures
            count == self.spec_accepted(),
    {
        self.accepted
    }

    /// Returns how many exchanges were impossible and discarded.
    #[must_use]
    pub fn rejected(&self) -> (count: u32)
        ensures
            count == self.spec_rejected(),
    {
        self.rejected
    }

    /// Converts a host timestamp into this machine's clock.
    ///
    /// Returns `None` before any sample has been taken, and for a timestamp that maps to before
    /// the epoch, which would mean the offset is wildly wrong.
    #[must_use]
    pub fn to_local_us(&self, host_ts_us: u64) -> (local: Option<u64>)
        ensures
            match self.best() {
                None => local is None,
                Some(best) => {
                    let mapped = host_ts_us - best.offset_us;
                    &&& mapped < 0 ==> local is None
                    &&& mapped >= 0 ==> local == Some(as_unsigned(mapped) as u64)
                },
            },
    {
        let offset: i64 = match self.best {
            Some(best) => best.offset_us,
            None => return None,
        };
        let local: i128 = host_ts_us as i128 - offset as i128;
        if local < 0 {
            None
        } else if local > u64::MAX as i128 {
            Some((local - 0x1_0000_0000_0000_0000) as u64)
        } else {
            Some(local as u64)
        }
    }
}

impl Default for ClockSync {
    fn default() -> (sync: Self)
        ensures
            sync.best() is None,
            sync.spec_accepted() == 0,
            sync.spec_rejected() == 0,
    {
        ClockSync::new()
    }
}

/// Half of `n`, rounded towards zero.
fn halved(n: i128) -> (result: i128)
    requires
        n > i128::MIN,
    ensures
        result == half(n as int),
{
    if n >= 0 {
        n / 2
    } else {
        -((-n) / 2)
    }
}

/// `n` as 64 signed bits hold it.
pub(crate) fn signed_from(n: i128) -> (result: i64)
    requires
        -0x1_0000_0000_0000_0000 < n < 0x1_0000_0000_0000_0000,
    ensures
        result == as_signed(n as int),
{
    if n > i64::MAX as i128 {
        (n - 0x1_0000_0000_0000_0000) as i64
    } else if n < i64::MIN as i128 {
        (n + 0x1_0000_0000_0000_0000) as i64
    } else {
        n as i64
    }
}

/// The estimate rests on the fastest exchange seen: folding a sample in never leaves a slower
/// one, and keeps what was there unless the new one was strictly faster.
pub proof fn the_fastest_exchange_is_kept(best: Option<ClockSample>, sample: ClockSample)
    ensures
        better(best, sample).round_trip_us <= sample.round_trip_us,
        best matches Some(known) ==> better(best, sample).round_trip_us <= known.round_trip_us,
        better(best, sample) == sample || best == Some(better(best, sample)),
{
}

/// After any run of exchanges the estimate rests on the first of the fastest that gave a sample,
/// and there is an estimate exactly where one of them gave one.
pub proof fn a_run_is_judged_by_its_fastest_exchange(run: Seq<(ClockPong, u64)>)
    ensures
        match best_of(run) {
            None => forall|i: int|
                0 <= i < run.len() ==> !#[trigger] possible(run[i].0, run[i].1),
            Some(best) => exists|i: int| #[trigger]
                is_first_of_the_fastest(run, i) && best == sample_of(run[i].0, run[i].1),
        },
    decreases run.len(),
{
    if run.len() > 0 {
        let before = run.drop_last();
        let last = run.len() - 1;
        a_run_is_judged_by_its_fastest_exchange(before);
        assert forall|j: int| 0 <= j < last implies before[j] == #[trigger] run[j] by {}
        if possible(run[last].0, run[last].1) {
            let sample = sample_of(run[last].0, run[last].1);
            match best_of(before) {
                None => {
                    assert forall|j: int| 0 <= j < last implies !#[trigger] possible(
                        run[j].0,
                        run[j].1,
                    ) by {
                        assert(!possible(before[j].0, before[j].1));
                    }
                    assert(is_first_of_the_fastest(run, last));
                },
                Some(best) => {
                    let i = choose|i: int| #[trigger]
                        is_first_of_the_fastest(before, i) && best == sample_of(
                            before[i].0,
                            before[i].1,
                        );
                    lemma_still_fastest(run, i);
                    if best.round_trip_us > sample.round_trip_us {
                        assert(is_first_of_the_fastest(run, last)) by {
                            assert forall|j: int|
                                0 <= j < run.len() && #[trigger] possible(
                                    run[j].0,
                                    run[j].1,
                                ) implies {
                                &&& sample.round_trip_us <= sample_of(
                                    run[j].0,
                                    run[j].1,
                                ).round_trip_us
                                &&& j < last ==> sample.round_trip_us < sample_of(
                                    run[j].0,
                                    run[j].1,
                                ).round_trip_us
                            } by {
                                if j < last {
                                    assert(possible(before[j].0, before[j].1));
                                }
                            }
                        }
                    }
                },
            }
        } else {
            match best_of(before) {
                None => {
                    assert forall|j: int| 0 <= j < run.len() implies !#[trigger] possible(
                        run[j].0,
                        run[j].1,
                    ) by {
                        if j < last {
                            assert(!possible(before[j].0, before[j].1));
                        }
                    }
                },
                Some(best) => {
                    let i = choose|i: int| #[trigger]
                        is_first_of_the_fastest(before, i) && best == sample_of(
                            before[i].0,
                            before[i].1,
                        );
                    lemma_still_fastest(run, i);
                },
            }
        }
    }
}

/// The fastest exchange stays the fastest unless the one that follows is faster.
proof fn lemma_still_fastest(run: Seq<(ClockPong, u64)>, i: int)
    requires
        run.len() > 0,
        is_first_of_the_fastest(run.drop_last(), i),
    ensures
        run[i] == run.drop_last()[i],
        possible(run.last().0, run.last().1) ==> sample_of(run[i].0, run[i].1).round_trip_us
            <= sample_of(run.last().0, run.last().1).round_trip_us ==> is_first_of_the_fastest(
            run,
            i,
        ),
        !possible(run.last().0, run.last().1) ==> is_first_of_the_fastest(run, i),
{
    let before = run.drop_last();
    assert forall|j: int| 0 <= j < run.len() - 1 && #[trigger] possible(run[j].0, run[j].1) implies {
        &&& sample_of(run[i].0, run[i].1).round_trip_us <= sample_of(
            run[j].0,
            run[j].1,
        ).round_trip_us
        &&& j < i ==> sample_of(run[i].0, run[i].1).round_trip_us < sample_of(
            run[j].0,
            run[j].1,
        ).round_trip_us
    } by {
        assert(possible(before[j].0, before[j].1));
    }
}

/// However a run goes on, the estimate never comes to rest on a slower exchange, and is never
/// lost.
pub proof fn the_round_trip_never_grows(run: Seq<(ClockPong, u64)>, more: Seq<(ClockPong, u64)>)
    ensures
        best_of(run) matches Some(best) ==> (best_of(run + more) matches Some(later)
            && later.round_trip_us <= best.round_trip_us),
    decreases more.len(),
{
    if more.len() > 0 {
        the_round_trip_never_grows(run, more.drop_last());
        assert((run + more).drop_last() =~= run + more.drop_last());
        assert((run + more).last() == more.last());
    } else {
        assert(run + more =~= run);
    }
}

/// An exchange gives a sample exactly where it can have happened: the host did not answer before
/// it was asked, the answer did not come before the question went out, and the host did not take
/// longer over it than the whole took. Its round trip is what is left of the whole without the
/// host's part.
pub proof fn only_a_possible_exchange_gives_a_sample(pong: ClockPong, t4_us: u64)
    ensures
        ({
            let whole = t4_us - pong.t1_us;
            let handling = pong.t3_us - pong.t2_us;
            &&& possible(pong, t4_us) <==> 0 <= handling <= whole
            &&& possible(pong, t4_us) ==> sample_of(pong, t4_us).round_trip_us + handling == whole
        }),
{
}

} // verus!
