//! Latency measurement.
//!
//! Latency is judged by a p99 number, so measurement is part of the pipeline rather than
//! something bolted on afterwards. Recording a sample happens on the frame path and must stay
//! allocation-free and constant time; summarising is driven by the stats reporter at 10 Hz,
//! where a sort of a few hundred values costs nothing.
//!
//! Samples are microseconds. A `u32` holds just over 71 minutes, which is far beyond any
//! latency worth recording: anything near the ceiling is a bug rather than a measurement.

use vstd::prelude::*;
use vstd::relations::{sorted_by, total_ordering};
use vstd::seq_lib::{
    lemma_fold_right_permutation, lemma_multiset_commutative, lemma_sorted_unique,
};

verus! {

/// Statistics over the samples currently held by a [`LatencyRecorder`].
///
/// Percentiles use the nearest-rank definition: the p99 of one hundred samples is the
/// ninety-ninth smallest. No interpolation, so every reported value is a sample that actually
/// occurred.
#[derive(Debug, Clone, Copy, PartialEq, Eq, Structural)]
pub struct LatencySummary {
    /// How many samples the summary covers.
    pub count: usize,
    /// Smallest sample, in microseconds.
    pub min_us: u32,
    /// Largest sample, in microseconds.
    pub max_us: u32,
    /// Arithmetic mean, in microseconds, rounded down.
    pub mean_us: u32,
    /// Median, in microseconds.
    pub p50_us: u32,
    /// 95th percentile, in microseconds.
    pub p95_us: u32,
    /// 99th percentile, in microseconds.
    pub p99_us: u32,
}

/// The order samples are ranked in.
pub open spec fn at_most() -> spec_fn(u32, u32) -> bool {
    |a: u32, b: u32| a <= b
}

/// The samples in ascending order.
pub open spec fn ascending(samples: Seq<u32>) -> Seq<u32> {
    samples.sort_by(at_most())
}

/// The sum of the samples.
pub open spec fn total(samples: Seq<u32>) -> nat
    decreases samples.len(),
{
    if samples.len() == 0 {
        0
    } else {
        total(samples.drop_last()) + samples.last() as nat
    }
}

/// The nearest rank of a percentile among `n` samples, counted from one: the whole number of
/// samples that `percent` of them comes to, rounded up.
pub open spec fn rank(percent: int, n: int) -> int {
    (percent * n + 99) / 100
}

/// The nearest-rank percentile of ascending samples.
pub open spec fn percentile(sorted: Seq<u32>, percent: int) -> u32 {
    sorted[rank(percent, sorted.len() as int) - 1]
}

/// The summary of a window of samples.
pub open spec fn summary_of(samples: Seq<u32>) -> LatencySummary {
    let sorted = ascending(samples);
    LatencySummary {
        count: sorted.len() as usize,
        min_us: sorted.first(),
        max_us: sorted.last(),
        mean_us: (total(sorted) / sorted.len()) as u32,
        p50_us: percentile(sorted, 50),
        p95_us: percentile(sorted, 95),
        p99_us: percentile(sorted, 99),
    }
}

/// A sum of samples is no more than as many of the largest sample there can be.
proof fn lemma_total_bound(samples: Seq<u32>)
    ensures
        total(samples) <= samples.len() * 0xffff_ffff,
    decreases samples.len(),
{
    if samples.len() > 0 {
        lemma_total_bound(samples.drop_last());
    }
}

/// Ranks fall inside the window they are taken of.
proof fn lemma_rank(percent: int, n: int)
    requires
        1 <= percent <= 100,
        n >= 1,
    ensures
        1 <= rank(percent, n) <= n,
{
    assert(percent <= percent * n <= 100 * n) by (nonlinear_arith)
        requires
            1 <= percent <= 100,
            n >= 1,
    ;
}

/// Two ascending arrangements of the same samples are one.
proof fn lemma_ascending(sorted: Seq<u32>, samples: Seq<u32>)
    requires
        forall|i: int, j: int| 0 <= i < j < sorted.len() ==> sorted[i] <= sorted[j],
        sorted.to_multiset() == samples.to_multiset(),
    ensures
        sorted == ascending(samples),
        ascending(samples).len() == samples.len(),
{
    let leq = at_most();
    assert(total_ordering(leq));
    assert(sorted_by(sorted, leq));
    samples.lemma_sort_by_ensures(leq);
    lemma_sorted_unique(sorted, ascending(samples), leq);
    samples.to_multiset_ensures();
    ascending(samples).to_multiset_ensures();
}

/// Every value a summary reports is in order, and every reported extreme and percentile is a
/// sample that occurred.
pub proof fn a_summary_reports_what_occurred(samples: Seq<u32>)
    requires
        0 < samples.len() <= usize::MAX,
    ensures
        ({
            let summary = summary_of(samples);
            &&& summary.count == samples.len()
            &&& samples.contains(summary.min_us)
            &&& samples.contains(summary.max_us)
            &&& samples.contains(summary.p50_us)
            &&& samples.contains(summary.p95_us)
            &&& samples.contains(summary.p99_us)
            &&& summary.min_us <= summary.p50_us <= summary.p95_us <= summary.p99_us
                <= summary.max_us
            &&& forall|i: int|
                0 <= i < samples.len() ==> summary.min_us <= #[trigger] samples[i]
                    <= summary.max_us
        }),
{
    let sorted = ascending(samples);
    let leq = at_most();
    assert(total_ordering(leq));
    samples.lemma_sort_by_ensures(leq);
    samples.to_multiset_ensures();
    sorted.to_multiset_ensures();
    let n = samples.len() as int;
    lemma_rank(50, n);
    lemma_rank(95, n);
    lemma_rank(99, n);
    assert forall|i: int| 0 <= i < n implies samples.contains(#[trigger] sorted[i]) by {
        assert(sorted.contains(sorted[i]));
    }
    assert forall|i: int, j: int| 0 <= i <= j < n implies sorted[i] <= sorted[j] by {
        if i < j {
            assert(leq(sorted[i], sorted[j]));
        }
    }
    assert forall|i: int| 0 <= i < n implies sorted.first() <= #[trigger] samples[i]
        <= sorted.last() by {
        assert(samples.to_multiset().count(samples[i]) > 0);
        assert(sorted.to_multiset().count(samples[i]) > 0);
    }
}

/// Fixed-size window of latency samples.
///
/// Keeps the most recent `capacity` samples and discards older ones, so the summary always
/// describes recent behaviour rather than the whole session. That matters for a live display: a
/// burst of jitter two minutes ago should not still be shaping the p99 on screen.
#[derive(Debug)]
pub struct LatencyRecorder {
    samples: Vec<u32>,
    len: usize,
    next: usize,
    scratch: Vec<u32>,
}

impl View for LatencyRecorder {
    type V = Seq<u32>;

    /// The samples held, from the oldest to the newest.
    closed spec fn view(&self) -> Seq<u32> {
        if self.len < self.samples.len() {
            self.samples@.subrange(0, self.len as int)
        } else {
            self.samples@.subrange(self.next as int, self.samples.len() as int)
                + self.samples@.subrange(0, self.next as int)
        }
    }
}

impl LatencyRecorder {
    /// Whether the window is laid out as recording leaves it.
    pub closed spec fn wf(&self) -> bool {
        &&& 0 < self.samples.len()
        &&& self.len <= self.samples.len()
        &&& self.next < self.samples.len()
        &&& self.len < self.samples.len() ==> self.next == self.len
    }

    /// The most samples the window holds.
    pub closed spec fn spec_capacity(&self) -> nat {
        self.samples@.len()
    }

    /// Creates a recorder holding the most recent `capacity` samples.
    ///
    /// At 120 fps a capacity of 1024 covers roughly eight and a half seconds, which is long
    /// enough for a p99 to mean something and short enough to react to a change. The capacity
    /// is at least one sample.
    #[must_use]
    pub fn new(capacity: usize) -> (recorder: Self)
        requires
            capacity > 0,
        ensures
            recorder.wf(),
            recorder@ == Seq::<u32>::empty(),
            recorder.spec_capacity() == capacity,
    {
        LatencyRecorder {
            samples: vec![0; capacity],
            len: 0,
            next: 0,
            scratch: Vec::with_capacity(capacity),
        }
    }

    /// Records one sample, overwriting the oldest once the window is full.
    ///
    /// Constant time and allocation-free, because this runs once per frame on the receive path.
    pub fn record(&mut self, sample_us: u32)
        requires
            old(self).wf(),
        ensures
            final(self).wf(),
            final(self).spec_capacity() == old(self).spec_capacity(),
            final(self)@ == (if old(self)@.len() < old(self).spec_capacity() {
                old(self)@.push(sample_us)
            } else {
                old(self)@.drop_first().push(sample_us)
            }),
    {
        let capacity: usize = self.samples.len();
        let at: usize = self.next;
        self.samples.set(at, sample_us);
        self.next = if at + 1 == capacity {
            0
        } else {
            at + 1
        };
        if self.len < capacity {
            self.len = self.len + 1;
        }
        assert(self@ =~= (if old(self)@.len() < capacity {
            old(self)@.push(sample_us)
        } else {
            old(self)@.drop_first().push(sample_us)
        }));
    }

    /// Returns how many samples the window currently holds.
    #[must_use]
    pub fn len(&self) -> (len: usize)
        requires
            self.wf(),
        ensures
            len == self@.len(),
    {
        self.len
    }

    /// Returns whether no samples have been recorded since the last clear.
    #[must_use]
    pub fn is_empty(&self) -> (empty: bool)
        requires
            self.wf(),
        ensures
            empty == (self@.len() == 0),
    {
        self.len == 0
    }

    /// Returns the window's capacity.
    #[must_use]
    pub fn capacity(&self) -> (capacity: usize)
        ensures
            capacity == self.spec_capacity(),
    {
        self.samples.len()
    }

    /// Discards every sample without releasing the window's memory.
    pub fn clear(&mut self)
        requires
            old(self).wf(),
        ensures
            final(self).wf(),
            final(self)@ == Seq::<u32>::empty(),
            final(self).spec_capacity() == old(self).spec_capacity(),
    {
        self.len = 0;
        self.next = 0;
    }

    /// Summarises the samples currently held, or `None` if there are none.
    ///
    /// Sorts a scratch copy, so this is the expensive half of the type and belongs on the
    /// reporting path rather than the frame path. The scratch buffer is retained between calls,
    /// so repeated summarising does not allocate.
    pub fn summarize(&mut self) -> (summary: Option<LatencySummary>)
        requires
            old(self).wf(),
        ensures
            final(self).wf(),
            final(self)@ == old(self)@,
            final(self).spec_capacity() == old(self).spec_capacity(),
            summary == (if old(self)@.len() == 0 {
                None
            } else {
                Some(summary_of(old(self)@))
            }),
    {
        if self.len == 0 {
            return None;
        }
        self.scratch.clear();
        let mut i: usize = 0;
        while i < self.len
            invariant
                self.wf(),
                self@ == old(self)@,
                self.samples@ == old(self).samples@,
                self.len == old(self).len,
                i <= self.len,
                self.scratch@ == self.samples@.subrange(0, i as int),
            decreases self.len - i,
        {
            self.scratch.push(self.samples[i]);
            i = i + 1;
            assert(self.scratch@ =~= self.samples@.subrange(0, i as int));
        }
        sort_ascending(&mut self.scratch);
        proof {
            self.lemma_held();
            lemma_ascending(self.scratch@, self@);
        }
        let sorted: &Vec<u32> = &self.scratch;
        let len: usize = self.len;
        assert(sorted@.len() == len);
        let sum: u128 = sum_of(sorted);
        let mean: u128 = sum / (len as u128);
        proof {
            lemma_total_bound(sorted@);
            assert(mean <= 0xffff_ffff) by (nonlinear_arith)
                requires
                    sum <= len * 0xffff_ffff,
                    len > 0,
                    mean == sum / (len as u128),
            ;
        }
        Some(
            LatencySummary {
                count: len,
                min_us: sorted[0],
                max_us: sorted[len - 1],
                mean_us: mean as u32,
                p50_us: nearest_rank(sorted, 50),
                p95_us: nearest_rank(sorted, 95),
                p99_us: nearest_rank(sorted, 99),
            },
        )
    }

    /// However far round the window has gone, its first places hold the samples it shows.
    proof fn lemma_held(&self)
        requires
            self.wf(),
        ensures
            self.samples@.subrange(0, self.len as int).to_multiset() == self@.to_multiset(),
            self@.len() == self.len,
    {
        if self.len == self.samples.len() {
            let head = self.samples@.subrange(0, self.next as int);
            let tail = self.samples@.subrange(self.next as int, self.len as int);
            assert(self.samples@.subrange(0, self.len as int) =~= head + tail);
            lemma_multiset_commutative(head, tail);
            lemma_multiset_commutative(tail, head);
            assert(head.to_multiset().add(tail.to_multiset()) =~= tail.to_multiset().add(
                head.to_multiset(),
            ));
        }
    }
}

/// Calls `slice::sort_unstable`: the values end up in ascending order, and are the values that
/// were there, each as often as before.
#[verifier::external_body]
fn sort_ascending(values: &mut Vec<u32>)
    ensures
        forall|i: int, j: int|
            0 <= i < j < final(values)@.len() ==> final(values)@[i] <= final(values)@[j],
        final(values)@.to_multiset() == old(values)@.to_multiset(),
{
    values.sort_unstable();
}

/// Returns the sum of the samples.
fn sum_of(samples: &Vec<u32>) -> (sum: u128)
    ensures
        sum == total(samples@),
{
    let mut sum: u128 = 0;
    let mut i: usize = 0;
    while i < samples.len()
        invariant
            i <= samples.len(),
            samples.len() <= usize::MAX,
            sum == total(samples@.subrange(0, i as int)),
        decreases samples.len() - i,
    {
        proof {
            lemma_total_bound(samples@.subrange(0, i as int));
            assert(samples@.subrange(0, i + 1).drop_last() =~= samples@.subrange(0, i as int));
            assert(total(samples@.subrange(0, i + 1)) == sum + samples@[i as int]);
            assert(i * 0xffff_ffff <= 0xffff_ffff_ffff_ffff * 0xffff_ffff) by (nonlinear_arith)
                requires
                    i <= 0xffff_ffff_ffff_ffff,
            ;
        }
        sum = sum + samples[i] as u128;
        i = i + 1;
    }
    assert(samples@.subrange(0, samples@.len() as int) =~= samples@);
    sum
}

/// Returns the nearest-rank percentile of an ascending slice.
///
/// The rank is `percent` of the samples rounded up, so that it falls on one that was actually
/// measured. There is no interpolation.
fn nearest_rank(sorted: &Vec<u32>, percent: u32) -> (value: u32)
    requires
        sorted@.len() > 0,
        1 <= percent <= 100,
    ensures
        value == percentile(sorted@, percent as int),
{
    let n: u128 = sorted.len() as u128;
    proof {
        lemma_rank(percent as int, n as int);
        assert(percent * n <= 100 * n) by (nonlinear_arith)
            requires
                percent <= 100,
        ;
    }
    let rank: u128 = (percent as u128 * n + 99) / 100;
    sorted[(rank - 1) as usize]
}

/// How many samples are below a bound.
pub open spec fn how_many_below(samples: Seq<u32>, bound: int) -> nat
    decreases samples.len(),
{
    if samples.len() == 0 {
        0
    } else {
        how_many_below(samples.drop_last(), bound) + if samples.last() < bound {
            1nat
        } else {
            0nat
        }
    }
}

/// A percentile is the least sample that so many per cent of the samples do not exceed: at least
/// that share of them is no larger than it, and less than that share is smaller. The mean is the
/// sum of the samples shared out among them, rounded down.
pub proof fn a_percentile_is_the_least_that_covers_its_share(samples: Seq<u32>)
    requires
        0 < samples.len() <= usize::MAX,
    ensures
        ({
            let summary = summary_of(samples);
            let n = samples.len() as int;
            &&& 100 * how_many_below(samples, summary.p50_us + 1) >= 50 * n
            &&& 100 * how_many_below(samples, summary.p50_us as int) < 50 * n
            &&& 100 * how_many_below(samples, summary.p95_us + 1) >= 95 * n
            &&& 100 * how_many_below(samples, summary.p95_us as int) < 95 * n
            &&& 100 * how_many_below(samples, summary.p99_us + 1) >= 99 * n
            &&& 100 * how_many_below(samples, summary.p99_us as int) < 99 * n
            &&& summary.mean_us * n <= total(samples) < (summary.mean_us + 1) * n
        }),
{
    let sorted = ascending(samples);
    let leq = at_most();
    let n = samples.len() as int;
    assert(total_ordering(leq));
    samples.lemma_sort_by_ensures(leq);
    samples.to_multiset_ensures();
    sorted.to_multiset_ensures();
    assert forall|i: int, j: int| 0 <= i <= j < sorted.len() implies #[trigger] sorted[i]
        <= #[trigger] sorted[j] by {
        if i < j {
            assert(leq(sorted[i], sorted[j]));
        }
    }
    let summary = summary_of(samples);
    lemma_rank(50, n);
    lemma_rank(95, n);
    lemma_rank(99, n);
    lemma_share_of(samples, sorted, rank(50, n) - 1);
    lemma_share_of(samples, sorted, rank(95, n) - 1);
    lemma_share_of(samples, sorted, rank(99, n) - 1);
    lemma_same_total(samples, sorted);
    lemma_total_bound(samples);
    let sum = total(samples) as int;
    let mean = sum / n;
    assert(mean * n <= sum < (mean + 1) * n && 0 <= mean <= 0xffff_ffff) by (nonlinear_arith)
        requires
            mean == sum / n,
            n > 0,
            0 <= sum <= n * 0xffff_ffff,
    ;
}

/// How many samples a place among them in ascending order leaves below and covers.
proof fn lemma_share_of(samples: Seq<u32>, sorted: Seq<u32>, place: int)
    requires
        samples.to_multiset() == sorted.to_multiset(),
        forall|i: int, j: int|
            0 <= i <= j < sorted.len() ==> #[trigger] sorted[i] <= #[trigger] sorted[j],
        0 <= place < sorted.len(),
    ensures
        how_many_below(samples, sorted[place] + 1) >= place + 1,
        how_many_below(samples, sorted[place] as int) <= place,
{
    lemma_same_below(samples, sorted, sorted[place] + 1);
    lemma_same_below(samples, sorted, sorted[place] as int);
    lemma_below_in_order(sorted, sorted[place] + 1, place);
    lemma_below_in_order(sorted, sorted[place] as int, place);
}

/// In ascending order the samples below a bound come first.
proof fn lemma_below_in_order(sorted: Seq<u32>, bound: int, place: int)
    requires
        forall|i: int, j: int|
            0 <= i <= j < sorted.len() ==> #[trigger] sorted[i] <= #[trigger] sorted[j],
        0 <= place < sorted.len(),
    ensures
        sorted[place] < bound ==> how_many_below(sorted, bound) >= place + 1,
        sorted[place] >= bound ==> how_many_below(sorted, bound) <= place,
        how_many_below(sorted, bound) <= sorted.len(),
    decreases sorted.len(),
{
    let before = sorted.drop_last();
    let last = sorted.len() - 1;
    assert(sorted[place] <= sorted[last]);
    if place < last {
        assert(before[place] == sorted[place]);
        lemma_below_in_order(before, bound, place);
    } else if before.len() > 0 {
        assert(sorted[last - 1] <= sorted[last]);
        assert(before[last - 1] == sorted[last - 1]);
        lemma_below_in_order(before, bound, last - 1);
    }
}

/// How many samples are below a bound does not depend on their order.
proof fn lemma_same_below(left: Seq<u32>, right: Seq<u32>, bound: int)
    requires
        left.to_multiset() == right.to_multiset(),
    ensures
        how_many_below(left, bound) == how_many_below(right, bound),
{
    let f = |sample: u32, count: nat|
        count + if sample < bound {
            1nat
        } else {
            0nat
        };
    lemma_fold_right_permutation(left, right, f, 0nat);
    lemma_below_is_a_fold(left, bound, f, 0);
    lemma_below_is_a_fold(right, bound, f, 0);
}

/// Counting samples is folding them.
proof fn lemma_below_is_a_fold(
    samples: Seq<u32>,
    bound: int,
    f: spec_fn(u32, nat) -> nat,
    start: nat,
)
    requires
        forall|sample: u32, count: nat| #[trigger]
            f(sample, count) == count + if sample < bound {
                1nat
            } else {
                0nat
            },
    ensures
        samples.fold_right(f, start) == how_many_below(samples, bound) + start,
    decreases samples.len(),
{
    if samples.len() > 0 {
        lemma_below_is_a_fold(samples.drop_last(), bound, f, f(samples.last(), start));
    }
}

/// The sum of samples does not depend on their order.
proof fn lemma_same_total(left: Seq<u32>, right: Seq<u32>)
    requires
        left.to_multiset() == right.to_multiset(),
    ensures
        total(left) == total(right),
{
    let f = |sample: u32, sum: nat| sum + sample as nat;
    lemma_fold_right_permutation(left, right, f, 0nat);
    lemma_total_is_a_fold(left, f, 0);
    lemma_total_is_a_fold(right, f, 0);
}

/// Adding samples up is folding them.
proof fn lemma_total_is_a_fold(samples: Seq<u32>, f: spec_fn(u32, nat) -> nat, start: nat)
    requires
        forall|sample: u32, sum: nat| #[trigger] f(sample, sum) == sum + sample as nat,
    ensures
        samples.fold_right(f, start) == total(samples) + start,
    decreases samples.len(),
{
    if samples.len() > 0 {
        lemma_total_is_a_fold(samples.drop_last(), f, f(samples.last(), start));
    }
}

} // verus!
