//! Telling the host which frames arrived.
//!
//! The client reports the newest frame it has fully reassembled and a bitmap of the thirty-two
//! before it. That is a complete picture of a short recent history in nine bytes, and it is
//! what two other things are built on: the encoder needs to know which frames are safe to
//! reference so that loss never forces a keyframe, and the congestion controller needs to know
//! what fraction of frames are going missing.
//!
//! Reports are cumulative rather than incremental. A lost report costs nothing, because the
//! next one carries the same history again, which is the only sane design for something
//! travelling over the same lossy path it is reporting on.

use vstd::prelude::*;

use crate::net::fec::count_set;
use crate::net::packet::FeedbackPacket;
use crate::net::reassemble::newer;

verus! {

/// How many frames before the newest fit in the bitmap.
const HISTORY: u32 = 32;

/// Whether bit `k` of a history bitmap is set.
pub open spec fn bit_set(bitmap: u32, k: int) -> bool {
    bitmap & (1u32 << (k as u32)) != 0
}

/// How many frames `id` lies behind `newest`, under wrapping frame numbering.
pub open spec fn behind(newest: u32, id: u32) -> int {
    (newest - id) % 0x1_0000_0000
}

/// Whether a report anchored on `newest` has room to speak of frame `id`.
pub open spec fn in_window(newest: u32, id: u32) -> bool {
    behind(newest, id) <= 32
}

/// Whether a report anchored on `newest` with history `bitmap` says that frame `id` arrived.
pub open spec fn reported(newest: u32, bitmap: u32, id: u32) -> bool {
    id == newest || (in_window(newest, id) && bit_set(bitmap, behind(newest, id) - 1))
}

/// Shifting a history along by `by` places and marking the frame that was the newest.
proof fn lemma_shifted(bitmap: u32, by: u32, k: u32)
    requires
        1 <= by < 32,
        k < 32,
    ensures
        bit_set((bitmap << by) | (1u32 << ((by - 1) as u32)), k as int) == (if k >= by {
            bit_set(bitmap, k - by)
        } else {
            k == by - 1
        }),
{
    assert(((bitmap << by) | (1u32 << ((by - 1) as u32))) & (1u32 << k) != 0 <==> (if k >= by {
        bitmap & (1u32 << ((k - by) as u32)) != 0
    } else {
        k == by - 1
    })) by (bit_vector)
        requires
            1 <= by < 32,
            k < 32,
    ;
}

/// A single mark is the one bit it was made of, and a mark leaves the other bits alone.
pub(crate) proof fn lemma_marked(bitmap: u32, at: u32, k: u32)
    requires
        at < 32,
        k < 32,
    ensures
        bit_set(bitmap | (1u32 << at), k as int) == (bit_set(bitmap, k as int) || k == at),
        bit_set(1u32 << at, k as int) == (k == at),
        !bit_set(0, k as int),
{
    assert((bitmap | (1u32 << at)) & (1u32 << k) != 0 <==> (bitmap & (1u32 << k) != 0 || k == at))
        by (bit_vector)
        requires
            at < 32,
            k < 32,
    ;
    assert((1u32 << at) & (1u32 << k) != 0 <==> k == at) by (bit_vector)
        requires
            at < 32,
            k < 32,
    ;
    assert(0u32 & (1u32 << k) == 0) by (bit_vector);
}

/// Records which frames have been fully received.
///
/// Frame identifiers are monotonic and wrap, so every comparison here is wrapping. At a hundred
/// and twenty frames a second a `u32` takes over a year to come round, but the arithmetic is
/// the same cost either way and getting it wrong would be a fault that only appears after a
/// year of uptime.
#[derive(Debug)]
pub struct AckTracker {
    newest: Option<u32>,
    bitmap: u32,
}

impl AckTracker {
    /// The newest frame received.
    pub closed spec fn spec_newest(&self) -> Option<u32> {
        self.newest
    }

    /// Whether the tracker knows that frame `id` arrived.
    pub closed spec fn seen(&self, id: u32) -> bool {
        self.newest matches Some(newest) && reported(newest, self.bitmap, id)
    }

    /// Whether the history says nothing before there is a newest frame to anchor it.
    pub closed spec fn wf(&self) -> bool {
        self.newest is None ==> self.bitmap == 0
    }

    /// Whether `after` is this tracker once a frame was received: the newest is the newer of the
    /// two, and what is known is what was and the frame, as far as a report has room for it.
    pub open spec fn recording(&self, frame_id: u32, after: &AckTracker) -> bool {
        &&& after.spec_newest() == Some(
            match self.spec_newest() {
                Some(newest) if !newer(frame_id, newest) => newest,
                _ => frame_id,
            },
        )
        &&& forall|id: u32| #[trigger]
            after.seen(id) == {
                &&& in_window(after.spec_newest()->0, id)
                &&& self.seen(id) || id == frame_id
            }
    }

    /// Creates a tracker that has seen nothing.
    #[must_use]
    pub fn new() -> (tracker: Self)
        ensures
            tracker.wf(),
            tracker.spec_newest() is None,
            forall|id: u32| !tracker.seen(id),
    {
        AckTracker { newest: None, bitmap: 0 }
    }

    /// Records that a frame was fully reassembled.
    ///
    /// Frames may arrive out of order, so this handles both directions: a newer frame shifts
    /// the history along, and an older one sets its bit if it is still inside the window. A
    /// frame older than the window is dropped, because there is nowhere to say it arrived and
    /// the host has long since moved on.
    pub fn received(&mut self, frame_id: u32)
        requires
            old(self).wf(),
        ensures
            final(self).wf(),
            old(self).recording(frame_id, final(self)),
    {
        let newest: u32 = match self.newest {
            Some(newest) => newest,
            None => {
                self.newest = Some(frame_id);
                assert forall|id: u32| #[trigger] self.seen(id) == (id == frame_id) by {
                    if id != frame_id && in_window(frame_id, id) {
                        lemma_marked(0, 0, (behind(frame_id, id) - 1) as u32);
                    }
                }
                return ;
            },
        };
        let advance: u32 = frame_id.wrapping_sub(newest);
        if is_newer(frame_id, newest) {
            // The old newest becomes an ordinary member of the history, one place below the new
            // arrival. A jump of more than the window empties the bitmap, which is correct:
            // nothing in it can still be described.
            let ghost before = self.bitmap;
            if advance > HISTORY {
                self.bitmap = 0;
            } else if advance == HISTORY {
                self.bitmap = 1u32 << 31;
            } else {
                let shifted: u32 = self.bitmap << advance;
                self.bitmap = shifted | (1u32 << (advance - 1));
            }
            self.newest = Some(frame_id);
            assert forall|id: u32| #[trigger]
                self.seen(id) == (in_window(frame_id, id) && (old(self).seen(id) || id
                    == frame_id)) by {
                let now = behind(frame_id, id);
                let was = behind(newest, id);
                if id != frame_id && in_window(frame_id, id) {
                    let k = (now - 1) as u32;
                    lemma_marked(0, 31, k);
                    assert(was == (now - advance) % 0x1_0000_0000);
                    if advance < HISTORY {
                        lemma_shifted(before, advance, k);
                    }
                }
            }
            return ;
        }
        let behind_by: u32 = newest.wrapping_sub(frame_id);
        if 1 <= behind_by && behind_by <= HISTORY {
            let ghost before = self.bitmap;
            self.bitmap = self.bitmap | (1u32 << (behind_by - 1));
            assert forall|id: u32| #[trigger]
                self.seen(id) == (in_window(newest, id) && (old(self).seen(id) || id
                    == frame_id)) by {
                if id != newest && in_window(newest, id) {
                    lemma_marked(
                        before,
                        (behind_by - 1) as u32,
                        (behind(newest, id) - 1) as u32,
                    );
                }
            }
        }
    }

    /// Builds the report to send to the host.
    ///
    /// `None` until at least one frame has been received, because there is nothing meaningful
    /// to say before then and a report claiming frame zero would be a lie the encoder would act
    /// on.
    #[must_use]
    pub fn report(&self, client_ts_us: u64) -> (report: Option<FeedbackPacket>)
        ensures
            report is Some <==> self.spec_newest() is Some,
            report matches Some(packet) ==> {
                &&& Some(packet.last_frame_id) == self.spec_newest()
                &&& packet.client_ts_us == client_ts_us
                &&& forall|id: u32| #[trigger]
                    reported(packet.last_frame_id, packet.recv_bitmap, id) == self.seen(id)
            },
    {
        match self.newest {
            Some(newest) => Some(
                FeedbackPacket { last_frame_id: newest, recv_bitmap: self.bitmap, client_ts_us },
            ),
            None => None,
        }
    }

    /// Returns the newest frame fully received, if any.
    #[must_use]
    pub fn newest(&self) -> (newest: Option<u32>)
        ensures
            newest == self.spec_newest(),
    {
        self.newest
    }
}

impl Default for AckTracker {
    fn default() -> (tracker: Self)
        ensures
            tracker.wf(),
            tracker.spec_newest() is None,
            forall|id: u32| !tracker.seen(id),
    {
        AckTracker::new()
    }
}

/// Which of the thirty-two frames before the newest a bitmap does not mention.
pub open spec fn gaps(recv_bitmap: u32, n: nat) -> Seq<bool> {
    Seq::new(n, |k: int| !bit_set(recv_bitmap, k))
}

/// Returns how many of the frames a report describes are missing.
///
/// The report covers the newest frame plus the thirty-two before it. The newest is present by
/// definition, since it is what the report is anchored on, so only the bitmap can show gaps.
///
/// This counts frames, not packets, and the difference matters more than it looks. A frame is
/// tens of packets, so a link losing a small fraction of packets loses a much larger fraction
/// of frames. Anything comparing this against a threshold from the congestion control
/// literature, which is written in packet terms, has to convert first.
#[must_use]
pub fn missing_in_history(recv_bitmap: u32) -> (missing: u32)
    ensures
        missing == count_set(gaps(recv_bitmap, 32)),
        missing <= 32,
{
    let mut missing: u32 = 0;
    let mut k: u32 = 0;
    while k < HISTORY
        invariant
            k <= 32,
            missing <= k,
            missing == count_set(gaps(recv_bitmap, k as nat)),
        decreases 32 - k,
    {
        assert(gaps(recv_bitmap, (k + 1) as nat).drop_last() =~= gaps(recv_bitmap, k as nat));
        if recv_bitmap & (1u32 << k) == 0 {
            missing = missing + 1;
        }
        k = k + 1;
    }
    missing
}

/// Returns whether `candidate` is newer than `reference`, allowing for wrapping.
///
/// Half the identifier space is treated as the future and half as the past, which is the
/// standard sequence-number comparison. It is the only correct answer without extra state: with
/// a counter that wraps, "newer" is only meaningful within half a lap.
///
/// Public because the host needs the same judgement when reports arrive out of order, and two
/// implementations of this comparison would eventually disagree.
#[must_use]
pub fn is_newer(candidate: u32, reference: u32) -> (yes: bool)
    ensures
        yes == newer(candidate, reference),
{
    candidate != reference && candidate.wrapping_sub(reference) < 0x8000_0000
}

/// A report speaks of the newest frame and the thirty-two before it, whatever the counter's
/// wrapping, and of no other; the frame `k` before the newest is said to have arrived by bit
/// `k - 1`, counted from the lowest.
pub proof fn a_report_speaks_of_the_last_thirty_two(newest: u32, bitmap: u32, id: u32, k: int)
    requires
        0 <= k < 0x1_0000_0000,
        id == newest - k || id == newest - k + 0x1_0000_0000,
    ensures
        in_window(newest, id) == (k <= 32),
        k == 0 ==> reported(newest, bitmap, id),
        k > 32 ==> !reported(newest, bitmap, id),
        1 <= k <= 32 ==> reported(newest, bitmap, id) == ((bitmap >> ((k - 1) as u32)) & 1 == 1),
{
    if 1 <= k <= 32 {
        let place = (k - 1) as u32;
        assert(behind(newest, id) == k);
        assert(bitmap & (1u32 << place) != 0 <==> (bitmap >> place) & 1 == 1) by (bit_vector)
            requires
                place < 32,
        ;
    }
}

/// What is missing from a history is what its bits leave out: as many frames as there are places
/// whose bit is not set.
pub proof fn a_gap_is_a_bit_that_is_not_set(recv_bitmap: u32)
    ensures
        ({
            let clear = Set::new(
                |k: int| 0 <= k < 32 && (recv_bitmap >> (k as u32)) & 1 == 0,
            );
            &&& clear.finite()
            &&& count_set(gaps(recv_bitmap, 32)) == clear.len()
        }),
{
    lemma_gaps(recv_bitmap, 32);
}

/// As many gaps are counted as there are places that are clear.
proof fn lemma_gaps(recv_bitmap: u32, n: nat)
    requires
        n <= 32,
    ensures
        Set::new(|k: int| 0 <= k < n && (recv_bitmap >> (k as u32)) & 1 == 0).finite(),
        count_set(gaps(recv_bitmap, n)) == Set::new(
            |k: int| 0 <= k < n && (recv_bitmap >> (k as u32)) & 1 == 0,
        ).len(),
    decreases n,
{
    let clear = Set::new(|k: int| 0 <= k < n && (recv_bitmap >> (k as u32)) & 1 == 0);
    if n == 0 {
        assert(clear =~= Set::empty());
    } else {
        let last = (n - 1) as u32;
        let before = Set::new(
            |k: int| 0 <= k < n - 1 && (recv_bitmap >> (k as u32)) & 1 == 0,
        );
        lemma_gaps(recv_bitmap, (n - 1) as nat);
        assert(Set::new(
            |k: int| 0 <= k < (n - 1) as nat && (recv_bitmap >> (k as u32)) & 1 == 0,
        ) =~= before);
        assert(gaps(recv_bitmap, n).drop_last() =~= gaps(recv_bitmap, (n - 1) as nat));
        assert(recv_bitmap & (1u32 << last) != 0 <==> (recv_bitmap >> last) & 1 != 0)
            by (bit_vector)
            requires
                last < 32,
        ;
        if (recv_bitmap >> last) & 1 == 0 {
            assert(clear =~= before.insert(n - 1));
            assert(!before.contains(n - 1));
        } else {
            assert(clear =~= before);
        }
    }
}

/// Receiving a frame makes it the newest where it is ahead of the one that was by less than half
/// the counter's range. Of the newest and the thirty-two frames before it, exactly those that had
/// arrived and this one are known to have, and nothing is known of any other.
pub proof fn a_frame_that_arrived_stays_known_while_it_is_recent(
    before: AckTracker,
    frame_id: u32,
    after: AckTracker,
    id: u32,
    k: int,
)
    requires
        before.recording(frame_id, &after),
        0 <= k < 0x1_0000_0000,
        after.spec_newest() matches Some(newest) ==> id == newest - k || id == newest - k
            + 0x1_0000_0000,
    ensures
        after.spec_newest() is Some,
        before.spec_newest() is None ==> after.spec_newest() == Some(frame_id),
        before.spec_newest() matches Some(newest) ==> after.spec_newest() == if 0 < (frame_id
            - newest) % 0x1_0000_0000 < 0x8000_0000 {
            Some(frame_id)
        } else {
            Some(newest)
        },
        k <= 32 ==> after.seen(id) == (before.seen(id) || id == frame_id),
        k > 32 ==> !after.seen(id),
{
    let newest = after.spec_newest()->0;
    a_report_speaks_of_the_last_thirty_two(newest, 0, id, k);
    assert(after.seen(id) == (in_window(newest, id) && (before.seen(id) || id == frame_id)));
}

} // verus!
