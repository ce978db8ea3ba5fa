//! Rebuilding frames from received packets.
//!
//! Packets arrive out of order, duplicated, or not at all. The reassembler keeps a bounded set
//! of in-flight frames, fills them in as packets land, and hands a frame to the decoder the
//! moment it is whole.
//!
//! The bound is a latency decision rather than a memory one. A frame that is still missing
//! packets after several newer frames have arrived is never going to be useful: waiting for it
//! would stall the decoder for longer than the frame is worth. So the oldest in-flight frame is
//! evicted to make room rather than held.

use vstd::prelude::*;

use crate::bytes::{overwritten, put_bytes};
use crate::net::fec::{
    a_count_is_of_what_is_set, all_of_len, count_set, data_shards_of, lemma_count_set_bound,
    lemma_count_set_update, lemma_cut,
    lemma_padded_rows, lemma_row_inside, lemma_rows_determine,
    lost_shards_leave_the_rest_of_the_block, matrix_rows, padded, parity_of, rebuilt_from, received,
    received_of, shape_error, shard_of, FecCodec, ParityBlock, ParityModel,
};
use crate::net::packet::{
    FecPacket, VideoPacket, FLAG_IDR, FLAG_LAST_OF_FRAME, MAX_VIDEO_PAYLOAD,
};
use crate::net::packetize::{fragment, lemma_packet_count, packets_for, slice_error};

verus! {

/// Largest `slice_id` the reassembler will accept.
///
/// Encoders in this pipeline use between one and eight slices per frame; the ceiling is well
/// clear of that and stops a corrupt header from sizing an enormous table.
pub const MAX_SLICES_PER_FRAME: usize = 64;

/// What happened to a packet handed to [`FrameReassembler::push`].
#[derive(Debug, Clone, Copy, PartialEq, Eq, Structural)]
pub enum PushOutcome {
    /// Packet was stored and its frame is still incomplete.
    Accepted,
    /// Packet completed its frame, which is now available from
    /// [`FrameReassembler::take_completed`].
    FrameComplete,
    /// Packet repeats one already stored and was discarded.
    Duplicate,
    /// Packet belongs to a frame that was already delivered or evicted.
    Stale,
    /// Packet contradicts the format and was discarded.
    ///
    /// Covers an impossible index, an empty payload, a short packet in the middle of a slice, a
    /// `slice_id` beyond [`MAX_SLICES_PER_FRAME`], and a `pkt_count` that disagrees with packets
    /// already seen for the same slice.
    Invalid,
}

/// Running counters describing what the receive path has seen.
///
/// `dropped_incomplete` is the number that matters: a non-zero rate means frames are being
/// abandoned, which the encoder should learn about through long-term reference invalidation
/// rather than by being asked for an IDR.
#[derive(Debug, Clone, Copy, PartialEq, Eq, Structural)]
pub struct ReassemblyStats {
    /// Packets stored into a frame.
    pub accepted: u64,
    /// Packets discarded as repeats.
    pub duplicates: u64,
    /// Packets discarded for belonging to a finished or evicted frame.
    pub stale: u64,
    /// Packets discarded as malformed.
    pub invalid: u64,
    /// Frames delivered whole.
    pub completed: u64,
    /// Frames evicted before they ever completed.
    pub dropped_incomplete: u64,
    /// Slices rebuilt from parity rather than lost.
    ///
    /// Every one of these is a frame that would otherwise have been thrown away, and a keyframe
    /// the encoder did not have to send.
    pub recovered: u64,
}

impl Default for ReassemblyStats {
    /// Counters that have counted nothing.
    fn default() -> (stats: Self)
        ensures
            stats == ReassemblyStats::zero(),
    {
        ReassemblyStats {
            accepted: 0,
            duplicates: 0,
            stale: 0,
            invalid: 0,
            completed: 0,
            dropped_incomplete: 0,
            recovered: 0,
        }
    }
}

impl ReassemblyStats {
    /// Counters that have counted nothing.
    pub open spec fn zero() -> ReassemblyStats {
        ReassemblyStats {
            accepted: 0,
            duplicates: 0,
            stale: 0,
            invalid: 0,
            completed: 0,
            dropped_incomplete: 0,
            recovered: 0,
        }
    }

    /// Whether every counter can still count `more` events.
    pub open spec fn has_room(self, more: nat) -> bool {
        &&& self.accepted + more <= u64::MAX
        &&& self.duplicates + more <= u64::MAX
        &&& self.stale + more <= u64::MAX
        &&& self.invalid + more <= u64::MAX
        &&& self.completed + more <= u64::MAX
        &&& self.dropped_incomplete + more <= u64::MAX
        &&& self.recovered + more <= u64::MAX
    }

    /// The counters after one packet met with `outcome`.
    pub open spec fn after(self, outcome: PushOutcome) -> ReassemblyStats {
        match outcome {
            PushOutcome::Accepted | PushOutcome::FrameComplete => ReassemblyStats {
                accepted: (self.accepted + 1) as u64,
                ..self
            },
            PushOutcome::Duplicate => ReassemblyStats {
                duplicates: (self.duplicates + 1) as u64,
                ..self
            },
            PushOutcome::Stale => ReassemblyStats { stale: (self.stale + 1) as u64, ..self },
            PushOutcome::Invalid => ReassemblyStats {
                invalid: (self.invalid + 1) as u64,
                ..self
            },
        }
    }

    /// The counters after `frames` frames were abandoned.
    pub open spec fn dropping(self, frames: nat) -> ReassemblyStats {
        ReassemblyStats {
            dropped_incomplete: (self.dropped_incomplete + frames) as u64,
            ..self
        }
    }

    /// Counts one packet that met with `outcome`.
    fn count(&mut self, outcome: PushOutcome)
        requires
            old(self).has_room(1),
        ensures
            *final(self) == old(self).after(outcome),
    {
        match outcome {
            PushOutcome::Accepted | PushOutcome::FrameComplete => self.accepted = self.accepted + 1,
            PushOutcome::Duplicate => self.duplicates = self.duplicates + 1,
            PushOutcome::Stale => self.stale = self.stale + 1,
            PushOutcome::Invalid => self.invalid = self.invalid + 1,
        }
    }
}

/// A frame that arrived whole, borrowed from the reassembler's storage.
///
/// The borrow lasts only until the reassembler is used again, which is what lets the buffer be
/// recycled for the next frame without copying the bytes out first.
#[derive(Debug)]
pub struct ReassembledFrame<'a> {
    /// Frame counter this bitstream belongs to.
    pub frame_id: u32,
    /// Host clock at capture time, in microseconds, copied from the packets.
    pub capture_ts_us: u64,
    /// Whether the frame is an IDR.
    pub is_idr: bool,
    /// The complete encoded frame, slices concatenated in order.
    pub data: &'a [u8],
}

/// Whether `a` is strictly newer than `b` under wrapping frame numbering.
pub open spec fn newer(a: u32, b: u32) -> bool {
    a != b && (a - b) % 0x1_0000_0000 < 0x8000_0000
}

/// Returns whether `a` is strictly newer than `b` under wrapping frame numbering.
///
/// Frame counters wrap at `u32::MAX`, which at 120 fps takes over a year, but comparing them by
/// distance rather than magnitude costs nothing and removes the failure mode entirely.
fn is_newer(a: u32, b: u32) -> (yes: bool)
    ensures
        yes == newer(a, b),
{
    a != b && a.wrapping_sub(b) < 0x8000_0000
}

/// What has arrived of one slice.
#[verifier::ext_equal]
pub struct SliceModel {
    /// Which of its packets are there.
    pub present: Seq<bool>,
    /// The packets' payloads at their stride, zero where nothing has arrived.
    pub data: Seq<u8>,
    /// The length of the slice, once something has said it.
    pub len: nat,
    /// The parity shards that protect it.
    pub parity: ParityModel,
}

/// A matrix of zeros.
pub open spec fn zeros(n: nat) -> Seq<u8> {
    Seq::new(n, |i: int| 0u8)
}

/// A buffer after some bytes were written into it.
pub open spec fn written(data: Seq<u8>, at: int, bytes: Seq<u8>) -> Seq<u8> {
    data.take(at) + bytes + data.skip(at + bytes.len())
}

/// The rows of a matrix put end to end.
pub open spec fn flattened(rows: Seq<Seq<u8>>, shard_len: nat, count: nat) -> Seq<u8> {
    Seq::new(count * shard_len, |k: int| rows[k / shard_len as int][k % shard_len as int])
}

impl SliceModel {
    /// A slice of `pkt_count` packets of which nothing has arrived.
    pub open spec fn started(pkt_count: nat) -> SliceModel {
        SliceModel {
            present: Seq::new(pkt_count, |i: int| false),
            data: zeros(pkt_count * MAX_VIDEO_PAYLOAD as nat),
            len: 0,
            parity: ParityModel {
                rows: Seq::empty(),
                flags: Seq::empty(),
                stride: MAX_VIDEO_PAYLOAD as nat,
            },
        }
    }

    /// The matrix has a row for every packet, the length lies in it, and the parity shards are
    /// as long as a packet.
    pub open spec fn wf(self) -> bool {
        &&& self.present.len() <= u16::MAX
        &&& self.data.len() == self.present.len() * MAX_VIDEO_PAYLOAD
        &&& self.len <= self.data.len()
        &&& self.parity.stride == MAX_VIDEO_PAYLOAD
        &&& self.parity.flags.len() == self.parity.rows.len() <= u8::MAX
        &&& all_of_len(self.parity.rows, MAX_VIDEO_PAYLOAD as nat)
    }

    /// Whether every packet is there.
    pub open spec fn complete(self) -> bool {
        forall|i: int| 0 <= i < self.present.len() ==> #[trigger] self.present[i]
    }

    /// The slice's bytes, once it is complete.
    pub open spec fn bytes(self) -> Seq<u8> {
        self.data.take(self.len as int)
    }

    /// The slice with one more packet stored.
    pub open spec fn storing(self, packet: VideoPacket) -> SliceModel {
        let at = packet.pkt_idx * MAX_VIDEO_PAYLOAD;
        SliceModel {
            present: self.present.update(packet.pkt_idx as int, true),
            data: written(self.data, at, packet.payload@),
            len: if packet.pkt_idx + 1 == packet.pkt_count {
                (at + packet.payload@.len()) as nat
            } else {
                self.len
            },
            parity: self.parity,
        }
    }

    /// The slice with its parity sized for `count` shards.
    pub open spec fn with_parity_of(self, count: nat) -> SliceModel {
        if self.parity.rows.len() == count {
            self
        } else {
            SliceModel {
                parity: ParityModel {
                    rows: Seq::new(count, |i: int| zeros(MAX_VIDEO_PAYLOAD as nat)),
                    flags: Seq::new(count, |i: int| false),
                    stride: MAX_VIDEO_PAYLOAD as nat,
                },
                ..self
            }
        }
    }

    /// The slice with one more parity shard stored, and with the length the shard states.
    pub open spec fn storing_parity(self, packet: FecPacket) -> SliceModel {
        let index = packet.shard_index as int;
        SliceModel {
            len: packet.spec_slice_len() as nat,
            parity: ParityModel {
                rows: self.parity.rows.update(index, packet.payload@),
                flags: self.parity.flags.update(index, true),
                stride: self.parity.stride,
            },
            ..self
        }
    }

    /// Whether parity can rebuild what is missing.
    pub open spec fn recoverable(self) -> bool {
        &&& !self.complete()
        &&& count_set(self.parity.flags) > 0
        &&& count_set(self.present) + count_set(self.parity.flags) >= self.present.len()
        &&& shape_error(self.present.len(), self.parity.rows.len()) is None
    }

    /// The slice with its missing packets rebuilt, where that can be done.
    pub open spec fn recovered(self) -> SliceModel {
        if self.recoverable() {
            SliceModel {
                present: Seq::new(self.present.len(), |i: int| true),
                data: flattened(
                    rebuilt_from(
                        received(
                            self.data,
                            self.present,
                            self.parity,
                            MAX_VIDEO_PAYLOAD as nat,
                        ),
                        self.present.len(),
                    ),
                    MAX_VIDEO_PAYLOAD as nat,
                    self.present.len(),
                ),
                ..self
            }
        } else {
            self
        }
    }
}

impl SliceModel {
    /// Whether what has arrived is part of `slice` and of its parity, and nothing else.
    pub open spec fn part_of(self, slice: Seq<u8>) -> bool {
        &&& self.wf()
        &&& slice.len() > 0
        &&& self.present.len() == packets_for(slice.len())
        &&& forall|i: int|
            0 <= i < self.present.len() ==> #[trigger] matrix_rows(
                self.data,
                MAX_VIDEO_PAYLOAD as nat,
                self.present.len(),
            )[i] == if self.present[i] {
                shard_of(slice, MAX_VIDEO_PAYLOAD as nat, i)
            } else {
                zeros(MAX_VIDEO_PAYLOAD as nat)
            }
        &&& self.present.last() || count_set(self.parity.flags) > 0 ==> self.len == slice.len()
        &&& forall|j: int|
            0 <= j < self.parity.rows.len() && self.parity.flags[j] ==> #[trigger] self.parity.rows[j]
                == parity_of(
                data_shards_of(slice, MAX_VIDEO_PAYLOAD as nat),
                self.parity.rows.len(),
            )[j]
    }
}

/// Whether a packet is one of those that `slice` is cut into.
pub open spec fn fragment_of(packet: VideoPacket, slice: Seq<u8>) -> bool {
    &&& slice_error(slice.len()) is None
    &&& packet.pkt_count == packets_for(slice.len())
    &&& packet.pkt_idx < packet.pkt_count
    &&& packet.payload@ == fragment(slice, packet.pkt_idx as int)
}

/// Whether a parity packet is one of those that protect `slice`.
pub open spec fn parity_packet_of(packet: FecPacket, slice: Seq<u8>) -> bool {
    &&& slice.len() > 0
    &&& packet.data_count == packets_for(slice.len())
    &&& packet.spec_slice_len() == slice.len()
    &&& packet.shard_index < packet.parity_count
    &&& packet.payload@ == parity_of(
        data_shards_of(slice, MAX_VIDEO_PAYLOAD as nat),
        packet.parity_count as nat,
    )[packet.shard_index as int]
}

/// A slice of which nothing has arrived is part of any slice of its size.
proof fn lemma_started_part(slice: Seq<u8>)
    requires
        slice.len() > 0,
        packets_for(slice.len()) <= u16::MAX,
    ensures
        SliceModel::started(packets_for(slice.len())).part_of(slice),
{
    let count = packets_for(slice.len());
    let started = SliceModel::started(count);
    lemma_cut(slice.len() as int, MAX_VIDEO_PAYLOAD as int);
    assert forall|i: int| 0 <= i < count implies #[trigger] matrix_rows(
        started.data,
        MAX_VIDEO_PAYLOAD as nat,
        count,
    )[i] == zeros(MAX_VIDEO_PAYLOAD as nat) by {
        lemma_row_inside(i, count as int, MAX_VIDEO_PAYLOAD as int);
        assert(matrix_rows(started.data, MAX_VIDEO_PAYLOAD as nat, count)[i] =~= zeros(
            MAX_VIDEO_PAYLOAD as nat,
        ));
    }
}

/// Storing one of the packets a slice is cut into keeps what has arrived part of that slice.
proof fn lemma_storing_part(model: SliceModel, packet: VideoPacket, slice: Seq<u8>)
    requires
        model.part_of(slice),
        fragment_of(packet, slice),
        !model.present[packet.pkt_idx as int],
    ensures
        model.storing(packet).part_of(slice),
{
    let p = MAX_VIDEO_PAYLOAD as nat;
    let count = model.present.len();
    let at = packet.pkt_idx as int;
    let after = model.storing(packet);
    lemma_cut(slice.len() as int, p as int);
    lemma_row_inside(at, count as int, p as int);
    assert(at * p <= (count - 1) * p) by (nonlinear_arith)
        requires
            at <= count - 1,
            p >= 0,
    ;
    assert(count * p == (count - 1) * p + p) by (nonlinear_arith);
    if at < count - 1 {
        lemma_row_inside(at, count - 1, p as int);
        assert(packet.payload@.len() == p);
    }
    assert(0 < packet.payload@.len() <= p);
    assert(at * p + packet.payload@.len() <= model.data.len());
    assert(matrix_rows(model.data, p, count)[at] == zeros(p));
    assert forall|i: int| 0 <= i < count implies #[trigger] matrix_rows(after.data, p, count)[i]
        == if after.present[i] {
        shard_of(slice, p, i)
    } else {
        zeros(p)
    } by {
        lemma_row_inside(i, count as int, p as int);
        if i == at {
            assert forall|j: int| 0 <= j < p implies after.data[at * p + j] == shard_of(
                slice,
                p,
                at,
            )[j] by {
                if j >= packet.payload@.len() {
                    assert(after.data[at * p + j] == model.data[at * p + j]);
                    assert(matrix_rows(model.data, p, count)[at][j] == model.data[at * p + j]);
                }
            }
            assert(matrix_rows(after.data, p, count)[i] =~= shard_of(slice, p, i));
        } else {
            assert(i < at ==> (i + 1) * p <= at * p) by (nonlinear_arith)
                requires
                    p >= 0,
            ;
            assert(i > at ==> (at + 1) * p <= i * p) by (nonlinear_arith)
                requires
                    p >= 0,
            ;
            assert(matrix_rows(after.data, p, count)[i] =~= matrix_rows(model.data, p, count)[i]);
        }
    }
}

/// Storing one of the parity packets that protect a slice keeps what has arrived part of it.
proof fn lemma_parity_part(model: SliceModel, packet: FecPacket, slice: Seq<u8>)
    requires
        model.part_of(slice),
        packet.describes_a_block(),
        parity_packet_of(packet, slice),
        packet.payload@.len() == MAX_VIDEO_PAYLOAD,
    ensures
        model.with_parity_of(packet.parity_count as nat).storing_parity(packet).part_of(slice),
{
    let sized = model.with_parity_of(packet.parity_count as nat);
    let after = sized.storing_parity(packet);
    lemma_none_set(packet.parity_count as nat);
    lemma_slice_len_inside(packet);
    assert forall|j: int| 0 <= j < after.parity.rows.len() && after.parity.flags[j] implies
        #[trigger] after.parity.rows[j] == parity_of(
        data_shards_of(slice, MAX_VIDEO_PAYLOAD as nat),
        after.parity.rows.len(),
    )[j] by {
        if j != packet.shard_index {
            assert(sized.parity.rows[j] == after.parity.rows[j]);
        }
    }
}

/// Sizing the parity keeps what has arrived part of a slice.
proof fn lemma_sized_part(model: SliceModel, count: nat, slice: Seq<u8>)
    requires
        model.part_of(slice),
        count <= u8::MAX,
    ensures
        model.with_parity_of(count).part_of(slice),
{
    lemma_none_set(count);
}

/// A whole part is the slice itself.
pub proof fn complete_slice_is_the_slice_sent(model: SliceModel, slice: Seq<u8>)
    requires
        model.part_of(slice),
        model.complete(),
    ensures
        model.bytes() == slice,
{
    let p = MAX_VIDEO_PAYLOAD as nat;
    let count = model.present.len();
    lemma_cut(slice.len() as int, p as int);
    lemma_padded_rows(slice, p);
    assert forall|i: int| 0 <= i < count implies #[trigger] matrix_rows(model.data, p, count)[i]
        == matrix_rows(padded(slice, p), p, count)[i] by {
        assert(model.present[i]);
        assert(data_shards_of(slice, p)[i] == shard_of(slice, p, i));
    }
    lemma_rows_determine(model.data, padded(slice, p), p, count);
    assert(model.present[count - 1]);
    assert(model.bytes() =~= slice);
}

/// What storing a packet makes of the slice it belongs to, or why it is not stored.
pub open spec fn slice_with(slice: Option<SliceModel>, packet: VideoPacket) -> Result<
    SliceModel,
    PushOutcome,
> {
    match slice {
        None => Ok(SliceModel::started(packet.pkt_count as nat).storing(packet).recovered()),
        Some(slice) => if slice.present.len() != packet.pkt_count {
            Err(PushOutcome::Invalid)
        } else if slice.present[packet.pkt_idx as int] {
            Err(PushOutcome::Duplicate)
        } else {
            Ok(slice.storing(packet).recovered())
        },
    }
}

/// The state of one slice, and whether what was done to it was in order.
pub struct ParityResult {
    /// The slice afterwards.
    pub slice: SliceModel,
    /// Whether the shard was stored.
    pub stored: bool,
}

/// What storing a parity shard makes of the slice it protects.
///
/// A shard may be the first thing seen of a slice, so it establishes the slice's shape as readily
/// as a data packet does. One that describes another block than what is already known is
/// refused, because reconstruction driven by the wrong counts produces wrong bytes.
pub open spec fn slice_with_parity(slice: Option<SliceModel>, packet: FecPacket) -> ParityResult {
    let known = match slice {
        None => SliceModel::started(packet.data_count as nat),
        Some(slice) => slice,
    };
    let sized = known.with_parity_of(packet.parity_count as nat);
    if known.present.len() != packet.data_count {
        ParityResult { slice: known, stored: false }
    } else if packet.payload@.len() != MAX_VIDEO_PAYLOAD {
        ParityResult { slice: known, stored: false }
    } else if packet.shard_index >= packet.parity_count {
        ParityResult { slice: sized, stored: false }
    } else {
        ParityResult { slice: sized.storing_parity(packet), stored: true }
    }
}

/// Reception state for one slice of one frame.
#[derive(Debug)]
struct SliceState {
    seen: bool,
    pkt_count: u16,
    received: u16,
    present: Vec<bool>,
    data: Vec<u8>,
    len: usize,
    parity: ParityBlock,
}

impl SliceState {
    /// What has arrived of the slice.
    spec fn model(&self) -> SliceModel {
        SliceModel {
            present: self.present@,
            data: self.data@,
            len: self.len as nat,
            parity: self.parity@,
        }
    }

    /// What has arrived of the slice, if anything.
    spec fn known(&self) -> Option<SliceModel> {
        if self.seen {
            Some(self.model())
        } else {
            None
        }
    }

    /// The counts agree with the bitmap.
    spec fn wf(&self) -> bool {
        &&& self.parity.wf()
        &&& self.seen ==> {
            &&& self.model().wf()
            &&& self.pkt_count == self.present@.len()
            &&& self.received == count_set(self.present@)
        }
    }

    /// A slice of which nothing has been seen.
    fn unseen() -> (slice: SliceState)
        ensures
            slice.wf(),
            !slice.seen,
            slice.pkt_count == 0,
            slice.received == 0,
            slice.model() == (SliceModel {
                present: Seq::empty(),
                data: Seq::empty(),
                len: 0,
                parity: ParityModel { rows: Seq::empty(), flags: Seq::empty(), stride: 0 },
            }),
    {
        let slice = SliceState {
            seen: false,
            pkt_count: 0,
            received: 0,
            present: Vec::new(),
            data: Vec::new(),
            len: 0,
            parity: ParityBlock::new(),
        };
        assert(slice.parity.flags() =~= Seq::<bool>::empty());
        slice
    }

    /// Prepares the slice to receive `pkt_count` packets.
    fn begin(&mut self, pkt_count: u16)
        ensures
            final(self).wf(),
            final(self).seen,
            final(self).model() == SliceModel::started(pkt_count as nat),
    {
        self.seen = true;
        self.pkt_count = pkt_count;
        self.received = 0;
        self.len = 0;
        let count: usize = pkt_count as usize;
        assert(count * MAX_VIDEO_PAYLOAD <= 65535 * 1180) by (nonlinear_arith)
            requires
                count <= 65535,
                MAX_VIDEO_PAYLOAD == 1180,
        ;
        self.present = vec![false; count];
        self.data = vec![0u8; count * MAX_VIDEO_PAYLOAD];
        self.parity.reset(0, MAX_VIDEO_PAYLOAD);
        proof {
            assert(self.model() =~= SliceModel::started(pkt_count as nat));
            lemma_none_set(pkt_count as nat);
        }
    }

    /// Returns whether every packet of the slice has arrived.
    fn is_complete(&self) -> (complete: bool)
        requires
            self.wf(),
        ensures
            complete == (self.known() matches Some(slice) && slice.complete()),
    {
        proof {
            lemma_count_set_bound(self.present@);
        }
        self.seen && self.received == self.pkt_count
    }

    /// Stores one packet that is not there yet.
    fn store(&mut self, packet: &VideoPacket<'_>)
        requires
            old(self).wf(),
            old(self).seen,
            plausible(*packet),
            old(self).present@.len() == packet.pkt_count,
            !old(self).present@[packet.pkt_idx as int],
        ensures
            final(self).wf(),
            final(self).seen,
            final(self).model() == old(self).model().storing(*packet),
    {
        let ghost before = self.model();
        let pkt_idx: usize = packet.pkt_idx as usize;
        proof {
            lemma_row_inside(pkt_idx as int, packet.pkt_count as int, MAX_VIDEO_PAYLOAD as int);
            assert(before.data.len() <= usize::MAX) by {
                assert(self.data@.len() == self.data.len());
            }
        }
        let offset: usize = pkt_idx * MAX_VIDEO_PAYLOAD;
        proof {
            assert(before.data =~= before.data.take(offset as int) + before.data.skip(
                offset as int,
            ));
            assert(overwritten(before.data, before.data, before.data.take(offset as int)));
        }
        put_bytes(self.data.as_mut_slice(), offset, packet.payload);
        proof {
            assert(overwritten(
                self.data@,
                before.data,
                before.data.take(offset as int) + packet.payload@,
            ));
            assert(self.data@ =~= written(before.data, offset as int, packet.payload@));
            lemma_count_set_update(before.present, pkt_idx as int);
            lemma_count_set_bound(before.present.update(pkt_idx as int, true));
        }
        self.present[pkt_idx] = true;
        self.received = self.received + 1;
        if packet.pkt_idx + 1 == packet.pkt_count {
            self.len = offset + packet.payload.len();
        }
        assert(self.model() =~= before.storing(*packet));
    }

    /// Stores one parity shard and the block shape it describes.
    ///
    /// A parity packet may be the first thing seen of a slice, so this establishes the slice's
    /// shape as readily as a data packet does. It also carries the slice's true byte length,
    /// which is the only reason recovery of the final packet is correct: the length otherwise
    /// arrives only on that packet, so recovering it would leave a slice of length zero and hand
    /// the decoder an empty bitstream with nothing reporting it.
    ///
    /// Returns whether the packet was consistent with what is already known.
    fn accept_parity(&mut self, packet: &FecPacket<'_>) -> (stored: bool)
        requires
            old(self).wf(),
            packet.describes_a_block(),
        ensures
            final(self).wf(),
            final(self).seen,
            final(self).model() == slice_with_parity(old(self).known(), *packet).slice,
            stored == slice_with_parity(old(self).known(), *packet).stored,
    {
        let data_count: u16 = packet.data_count as u16;
        if !self.seen {
            self.begin(data_count);
        } else if self.pkt_count != data_count {
            return false;
        }
        if packet.payload.len() != MAX_VIDEO_PAYLOAD {
            return false;
        }
        if self.parity.shard_count() != packet.parity_count as usize {
            self.parity.reset(packet.parity_count as usize, MAX_VIDEO_PAYLOAD);
            proof {
                assert(self.parity@ =~= ParityModel {
                    rows: Seq::new(
                        packet.parity_count as nat,
                        |i: int| zeros(MAX_VIDEO_PAYLOAD as nat),
                    ),
                    flags: Seq::new(packet.parity_count as nat, |i: int| false),
                    stride: MAX_VIDEO_PAYLOAD as nat,
                });
            }
        }
        let ghost sized = self.model();
        let index: usize = packet.shard_index as usize;
        match self.parity.shard_mut(index) {
            None => return false,
            Some(shard) => {
                let ghost before = shard@;
                proof {
                    assert(before =~= before.take(0) + before.skip(0));
                    assert(overwritten(before, before, before.take(0)));
                }
                put_bytes(shard, 0, packet.payload);
                proof {
                    assert(overwritten(shard@, before, before.take(0) + packet.payload@));
                    assert(shard@ =~= packet.payload@);
                }
            },
        }
        self.parity.set_present(index, true);
        self.len = packet.slice_len();
        proof {
            assert(self.model() =~= sized.storing_parity(*packet));
            lemma_slice_len_inside(*packet);
        }
        true
    }

    /// Rebuilds the missing packets of this slice from parity, if there are enough shards.
    ///
    /// Returns whether anything was rebuilt, which makes the slice whole. Cheap to call on a
    /// slice that is already complete or still hopeless.
    fn try_recover(&mut self, codec: &mut FecCodec) -> (rebuilt: bool)
        requires
            old(self).wf(),
            old(self).seen,
            old(codec).wf(),
        ensures
            final(self).wf(),
            final(self).seen,
            final(codec).wf(),
            final(self).model() == old(self).model().recovered(),
            rebuilt == old(self).model().recoverable(),
            forall|slice: Seq<u8>| #[trigger]
                old(self).model().part_of(slice) ==> final(self).model().part_of(slice),
    {
        if self.is_complete() || self.parity.present_count() == 0 {
            return false;
        }
        let ghost before = self.model();
        proof {
            lemma_count_set_bound(self.present@);
        }
        let available: usize = self.received as usize + self.parity.present_count();
        if available < self.pkt_count as usize {
            return false;
        }
        proof {
            assert(self.present@.len() * MAX_VIDEO_PAYLOAD == self.data.len());
        }
        match codec.reconstruct(
            self.data.as_mut_slice(),
            self.present.as_mut_slice(),
            &mut self.parity,
            MAX_VIDEO_PAYLOAD,
        ) {
            Ok(count) => {
                if count > 0 {
                    self.received = self.pkt_count;
                    proof {
                        let rows = rebuilt_from(
                            received(
                                before.data,
                                before.present,
                                before.parity,
                                MAX_VIDEO_PAYLOAD as nat,
                            ),
                            before.present.len(),
                        );
                        assert(before.recoverable());
                        lemma_flattened(
                            self.data@,
                            rows,
                            MAX_VIDEO_PAYLOAD as nat,
                            before.present.len(),
                        );
                        assert(self.present@ =~= Seq::new(before.present.len(), |i: int| true));
                        lemma_count_set_bound(self.present@);
                        assert(self.model() =~= before.recovered());
                        assert forall|slice: Seq<u8>| #[trigger] before.part_of(slice) implies
                            self.model().part_of(slice) by {
                            lemma_rebuilt_part(before, self.model(), slice);
                        }
                    }
                    true
                } else {
                    false
                }
            },
            Err(_) => {
                assert(self.model() =~= before);
                false
            },
        }
    }

    /// Clears the slice for reuse.
    fn reset(&mut self)
        ensures
            final(self).wf(),
            !final(self).seen,
    {
        self.seen = false;
        self.pkt_count = 0;
        self.received = 0;
        self.len = 0;
        self.parity.reset(0, MAX_VIDEO_PAYLOAD);
    }
}

/// Whether a packet's header is self-consistent.
///
/// Every packet but the last of its slice must carry a full payload, because that is the only
/// way the receiver can compute where a packet's bytes belong without having seen the ones
/// before it.
pub open spec fn plausible(packet: VideoPacket) -> bool {
    &&& packet.pkt_idx < packet.pkt_count
    &&& 0 < packet.payload@.len() <= MAX_VIDEO_PAYLOAD
    &&& packet.slice_id < MAX_SLICES_PER_FRAME
    &&& packet.pkt_idx + 1 == packet.pkt_count || packet.payload@.len() == MAX_VIDEO_PAYLOAD
}

/// The length a parity packet states lies inside the block it states.
proof fn lemma_slice_len_inside(packet: FecPacket)
    requires
        packet.describes_a_block(),
    ensures
        0 <= packet.spec_slice_len() <= packet.data_count * MAX_VIDEO_PAYLOAD,
{
    let full = packet.data_count - 1;
    lemma_row_inside(full, packet.data_count as int, MAX_VIDEO_PAYLOAD as int);
}

/// A matrix is its rows put end to end.
proof fn lemma_flattened(data: Seq<u8>, rows: Seq<Seq<u8>>, shard_len: nat, count: nat)
    requires
        shard_len > 0,
        data.len() == count * shard_len,
        forall|i: int|
            0 <= i < count ==> #[trigger] matrix_rows(data, shard_len, count)[i] == rows[i],
    ensures
        data == flattened(rows, shard_len, count),
{
    let flat = flattened(rows, shard_len, count);
    assert forall|k: int| 0 <= k < data.len() implies data[k] == flat[k] by {
        let i = k / shard_len as int;
        let j = k % shard_len as int;
        vstd::arithmetic::div_mod::lemma_fundamental_div_mod(k, shard_len as int);
        assert(0 <= i < count) by (nonlinear_arith)
            requires
                0 <= k < count * shard_len,
                k == shard_len * i + j,
                0 <= j < shard_len,
        ;
        assert(shard_len * i == i * shard_len) by (nonlinear_arith);
        lemma_row_inside(i, count as int, shard_len as int);
        assert(matrix_rows(data, shard_len, count)[i][j] == data[k]);
    }
    assert(data =~= flat);
}

/// A slice rebuilt from what was part of a slice is that slice.
proof fn lemma_rebuilt_part(before: SliceModel, after: SliceModel, slice: Seq<u8>)
    requires
        before.part_of(slice),
        before.recoverable(),
        after.wf(),
        after.present == Seq::new(before.present.len(), |i: int| true),
        after.len == before.len,
        after.parity == before.parity,
        received_of(
            slice,
            before.data,
            before.present,
            before.parity,
            MAX_VIDEO_PAYLOAD as nat,
        ) ==> after.data == padded(slice, MAX_VIDEO_PAYLOAD as nat),
    ensures
        after.part_of(slice),
{
    let p = MAX_VIDEO_PAYLOAD as nat;
    lost_shards_leave_the_rest_of_the_block(slice, before.data, before.present, before.parity, p);
    lemma_padded_rows(slice, p);
    lemma_cut(slice.len() as int, p as int);
    assert forall|i: int| 0 <= i < after.present.len() implies #[trigger] matrix_rows(
        after.data,
        p,
        after.present.len(),
    )[i] == shard_of(slice, p, i) by {
        assert(data_shards_of(slice, p)[i] == shard_of(slice, p, i));
    }
}

/// A bitmap with nothing set counts nothing.
proof fn lemma_none_set(n: nat)
    ensures
        count_set(Seq::new(n, |i: int| false)) == 0,
    decreases n,
{
    if n > 0 {
        lemma_none_set((n - 1) as nat);
        assert(Seq::new(n, |i: int| false).drop_last() =~= Seq::new(
            (n - 1) as nat,
            |i: int| false,
        ));
    }
}

/// What has arrived of one frame.
#[verifier::ext_equal]
pub struct FrameModel {
    /// Frame counter.
    pub frame_id: u32,
    /// Host clock at capture time.
    pub capture_ts_us: u64,
    /// Whether any packet said the frame is an IDR.
    pub is_idr: bool,
    /// The last slice, once a packet has said which it is.
    pub last_slice: Option<u16>,
    /// The slices of which anything has arrived.
    pub slices: Map<int, SliceModel>,
    /// The whole bitstream, from the moment the frame was complete.
    pub assembled: Seq<u8>,
}

/// The bytes of the first `count` slices put end to end.
pub open spec fn joined(slices: Map<int, SliceModel>, count: nat) -> Seq<u8>
    decreases count,
{
    if count == 0 {
        Seq::empty()
    } else {
        joined(slices, (count - 1) as nat) + slices[count - 1].bytes()
    }
}

impl FrameModel {
    /// A frame of which nothing has arrived.
    pub open spec fn started(frame_id: u32, capture_ts_us: u64) -> FrameModel {
        FrameModel {
            frame_id,
            capture_ts_us,
            is_idr: false,
            last_slice: None,
            slices: Map::empty(),
            assembled: Seq::empty(),
        }
    }

    /// Every slice that is there is well formed.
    pub open spec fn wf(self) -> bool {
        forall|id: int| #[trigger] self.slices.dom().contains(id) ==> self.slices[id].wf()
    }

    /// What has arrived of a slice, if anything.
    pub open spec fn slice(self, id: int) -> Option<SliceModel> {
        if self.slices.dom().contains(id) {
            Some(self.slices[id])
        } else {
            None
        }
    }

    /// Whether slice `id` is whole.
    pub open spec fn has_whole(self, id: int) -> bool {
        self.slices.dom().contains(id) && self.slices[id].complete()
    }

    /// Whether the final slice has been seen and every slice up to it is whole.
    pub open spec fn complete(self) -> bool {
        match self.last_slice {
            None => false,
            Some(last) => forall|id: int| 0 <= id <= last ==> #[trigger] self.has_whole(id),
        }
    }

    /// The frame with its bitstream put together, if it is complete.
    pub open spec fn settled(self) -> FrameModel {
        if self.complete() {
            FrameModel { assembled: joined(self.slices, (self.last_slice->0 + 1) as nat), ..self }
        } else {
            self
        }
    }

    /// The frame with one of its slices changed by a packet.
    pub open spec fn storing(self, packet: VideoPacket, slice: SliceModel) -> FrameModel {
        FrameModel {
            is_idr: self.is_idr || packet.flags & FLAG_IDR != 0,
            last_slice: if packet.flags & FLAG_LAST_OF_FRAME != 0 {
                Some(packet.slice_id)
            } else {
                self.last_slice
            },
            slices: self.slices.insert(packet.slice_id as int, slice),
            ..self
        }
    }

    /// The frame with one of its slices changed by a parity shard.
    pub open spec fn storing_parity(self, packet: FecPacket, slice: SliceModel) -> FrameModel {
        FrameModel { slices: self.slices.insert(packet.slice_id as int, slice), ..self }
    }
}

/// The slices of a frame put end to end.
pub open spec fn whole(frame: Seq<Seq<u8>>) -> Seq<u8>
    decreases frame.len(),
{
    if frame.len() == 0 {
        Seq::empty()
    } else {
        whole(frame.drop_last()) + frame.last()
    }
}

impl FrameModel {
    /// Whether what has arrived is part of a frame made of the given slices, and nothing else.
    pub open spec fn part_of(self, frame: Seq<Seq<u8>>) -> bool {
        &&& forall|id: int| #[trigger]
            self.slices.dom().contains(id) ==> 0 <= id < frame.len() && self.slices[id].part_of(
                frame[id],
            )
        &&& self.last_slice matches Some(last) ==> last + 1 == frame.len()
    }
}

/// Whether a packet is one of those that a frame made of the given slices is cut into.
pub open spec fn packet_of(packet: VideoPacket, frame: Seq<Seq<u8>>) -> bool {
    &&& packet.slice_id < frame.len()
    &&& fragment_of(packet, frame[packet.slice_id as int])
    &&& packet.flags & FLAG_LAST_OF_FRAME != 0 ==> packet.slice_id + 1 == frame.len()
}

/// Whether a parity packet is one of those that protect a frame made of the given slices.
pub open spec fn protects(packet: FecPacket, frame: Seq<Seq<u8>>) -> bool {
    &&& packet.slice_id < frame.len()
    &&& parity_packet_of(packet, frame[packet.slice_id as int])
}

/// A whole part is the frame itself.
pub proof fn complete_frame_is_the_frame_sent(model: FrameModel, frame: Seq<Seq<u8>>)
    requires
        model.part_of(frame),
        model.complete(),
    ensures
        model.settled().assembled == whole(frame),
{
    lemma_joined(model, frame, frame.len());
    assert(frame.take(frame.len() as int) =~= frame);
}

/// The slices of a whole part put end to end are those of the frame.
proof fn lemma_joined(model: FrameModel, frame: Seq<Seq<u8>>, count: nat)
    requires
        model.part_of(frame),
        model.complete(),
        count <= frame.len(),
    ensures
        joined(model.slices, count) == whole(frame.take(count as int)),
    decreases count,
{
    if count > 0 {
        lemma_joined(model, frame, (count - 1) as nat);
        assert(model.has_whole(count - 1));
        complete_slice_is_the_slice_sent(model.slices[count - 1], frame[count - 1]);
        assert(frame.take(count as int).drop_last() =~= frame.take(count - 1));
    }
}

/// One in-flight frame.
#[derive(Debug)]
struct FrameSlot {
    occupied: bool,
    frame_id: u32,
    capture_ts_us: u64,
    is_idr: bool,
    last_slice_id: Option<u16>,
    slices: Vec<SliceState>,
    assembled: Vec<u8>,
}

impl FrameSlot {
    /// What has arrived of the frame.
    spec fn model(&self) -> FrameModel {
        FrameModel {
            frame_id: self.frame_id,
            capture_ts_us: self.capture_ts_us,
            is_idr: self.is_idr,
            last_slice: self.last_slice_id,
            slices: Map::new(
                |id: int| 0 <= id < self.slices@.len() && self.slices@[id].seen,
                |id: int| self.slices@[id].model(),
            ),
            assembled: self.assembled@,
        }
    }

    /// What has arrived of the frame, if the slot holds one.
    spec fn known(&self) -> Option<FrameModel> {
        if self.occupied {
            Some(self.model())
        } else {
            None
        }
    }

    /// Every slice is well formed.
    spec fn wf(&self) -> bool {
        forall|i: int| 0 <= i < self.slices@.len() ==> (#[trigger] self.slices@[i]).wf()
    }

    /// A slot that holds nothing.
    fn empty() -> (slot: FrameSlot)
        ensures
            slot.wf(),
            !slot.occupied,
            slot.model() == FrameModel::started(0, 0),
            slot.slices@.len() == 0,
    {
        let slot = FrameSlot {
            occupied: false,
            frame_id: 0,
            capture_ts_us: 0,
            is_idr: false,
            last_slice_id: None,
            slices: Vec::new(),
            assembled: Vec::new(),
        };
        assert(slot.model().slices =~= Map::<int, SliceModel>::empty());
        slot
    }

    /// Claims the slot for a new frame.
    fn begin(&mut self, frame_id: u32, capture_ts_us: u64)
        ensures
            final(self).wf(),
            final(self).occupied,
            final(self).model() == FrameModel::started(frame_id, capture_ts_us),
    {
        self.occupied = true;
        self.frame_id = frame_id;
        self.capture_ts_us = capture_ts_us;
        self.is_idr = false;
        self.last_slice_id = None;
        let mut i: usize = 0;
        while i < self.slices.len()
            invariant
                i <= self.slices@.len(),
                self.occupied,
                self.frame_id == frame_id,
                self.capture_ts_us == capture_ts_us,
                !self.is_idr,
                self.last_slice_id is None,
                forall|k: int|
                    0 <= k < i ==> (#[trigger] self.slices@[k]).wf() && !self.slices@[k].seen,
            decreases self.slices@.len() - i,
        {
            self.slices[i].reset();
            i = i + 1;
        }
        self.assembled.clear();
        assert(self.model().slices =~= Map::<int, SliceModel>::empty());
        assert(self.model() =~= FrameModel::started(frame_id, capture_ts_us));
    }

    /// Makes room for slice `slice_id`.
    fn reach(&mut self, slice_id: usize)
        requires
            old(self).wf(),
            slice_id < usize::MAX,
        ensures
            final(self).wf(),
            final(self).occupied == old(self).occupied,
            final(self).model() == old(self).model(),
            slice_id < final(self).slices@.len(),
    {
        let ghost before = self.model();
        while self.slices.len() <= slice_id
            invariant
                self.wf(),
                slice_id < usize::MAX,
                self.occupied == old(self).occupied,
                self.model() == before,
            decreases slice_id + 1 - self.slices@.len(),
        {
            let ghost earlier = self.slices@;
            self.slices.push(SliceState::unseen());
            proof {
                assert forall|i: int| 0 <= i < self.slices@.len() implies (
                #[trigger] self.slices@[i]).wf() by {
                    if i < earlier.len() {
                        assert(self.slices@[i] == earlier[i]);
                    }
                }
                assert(self.model().slices =~= before.slices);
                assert(self.model() =~= before);
            }
        }
    }

    /// Stores one packet, and rebuilds its slice from parity if it now can be.
    ///
    /// Parity for the slice may already be waiting: it is sent after the slice's own packets but
    /// overtaking is ordinary, and this packet may have been the one that brought the shard
    /// count up to where recovery becomes possible.
    fn store(&mut self, packet: &VideoPacket<'_>, codec: &mut FecCodec) -> (stored: Result<
        bool,
        PushOutcome,
    >)
        requires
            old(self).wf(),
            old(self).occupied,
            old(codec).wf(),
            plausible(*packet),
        ensures
            final(self).wf(),
            final(self).occupied,
            final(codec).wf(),
            match stored {
                Ok(rebuilt) => {
                    let slice = old(self).model().slice(packet.slice_id as int);
                    &&& slice_with(slice, *packet) matches Ok(after)
                    &&& final(self).model() == old(self).model().storing(*packet, after)
                    &&& rebuilt == slice_repaired(slice, *packet)
                    &&& forall|sent: Seq<u8>| #[trigger]
                        fragment_of(*packet, sent) && (slice matches Some(part) ==> part.part_of(
                            sent,
                        )) ==> after.part_of(sent)
                },
                Err(outcome) => {
                    let slice = old(self).model().slice(packet.slice_id as int);
                    &&& slice_with(slice, *packet) == Err::<SliceModel, PushOutcome>(outcome)
                    &&& final(self).model() == old(self).model()
                },
            },
    {
        let ghost before = self.model();
        let slice_id: usize = packet.slice_id as usize;
        self.reach(slice_id);
        let ghost reached = self.slices@;
        proof {
            assert(before.slice(slice_id as int) == self.slices@[slice_id as int].known());
        }
        let pkt_idx: usize = packet.pkt_idx as usize;
        if self.slices[slice_id].seen {
            if self.slices[slice_id].pkt_count != packet.pkt_count {
                return Err(PushOutcome::Invalid);
            }
            if self.slices[slice_id].present[pkt_idx] {
                return Err(PushOutcome::Duplicate);
            }
        }
        let slice: &mut SliceState = &mut self.slices[slice_id];
        if !slice.seen {
            slice.begin(packet.pkt_count);
        }
        let ghost begun = slice.model();
        slice.store(packet);
        let rebuilt: bool = slice.try_recover(codec);
        if packet.flags & FLAG_IDR != 0 {
            self.is_idr = true;
        }
        if packet.flags & FLAG_LAST_OF_FRAME != 0 {
            self.last_slice_id = Some(packet.slice_id);
        }
        proof {
            let after = self.slices@[slice_id as int].model();
            assert(self.slices@ =~= reached.update(slice_id as int, self.slices@[slice_id as int]));
            assert(self.model().slices =~= before.slices.insert(slice_id as int, after));
            assert(self.model() =~= before.storing(*packet, after));
            assert forall|sent: Seq<u8>| #[trigger]
                fragment_of(*packet, sent) && (before.slice(slice_id as int) matches Some(part)
                    ==> part.part_of(sent)) implies after.part_of(sent) by {
                lemma_packet_count(sent.len());
                lemma_started_part(sent);
                lemma_storing_part(begun, *packet, sent);
            }
        }
        Ok(rebuilt)
    }

    /// Stores one parity shard, and rebuilds its slice if it now can be. Returns whether the
    /// shard was stored and whether it let the slice be rebuilt.
    fn store_parity(&mut self, packet: &FecPacket<'_>, codec: &mut FecCodec) -> (stored: Option<
        bool,
    >)
        requires
            old(self).wf(),
            old(self).occupied,
            old(codec).wf(),
            packet.describes_a_block(),
        ensures
            final(self).wf(),
            final(self).occupied,
            final(codec).wf(),
            ({
                let result = slice_with_parity(
                    old(self).model().slice(packet.slice_id as int),
                    *packet,
                );
                match stored {
                    Some(rebuilt) => {
                        &&& result.stored
                        &&& rebuilt == result.slice.recoverable()
                        &&& final(self).model() == old(self).model().storing_parity(
                            *packet,
                            result.slice.recovered(),
                        )
                        &&& forall|sent: Seq<u8>| #[trigger]
                            parity_packet_of(*packet, sent) && (old(self).model().slice(
                                packet.slice_id as int,
                            ) matches Some(part) ==> part.part_of(sent))
                                ==> result.slice.recovered().part_of(sent)
                    },
                    None => {
                        &&& !result.stored
                        &&& final(self).model() == old(self).model().storing_parity(
                            *packet,
                            result.slice,
                        )
                        &&& forall|sent: Seq<u8>| #[trigger]
                            parity_packet_of(*packet, sent) && (old(self).model().slice(
                                packet.slice_id as int,
                            ) matches Some(part) ==> part.part_of(sent))
                                ==> result.slice.part_of(sent)
                    },
                }
            }),
    {
        let ghost before = self.model();
        let slice_id: usize = packet.slice_id as usize;
        self.reach(slice_id);
        let ghost reached = self.slices@;
        proof {
            assert(before.slice(slice_id as int) == self.slices@[slice_id as int].known());
        }
        let slice: &mut SliceState = &mut self.slices[slice_id];
        let stored: bool = slice.accept_parity(packet);
        let rebuilt: bool = if stored {
            slice.try_recover(codec)
        } else {
            false
        };
        proof {
            let after = self.slices@[slice_id as int].model();
            assert(self.slices@ =~= reached.update(slice_id as int, self.slices@[slice_id as int]));
            assert(self.model().slices =~= before.slices.insert(slice_id as int, after));
            assert(self.model() =~= before.storing_parity(*packet, after));
            let known = before.slice(slice_id as int);
            let result = slice_with_parity(known, *packet);
            assert forall|sent: Seq<u8>| #[trigger]
                parity_packet_of(*packet, sent) && (known matches Some(part) ==> part.part_of(
                    sent,
                )) implies after.part_of(sent) by {
                lemma_started_part(sent);
                let part = match known {
                    Some(part) => part,
                    None => SliceModel::started(packet.data_count as nat),
                };
                lemma_sized_part(part, packet.parity_count as nat, sent);
                if stored {
                    lemma_parity_part(part, *packet, sent);
                    assert(result.slice.part_of(sent));
                }
            }
        }
        if stored {
            Some(rebuilt)
        } else {
            None
        }
    }

    /// Returns whether the final slice has been seen and every slice up to it is whole.
    fn is_complete(&self) -> (complete: bool)
        requires
            self.wf(),
        ensures
            complete == self.model().complete(),
    {
        let last: u16 = match self.last_slice_id {
            None => return false,
            Some(last) => last,
        };
        let mut id: usize = 0;
        while id <= last as usize
            invariant
                self.wf(),
                self.last_slice_id == Some(last),
                id <= last + 1,
                forall|i: int| 0 <= i < id ==> #[trigger] self.model().has_whole(i),
            decreases last + 1 - id,
        {
            if id >= self.slices.len() || !self.slices[id].is_complete() {
                assert(!self.model().has_whole(id as int));
                return false;
            }
            id = id + 1;
        }
        true
    }

    /// Puts the slices of a complete frame together.
    fn assemble(&mut self)
        requires
            old(self).wf(),
            old(self).model().complete(),
        ensures
            final(self).wf(),
            final(self).occupied == old(self).occupied,
            final(self).model() == old(self).model().settled(),
    {
        let last: u16 = match self.last_slice_id {
            None => return ,
            Some(last) => last,
        };
        let ghost before = self.model();
        self.assembled.clear();
        let mut id: usize = 0;
        while id <= last as usize
            invariant
                self.wf(),
                self.occupied == old(self).occupied,
                before.complete(),
                before.last_slice == Some(last),
                id <= last + 1,
                self.model().slices == before.slices,
                self.model() == (FrameModel { assembled: self.assembled@, ..before }),
                self.assembled@ == joined(before.slices, id as nat),
            decreases last + 1 - id,
        {
            proof {
                assert(before.has_whole(id as int));
                assert(self.model().slices.dom().contains(id as int));
                assert(self.slices@[id as int].model() == before.slices[id as int]);
                assert(self.slices@[id as int].wf());
            }
            let ghost so_far = self.assembled@;
            let len: usize = self.slices[id].len;
            let mut at: usize = 0;
            while at < len
                invariant
                    self.wf(),
                    self.occupied == old(self).occupied,
                    id < self.slices@.len(),
                    self.slices@[id as int].seen,
                    self.slices@[id as int].model() == before.slices[id as int],
                    len == self.slices@[id as int].len,
                    at <= len,
                    self.model().slices == before.slices,
                    self.model() == (FrameModel { assembled: self.assembled@, ..before }),
                    self.assembled@ == so_far + before.slices[id as int].data.take(at as int),
                decreases len - at,
            {
                proof {
                    assert(self.slices@[id as int].wf());
                }
                let byte: u8 = self.slices[id].data[at];
                self.assembled.push(byte);
                proof {
                    let data = before.slices[id as int].data;
                    assert(data.take(at + 1) =~= data.take(at as int).push(byte));
                    assert(self.assembled@ =~= so_far + data.take(at + 1));
                    assert(self.model().slices =~= before.slices);
                    assert(self.model() =~= FrameModel { assembled: self.assembled@, ..before });
                }
                at = at + 1;
            }
            id = id + 1;
        }
    }
}

/// The state of a reassembler.
#[verifier::ext_equal]
pub struct ReassemblerModel {
    /// The in-flight frames, one for each slot that holds one.
    pub slots: Seq<Option<FrameModel>>,
    /// The slot of the frame that is waiting to be taken.
    pub completed: Option<int>,
    /// The newest frame handed out.
    pub last_delivered: Option<u32>,
    /// The counters.
    pub stats: ReassemblyStats,
}

/// Whether a slot holds the given frame.
pub open spec fn holds(slot: Option<FrameModel>, frame_id: u32) -> bool {
    slot matches Some(frame) && frame.frame_id == frame_id
}

/// The first slot that holds the given frame.
pub open spec fn holder(slots: Seq<Option<FrameModel>>, frame_id: u32) -> Option<int>
    decreases slots.len(),
{
    if slots.len() == 0 {
        None
    } else {
        match holder(slots.drop_last(), frame_id) {
            Some(index) => Some(index),
            None => if holds(slots.last(), frame_id) {
                Some(slots.len() - 1)
            } else {
                None
            },
        }
    }
}

/// The first slot that holds nothing.
pub open spec fn first_free(slots: Seq<Option<FrameModel>>) -> Option<int>
    decreases slots.len(),
{
    if slots.len() == 0 {
        None
    } else {
        match first_free(slots.drop_last()) {
            Some(index) => Some(index),
            None => if slots.last() is None {
                Some(slots.len() - 1)
            } else {
                None
            },
        }
    }
}

/// The slot of the oldest frame, when every slot holds one: a frame gives way to one that it is
/// newer than.
pub open spec fn oldest(slots: Seq<Option<FrameModel>>) -> int
    decreases slots.len(),
{
    if slots.len() <= 1 {
        0
    } else {
        let best = oldest(slots.drop_last());
        if newer(slots[best]->0.frame_id, slots.last()->0.frame_id) {
            slots.len() - 1
        } else {
            best
        }
    }
}

/// The slots that the delivery of `frame_id` from slot `index` empties: its own, and that of
/// every frame that is not newer.
pub open spec fn outlived(slot: Option<FrameModel>, frame_id: u32) -> bool {
    slot matches Some(frame) && !newer(frame.frame_id, frame_id)
}

/// How many slots other than `index` hold a frame that is not newer than `frame_id`.
pub open spec fn outlived_count(
    slots: Seq<Option<FrameModel>>,
    index: int,
    frame_id: u32,
) -> nat
    decreases slots.len(),
{
    if slots.len() == 0 {
        0
    } else {
        outlived_count(slots.drop_last(), index, frame_id) + if slots.len() - 1 != index
            && outlived(slots.last(), frame_id) {
            1nat
        } else {
            0nat
        }
    }
}

impl ReassemblerModel {
    /// A reassembler with `capacity` slots that has seen nothing.
    pub open spec fn fresh(capacity: nat) -> ReassemblerModel {
        ReassemblerModel {
            slots: Seq::new(capacity, |i: int| None),
            completed: None,
            last_delivered: None,
            stats: ReassemblyStats::zero(),
        }
    }

    /// The state after a run of packets was pushed, one after the other.
    pub open spec fn pushed(self, packets: Seq<VideoPacket>) -> ReassemblerModel
        decreases packets.len(),
    {
        if packets.len() == 0 {
            self
        } else {
            let (after, outcome) = self.pushed(packets.drop_last()).pushing(packets.last());
            after.counting(outcome)
        }
    }

    /// There is a slot, no frame is held twice, every frame held is newer than the last one
    /// delivered, and the frame waiting to be taken is one that is held.
    pub open spec fn wf(self) -> bool {
        &&& self.slots.len() > 0
        &&& forall|i: int|
            0 <= i < self.slots.len() ==> (#[trigger] self.slots[i] matches Some(frame)
                ==> frame.wf())
        &&& forall|i: int, j: int|
            0 <= i < j < self.slots.len() && (#[trigger] self.slots[i]) is Some && (
            #[trigger] self.slots[j]) is Some ==> self.slots[i]->0.frame_id
                != self.slots[j]->0.frame_id
        &&& self.last_delivered matches Some(last) ==> forall|i: int|
            0 <= i < self.slots.len() && (#[trigger] self.slots[i]) is Some ==> newer(
                self.slots[i]->0.frame_id,
                last,
            )
        &&& self.completed matches Some(index) ==> 0 <= index < self.slots.len()
            && self.slots[index] is Some
    }

    /// Whether a frame comes too late: one at least as new has been delivered.
    pub open spec fn too_late(self, frame_id: u32) -> bool {
        self.last_delivered matches Some(last) && !newer(frame_id, last)
    }

    /// The state after an untaken frame gave way to a packet of another frame.
    pub open spec fn discarding(self, frame_id: u32) -> ReassemblerModel {
        match self.completed {
            None => self,
            Some(index) => if self.slots[index]->0.frame_id == frame_id {
                self
            } else {
                ReassemblerModel {
                    slots: self.slots.update(index, None),
                    completed: None,
                    stats: self.stats.dropping(1),
                    ..self
                }
            },
        }
    }

    /// The slot a frame goes into: the one that holds it, else a free one, else that of the
    /// oldest frame unless even that one is newer.
    pub open spec fn slot_of(self, frame_id: u32) -> Option<int> {
        match holder(self.slots, frame_id) {
            Some(index) => Some(index),
            None => match first_free(self.slots) {
                Some(index) => Some(index),
                None => {
                    let index = oldest(self.slots);
                    if newer(self.slots[index]->0.frame_id, frame_id) {
                        None
                    } else {
                        Some(index)
                    }
                },
            },
        }
    }

    /// The state after a frame was given its slot.
    pub open spec fn claiming(self, frame_id: u32, capture_ts_us: u64) -> ReassemblerModel {
        let index = self.slot_of(frame_id)->0;
        let slots = self.slots.update(index, Some(FrameModel::started(frame_id, capture_ts_us)));
        if holder(self.slots, frame_id) is Some {
            self
        } else if first_free(self.slots) is Some {
            ReassemblerModel { slots, ..self }
        } else {
            ReassemblerModel {
                slots,
                completed: if self.completed == Some(index) {
                    None
                } else {
                    self.completed
                },
                stats: self.stats.dropping(1),
                ..self
            }
        }
    }

    /// The state with a frame put back into its slot, which completes it or does not.
    pub open spec fn keeping(self, index: int, frame: FrameModel, rebuilt: bool) -> ReassemblerModel {
        ReassemblerModel {
            slots: self.slots.update(index, Some(frame.settled())),
            completed: if frame.complete() {
                Some(index)
            } else {
                self.completed
            },
            stats: if rebuilt {
                ReassemblyStats { recovered: (self.stats.recovered + 1) as u64, ..self.stats }
            } else {
                self.stats
            },
            ..self
        }
    }

    /// What a packet does to the state, and what is said of it.
    pub open spec fn pushing(self, packet: VideoPacket) -> (ReassemblerModel, PushOutcome) {
        if !plausible(packet) {
            (self, PushOutcome::Invalid)
        } else if self.too_late(packet.frame_id) {
            (self, PushOutcome::Stale)
        } else {
            let cleared = self.discarding(packet.frame_id);
            match cleared.slot_of(packet.frame_id) {
                None => (cleared, PushOutcome::Stale),
                Some(index) => {
                    let claimed = cleared.claiming(packet.frame_id, packet.capture_ts_us);
                    let frame = claimed.slots[index]->0;
                    let slice = frame.slice(packet.slice_id as int);
                    match slice_with(slice, packet) {
                        Err(outcome) => (claimed, outcome),
                        Ok(after) => {
                            let stored = frame.storing(packet, after);
                            (
                                claimed.keeping(index, stored, slice_repaired(slice, packet)),
                                if stored.complete() {
                                    PushOutcome::FrameComplete
                                } else {
                                    PushOutcome::Accepted
                                },
                            )
                        },
                    }
                },
            }
        }
    }

    /// What a parity shard does to the state, and what is said of it.
    pub open spec fn pushing_fec(self, packet: FecPacket) -> (ReassemblerModel, PushOutcome) {
        if self.too_late(packet.frame_id) {
            (self, PushOutcome::Stale)
        } else {
            let cleared = self.discarding(packet.frame_id);
            match cleared.slot_of(packet.frame_id) {
                None => (cleared, PushOutcome::Stale),
                Some(index) => {
                    let claimed = cleared.claiming(packet.frame_id, packet.capture_ts_us);
                    let frame = claimed.slots[index]->0;
                    let result = slice_with_parity(frame.slice(packet.slice_id as int), packet);
                    if !result.stored {
                        let stored = frame.storing_parity(packet, result.slice);
                        (
                            ReassemblerModel {
                                slots: claimed.slots.update(index, Some(stored)),
                                ..claimed
                            },
                            PushOutcome::Invalid,
                        )
                    } else {
                        let stored = frame.storing_parity(packet, result.slice.recovered());
                        (
                            claimed.keeping(index, stored, result.slice.recoverable()),
                            if stored.complete() {
                                PushOutcome::FrameComplete
                            } else {
                                PushOutcome::Accepted
                            },
                        )
                    }
                },
            }
        }
    }

    /// The state with one more packet counted.
    pub open spec fn counting(self, outcome: PushOutcome) -> ReassemblerModel {
        ReassemblerModel { stats: self.stats.after(outcome), ..self }
    }

    /// The state after the waiting frame was taken: every frame it has outlived is abandoned.
    pub open spec fn taking(self) -> ReassemblerModel {
        match self.completed {
            None => self,
            Some(index) => {
                let frame_id = self.slots[index]->0.frame_id;
                let dropped = outlived_count(self.slots, index, frame_id);
                ReassemblerModel {
                    slots: Seq::new(
                        self.slots.len(),
                        |i: int|
                            if i == index || outlived(self.slots[i], frame_id) {
                                None
                            } else {
                                self.slots[i]
                            },
                    ),
                    completed: None,
                    last_delivered: Some(frame_id),
                    stats: ReassemblyStats {
                        completed: (self.stats.completed + 1) as u64,
                        ..self.stats.dropping(dropped)
                    },
                }
            },
        }
    }
}

impl ReassemblerModel {
    /// Whether everything held of frame `frame_id` is part of the frame made of the given slices,
    /// and is that frame if it is waiting to be taken.
    pub open spec fn faithful_to(self, frame_id: u32, frame: Seq<Seq<u8>>) -> bool {
        forall|i: int|
            0 <= i < self.slots.len() && holds(#[trigger] self.slots[i], frame_id) ==> {
                &&& self.slots[i]->0.part_of(frame)
                &&& self.completed == Some(i) ==> self.slots[i]->0.assembled == whole(frame)
            }
    }
}

/// Clearing the way for a packet keeps the state faithful.
proof fn lemma_cleared_faithful(
    state: ReassemblerModel,
    frame_id: u32,
    capture_ts_us: u64,
    sent_id: u32,
    sent: Seq<Seq<u8>>,
)
    requires
        state.wf(),
        state.faithful_to(sent_id, sent),
    ensures
        state.discarding(frame_id).faithful_to(sent_id, sent),
        state.discarding(frame_id).slot_of(frame_id) is Some ==> state.discarding(
            frame_id,
        ).claiming(frame_id, capture_ts_us).faithful_to(sent_id, sent),
{
    let cleared = state.discarding(frame_id);
    assert forall|i: int|
        0 <= i < cleared.slots.len() && holds(#[trigger] cleared.slots[i], sent_id) implies {
        &&& cleared.slots[i]->0.part_of(sent)
        &&& cleared.completed == Some(i) ==> cleared.slots[i]->0.assembled == whole(sent)
    } by {
        assert(holds(state.slots[i], sent_id));
    }
    if cleared.slot_of(frame_id) is Some {
        lemma_holder(cleared.slots, frame_id);
        lemma_first_free(cleared.slots);
        lemma_oldest(cleared.slots);
        let index = cleared.slot_of(frame_id)->0;
        let after = cleared.claiming(frame_id, capture_ts_us);
        assert forall|i: int|
            0 <= i < after.slots.len() && holds(#[trigger] after.slots[i], sent_id) implies {
            &&& after.slots[i]->0.part_of(sent)
            &&& after.completed == Some(i) ==> after.slots[i]->0.assembled == whole(sent)
        } by {
            if i != index || holder(cleared.slots, frame_id) is Some {
                assert(holds(cleared.slots[i], sent_id));
            }
        }
    }
}

/// Putting a frame back with one slice changed keeps the state faithful, if the slice is part of
/// what was sent.
proof fn lemma_kept_faithful(
    state: ReassemblerModel,
    index: int,
    frame: FrameModel,
    rebuilt: bool,
    sent_id: u32,
    sent: Seq<Seq<u8>>,
)
    requires
        state.faithful_to(sent_id, sent),
        0 <= index < state.slots.len(),
        holds(state.slots[index], frame.frame_id),
        frame.assembled == state.slots[index]->0.assembled,
        frame.frame_id == sent_id ==> frame.part_of(sent),
    ensures
        state.keeping(index, frame, rebuilt).faithful_to(sent_id, sent),
{
    let after = state.keeping(index, frame, rebuilt);
    assert forall|i: int| 0 <= i < after.slots.len() && holds(#[trigger] after.slots[i], sent_id)
        implies {
        &&& after.slots[i]->0.part_of(sent)
        &&& after.completed == Some(i) ==> after.slots[i]->0.assembled == whole(sent)
    } by {
        assert(holds(state.slots[i], sent_id));
        if i == index && frame.complete() {
            complete_frame_is_the_frame_sent(frame, sent);
        }
    }
}

/// Putting a frame back with one slice changed keeps the state faithful, if the slice is part of
/// what was sent.
proof fn lemma_replaced_faithful(
    state: ReassemblerModel,
    index: int,
    frame: FrameModel,
    sent_id: u32,
    sent: Seq<Seq<u8>>,
)
    requires
        state.faithful_to(sent_id, sent),
        0 <= index < state.slots.len(),
        holds(state.slots[index], frame.frame_id),
        frame.assembled == state.slots[index]->0.assembled,
        frame.frame_id == sent_id ==> frame.part_of(sent),
    ensures
        (ReassemblerModel {
            slots: state.slots.update(index, Some(frame)),
            ..state
        }).faithful_to(sent_id, sent),
{
    let after = ReassemblerModel { slots: state.slots.update(index, Some(frame)), ..state };
    assert forall|i: int| 0 <= i < after.slots.len() && holds(#[trigger] after.slots[i], sent_id)
        implies {
        &&& after.slots[i]->0.part_of(sent)
        &&& after.completed == Some(i) ==> after.slots[i]->0.assembled == whole(sent)
    } by {
        assert(holds(state.slots[i], sent_id));
    }
}

/// Whether storing a packet lets parity rebuild the rest of its slice.
pub open spec fn slice_repaired(slice: Option<SliceModel>, packet: VideoPacket) -> bool {
    match slice {
        None => SliceModel::started(packet.pkt_count as nat).storing(packet).recoverable(),
        Some(slice) => slice.storing(packet).recoverable(),
    }
}

/// What a search for a frame's slot found.
proof fn lemma_holder(slots: Seq<Option<FrameModel>>, frame_id: u32)
    ensures
        match holder(slots, frame_id) {
            Some(index) => 0 <= index < slots.len() && holds(slots[index], frame_id),
            None => forall|i: int|
                0 <= i < slots.len() ==> !holds(#[trigger] slots[i], frame_id),
        },
    decreases slots.len(),
{
    if slots.len() > 0 {
        lemma_holder(slots.drop_last(), frame_id);
        if holder(slots, frame_id) is None {
            assert forall|i: int| 0 <= i < slots.len() implies !holds(
                #[trigger] slots[i],
                frame_id,
            ) by {
                if i < slots.len() - 1 {
                    assert(slots.drop_last()[i] == slots[i]);
                }
            }
        }
    }
}

/// What a search for a free slot found.
proof fn lemma_first_free(slots: Seq<Option<FrameModel>>)
    ensures
        match first_free(slots) {
            Some(index) => 0 <= index < slots.len() && slots[index] is None,
            None => forall|i: int| 0 <= i < slots.len() ==> (#[trigger] slots[i]) is Some,
        },
    decreases slots.len(),
{
    if slots.len() > 0 {
        lemma_first_free(slots.drop_last());
        if first_free(slots) is None {
            assert forall|i: int| 0 <= i < slots.len() implies (#[trigger] slots[i]) is Some by {
                if i < slots.len() - 1 {
                    assert(slots.drop_last()[i] == slots[i]);
                }
            }
        }
    }
}

/// The oldest slot is one of the slots.
proof fn lemma_oldest(slots: Seq<Option<FrameModel>>)
    requires
        slots.len() > 0,
    ensures
        0 <= oldest(slots) < slots.len(),
    decreases slots.len(),
{
    if slots.len() > 1 {
        lemma_oldest(slots.drop_last());
    }
}

/// No more frames are outlived than there are slots.
proof fn lemma_outlived_count(slots: Seq<Option<FrameModel>>, index: int, frame_id: u32)
    ensures
        outlived_count(slots, index, frame_id) <= slots.len(),
    decreases slots.len(),
{
    if slots.len() > 0 {
        lemma_outlived_count(slots.drop_last(), index, frame_id);
    }
}

/// Rebuilds frames from packets, holding a bounded number in flight.
#[derive(Debug)]
pub struct FrameReassembler {
    slots: Vec<FrameSlot>,
    codec: FecCodec,
    completed: Option<usize>,
    last_delivered: Option<u32>,
    stats: ReassemblyStats,
}

impl View for FrameReassembler {
    type V = ReassemblerModel;

    closed spec fn view(&self) -> ReassemblerModel {
        ReassemblerModel {
            slots: Seq::new(self.slots@.len(), |i: int| self.slots@[i].known()),
            completed: match self.completed {
                Some(index) => Some(index as int),
                None => None,
            },
            last_delivered: self.last_delivered,
            stats: self.stats,
        }
    }
}

impl FrameReassembler {
    /// The model is well formed, and so is what the slots and the codec hold.
    pub closed spec fn wf(&self) -> bool {
        &&& self@.wf()
        &&& self.codec.wf()
        &&& forall|i: int| 0 <= i < self.slots@.len() ==> (#[trigger] self.slots@[i]).wf()
    }

    /// Creates a reassembler holding at most `capacity` frames in flight.
    ///
    /// Capacity trades tolerance for reordering against how long a doomed frame can occupy a
    /// slot. Four is a reasonable default on a LAN; a path with deep reordering wants more.
    #[must_use]
    pub fn new(capacity: usize) -> (reassembler: Self)
        requires
            capacity > 0,
        ensures
            reassembler.wf(),
            reassembler@ == ReassemblerModel::fresh(capacity as nat),
    {
        let mut slots: Vec<FrameSlot> = Vec::new();
        let mut i: usize = 0;
        while i < capacity
            invariant
                i <= capacity,
                slots@.len() == i,
                forall|k: int| 0 <= k < i ==> (#[trigger] slots@[k]).wf() && !slots@[k].occupied,
            decreases capacity - i,
        {
            slots.push(FrameSlot::empty());
            i = i + 1;
        }
        let reassembler = FrameReassembler {
            slots,
            codec: FecCodec::new(),
            completed: None,
            last_delivered: None,
            stats: ReassemblyStats::default(),
        };
        assert(reassembler@ =~= ReassemblerModel::fresh(capacity as nat));
        reassembler
    }

    /// Returns the running counters for this reassembler.
    #[must_use]
    pub fn stats(&self) -> (stats: ReassemblyStats)
        ensures
            stats == self@.stats,
    {
        self.stats
    }

    /// Returns whether a frame comes too late to be of use.
    fn comes_too_late(&self, frame_id: u32) -> (late: bool)
        ensures
            late == self@.too_late(frame_id),
    {
        match self.last_delivered {
            None => false,
            Some(last) => !is_newer(frame_id, last),
        }
    }

    /// Abandons an untaken completed frame when a packet for a different frame arrives.
    fn discard_pending_if_not(&mut self, frame_id: u32)
        requires
            old(self).wf(),
            old(self)@.stats.has_room(1),
        ensures
            final(self).wf(),
            final(self)@ == old(self)@.discarding(frame_id),
    {
        let ghost before = self@;
        if let Some(index) = self.completed {
            assert(before.slots[index as int] == self.slots@[index as int].known());
            if self.slots[index].frame_id != frame_id {
                self.completed = None;
                self.slots[index].occupied = false;
                self.stats.dropped_incomplete = self.stats.dropped_incomplete + 1;
                assert(self@.slots =~= before.slots.update(index as int, None));
                assert(self@ =~= before.discarding(frame_id));
            }
        }
    }

    /// Returns the slot that holds a frame.
    fn find_holder(&self, frame_id: u32) -> (slot: Option<usize>)
        ensures
            match slot {
                Some(index) => holder(self@.slots, frame_id) == Some(index as int) && index
                    < self@.slots.len(),
                None => holder(self@.slots, frame_id) is None,
            },
    {
        let ghost slots = self@.slots;
        let mut i: usize = 0;
        while i < self.slots.len()
            invariant
                i <= self.slots@.len(),
                slots == self@.slots,
                holder(slots.take(i as int), frame_id) is None,
            decreases self.slots@.len() - i,
        {
            proof {
                lemma_prefix(slots, i as int);
            }
            if self.slots[i].occupied && self.slots[i].frame_id == frame_id {
                proof {
                    lemma_found(slots, i as int, frame_id);
                }
                return Some(i);
            }
            i = i + 1;
        }
        assert(slots.take(slots.len() as int) =~= slots);
        None
    }

    /// Returns the first slot that holds nothing.
    fn find_free(&self) -> (slot: Option<usize>)
        ensures
            match slot {
                Some(index) => first_free(self@.slots) == Some(index as int) && index
                    < self@.slots.len(),
                None => first_free(self@.slots) is None,
            },
    {
        let ghost slots = self@.slots;
        let mut i: usize = 0;
        while i < self.slots.len()
            invariant
                i <= self.slots@.len(),
                slots == self@.slots,
                first_free(slots.take(i as int)) is None,
            decreases self.slots@.len() - i,
        {
            proof {
                lemma_prefix(slots, i as int);
            }
            if !self.slots[i].occupied {
                proof {
                    lemma_found_free(slots, i as int);
                }
                return Some(i);
            }
            i = i + 1;
        }
        assert(slots.take(slots.len() as int) =~= slots);
        None
    }

    /// Returns the slot of the oldest frame, when every slot holds one.
    fn find_oldest(&self) -> (slot: usize)
        requires
            self@.slots.len() > 0,
            first_free(self@.slots) is None,
        ensures
            slot == oldest(self@.slots),
            slot < self@.slots.len(),
    {
        let ghost slots = self@.slots;
        let mut best: usize = 0;
        let mut i: usize = 1;
        proof {
            lemma_first_free(slots);
            assert(slots.take(1).len() == 1);
        }
        while i < self.slots.len()
            invariant
                1 <= i <= self.slots@.len(),
                slots == self@.slots,
                best < i,
                best == oldest(slots.take(i as int)),
                forall|k: int| 0 <= k < slots.len() ==> (#[trigger] slots[k]) is Some,
            decreases self.slots@.len() - i,
        {
            proof {
                lemma_prefix(slots, i as int);
                assert(slots[best as int] == self.slots@[best as int].known());
                assert(slots[i as int] == self.slots@[i as int].known());
            }
            if is_newer(self.slots[best].frame_id, self.slots[i].frame_id) {
                best = i;
            }
            i = i + 1;
        }
        assert(slots.take(slots.len() as int) =~= slots);
        best
    }

    /// Starts a new frame in a slot.
    fn begin_in(&mut self, index: usize, frame_id: u32, capture_ts_us: u64)
        requires
            index < old(self)@.slots.len(),
            forall|i: int|
                0 <= i < old(self).slots@.len() ==> (#[trigger] old(self).slots@[i]).wf(),
        ensures
            final(self)@ == (ReassemblerModel {
                slots: old(self)@.slots.update(
                    index as int,
                    Some(FrameModel::started(frame_id, capture_ts_us)),
                ),
                ..old(self)@
            }),
            final(self).codec == old(self).codec,
            forall|i: int|
                0 <= i < final(self).slots@.len() ==> (#[trigger] final(self).slots@[i]).wf(),
    {
        let ghost before = self@;
        self.slots[index].begin(frame_id, capture_ts_us);
        assert(self@ =~= ReassemblerModel {
            slots: before.slots.update(
                index as int,
                Some(FrameModel::started(frame_id, capture_ts_us)),
            ),
            ..before
        });
    }

    /// Finds the slot holding `frame_id`, claiming or evicting one if necessary.
    ///
    /// Returns `None` only when every slot holds a frame newer than `frame_id`, which means this
    /// packet arrived too late to be worth keeping.
    fn slot_for(&mut self, frame_id: u32, capture_ts_us: u64) -> (slot: Option<usize>)
        requires
            old(self).wf(),
            old(self)@.stats.has_room(1),
            !old(self)@.too_late(frame_id),
        ensures
            final(self).wf(),
            final(self)@.slots.len() == old(self)@.slots.len(),
            match slot {
                Some(index) => {
                    &&& old(self)@.slot_of(frame_id) == Some(index as int)
                    &&& final(self)@ == old(self)@.claiming(frame_id, capture_ts_us)
                    &&& index < final(self)@.slots.len()
                    &&& holds(final(self)@.slots[index as int], frame_id)
                },
                None => old(self)@.slot_of(frame_id) is None && final(self)@ == old(self)@,
            },
    {
        let ghost before = self@;
        proof {
            lemma_holder(before.slots, frame_id);
            lemma_first_free(before.slots);
        }
        if let Some(index) = self.find_holder(frame_id) {
            return Some(index);
        }
        if let Some(index) = self.find_free() {
            self.begin_in(index, frame_id, capture_ts_us);
            proof {
                assert(self@ == before.claiming(frame_id, capture_ts_us));
                lemma_claimed_wf(before, index as int, frame_id, capture_ts_us);
            }
            return Some(index);
        }
        let best: usize = self.find_oldest();
        assert(before.slots[best as int] == self.slots@[best as int].known());
        if is_newer(self.slots[best].frame_id, frame_id) {
            return None;
        }
        if let Some(waiting) = self.completed {
            if waiting == best {
                self.completed = None;
            }
        }
        self.stats.dropped_incomplete = self.stats.dropped_incomplete + 1;
        assert(self@.slots =~= before.slots);
        self.begin_in(best, frame_id, capture_ts_us);
        proof {
            assert(self@ =~= before.claiming(frame_id, capture_ts_us));
            lemma_claimed_wf(before, best as int, frame_id, capture_ts_us);
        }
        Some(best)
    }

    /// Returns whether a packet's header is self-consistent.
    fn is_plausible(packet: &VideoPacket<'_>) -> (yes: bool)
        ensures
            yes == plausible(*packet),
    {
        packet.pkt_count > 0 && packet.pkt_idx < packet.pkt_count && packet.payload.len() > 0
            && packet.payload.len() <= MAX_VIDEO_PAYLOAD && (packet.slice_id as usize)
            < MAX_SLICES_PER_FRAME && (packet.pkt_idx + 1 == packet.pkt_count
            || packet.payload.len() == MAX_VIDEO_PAYLOAD)
    }

    /// Puts a frame together if it is complete, and says whether it is.
    fn settle(&mut self, index: usize) -> (outcome: PushOutcome)
        requires
            index < old(self)@.slots.len(),
            old(self)@.slots[index as int] is Some,
            old(self).slots@[index as int].wf(),
        ensures
            ({
                let frame = old(self)@.slots[index as int]->0;
                &&& final(self)@ == (ReassemblerModel {
                    slots: old(self)@.slots.update(index as int, Some(frame.settled())),
                    completed: if frame.complete() {
                        Some(index as int)
                    } else {
                        old(self)@.completed
                    },
                    ..old(self)@
                })
                &&& outcome == if frame.complete() {
                    PushOutcome::FrameComplete
                } else {
                    PushOutcome::Accepted
                }
            }),
            final(self).codec == old(self).codec,
            final(self).slots@.len() == old(self).slots@.len(),
            forall|i: int|
                0 <= i < final(self).slots@.len() && old(self).slots@[i].wf() ==> (
                #[trigger] final(self).slots@[i]).wf(),
    {
        let ghost before = self@;
        let ghost frame = before.slots[index as int]->0;
        if self.slots[index].is_complete() {
            self.slots[index].assemble();
            self.completed = Some(index);
            assert(self@.slots =~= before.slots.update(index as int, Some(frame.settled())));
            PushOutcome::FrameComplete
        } else {
            assert(before.slots =~= before.slots.update(index as int, Some(frame)));
            PushOutcome::Accepted
        }
    }

    /// Validates and stores a packet without counting it.
    fn push_inner(&mut self, packet: &VideoPacket<'_>) -> (outcome: PushOutcome)
        requires
            old(self).wf(),
            old(self)@.stats.has_room(2),
        ensures
            final(self).wf(),
            final(self)@ == old(self)@.pushing(*packet).0,
            final(self)@.slots.len() == old(self)@.slots.len(),
            outcome == old(self)@.pushing(*packet).1,
            forall|sent_id: u32, sent: Seq<Seq<u8>>|
                #[trigger] old(self)@.faithful_to(sent_id, sent) && (packet.frame_id == sent_id
                    ==> packet_of(*packet, sent)) ==> final(self)@.faithful_to(sent_id, sent),
    {
        if !Self::is_plausible(packet) {
            return PushOutcome::Invalid;
        }
        if self.comes_too_late(packet.frame_id) {
            return PushOutcome::Stale;
        }
        self.discard_pending_if_not(packet.frame_id);
        proof {
            assert forall|sent_id: u32, sent: Seq<Seq<u8>>| #[trigger]
                old(self)@.faithful_to(sent_id, sent) implies self@.faithful_to(sent_id, sent) by {
                lemma_cleared_faithful(
                    old(self)@,
                    packet.frame_id,
                    packet.capture_ts_us,
                    sent_id,
                    sent,
                );
            }
        }
        let index: usize = match self.slot_for(packet.frame_id, packet.capture_ts_us) {
            None => return PushOutcome::Stale,
            Some(index) => index,
        };
        let ghost claimed = self@;
        let ghost frame = claimed.slots[index as int]->0;
        proof {
            assert(claimed.slots[index as int] == self.slots@[index as int].known());
            assert forall|sent_id: u32, sent: Seq<Seq<u8>>| #[trigger]
                old(self)@.faithful_to(sent_id, sent) implies claimed.faithful_to(sent_id, sent) by {
                lemma_cleared_faithful(
                    old(self)@,
                    packet.frame_id,
                    packet.capture_ts_us,
                    sent_id,
                    sent,
                );
            }
        }
        match self.slots[index].store(packet, &mut self.codec) {
            Err(outcome) => {
                assert(self@ =~= claimed);
                outcome
            },
            Ok(rebuilt) => {
                let ghost stored = self.slots@[index as int].model();
                assert(self@.slots =~= claimed.slots.update(index as int, Some(stored)));
                if rebuilt {
                    self.stats.recovered = self.stats.recovered + 1;
                }
                let outcome: PushOutcome = self.settle(index);
                proof {
                    assert(self@ =~= claimed.keeping(index as int, stored, rebuilt));
                    lemma_kept_wf(claimed, index as int, stored, rebuilt);
                    assert forall|sent_id: u32, sent: Seq<Seq<u8>>|
                        #[trigger] old(self)@.faithful_to(sent_id, sent) && (packet.frame_id
                            == sent_id ==> packet_of(*packet, sent)) implies self@.faithful_to(
                        sent_id,
                        sent,
                    ) by {
                        if packet.frame_id == sent_id {
                            let id = packet.slice_id as int;
                            assert(holds(claimed.slots[index as int], sent_id));
                            assert(frame.part_of(sent));
                            assert(fragment_of(*packet, sent[id]));
                            assert(stored.slices[id].part_of(sent[id]));
                            assert(stored.part_of(sent));
                        }
                        lemma_kept_faithful(claimed, index as int, stored, rebuilt, sent_id, sent);
                    }
                }
                outcome
            },
        }
    }

    /// Stores a parity shard and attempts recovery, without counting it.
    fn push_fec_inner(&mut self, packet: &FecPacket<'_>) -> (outcome: PushOutcome)
        requires
            old(self).wf(),
            old(self)@.stats.has_room(2),
            packet.describes_a_block(),
        ensures
            final(self).wf(),
            final(self)@ == old(self)@.pushing_fec(*packet).0,
            final(self)@.slots.len() == old(self)@.slots.len(),
            outcome == old(self)@.pushing_fec(*packet).1,
            forall|sent_id: u32, sent: Seq<Seq<u8>>|
                #[trigger] old(self)@.faithful_to(sent_id, sent) && (packet.frame_id == sent_id
                    ==> protects(*packet, sent)) ==> final(self)@.faithful_to(sent_id, sent),
    {
        if self.comes_too_late(packet.frame_id) {
            return PushOutcome::Stale;
        }
        self.discard_pending_if_not(packet.frame_id);
        proof {
            assert forall|sent_id: u32, sent: Seq<Seq<u8>>| #[trigger]
                old(self)@.faithful_to(sent_id, sent) implies self@.faithful_to(sent_id, sent) by {
                lemma_cleared_faithful(
                    old(self)@,
                    packet.frame_id,
                    packet.capture_ts_us,
                    sent_id,
                    sent,
                );
            }
        }
        let index: usize = match self.slot_for(packet.frame_id, packet.capture_ts_us) {
            None => return PushOutcome::Stale,
            Some(index) => index,
        };
        let ghost claimed = self@;
        let ghost frame = claimed.slots[index as int]->0;
        proof {
            assert(claimed.slots[index as int] == self.slots@[index as int].known());
            assert forall|sent_id: u32, sent: Seq<Seq<u8>>| #[trigger]
                old(self)@.faithful_to(sent_id, sent) implies claimed.faithful_to(sent_id, sent) by {
                lemma_cleared_faithful(
                    old(self)@,
                    packet.frame_id,
                    packet.capture_ts_us,
                    sent_id,
                    sent,
                );
            }
        }
        match self.slots[index].store_parity(packet, &mut self.codec) {
            None => {
                proof {
                    let stored = self.slots@[index as int].model();
                    assert(self@.slots =~= claimed.slots.update(index as int, Some(stored)));
                    lemma_replaced_wf(claimed, index as int, stored);
                    assert forall|sent_id: u32, sent: Seq<Seq<u8>>|
                        #[trigger] old(self)@.faithful_to(sent_id, sent) && (packet.frame_id
                            == sent_id ==> protects(*packet, sent)) implies self@.faithful_to(
                        sent_id,
                        sent,
                    ) by {
                        if packet.frame_id == sent_id {
                            let id = packet.slice_id as int;
                            assert(holds(claimed.slots[index as int], sent_id));
                            assert(frame.part_of(sent));
                            assert(parity_packet_of(*packet, sent[id]));
                            assert(stored.slices[id].part_of(sent[id]));
                            assert(stored.part_of(sent));
                        }
                        lemma_replaced_faithful(claimed, index as int, stored, sent_id, sent);
                    }
                }
                PushOutcome::Invalid
            },
            Some(rebuilt) => {
                let ghost stored = self.slots@[index as int].model();
                assert(self@.slots =~= claimed.slots.update(index as int, Some(stored)));
                if rebuilt {
                    self.stats.recovered = self.stats.recovered + 1;
                }
                let outcome: PushOutcome = self.settle(index);
                proof {
                    assert(self@ =~= claimed.keeping(index as int, stored, rebuilt));
                    lemma_kept_wf(claimed, index as int, stored, rebuilt);
                    assert forall|sent_id: u32, sent: Seq<Seq<u8>>|
                        #[trigger] old(self)@.faithful_to(sent_id, sent) && (packet.frame_id
                            == sent_id ==> protects(*packet, sent)) implies self@.faithful_to(
                        sent_id,
                        sent,
                    ) by {
                        if packet.frame_id == sent_id {
                            let id = packet.slice_id as int;
                            assert(holds(claimed.slots[index as int], sent_id));
                            assert(frame.part_of(sent));
                            assert(parity_packet_of(*packet, sent[id]));
                            assert(stored.slices[id].part_of(sent[id]));
                            assert(stored.part_of(sent));
                        }
                        lemma_kept_faithful(claimed, index as int, stored, rebuilt, sent_id, sent);
                    }
                }
                outcome
            },
        }
    }

    /// Stores one packet and reports what became of it.
    ///
    /// When the return value is [`PushOutcome::FrameComplete`], the frame is waiting in
    /// [`Self::take_completed`] and must be taken before the next call, or it is overwritten and
    /// counted as dropped.
    pub fn push(&mut self, packet: &VideoPacket<'_>) -> (outcome: PushOutcome)
        requires
            old(self).wf(),
            old(self)@.stats.has_room(3),
        ensures
            final(self).wf(),
            final(self)@.slots.len() == old(self)@.slots.len(),
            outcome == old(self)@.pushing(*packet).1,
            final(self)@ == old(self)@.pushing(*packet).0.counting(outcome),
            forall|sent_id: u32, sent: Seq<Seq<u8>>|
                #[trigger] old(self)@.faithful_to(sent_id, sent) && (packet.frame_id == sent_id
                    ==> packet_of(*packet, sent)) ==> final(self)@.faithful_to(sent_id, sent),
    {
        let outcome: PushOutcome = self.push_inner(packet);
        let ghost pushed = self@;
        self.stats.count(outcome);
        assert(self@ =~= pushed.counting(outcome));
        outcome
    }

    /// Stores a parity shard and rebuilds the slice it repairs, if it now can be.
    ///
    /// Parity may arrive before, between or after the packets it protects, so this both records
    /// the shard and attempts recovery.
    ///
    /// Returns [`PushOutcome::FrameComplete`] when the repair finished the frame, which is the
    /// whole point: a frame that would have been thrown away is delivered instead, with no
    /// keyframe and no visible interruption.
    pub fn push_fec(&mut self, packet: &FecPacket<'_>) -> (outcome: PushOutcome)
        requires
            old(self).wf(),
            old(self)@.stats.has_room(3),
            packet.describes_a_block(),
        ensures
            final(self).wf(),
            final(self)@.slots.len() == old(self)@.slots.len(),
            outcome == old(self)@.pushing_fec(*packet).1,
            final(self)@ == old(self)@.pushing_fec(*packet).0.counting(outcome),
            forall|sent_id: u32, sent: Seq<Seq<u8>>|
                #[trigger] old(self)@.faithful_to(sent_id, sent) && (packet.frame_id == sent_id
                    ==> protects(*packet, sent)) ==> final(self)@.faithful_to(sent_id, sent),
    {
        let outcome: PushOutcome = self.push_fec_inner(packet);
        let ghost pushed = self@;
        self.stats.count(outcome);
        assert(self@ =~= pushed.counting(outcome));
        outcome
    }

    /// Takes the frame completed by the most recent [`Self::push`], if there is one.
    ///
    /// Delivering a frame also abandons every in-flight frame older than it. A decoder cannot
    /// use a frame that predates one it has already been given, so holding those slots open
    /// would only delay the frames that still matter.
    pub fn take_completed(&mut self) -> (frame: Option<ReassembledFrame<'_>>)
        requires
            old(self).wf(),
            old(self)@.stats.has_room(old(self)@.slots.len() + 1),
        ensures
            final(self).wf(),
            final(self)@ == old(self)@.taking(),
            match frame {
                None => old(self)@.completed is None,
                Some(frame) => {
                    &&& old(self)@.completed matches Some(index)
                    &&& old(self)@.slots[index] matches Some(model)
                    &&& frame.frame_id == model.frame_id
                    &&& frame.capture_ts_us == model.capture_ts_us
                    &&& frame.is_idr == model.is_idr
                    &&& frame.data@ == model.assembled
                    &&& old(self)@.last_delivered matches Some(last) ==> newer(
                        frame.frame_id,
                        last,
                    )
                    &&& forall|sent: Seq<Seq<u8>>| #[trigger]
                        old(self)@.faithful_to(frame.frame_id, sent) ==> frame.data@ == whole(sent)
                },
            },
            forall|sent_id: u32, sent: Seq<Seq<u8>>| #[trigger]
                old(self)@.faithful_to(sent_id, sent) ==> final(self)@.faithful_to(sent_id, sent),
    {
        let ghost before = self@;
        let index: usize = match self.completed {
            None => return None,
            Some(index) => index,
        };
        let ghost model = before.slots[index as int]->0;
        proof {
            assert(before.slots[index as int] == self.slots@[index as int].known());
        }
        self.completed = None;
        let frame_id: u32 = self.slots[index].frame_id;
        let count: usize = self.slots.len();
        let mut i: usize = 0;
        while i < count
            invariant
                i <= count,
                count == self.slots@.len(),
                count == before.slots.len(),
                index < count,
                self.codec.wf(),
                forall|k: int| 0 <= k < count ==> (#[trigger] self.slots@[k]).wf(),
                self.slots@[index as int].known() == Some(model),
                model.frame_id == frame_id,
                before.stats.has_room(before.slots.len() + 1),
                self.completed is None,
                self.last_delivered == before.last_delivered,
                self.stats == before.stats.dropping(
                    outlived_count(before.slots.take(i as int), index as int, frame_id),
                ),
                forall|k: int|
                    i <= k < count ==> (#[trigger] self.slots@[k]).known() == before.slots[k],
                forall|k: int|
                    0 <= k < i && k != index ==> (#[trigger] self.slots@[k]).known() == if outlived(
                        before.slots[k],
                        frame_id,
                    ) {
                        None
                    } else {
                        before.slots[k]
                    },
            decreases count - i,
        {
            proof {
                lemma_prefix(before.slots, i as int);
                lemma_outlived_count(before.slots.take(i as int), index as int, frame_id);
                assert(self.slots@[i as int].known() == before.slots[i as int]);
            }
            if i != index && self.slots[i].occupied && !is_newer(self.slots[i].frame_id, frame_id) {
                self.slots[i].occupied = false;
                self.stats.dropped_incomplete = self.stats.dropped_incomplete + 1;
            }
            i = i + 1;
        }
        self.slots[index].occupied = false;
        self.last_delivered = Some(frame_id);
        self.stats.completed = self.stats.completed + 1;
        proof {
            assert(before.slots.take(before.slots.len() as int) =~= before.slots);
            assert(self@.slots =~= before.taking().slots);
            assert(self@ =~= before.taking());
            lemma_taken_wf(before);
            assert(holds(before.slots[index as int], frame_id));
            assert forall|sent_id: u32, sent: Seq<Seq<u8>>| #[trigger]
                before.faithful_to(sent_id, sent) implies self@.faithful_to(sent_id, sent) by {
                assert forall|i: int|
                    0 <= i < self@.slots.len() && holds(
                        #[trigger] self@.slots[i],
                        sent_id,
                    ) implies self@.slots[i]->0.part_of(sent) by {
                    assert(holds(before.slots[i], sent_id));
                }
            }
        }
        let slot: &FrameSlot = &self.slots[index];
        Some(
            ReassembledFrame {
                frame_id: slot.frame_id,
                capture_ts_us: slot.capture_ts_us,
                is_idr: slot.is_idr,
                data: slot.assembled.as_slice(),
            },
        )
    }
}

/// Putting a changed frame back into its slot keeps the state well formed.
proof fn lemma_replaced_wf(state: ReassemblerModel, index: int, frame: FrameModel)
    requires
        state.wf(),
        0 <= index < state.slots.len(),
        state.slots[index] matches Some(earlier) && earlier.frame_id == frame.frame_id,
        frame.wf(),
    ensures
        (ReassemblerModel { slots: state.slots.update(index, Some(frame)), ..state }).wf(),
{
    let after = ReassemblerModel { slots: state.slots.update(index, Some(frame)), ..state };
    assert forall|i: int, j: int|
        0 <= i < j < after.slots.len() && (#[trigger] after.slots[i]) is Some && (
        #[trigger] after.slots[j]) is Some implies after.slots[i]->0.frame_id
        != after.slots[j]->0.frame_id by {
        assert(state.slots[i] is Some && state.slots[j] is Some);
    }
    assert forall|i: int| 0 <= i < after.slots.len() implies (#[trigger] after.slots[i] matches Some(
        frame,
    ) ==> frame.wf()) by {
        assert(state.slots[i] matches Some(frame) ==> frame.wf());
    }
    if let Some(last) = state.last_delivered {
        assert forall|i: int| 0 <= i < after.slots.len() && (#[trigger] after.slots[i]) is Some
            implies newer(after.slots[i]->0.frame_id, last) by {
            assert(state.slots[i] is Some);
        }
    }
}

/// Keeping a changed frame keeps the state well formed.
proof fn lemma_kept_wf(state: ReassemblerModel, index: int, frame: FrameModel, rebuilt: bool)
    requires
        state.wf(),
        0 <= index < state.slots.len(),
        state.slots[index] matches Some(earlier) && earlier.frame_id == frame.frame_id,
        frame.wf(),
    ensures
        state.keeping(index, frame, rebuilt).wf(),
{
    lemma_replaced_wf(state, index, frame.settled());
}

/// Taking the waiting frame keeps the state well formed.
proof fn lemma_taken_wf(state: ReassemblerModel)
    requires
        state.wf(),
        state.completed is Some,
    ensures
        state.taking().wf(),
{
    let after = state.taking();
    assert forall|i: int, j: int|
        0 <= i < j < after.slots.len() && (#[trigger] after.slots[i]) is Some && (
        #[trigger] after.slots[j]) is Some implies after.slots[i]->0.frame_id
        != after.slots[j]->0.frame_id by {
        assert(state.slots[i] is Some && state.slots[j] is Some);
    }
    assert forall|i: int| 0 <= i < after.slots.len() implies (#[trigger] after.slots[i] matches Some(
        frame,
    ) ==> frame.wf()) by {
        assert(state.slots[i] matches Some(frame) ==> frame.wf());
    }
}

/// One slot more at the end of a prefix.
proof fn lemma_prefix(slots: Seq<Option<FrameModel>>, at: int)
    requires
        0 <= at < slots.len(),
    ensures
        slots.take(at + 1).drop_last() == slots.take(at),
        slots.take(at + 1).last() == slots[at],
{
    assert(slots.take(at + 1).drop_last() =~= slots.take(at));
}

/// A slot that holds the frame, after none before it did, is the one a search finds.
proof fn lemma_found(slots: Seq<Option<FrameModel>>, at: int, frame_id: u32)
    requires
        0 <= at < slots.len(),
        holder(slots.take(at), frame_id) is None,
        holds(slots[at], frame_id),
    ensures
        holder(slots, frame_id) == Some(at),
    decreases slots.len(),
{
    if at == slots.len() - 1 {
        assert(slots.drop_last() =~= slots.take(at));
    } else {
        assert(slots.drop_last().take(at) =~= slots.take(at));
        lemma_found(slots.drop_last(), at, frame_id);
    }
}

/// A slot that holds nothing, after all before it did, is the one a search finds.
proof fn lemma_found_free(slots: Seq<Option<FrameModel>>, at: int)
    requires
        0 <= at < slots.len(),
        first_free(slots.take(at)) is None,
        slots[at] is None,
    ensures
        first_free(slots) == Some(at),
    decreases slots.len(),
{
    if at == slots.len() - 1 {
        assert(slots.drop_last() =~= slots.take(at));
    } else {
        assert(slots.drop_last().take(at) =~= slots.take(at));
        lemma_found_free(slots.drop_last(), at);
    }
}

/// Giving a frame that is not held yet a slot keeps the state well formed.
proof fn lemma_claimed_wf(state: ReassemblerModel, index: int, frame_id: u32, capture_ts_us: u64)
    requires
        state.wf(),
        !state.too_late(frame_id),
        holder(state.slots, frame_id) is None,
        state.slot_of(frame_id) == Some(index),
        0 <= index < state.slots.len(),
    ensures
        state.claiming(frame_id, capture_ts_us).wf(),
{
    lemma_holder(state.slots, frame_id);
    lemma_first_free(state.slots);
    let after = state.claiming(frame_id, capture_ts_us);
    assert forall|i: int, j: int|
        0 <= i < j < after.slots.len() && (#[trigger] after.slots[i]) is Some && (
        #[trigger] after.slots[j]) is Some implies after.slots[i]->0.frame_id
        != after.slots[j]->0.frame_id by {
        assert(!holds(state.slots[i], frame_id));
        assert(!holds(state.slots[j], frame_id));
    }
    assert forall|i: int| 0 <= i < after.slots.len() implies (#[trigger] after.slots[i] matches Some(
        frame,
    ) ==> frame.wf()) by {
        assert(state.slots[i] matches Some(frame) ==> frame.wf());
    }
    if let Some(last) = state.last_delivered {
        assert forall|i: int| 0 <= i < after.slots.len() && (#[trigger] after.slots[i]) is Some
            implies newer(after.slots[i]->0.frame_id, last) by {
            if i != index {
                assert(state.slots[i] is Some);
            }
        }
    }
}

/// How far a frame counter is past another.
pub open spec fn frames_past(frame_id: u32, base: u32) -> int {
    (frame_id - base) % 0x1_0000_0000
}

/// Within half the counter's range of a frame, newer means further past it.
proof fn lemma_newer_in_window(a: u32, b: u32, base: u32)
    requires
        frames_past(a, base) < 0x8000_0000,
        frames_past(b, base) < 0x8000_0000,
    ensures
        newer(a, b) == (frames_past(a, base) > frames_past(b, base)),
        a == b <==> frames_past(a, base) == frames_past(b, base),
{
    let past_a = frames_past(a, base);
    let past_b = frames_past(b, base);
    assert(past_a == a - base || past_a == a - base + 0x1_0000_0000);
    assert(past_b == b - base || past_b == b - base + 0x1_0000_0000);
}

/// When the frames in flight lie within half the counter's range of each other, the one that
/// gives way is older than every other.
pub proof fn the_oldest_frame_gives_way(slots: Seq<Option<FrameModel>>, base: u32)
    requires
        slots.len() > 0,
        forall|i: int|
            0 <= i < slots.len() ==> (#[trigger] slots[i]) is Some && frames_past(
                slots[i]->0.frame_id,
                base,
            ) < 0x8000_0000,
        forall|i: int, j: int|
            0 <= i < j < slots.len() ==> (#[trigger] slots[i])->0.frame_id != (
            #[trigger] slots[j])->0.frame_id,
    ensures
        0 <= oldest(slots) < slots.len(),
        forall|i: int|
            0 <= i < slots.len() && i != oldest(slots) ==> newer(
                (#[trigger] slots[i])->0.frame_id,
                slots[oldest(slots)]->0.frame_id,
            ),
    decreases slots.len(),
{
    if slots.len() > 1 {
        let rest = slots.drop_last();
        assert forall|i: int| 0 <= i < rest.len() implies (#[trigger] rest[i]) is Some
            && frames_past(rest[i]->0.frame_id, base) < 0x8000_0000 by {
            assert(rest[i] == slots[i]);
        }
        assert forall|i: int, j: int| 0 <= i < j < rest.len() implies (
        #[trigger] rest[i])->0.frame_id != (#[trigger] rest[j])->0.frame_id by {
            assert(rest[i] == slots[i] && rest[j] == slots[j]);
        }
        the_oldest_frame_gives_way(rest, base);
        let best = oldest(rest);
        assert(rest[best] == slots[best]);
        let last = slots.len() - 1;
        let chosen = oldest(slots);
        lemma_newer_in_window(slots[best]->0.frame_id, slots[last]->0.frame_id, base);
        assert forall|i: int| 0 <= i < slots.len() && i != chosen implies newer(
            (#[trigger] slots[i])->0.frame_id,
            slots[chosen]->0.frame_id,
        ) by {
            lemma_newer_in_window(slots[i]->0.frame_id, slots[chosen]->0.frame_id, base);
            lemma_newer_in_window(slots[i]->0.frame_id, slots[best]->0.frame_id, base);
            assert(slots[best]->0.frame_id != slots[last]->0.frame_id);
            if i < last && i != best {
                assert(rest[i] == slots[i]);
                assert(newer(rest[i]->0.frame_id, rest[best]->0.frame_id));
            }
        }
    }
}

/// A frame as it is sent: what every packet of it says, and the slices it is made of.
pub struct SentFrame {
    /// Frame counter.
    pub frame_id: u32,
    /// Host clock at capture time.
    pub capture_ts_us: u64,
    /// The slices, in order.
    pub slices: Seq<Seq<u8>>,
    /// The flags that the packets of each slice carry.
    pub flags: Seq<u8>,
}

impl SentFrame {
    /// Every slice can be cut and has its flags, only those of the last one end the frame, and
    /// there are no more slices than a frame may have.
    pub open spec fn wf(self) -> bool {
        &&& 0 < self.slices.len() <= MAX_SLICES_PER_FRAME
        &&& forall|id: int|
            0 <= id < self.slices.len() ==> slice_error((#[trigger] self.slices[id]).len()) is None
        &&& self.flags.len() == self.slices.len()
        &&& forall|id: int|
            0 <= id < self.flags.len() ==> (#[trigger] self.flags[id] & FLAG_LAST_OF_FRAME != 0)
                == (id + 1 == self.slices.len())
    }

    /// Whether a packet is one of those the frame is cut into.
    pub open spec fn has(self, packet: VideoPacket) -> bool {
        &&& packet.frame_id == self.frame_id
        &&& packet.capture_ts_us == self.capture_ts_us
        &&& packet.slice_id < self.slices.len()
        &&& packet.flags == self.flags[packet.slice_id as int]
        &&& fragment_of(packet, self.slices[packet.slice_id as int])
    }

    /// Whether some packets are all those of the frame, in any order, and each of them once or
    /// more.
    pub open spec fn is_all_of(self, packets: Seq<VideoPacket>) -> bool {
        &&& forall|k: int| 0 <= k < packets.len() ==> self.has(#[trigger] packets[k])
        &&& forall|id: int, i: int|
            0 <= id < self.slices.len() && 0 <= i < packets_for(self.slices[id].len())
                ==> #[trigger] among(packets, id, i)
    }
}

/// Whether packet `i` of slice `id` is among some packets.
pub open spec fn among(packets: Seq<VideoPacket>, id: int, i: int) -> bool {
    exists|k: int|
        0 <= k < packets.len() && (#[trigger] packets[k]).slice_id == id && packets[k].pkt_idx == i
}

/// Whether any packet of slice `id` is among some packets.
spec fn any_among(packets: Seq<VideoPacket>, id: int) -> bool {
    exists|k: int| 0 <= k < packets.len() && (#[trigger] packets[k]).slice_id == id
}

/// Whether any of some packets says that its frame is an IDR.
pub open spec fn any_idr(packets: Seq<VideoPacket>) -> bool {
    exists|k: int| 0 <= k < packets.len() && (#[trigger] packets[k]).flags & FLAG_IDR != 0
}

/// Whether what is held of a frame is what some of its packets brought, and only that.
spec fn brought_by(model: FrameModel, sent: SentFrame, packets: Seq<VideoPacket>) -> bool {
    &&& model.frame_id == sent.frame_id
    &&& model.capture_ts_us == sent.capture_ts_us
    &&& model.is_idr == any_idr(packets)
    &&& model.part_of(sent.slices)
    &&& model.last_slice is Some <==> any_among(packets, sent.slices.len() - 1)
    &&& forall|id: int| #[trigger] model.slices.dom().contains(id) <==> any_among(packets, id)
    &&& forall|id: int| #[trigger]
        model.slices.dom().contains(id) ==> model.slices[id].parity.rows.len() == 0
    &&& forall|id: int, i: int|
        model.slices.dom().contains(id) && 0 <= i < model.slices[id].present.len()
            ==> #[trigger] model.slices[id].present[i] == among(packets, id, i)
    &&& model.complete() ==> model.assembled == whole(sent.slices)
}

/// Whether a reassembler holds what some packets of one frame brought, and nothing else.
spec fn holds_only(state: ReassemblerModel, sent: SentFrame, packets: Seq<VideoPacket>) -> bool {
    &&& state.slots.len() > 0
    &&& state.slots[0] matches Some(model)
    &&& brought_by(model, sent, packets)
    &&& forall|i: int| 0 < i < state.slots.len() ==> #[trigger] state.slots[i] is None
    &&& state.completed == if model.complete() {
        Some(0int)
    } else {
        None
    }
    &&& state.last_delivered is None
    &&& state.stats.completed == 0
    &&& state.stats.dropped_incomplete == 0
}

/// One more packet is what is among packets besides those that were.
proof fn lemma_one_more(packets: Seq<VideoPacket>, packet: VideoPacket)
    ensures
        forall|id: int, i: int|
            #![trigger among(packets.push(packet), id, i)]
            among(packets.push(packet), id, i) == (among(packets, id, i) || (packet.slice_id == id
                && packet.pkt_idx == i)),
        forall|id: int|
            #![trigger any_among(packets.push(packet), id)]
            any_among(packets.push(packet), id) == (any_among(packets, id) || packet.slice_id
                == id),
        any_idr(packets.push(packet)) == (any_idr(packets) || packet.flags & FLAG_IDR != 0),
{
    let more = packets.push(packet);
    let last = packets.len() as int;
    assert(more[last] == packet);
    assert forall|k: int| 0 <= k < last implies #[trigger] more[k] == packets[k] by {}
    assert forall|id: int, i: int|
        #![trigger among(more, id, i)]
        among(more, id, i) == (among(packets, id, i) || (packet.slice_id == id && packet.pkt_idx
            == i)) by {
        if among(packets, id, i) {
            let k = choose|k: int|
                0 <= k < packets.len() && (#[trigger] packets[k]).slice_id == id
                    && packets[k].pkt_idx == i;
            assert(more[k] == packets[k]);
        }
        if among(more, id, i) {
            let k = choose|k: int|
                0 <= k < more.len() && (#[trigger] more[k]).slice_id == id && more[k].pkt_idx == i;
            assert(k < last ==> packets[k] == more[k]);
        }
    }
    assert forall|id: int|
        #![trigger any_among(more, id)]
        any_among(more, id) == (any_among(packets, id) || packet.slice_id == id) by {
        if any_among(packets, id) {
            let k = choose|k: int|
                0 <= k < packets.len() && (#[trigger] packets[k]).slice_id == id;
            assert(more[k] == packets[k]);
        }
        if any_among(more, id) {
            let k = choose|k: int| 0 <= k < more.len() && (#[trigger] more[k]).slice_id == id;
            assert(k < last ==> packets[k] == more[k]);
        }
    }
    if any_idr(packets) {
        let k = choose|k: int|
            0 <= k < packets.len() && (#[trigger] packets[k]).flags & FLAG_IDR != 0;
        assert(more[k] == packets[k]);
    }
    if any_idr(more) {
        let k = choose|k: int|
            0 <= k < more.len() && (#[trigger] more[k]).flags & FLAG_IDR != 0;
        assert(k < last ==> packets[k] == more[k]);
    }
}

/// The packets a frame is cut into are plausible.
proof fn lemma_sent_is_plausible(sent: SentFrame, packet: VideoPacket)
    requires
        sent.wf(),
        sent.has(packet),
    ensures
        plausible(packet),
{
    let slice = sent.slices[packet.slice_id as int];
    let p = MAX_VIDEO_PAYLOAD as int;
    let count = packet.pkt_count as int;
    let at = packet.pkt_idx as int;
    lemma_cut(slice.len() as int, p);
    assert(at * p <= (count - 1) * p) by (nonlinear_arith)
        requires
            at <= count - 1,
            p >= 0,
    ;
    assert((at + 1) * p == at * p + p) by (nonlinear_arith);
    assert(count * p == (count - 1) * p + p) by (nonlinear_arith);
    if at < count - 1 {
        assert((at + 1) * p <= (count - 1) * p) by (nonlinear_arith)
            requires
                at + 1 <= count - 1,
                p >= 0,
        ;
    }
}

/// A slice that no parity protects is left as it is.
proof fn lemma_no_parity(slice: SliceModel)
    requires
        slice.parity.rows.len() == 0,
        slice.parity.flags.len() == 0,
    ensures
        slice.recovered() == slice,
        !slice.recoverable(),
{
    lemma_count_set_bound(slice.parity.flags);
}

/// Storing one more packet of a frame leaves what the packets before it and it brought.
proof fn lemma_brings_one_more(
    model: FrameModel,
    sent: SentFrame,
    packets: Seq<VideoPacket>,
    packet: VideoPacket,
)
    requires
        sent.wf(),
        sent.has(packet),
        forall|k: int| 0 <= k < packets.len() ==> sent.has(#[trigger] packets[k]),
        brought_by(model, sent, packets),
    ensures
        ({
            let more = packets.push(packet);
            let slice = model.slice(packet.slice_id as int);
            match slice_with(slice, packet) {
                Ok(after) => {
                    &&& brought_by(model.storing(packet, after).settled(), sent, more)
                    &&& !model.complete()
                    &&& !slice_repaired(slice, packet)
                },
                Err(outcome) => outcome == PushOutcome::Duplicate && brought_by(model, sent, more),
            }
        }),
{
    let more = packets.push(packet);
    let id = packet.slice_id as int;
    let at = packet.pkt_idx as int;
    let slice = model.slice(id);
    lemma_one_more(packets, packet);
    lemma_packet_count(sent.slices[id].len());
    match slice_with(slice, packet) {
        Err(outcome) => {
            assert(model.slices[id].present[at] == among(packets, id, at));
            let k = choose|k: int|
                0 <= k < packets.len() && (#[trigger] packets[k]).slice_id == id
                    && packets[k].pkt_idx == at;
            assert(any_among(packets, id));
            assert(sent.has(packets[k]));
            assert(packets[k].flags == packet.flags);
            assert forall|other: int, i: int|
                model.slices.dom().contains(other) && 0 <= i < model.slices[other].present.len()
                implies #[trigger] model.slices[other].present[i] == among(more, other, i) by {
                assert(model.slices[other].present[i] == among(packets, other, i));
            }
        },
        Ok(after) => {
            let known = match slice {
                None => SliceModel::started(packet.pkt_count as nat),
                Some(slice) => slice,
            };
            if slice is None {
                lemma_started_part(sent.slices[id]);
            }
            lemma_storing_part(known, packet, sent.slices[id]);
            lemma_no_parity(known.storing(packet));
            assert(after == known.storing(packet));
            if model.complete() {
                assert(model.has_whole(id));
                assert(model.slices[id].present[at]);
                assert(false);
            }
            let stored = model.storing(packet, after);
            assert(stored.part_of(sent.slices)) by {
                assert forall|other: int| #[trigger]
                    stored.slices.dom().contains(other) implies 0 <= other < sent.slices.len()
                    && stored.slices[other].part_of(sent.slices[other]) by {
                    if other != id {
                        assert(model.slices.dom().contains(other));
                    }
                }
            }
            assert forall|other: int| #[trigger] stored.slices.dom().contains(other) <==> any_among(
                more,
                other,
            ) by {
                assert(model.slices.dom().contains(other) <==> any_among(packets, other));
            }
            assert forall|other: int, i: int|
                stored.slices.dom().contains(other) && 0 <= i < stored.slices[other].present.len()
                implies #[trigger] stored.slices[other].present[i] == among(more, other, i) by {
                if other != id || slice is Some {
                    assert(model.slices.dom().contains(other));
                    assert(model.slices[other].present[i] == among(packets, other, i));
                } else {
                    if among(packets, id, i) {
                        let k = choose|k: int|
                            0 <= k < packets.len() && (#[trigger] packets[k]).slice_id == id
                                && packets[k].pkt_idx == i;
                        assert(packets[k].slice_id == id);
                        assert(any_among(packets, id));
                    }
                    assert(!known.present[i]);
                }
            }
            if stored.complete() {
                complete_frame_is_the_frame_sent(stored, sent.slices);
            }
            lemma_settled_parts(stored, sent.slices);
        },
    }
}

/// Putting the bitstream together changes nothing else of a frame.
proof fn lemma_settled_parts(model: FrameModel, frame: Seq<Seq<u8>>)
    ensures
        model.settled().complete() == model.complete(),
        model.part_of(frame) ==> model.settled().part_of(frame),
{
    let settled = model.settled();
    assert forall|id: int| model.has_whole(id) == #[trigger] settled.has_whole(id) by {}
    assert forall|id: int| settled.has_whole(id) == #[trigger] model.has_whole(id) by {}
}

/// Pushing one more packet of a frame leaves what the packets before it and it brought.
proof fn lemma_pushes_one_more(
    state: ReassemblerModel,
    sent: SentFrame,
    packets: Seq<VideoPacket>,
    packet: VideoPacket,
)
    requires
        sent.wf(),
        sent.has(packet),
        forall|k: int| 0 <= k < packets.len() ==> sent.has(#[trigger] packets[k]),
        holds_only(state, sent, packets),
    ensures
        holds_only(
            state.pushing(packet).0.counting(state.pushing(packet).1),
            sent,
            packets.push(packet),
        ),
{
    lemma_sent_is_plausible(sent, packet);
    lemma_holder(state.slots, packet.frame_id);
    let model = state.slots[0]->0;
    assert(holds(state.slots[0], packet.frame_id));
    assert(holder(state.slots, packet.frame_id) == Some(0int));
    lemma_brings_one_more(model, sent, packets, packet);
    let slice = model.slice(packet.slice_id as int);
    if let Ok(after) = slice_with(slice, packet) {
        lemma_settled_parts(model.storing(packet, after), sent.slices);
    }
}

/// Pushing the first packet of a frame to a reassembler that has seen nothing leaves what it
/// brought.
proof fn lemma_pushes_the_first(capacity: nat, sent: SentFrame, packet: VideoPacket)
    requires
        capacity > 0,
        sent.wf(),
        sent.has(packet),
    ensures
        ({
            let fresh = ReassemblerModel::fresh(capacity);
            holds_only(
                fresh.pushing(packet).0.counting(fresh.pushing(packet).1),
                sent,
                seq![packet],
            )
        }),
{
    let fresh = ReassemblerModel::fresh(capacity);
    let none = Seq::<VideoPacket>::empty();
    lemma_sent_is_plausible(sent, packet);
    lemma_holder(fresh.slots, packet.frame_id);
    lemma_first_is_free(fresh.slots);
    assert(holder(fresh.slots, packet.frame_id) is None) by {
        if let Some(index) = holder(fresh.slots, packet.frame_id) {
            assert(fresh.slots[index] is None);
        }
    }
    let claimed = fresh.claiming(packet.frame_id, packet.capture_ts_us);
    let model = FrameModel::started(packet.frame_id, packet.capture_ts_us);
    assert(claimed.slots[0] == Some(model));
    assert(brought_by(model, sent, none));
    lemma_brings_one_more(model, sent, none, packet);
    assert(none.push(packet) =~= seq![packet]);
    let slice = model.slice(packet.slice_id as int);
    if let Ok(after) = slice_with(slice, packet) {
        lemma_settled_parts(model.storing(packet, after), sent.slices);
    }
}

/// Where the first slot holds nothing it is the first free one.
proof fn lemma_first_is_free(slots: Seq<Option<FrameModel>>)
    requires
        slots.len() > 0,
        slots[0] is None,
    ensures
        first_free(slots) == Some(0int),
    decreases slots.len(),
{
    if slots.len() > 1 {
        lemma_first_is_free(slots.drop_last());
    } else {
        reveal_with_fuel(first_free, 2);
        assert(slots.last() == slots[0]);
    }
}

/// After a run of packets of one frame a reassembler holds what they brought.
proof fn lemma_holds_what_was_pushed(capacity: nat, sent: SentFrame, packets: Seq<VideoPacket>)
    requires
        capacity > 0,
        sent.wf(),
        packets.len() > 0,
        forall|k: int| 0 <= k < packets.len() ==> sent.has(#[trigger] packets[k]),
    ensures
        holds_only(ReassemblerModel::fresh(capacity).pushed(packets), sent, packets),
    decreases packets.len(),
{
    let before = packets.drop_last();
    assert(before.push(packets.last()) =~= packets);
    assert(sent.has(packets[packets.len() - 1]));
    if before.len() == 0 {
        assert(packets =~= seq![packets.last()]);
        lemma_pushes_the_first(capacity, sent, packets.last());
    } else {
        assert forall|k: int| 0 <= k < before.len() implies sent.has(#[trigger] before[k]) by {
            assert(before[k] == packets[k]);
        }
        lemma_holds_what_was_pushed(capacity, sent, before);
        lemma_pushes_one_more(
            ReassemblerModel::fresh(capacity).pushed(before),
            sent,
            before,
            packets.last(),
        );
    }
}

/// Where only one slot holds a frame, its delivery abandons no other.
proof fn lemma_nothing_outlived(slots: Seq<Option<FrameModel>>, frame_id: u32)
    requires
        forall|i: int| 0 < i < slots.len() ==> #[trigger] slots[i] is None,
    ensures
        outlived_count(slots, 0, frame_id) == 0,
    decreases slots.len(),
{
    if slots.len() > 0 {
        let before = slots.drop_last();
        assert forall|i: int| 0 < i < before.len() implies #[trigger] before[i] is None by {
            assert(before[i] == slots[i]);
        }
        lemma_nothing_outlived(before, frame_id);
    }
}

/// A frame whose packets all arrive at a reassembler that has seen nothing else is delivered: in
/// whatever order they come and however often each is repeated, the frame that waits to be taken
/// is the one that was sent. Taking it counts it as completed and nothing as dropped, leaves
/// nothing to take, and makes every further repeat of its packets stale.
pub proof fn a_frame_is_delivered_in_whatever_order_it_arrives(
    capacity: nat,
    sent: SentFrame,
    packets: Seq<VideoPacket>,
)
    requires
        capacity > 0,
        sent.wf(),
        sent.is_all_of(packets),
    ensures
        ({
            let arrived = ReassemblerModel::fresh(capacity).pushed(packets);
            let taken = arrived.taking();
            &&& arrived.completed matches Some(index)
            &&& 0 <= index < arrived.slots.len()
            &&& arrived.slots[index] matches Some(frame)
            &&& frame.frame_id == sent.frame_id
            &&& frame.capture_ts_us == sent.capture_ts_us
            &&& frame.is_idr == any_idr(packets)
            &&& frame.assembled == whole(sent.slices)
            &&& taken.stats.completed == 1
            &&& taken.stats.dropped_incomplete == 0
            &&& taken.completed is None
            &&& taken.taking() == taken
            &&& forall|packet: VideoPacket| #[trigger]
                sent.has(packet) ==> taken.pushing(packet) == (taken, PushOutcome::Stale)
        }),
{
    let arrived = ReassemblerModel::fresh(capacity).pushed(packets);
    let last = sent.slices.len() - 1;
    assert forall|id: int| 0 <= id < sent.slices.len() implies #[trigger] any_among(packets, id) by {
        lemma_packet_count(sent.slices[id].len());
        assert(among(packets, id, 0));
        let k = choose|k: int|
            0 <= k < packets.len() && (#[trigger] packets[k]).slice_id == id && packets[k].pkt_idx
                == 0;
        assert(packets[k].slice_id == id);
    }
    assert(any_among(packets, last));
    lemma_holds_what_was_pushed(capacity, sent, packets);
    let frame = arrived.slots[0]->0;
    assert forall|id: int| 0 <= id <= last implies #[trigger] frame.has_whole(id) by {
        assert(any_among(packets, id));
        assert(frame.slices.dom().contains(id));
        assert forall|i: int| 0 <= i < frame.slices[id].present.len() implies #[trigger]
            frame.slices[id].present[i] by {
            assert(among(packets, id, i));
        }
    }
    assert(frame.complete());
    lemma_nothing_outlived(arrived.slots, sent.frame_id);
    let taken = arrived.taking();
    assert forall|packet: VideoPacket| #[trigger] sent.has(packet) implies taken.pushing(packet) == (
        taken,
        PushOutcome::Stale,
    ) by {
        lemma_sent_is_plausible(sent, packet);
    }
}
/// A frame is newer than another where it is ahead by less than half the counter's range, the
/// counter wrapping or not, and then the other is not newer than it. No frame is newer than
/// itself.
pub proof fn newer_means_ahead_by_less_than_half_the_range(base: u32, frame_id: u32, ahead: int)
    requires
        0 <= ahead < 0x1_0000_0000,
        frame_id == base + ahead || frame_id == base + ahead - 0x1_0000_0000,
    ensures
        newer(frame_id, base) == (0 < ahead < 0x8000_0000),
        0 < ahead < 0x8000_0000 ==> !newer(base, frame_id),
{
}

/// Taking the completed frame gives up only what it has outlived. Every other frame that is held
/// and is ahead of it stays exactly as it was, in its slot; every other frame that is held and is
/// not ahead of it is gone and counted as dropped; and nothing else is counted so.
pub proof fn taking_a_frame_leaves_newer_ones_alone(state: ReassemblerModel, index: int)
    requires
        state.wf(),
        state.completed == Some(index),
        state.stats.has_room(state.slots.len() + 1),
    ensures
        ({
            let taken = state.slots[index]->0.frame_id;
            let after = state.taking();
            let given_up = Set::new(
                |i: int|
                    0 <= i < state.slots.len() && i != index && state.slots[i] is Some
                        && !is_ahead(state.slots[i]->0.frame_id, taken),
            );
            &&& after.slots.len() == state.slots.len()
            &&& after.slots[index] is None
            &&& forall|i: int|
                0 <= i < state.slots.len() && i != index ==> (#[trigger] after.slots[i])
                    == if given_up.contains(i) {
                    None
                } else {
                    state.slots[i]
                }
            &&& after.completed is None
            &&& after.last_delivered == Some(taken)
            &&& after.stats.completed == state.stats.completed + 1
            &&& given_up.finite()
            &&& after.stats.dropped_incomplete == state.stats.dropped_incomplete + given_up.len()
            &&& after.stats.accepted == state.stats.accepted
        }),
{
    let taken = state.slots[index]->0.frame_id;
    let given_up = Set::new(
        |i: int|
            0 <= i < state.slots.len() && i != index && state.slots[i] is Some && !is_ahead(
                state.slots[i]->0.frame_id,
                taken,
            ),
    );
    lemma_outlived_set(state.slots, index, taken);
    lemma_outlived_count(state.slots, index, taken);
    assert(given_up =~= outlived_set(state.slots, index, taken));
}

/// Whether a frame counter is ahead of another by less than half the counter's range.
pub open spec fn is_ahead(frame_id: u32, base: u32) -> bool {
    0 < (frame_id - base) % 0x1_0000_0000 < 0x8000_0000
}

/// The slots other than `index` that hold a frame that is not newer than `frame_id`.
spec fn outlived_set(slots: Seq<Option<FrameModel>>, index: int, frame_id: u32) -> Set<int> {
    Set::new(|i: int| 0 <= i < slots.len() && i != index && outlived(slots[i], frame_id))
}

/// As many frames are counted as outlived as there are slots that hold one.
proof fn lemma_outlived_set(slots: Seq<Option<FrameModel>>, index: int, frame_id: u32)
    ensures
        outlived_set(slots, index, frame_id).finite(),
        outlived_set(slots, index, frame_id).len() == outlived_count(slots, index, frame_id),
    decreases slots.len(),
{
    if slots.len() == 0 {
        assert(outlived_set(slots, index, frame_id) =~= Set::empty());
    } else {
        let before = slots.drop_last();
        let last = slots.len() - 1;
        lemma_outlived_set(before, index, frame_id);
        let earlier = outlived_set(before, index, frame_id);
        if last != index && outlived(slots[last], frame_id) {
            assert(outlived_set(slots, index, frame_id) =~= earlier.insert(last));
            assert(!earlier.contains(last));
        } else {
            assert(outlived_set(slots, index, frame_id) =~= earlier);
        }
    }
}

/// A packet disturbs no frame but its own, as long as its frame has a slot or there is one free
/// and no other frame is waiting to be taken: every other frame stays as it was, nothing is
/// counted as dropped, and nothing counts as delivered.
pub proof fn a_packet_disturbs_no_other_frame(
    state: ReassemblerModel,
    packet: VideoPacket,
    room: int,
    i: int,
)
    requires
        state.wf(),
        0 <= room < state.slots.len(),
        state.slots[room] is None || state.slots[room]->0.frame_id == packet.frame_id,
        state.completed matches Some(index) ==> state.slots[index]->0.frame_id == packet.frame_id,
        0 <= i < state.slots.len(),
        state.slots[i] matches Some(frame) && frame.frame_id != packet.frame_id,
    ensures
        state.pushing(packet).0.slots[i] == state.slots[i],
        state.pushing(packet).0.slots.len() == state.slots.len(),
        state.pushing(packet).0.stats.dropped_incomplete == state.stats.dropped_incomplete,
        state.pushing(packet).0.stats.completed == state.stats.completed,
        state.pushing(packet).0.last_delivered == state.last_delivered,
        state.pushing(packet).0.completed != Some(i),
{
    lemma_holder(state.slots, packet.frame_id);
    lemma_first_free(state.slots);
    assert(holder(state.slots, packet.frame_id) is None ==> !holds(
        state.slots[room],
        packet.frame_id,
    ));
}

/// A packet that was stored is a duplicate from then on, and changes nothing more, for as long as
/// nothing else happens.
pub proof fn a_repeat_changes_nothing(state: ReassemblerModel, packet: VideoPacket)
    requires
        state.wf(),
        state.pushing(packet).1 == PushOutcome::Accepted || state.pushing(packet).1
            == PushOutcome::FrameComplete,
    ensures
        state.pushing(packet).0.pushing(packet) == (
            state.pushing(packet).0,
            PushOutcome::Duplicate,
        ),
{
    let frame_id = packet.frame_id;
    let cleared = state.discarding(frame_id);
    lemma_holder(cleared.slots, frame_id);
    lemma_first_free(cleared.slots);
    lemma_oldest(cleared.slots);
    let index = cleared.slot_of(frame_id)->0;
    let claimed = cleared.claiming(frame_id, packet.capture_ts_us);
    let frame = claimed.slots[index]->0;
    let slice = frame.slice(packet.slice_id as int);
    let after = slice_with(slice, packet)->Ok_0;
    let stored = frame.storing(packet, after);
    let pushed = state.pushing(packet).0;
    assert(pushed == claimed.keeping(index, stored, slice_repaired(slice, packet)));
    assert(holds(pushed.slots[index], frame_id));
    assert forall|j: int| 0 <= j < pushed.slots.len() && j != index implies !holds(
        #[trigger] pushed.slots[j],
        frame_id,
    ) by {
        assert(pushed.slots[j] == cleared.slots[j]);
        if holder(cleared.slots, frame_id) is Some {
            assert(cleared.slots[index] is Some);
            if holds(cleared.slots[j], frame_id) {
                assert(state.slots[j] == cleared.slots[j] && state.slots[index]
                    == cleared.slots[index]);
            }
        }
    }
    lemma_holder(pushed.slots, frame_id);
    assert(holder(pushed.slots, frame_id) == Some(index));
    assert(pushed.discarding(frame_id) == pushed) by {
        if let Some(waiting) = pushed.completed {
            if waiting != index {
                assert(cleared.completed == Some(waiting));
                assert(holds(cleared.slots[waiting], frame_id));
                assert(holds(pushed.slots[waiting], frame_id));
            }
        }
    }
    assert(pushed.slots[index]->0.slice(packet.slice_id as int) == Some(after));
    assert(after.present[packet.pkt_idx as int]);
}

/// A frame is complete exactly where all its packets have been brought.
proof fn lemma_complete_where_all_are_there(
    model: FrameModel,
    sent: SentFrame,
    packets: Seq<VideoPacket>,
)
    requires
        sent.wf(),
        brought_by(model, sent, packets),
        forall|k: int| 0 <= k < packets.len() ==> sent.has(#[trigger] packets[k]),
    ensures
        model.complete() <==> sent.is_all_of(packets),
{
    let last = sent.slices.len() - 1;
    if sent.is_all_of(packets) {
        assert forall|id: int| 0 <= id <= last implies #[trigger] model.has_whole(id) by {
            lemma_packet_count(sent.slices[id].len());
            assert(among(packets, id, 0));
            let k = choose|k: int|
                0 <= k < packets.len() && (#[trigger] packets[k]).slice_id == id
                    && packets[k].pkt_idx == 0;
            assert(packets[k].slice_id == id);
            assert(any_among(packets, id));
            assert(model.slices.dom().contains(id));
            assert forall|i: int| 0 <= i < model.slices[id].present.len() implies #[trigger]
                model.slices[id].present[i] by {
                assert(among(packets, id, i));
            }
        }
        assert(model.has_whole(last));
        assert(any_among(packets, last));
    }
    if model.complete() {
        assert forall|id: int, i: int|
            0 <= id < sent.slices.len() && 0 <= i < packets_for(sent.slices[id].len()) implies
            #[trigger] among(packets, id, i) by {
            assert(model.has_whole(id));
            assert(model.slices[id].present[i]);
        }
    }
}

/// A frame of which anything is missing is not delivered.
pub proof fn a_frame_is_not_delivered_before_it_is_whole(
    capacity: nat,
    sent: SentFrame,
    packets: Seq<VideoPacket>,
)
    requires
        capacity > 0,
        sent.wf(),
        forall|k: int| 0 <= k < packets.len() ==> sent.has(#[trigger] packets[k]),
        !sent.is_all_of(packets),
    ensures
        ReassemblerModel::fresh(capacity).pushed(packets).completed is None,
{
    if packets.len() > 0 {
        lemma_holds_what_was_pushed(capacity, sent, packets);
        lemma_complete_where_all_are_there(
            ReassemblerModel::fresh(capacity).pushed(packets).slots[0]->0,
            sent,
            packets,
        );
    }
}

/// The packets of one frame among those of several, in the order they came.
pub open spec fn of_frame(packets: Seq<VideoPacket>, frame_id: u32) -> Seq<VideoPacket> {
    packets.filter(|packet: VideoPacket| packet.frame_id == frame_id)
}

/// One more packet is one more of its own frame.
proof fn lemma_of_frame(packets: Seq<VideoPacket>, packet: VideoPacket, frame_id: u32)
    ensures
        of_frame(packets.push(packet), frame_id) == if packet.frame_id == frame_id {
            of_frame(packets, frame_id).push(packet)
        } else {
            of_frame(packets, frame_id)
        },
{
    reveal(Seq::filter);
    assert(packets.push(packet).drop_last() =~= packets);
}

/// All the packets of a frame among some are packets of that frame.
proof fn lemma_of_frame_has(
    packets: Seq<VideoPacket>,
    sent: SentFrame,
    other: SentFrame,
)
    requires
        sent.frame_id != other.frame_id,
        forall|k: int|
            0 <= k < packets.len() ==> sent.has(#[trigger] packets[k]) || other.has(packets[k]),
    ensures
        forall|k: int|
            0 <= k < of_frame(packets, sent.frame_id).len() ==> sent.has(
                #[trigger] of_frame(packets, sent.frame_id)[k],
            ),
    decreases packets.len(),
{
    reveal(Seq::filter);
    if packets.len() > 0 {
        let before = packets.drop_last();
        assert forall|k: int| 0 <= k < before.len() implies sent.has(#[trigger] before[k])
            || other.has(before[k]) by {
            assert(before[k] == packets[k]);
        }
        lemma_of_frame_has(before, sent, other);
        lemma_of_frame(before, packets.last(), sent.frame_id);
        assert(before.push(packets.last()) =~= packets);
        assert(packets.last() == packets[packets.len() - 1]);
    }
}

/// Whether slot `i`, and no other, holds what some packets brought of a frame.
spec fn is_held_at(
    slots: Seq<Option<FrameModel>>,
    sent: SentFrame,
    packets: Seq<VideoPacket>,
    i: int,
) -> bool {
    &&& 0 <= i < slots.len()
    &&& slots[i] is Some
    &&& brought_by(slots[i]->0, sent, packets)
    &&& forall|j: int|
        0 <= j < slots.len() && j != i ==> !holds(#[trigger] slots[j], sent.frame_id)
}

/// Whether what some packets brought of a frame is held once, or nothing where there are none.
spec fn is_held(slots: Seq<Option<FrameModel>>, sent: SentFrame, packets: Seq<VideoPacket>) -> bool {
    if packets.len() == 0 {
        forall|i: int| 0 <= i < slots.len() ==> !holds(#[trigger] slots[i], sent.frame_id)
    } else {
        exists|i: int| is_held_at(slots, sent, packets, i)
    }
}

/// Whether a reassembler holds what packets of two frames brought and nothing else, with a frame
/// waiting to be taken exactly where one is complete.
spec fn holds_two(
    state: ReassemblerModel,
    a: SentFrame,
    b: SentFrame,
    of_a: Seq<VideoPacket>,
    of_b: Seq<VideoPacket>,
) -> bool {
    &&& state.slots.len() >= 2
    &&& state.stats.dropped_incomplete == 0
    &&& is_held(state.slots, a, of_a)
    &&& is_held(state.slots, b, of_b)
    &&& forall|i: int|
        0 <= i < state.slots.len() && (#[trigger] state.slots[i]) is Some
            ==> state.slots[i]->0.frame_id == a.frame_id || state.slots[i]->0.frame_id
            == b.frame_id
    &&& forall|i: int|
        0 <= i < state.slots.len() && (#[trigger] state.slots[i]) is Some
            && state.slots[i]->0.complete() ==> state.completed == Some(i)
    &&& state.completed matches Some(i) ==> 0 <= i < state.slots.len() && state.slots[i] is Some
        && state.slots[i]->0.complete()
}

/// One more packet of a frame leaves both frames held, as long as the other is not waiting to be
/// taken.
proof fn lemma_two_and_one_more(
    state: ReassemblerModel,
    a: SentFrame,
    b: SentFrame,
    of_a: Seq<VideoPacket>,
    of_b: Seq<VideoPacket>,
    packet: VideoPacket,
)
    requires
        a.wf(),
        a.has(packet),
        a.frame_id != b.frame_id,
        forall|k: int| 0 <= k < of_a.len() ==> a.has(#[trigger] of_a[k]),
        holds_two(state, a, b, of_a, of_b),
        !state.too_late(a.frame_id),
        state.completed matches Some(i) ==> state.slots[i]->0.frame_id == a.frame_id,
    ensures
        ({
            let after = state.pushing(packet).0.counting(state.pushing(packet).1);
            &&& holds_two(after, a, b, of_a.push(packet), of_b)
            &&& after.last_delivered == state.last_delivered
            &&& after.stats.completed == state.stats.completed
            &&& after.completed matches Some(i) ==> after.slots[i]->0.frame_id == a.frame_id
        }),
{
    lemma_sent_is_plausible(a, packet);
    lemma_holder(state.slots, a.frame_id);
    lemma_first_free(state.slots);
    let more = of_a.push(packet);
    assert(state.discarding(a.frame_id) == state);
    if of_a.len() == 0 {
        assert(holder(state.slots, a.frame_id) is None);
        if first_free(state.slots) is None {
            assert(state.slots[0] is Some && state.slots[1] is Some);
            assert(holds(state.slots[0], b.frame_id) && holds(state.slots[1], b.frame_id));
            if of_b.len() > 0 {
                let i = choose|i: int| is_held_at(state.slots, b, of_b, i);
                assert(is_held_at(state.slots, b, of_b, i));
            }
            assert(false);
        }
    } else {
        let i = choose|i: int| is_held_at(state.slots, a, of_a, i);
        assert(is_held_at(state.slots, a, of_a, i));
        assert(holds(state.slots[i], a.frame_id));
        assert(holder(state.slots, a.frame_id) == Some(i));
    }
    let index = state.slot_of(a.frame_id)->0;
    let claimed = state.claiming(a.frame_id, packet.capture_ts_us);
    let model = claimed.slots[index]->0;
    if of_a.len() == 0 {
        assert(of_a =~= Seq::<VideoPacket>::empty());
        assert(model == FrameModel::started(a.frame_id, a.capture_ts_us));
        assert(brought_by(model, a, of_a));
    }
    lemma_brings_one_more(model, a, of_a, packet);
    let slice = model.slice(packet.slice_id as int);
    if let Ok(stored) = slice_with(slice, packet) {
        lemma_settled_parts(model.storing(packet, stored), a.slices);
    }
    let after = state.pushing(packet).0.counting(state.pushing(packet).1);
    assert(after.slots.len() == state.slots.len());
    assert forall|j: int| 0 <= j < after.slots.len() && j != index implies #[trigger] after.slots[j]
        == state.slots[j] by {}
    assert(is_held_at(after.slots, a, more, index)) by {
        assert forall|j: int| 0 <= j < after.slots.len() && j != index implies !holds(
            #[trigger] after.slots[j],
            a.frame_id,
        ) by {
            assert(after.slots[j] == state.slots[j]);
            assert(!holds(state.slots[j], a.frame_id));
        }
    }
    if of_b.len() > 0 {
        let i = choose|i: int| is_held_at(state.slots, b, of_b, i);
        assert(is_held_at(state.slots, b, of_b, i));
        assert(i != index);
        assert(is_held_at(after.slots, b, of_b, i)) by {
            assert forall|j: int| 0 <= j < after.slots.len() && j != i implies !holds(
                #[trigger] after.slots[j],
                b.frame_id,
            ) by {
                if j != index {
                    assert(!holds(state.slots[j], b.frame_id));
                }
            }
        }
    } else {
        assert forall|j: int| 0 <= j < after.slots.len() implies !holds(
            #[trigger] after.slots[j],
            b.frame_id,
        ) by {
            if j != index {
                assert(!holds(state.slots[j], b.frame_id));
            }
        }
    }
}

/// Pushing packets of two frames, neither of which is all there, leaves both held.
proof fn lemma_two_arriving(
    capacity: nat,
    a: SentFrame,
    b: SentFrame,
    packets: Seq<VideoPacket>,
)
    requires
        capacity >= 2,
        a.wf(),
        b.wf(),
        a.frame_id != b.frame_id,
        forall|k: int|
            0 <= k < packets.len() ==> a.has(#[trigger] packets[k]) || b.has(packets[k]),
        !a.is_all_of(of_frame(packets, a.frame_id)),
        !b.is_all_of(of_frame(packets, b.frame_id)),
    ensures
        ({
            let state = ReassemblerModel::fresh(capacity).pushed(packets);
            &&& holds_two(
                state,
                a,
                b,
                of_frame(packets, a.frame_id),
                of_frame(packets, b.frame_id),
            )
            &&& state.completed is None
            &&& state.last_delivered is None
            &&& state.stats.completed == 0
        }),
    decreases packets.len(),
{
    if packets.len() == 0 {
        reveal(Seq::filter);
    } else {
        let before = packets.drop_last();
        let packet = packets.last();
        assert(before.push(packet) =~= packets);
        assert(packets[packets.len() - 1] == packet);
        assert forall|k: int| 0 <= k < before.len() implies a.has(#[trigger] before[k]) || b.has(
            before[k],
        ) by {
            assert(before[k] == packets[k]);
        }
        lemma_of_frame(before, packet, a.frame_id);
        lemma_of_frame(before, packet, b.frame_id);
        lemma_of_frame_has(before, a, b);
        lemma_of_frame_has(before, b, a);
        lemma_of_frame_has(packets, a, b);
        lemma_of_frame_has(packets, b, a);
        let (of_a, of_b) = (of_frame(before, a.frame_id), of_frame(before, b.frame_id));
        lemma_all_stay_all(a, of_a, packet);
        lemma_all_stay_all(b, of_b, packet);
        lemma_two_arriving(capacity, a, b, before);
        let state = ReassemblerModel::fresh(capacity).pushed(before);
        let after = ReassemblerModel::fresh(capacity).pushed(packets);
        if a.has(packet) {
            lemma_two_and_one_more(state, a, b, of_a, of_b, packet);
        } else {
            lemma_two_and_one_more(state, b, a, of_b, of_a, packet);
        }
        if let Some(i) = after.completed {
            lemma_which_is_complete(
                after,
                a,
                b,
                of_frame(packets, a.frame_id),
                of_frame(packets, b.frame_id),
                i,
            );
        }
    }
}

/// What was all of a frame is all of it with more.
proof fn lemma_all_stay_all(sent: SentFrame, packets: Seq<VideoPacket>, packet: VideoPacket)
    ensures
        sent.is_all_of(packets) && sent.has(packet) ==> sent.is_all_of(packets.push(packet)),
{
    if sent.is_all_of(packets) && sent.has(packet) {
        lemma_one_more(packets, packet);
        let more = packets.push(packet);
        assert forall|k: int| 0 <= k < more.len() implies sent.has(#[trigger] more[k]) by {
            if k < packets.len() {
                assert(more[k] == packets[k]);
            }
        }
        assert forall|id: int, i: int|
            0 <= id < sent.slices.len() && 0 <= i < packets_for(sent.slices[id].len()) implies
            #[trigger] among(more, id, i) by {
            assert(among(packets, id, i));
        }
    }
}

/// A frame that waits to be taken is the one whose packets are all there.
proof fn lemma_which_is_complete(
    state: ReassemblerModel,
    a: SentFrame,
    b: SentFrame,
    of_a: Seq<VideoPacket>,
    of_b: Seq<VideoPacket>,
    i: int,
)
    requires
        a.wf(),
        b.wf(),
        a.frame_id != b.frame_id,
        forall|k: int| 0 <= k < of_a.len() ==> a.has(#[trigger] of_a[k]),
        forall|k: int| 0 <= k < of_b.len() ==> b.has(#[trigger] of_b[k]),
        holds_two(state, a, b, of_a, of_b),
        0 <= i < state.slots.len(),
        state.slots[i] is Some,
    ensures
        state.slots[i]->0.frame_id == a.frame_id ==> brought_by(state.slots[i]->0, a, of_a) && (
        state.slots[i]->0.complete() <==> a.is_all_of(of_a)),
        state.slots[i]->0.frame_id == b.frame_id ==> brought_by(state.slots[i]->0, b, of_b) && (
        state.slots[i]->0.complete() <==> b.is_all_of(of_b)),
{
    if state.slots[i]->0.frame_id == a.frame_id {
        assert(holds(state.slots[i], a.frame_id));
        let j = choose|j: int| is_held_at(state.slots, a, of_a, j);
        assert(is_held_at(state.slots, a, of_a, j));
        assert(i == j);
        lemma_complete_where_all_are_there(state.slots[i]->0, a, of_a);
    } else {
        assert(holds(state.slots[i], b.frame_id));
        let j = choose|j: int| is_held_at(state.slots, b, of_b, j);
        assert(is_held_at(state.slots, b, of_b, j));
        assert(i == j);
        lemma_complete_where_all_are_there(state.slots[i]->0, b, of_b);
    }
}

/// After the older of two frames was taken, the rest of the newer one is still taken in, and what
/// comes again of the older one is stale.
proof fn lemma_the_rest_arrives(
    taken: ReassemblerModel,
    a: SentFrame,
    b: SentFrame,
    first: Seq<VideoPacket>,
    rest: Seq<VideoPacket>,
)
    requires
        a.wf(),
        b.wf(),
        is_ahead(b.frame_id, a.frame_id),
        forall|k: int| 0 <= k < first.len() ==> b.has(#[trigger] first[k]),
        forall|k: int| 0 <= k < rest.len() ==> a.has(#[trigger] rest[k]) || b.has(rest[k]),
        holds_two(taken, b, a, first, Seq::empty()),
        taken.last_delivered == Some(a.frame_id),
    ensures
        ({
            let state = taken.pushed(rest);
            &&& holds_two(
                state,
                b,
                a,
                first + of_frame(rest, b.frame_id),
                Seq::<VideoPacket>::empty(),
            )
            &&& state.last_delivered == Some(a.frame_id)
        }),
    decreases rest.len(),
{
    if rest.len() == 0 {
        reveal(Seq::filter);
        assert(first + of_frame(rest, b.frame_id) =~= first);
    } else {
        let before = rest.drop_last();
        let packet = rest.last();
        assert(before.push(packet) =~= rest);
        assert(rest[rest.len() - 1] == packet);
        assert forall|k: int| 0 <= k < before.len() implies a.has(#[trigger] before[k]) || b.has(
            before[k],
        ) by {
            assert(before[k] == rest[k]);
        }
        lemma_of_frame(before, packet, b.frame_id);
        lemma_of_frame_has(before, b, a);
        lemma_the_rest_arrives(taken, a, b, first, before);
        let state = taken.pushed(before);
        let of_b = first + of_frame(before, b.frame_id);
        assert forall|k: int| 0 <= k < of_b.len() implies b.has(#[trigger] of_b[k]) by {
            if k >= first.len() {
                assert(of_b[k] == of_frame(before, b.frame_id)[k - first.len()]);
            } else {
                assert(of_b[k] == first[k]);
            }
        }
        if b.has(packet) {
            if let Some(i) = state.completed {
                assert(!holds(state.slots[i], a.frame_id));
            }
            lemma_two_and_one_more(state, b, a, of_b, Seq::empty(), packet);
            assert(first + of_frame(rest, b.frame_id) =~= of_b.push(packet));
        } else {
            lemma_sent_is_plausible(a, packet);
            assert(state.pushing(packet) == (state, PushOutcome::Stale));
        }
    }
}

/// Two frames that overlap on the way are both delivered. Their packets come interleaved in any
/// order and with any repeats; the older one is taken when the last of its packets arrives, and
/// the newer one when the rest of it has. Each is the frame that was sent, and nothing is counted
/// as dropped.
pub proof fn frames_that_overlap_are_both_delivered(
    capacity: nat,
    a: SentFrame,
    b: SentFrame,
    first: Seq<VideoPacket>,
    last: VideoPacket,
    rest: Seq<VideoPacket>,
)
    requires
        capacity >= 2,
        a.wf(),
        b.wf(),
        is_ahead(b.frame_id, a.frame_id),
        forall|k: int| 0 <= k < first.len() ==> a.has(#[trigger] first[k]) || b.has(first[k]),
        forall|k: int| 0 <= k < rest.len() ==> a.has(#[trigger] rest[k]) || b.has(rest[k]),
        a.has(last),
        !a.is_all_of(of_frame(first, a.frame_id)),
        !b.is_all_of(of_frame(first, b.frame_id)),
        a.is_all_of(of_frame(first, a.frame_id).push(last)),
        b.is_all_of(of_frame(first, b.frame_id) + of_frame(rest, b.frame_id)),
    ensures
        ({
            let arrived = ReassemblerModel::fresh(capacity).pushed(first.push(last));
            let taken = arrived.taking();
            let later = taken.pushed(rest);
            &&& arrived.completed matches Some(i)
            &&& arrived.slots[i] matches Some(older)
            &&& older.frame_id == a.frame_id && older.capture_ts_us == a.capture_ts_us
            &&& older.assembled == whole(a.slices)
            &&& taken.stats.completed == 1
            &&& taken.stats.dropped_incomplete == 0
            &&& later.completed matches Some(j)
            &&& later.slots[j] matches Some(newest)
            &&& newest.frame_id == b.frame_id && newest.capture_ts_us == b.capture_ts_us
            &&& newest.assembled == whole(b.slices)
            &&& later.stats.dropped_incomplete == 0
        }),
{
    let fresh = ReassemblerModel::fresh(capacity);
    let (of_a, of_b) = (of_frame(first, a.frame_id), of_frame(first, b.frame_id));
    lemma_two_arriving(capacity, a, b, first);
    lemma_of_frame_has(first, a, b);
    lemma_of_frame_has(first, b, a);
    let before = fresh.pushed(first);
    lemma_two_and_one_more(before, a, b, of_a, of_b, last);
    assert(first.push(last).drop_last() =~= first);
    let arrived = fresh.pushed(first.push(last));
    let more = of_a.push(last);
    assert forall|k: int| 0 <= k < more.len() implies a.has(#[trigger] more[k]) by {
        if k < of_a.len() {
            assert(more[k] == of_a[k]);
        }
    }
    let i = choose|i: int| is_held_at(arrived.slots, a, more, i);
    assert(is_held_at(arrived.slots, a, more, i));
    lemma_which_is_complete(arrived, a, b, more, of_b, i);
    assert(arrived.completed == Some(i));
    let taken = arrived.taking();
    assert(taken.slots.len() == arrived.slots.len());
    assert forall|j: int| 0 <= j < arrived.slots.len() && j != i implies #[trigger] taken.slots[j]
        == arrived.slots[j] by {
        if arrived.slots[j] is Some {
            assert(!holds(arrived.slots[j], a.frame_id));
        }
    }
    assert(outlived_count(arrived.slots, i, a.frame_id) == 0) by {
        lemma_outlived_set(arrived.slots, i, a.frame_id);
        assert forall|j: int| !#[trigger] outlived_set(arrived.slots, i, a.frame_id).contains(j) by {
            if 0 <= j < arrived.slots.len() && j != i && arrived.slots[j] is Some {
                assert(!holds(arrived.slots[j], a.frame_id));
            }
        }
        assert(outlived_set(arrived.slots, i, a.frame_id) =~= Set::empty());
    }
    assert(is_held(taken.slots, b, of_b)) by {
        if of_b.len() > 0 {
            let j = choose|j: int| is_held_at(arrived.slots, b, of_b, j);
            assert(is_held_at(arrived.slots, b, of_b, j));
            assert(j != i);
            assert(taken.slots[j] == arrived.slots[j]);
            assert forall|k: int| 0 <= k < taken.slots.len() && k != j implies !holds(
                #[trigger] taken.slots[k],
                b.frame_id,
            ) by {
                assert(!holds(arrived.slots[k], b.frame_id));
            }
            assert(is_held_at(taken.slots, b, of_b, j));
        } else {
            assert forall|k: int| 0 <= k < taken.slots.len() implies !holds(
                #[trigger] taken.slots[k],
                b.frame_id,
            ) by {
                assert(!holds(arrived.slots[k], b.frame_id));
            }
        }
    }
    assert(is_held(taken.slots, a, Seq::<VideoPacket>::empty())) by {
        assert forall|k: int| 0 <= k < taken.slots.len() implies !holds(
            #[trigger] taken.slots[k],
            a.frame_id,
        ) by {
            assert(k != i ==> !holds(arrived.slots[k], a.frame_id));
        }
    }
    assert forall|j: int| 0 <= j < taken.slots.len() && (#[trigger] taken.slots[j]) is Some implies
        taken.slots[j]->0.frame_id == b.frame_id && !taken.slots[j]->0.complete() by {
        assert(taken.slots[j] == arrived.slots[j]);
        assert(!holds(arrived.slots[j], a.frame_id));
    }
    assert(holds_two(taken, b, a, of_b, Seq::empty()));
    lemma_the_rest_arrives(taken, a, b, of_b, rest);
    lemma_of_frame_has(rest, b, a);
    let later = taken.pushed(rest);
    let all_b = of_b + of_frame(rest, b.frame_id);
    assert(among(all_b, 0, 0)) by {
        lemma_packet_count(b.slices[0].len());
    }
    assert(all_b.len() > 0);
    let j = choose|j: int| is_held_at(later.slots, b, all_b, j);
    assert(is_held_at(later.slots, b, all_b, j));
    lemma_which_is_complete(later, b, a, all_b, Seq::empty(), j);
}

/// Where every slot holds another frame and none waits to be taken, a packet of one more frame
/// either comes too late for all of them or displaces the one that all others are ahead of: that
/// one alone is gone and counted as dropped.
pub proof fn only_the_oldest_is_displaced(
    state: ReassemblerModel,
    packet: VideoPacket,
    oldest_at: int,
    base: u32,
)
    requires
        state.wf(),
        plausible(packet),
        state.completed is None,
        !state.too_late(packet.frame_id),
        state.stats.has_room(1),
        forall|i: int|
            0 <= i < state.slots.len() ==> (#[trigger] state.slots[i]) is Some
                && state.slots[i]->0.frame_id != packet.frame_id && (state.slots[i]->0.frame_id
                - base) % 0x1_0000_0000 < 0x8000_0000,
        0 <= oldest_at < state.slots.len(),
        forall|i: int|
            0 <= i < state.slots.len() && i != oldest_at ==> is_ahead(
                (#[trigger] state.slots[i])->0.frame_id,
                state.slots[oldest_at]->0.frame_id,
            ),
    ensures
        ({
            let (after, outcome) = state.pushing(packet);
            let oldest_id = state.slots[oldest_at]->0.frame_id;
            &&& forall|i: int|
                0 <= i < state.slots.len() && i != oldest_at ==> #[trigger] after.slots[i]
                    == state.slots[i]
            &&& if is_ahead(oldest_id, packet.frame_id) {
                outcome == PushOutcome::Stale && after == state
            } else {
                &&& outcome == PushOutcome::Accepted || outcome == PushOutcome::FrameComplete
                &&& after.slots[oldest_at] matches Some(frame)
                &&& frame.frame_id == packet.frame_id
                &&& frame.capture_ts_us == packet.capture_ts_us
                &&& after.stats.dropped_incomplete == state.stats.dropped_incomplete + 1
            }
        }),
{
    lemma_holder(state.slots, packet.frame_id);
    lemma_first_free(state.slots);
    assert(holder(state.slots, packet.frame_id) is None);
    assert(first_free(state.slots) is None);
    lemma_the_oldest_is(state.slots, oldest_at, base);
    lemma_ahead_is_newer(state.slots[oldest_at]->0.frame_id, packet.frame_id);
    assert(state.discarding(packet.frame_id) == state);
    let (after, outcome) = state.pushing(packet);
    if !newer(state.slots[oldest_at]->0.frame_id, packet.frame_id) {
        let claimed = state.claiming(packet.frame_id, packet.capture_ts_us);
        let started = FrameModel::started(packet.frame_id, packet.capture_ts_us);
        assert(claimed.slots == state.slots.update(oldest_at, Some(started)));
        assert(started.slice(packet.slice_id as int) is None);
        let slice = slice_with(None, packet)->Ok_0;
        let stored = started.storing(packet, slice);
        assert(after == claimed.keeping(oldest_at, stored, slice_repaired(None, packet)));
        assert(after.slots == claimed.slots.update(oldest_at, Some(stored.settled())));
    }
}

/// Being ahead is being newer.
proof fn lemma_ahead_is_newer(frame_id: u32, base: u32)
    ensures
        is_ahead(frame_id, base) == newer(frame_id, base),
        is_ahead(frame_id, base) ==> !is_ahead(base, frame_id),
{
}

/// The frame that all others are ahead of is the oldest.
proof fn lemma_the_oldest_is(slots: Seq<Option<FrameModel>>, oldest_at: int, base: u32)
    requires
        forall|i: int|
            0 <= i < slots.len() ==> (#[trigger] slots[i]) is Some && frames_past(
                slots[i]->0.frame_id,
                base,
            ) < 0x8000_0000,
        forall|i: int, j: int|
            0 <= i < j < slots.len() ==> (#[trigger] slots[i])->0.frame_id != (
            #[trigger] slots[j])->0.frame_id,
        0 <= oldest_at < slots.len(),
        forall|i: int|
            0 <= i < slots.len() && i != oldest_at ==> is_ahead(
                (#[trigger] slots[i])->0.frame_id,
                slots[oldest_at]->0.frame_id,
            ),
    ensures
        oldest(slots) == oldest_at,
{
    the_oldest_frame_gives_way(slots, base);
    let found = oldest(slots);
    if found != oldest_at {
        let (a, b) = (slots[found]->0.frame_id, slots[oldest_at]->0.frame_id);
        assert(is_ahead(a, b));
        assert(newer(b, a));
        lemma_ahead_is_newer(a, b);
        lemma_ahead_is_newer(b, a);
    }
}

/// A completed frame that is not taken gives way to the next packet of another frame: it is gone
/// and counted as dropped, and is never delivered.
pub proof fn an_untaken_frame_is_dropped(
    state: ReassemblerModel,
    packet: VideoPacket,
    index: int,
)
    requires
        state.wf(),
        plausible(packet),
        !state.too_late(packet.frame_id),
        state.stats.has_room(2),
        state.completed == Some(index),
        state.slots[index]->0.frame_id != packet.frame_id,
    ensures
        ({
            let after = state.pushing(packet).0;
            let waiting = state.slots[index]->0.frame_id;
            &&& after.stats.dropped_incomplete == state.stats.dropped_incomplete + 1
            &&& forall|i: int|
                0 <= i < after.slots.len() && (#[trigger] after.slots[i]) is Some
                    ==> after.slots[i]->0.frame_id != waiting
            &&& after.completed != Some(index) || after.slots[index]->0.frame_id == packet.frame_id
            &&& after.last_delivered == state.last_delivered
        }),
{
    let cleared = state.discarding(packet.frame_id);
    lemma_holder(cleared.slots, packet.frame_id);
    lemma_first_free(cleared.slots);
    assert(cleared.slots[index] is None);
    assert forall|i: int| 0 <= i < cleared.slots.len() && (#[trigger] cleared.slots[i]) is Some
        implies cleared.slots[i]->0.frame_id != state.slots[index]->0.frame_id by {
        assert(state.slots[i] is Some && state.slots[index] is Some);
    }
}

/// Nothing older than what was delivered is ever taken in: a packet of a frame that is not ahead of
/// the last one delivered is stale and changes nothing.
pub proof fn what_comes_too_late_is_stale(
    state: ReassemblerModel,
    packet: VideoPacket,
    delivered: u32,
)
    requires
        plausible(packet),
        state.last_delivered == Some(delivered),
        !is_ahead(packet.frame_id, delivered),
    ensures
        state.pushing(packet) == (state, PushOutcome::Stale),
{
}

/// A packet that contradicts itself is refused and changes nothing: one past the end of its slice,
/// one that is empty or too long, one that is short without being the last, or one of a slice no
/// frame has.
pub proof fn a_packet_that_contradicts_itself_is_refused(
    state: ReassemblerModel,
    packet: VideoPacket,
)
    requires
        packet.pkt_idx >= packet.pkt_count || packet.payload@.len() == 0 || packet.payload@.len()
            > 1180 || packet.slice_id >= 64 || (packet.pkt_idx + 1 < packet.pkt_count
            && packet.payload@.len() < 1180),
    ensures
        state.pushing(packet) == (state, PushOutcome::Invalid),
{
}

/// A slice of which as many shards are there as it has packets is rebuilt, whichever they are, and
/// one of which fewer are there is left as it is.
pub proof fn as_many_shards_as_packets_rebuild_a_slice(slice: SliceModel)
    requires
        slice.present.len() > 0,
        slice.parity.rows.len() > 0,
        slice.parity.flags.len() == slice.parity.rows.len(),
        slice.present.len() + slice.parity.rows.len() <= 255,
    ensures
        ({
            let there = Set::new(|i: int| 0 <= i < slice.present.len() && slice.present[i]);
            let parity = Set::new(
                |i: int| 0 <= i < slice.parity.flags.len() && slice.parity.flags[i],
            );
            &&& there.finite() && parity.finite()
            &&& there.len() + parity.len() >= slice.present.len() ==> slice.recovered().complete()
            &&& there.len() + parity.len() < slice.present.len() ==> slice.recovered() == slice
                && !slice.complete()
            &&& slice.recovered().present.len() == slice.present.len()
            &&& slice.recovered().len == slice.len
        }),
{
    a_count_is_of_what_is_set(slice.present);
    a_count_is_of_what_is_set(slice.parity.flags);
    lemma_count_set_bound(slice.present);
    lemma_count_set_bound(slice.parity.flags);
}

/// A parity shard disturbs no frame but its own, as long as its frame has a slot or there is one
/// free and no other frame is waiting to be taken.
pub proof fn a_parity_packet_disturbs_no_other_frame(
    state: ReassemblerModel,
    packet: FecPacket,
    room: int,
    i: int,
)
    requires
        state.wf(),
        0 <= room < state.slots.len(),
        state.slots[room] is None || state.slots[room]->0.frame_id == packet.frame_id,
        state.completed matches Some(index) ==> state.slots[index]->0.frame_id == packet.frame_id,
        0 <= i < state.slots.len(),
        state.slots[i] matches Some(frame) && frame.frame_id != packet.frame_id,
    ensures
        state.pushing_fec(packet).0.slots[i] == state.slots[i],
        state.pushing_fec(packet).0.slots.len() == state.slots.len(),
        state.pushing_fec(packet).0.stats.dropped_incomplete == state.stats.dropped_incomplete,
        state.pushing_fec(packet).0.stats.completed == state.stats.completed,
        state.pushing_fec(packet).0.last_delivered == state.last_delivered,
        state.pushing_fec(packet).0.completed != Some(i),
{
    lemma_holder(state.slots, packet.frame_id);
    lemma_first_free(state.slots);
    assert(holder(state.slots, packet.frame_id) is None ==> !holds(
        state.slots[room],
        packet.frame_id,
    ));
}

/// A parity shard makes up for a packet that was lost: the slice it protects is whole once the
/// shard is the one that brings what is there, packets and shards, up to as many as the slice has
/// packets. Short of that the shard is kept, with the length of the slice that it states.
pub proof fn a_parity_packet_makes_up_for_a_lost_one(known: SliceModel, packet: FecPacket)
    requires
        known.wf(),
        0 < known.present.len() == packet.data_count,
        packet.data_count + packet.parity_count <= 255,
        packet.shard_index < packet.parity_count,
        packet.payload@.len() == 1180,
        known.parity.rows.len() == packet.parity_count,
        !known.parity.flags[packet.shard_index as int],
    ensures
        ({
            let result = slice_with_parity(Some(known), packet);
            let index = packet.shard_index as int;
            let there = Set::new(|i: int| 0 <= i < known.present.len() && known.present[i]);
            let spare = Set::new(
                |i: int| 0 <= i < known.parity.flags.len() && known.parity.flags[i],
            );
            &&& result.stored
            &&& result.slice.parity.flags[index]
            &&& result.slice.parity.rows[index] == packet.payload@
            &&& result.slice.len == packet.spec_slice_len()
            &&& result.slice.present == known.present && result.slice.data == known.data
            &&& there.len() + spare.len() + 1 >= known.present.len()
                ==> result.slice.recovered().complete()
        }),
{
    let after = slice_with_parity(Some(known), packet).slice;
    a_count_is_of_what_is_set(known.present);
    a_count_is_of_what_is_set(known.parity.flags);
    lemma_count_set_update(known.parity.flags, packet.shard_index as int);
    a_count_is_of_what_is_set(after.parity.flags);
    as_many_shards_as_packets_rebuild_a_slice(after);
}

/// A parity shard that describes another block than the packets do is refused, and leaves what is
/// there of the slice as it was.
pub proof fn a_parity_packet_of_another_block_is_refused(known: SliceModel, packet: FecPacket)
    requires
        known.present.len() != packet.data_count || packet.payload@.len() != 1180,
    ensures
        !slice_with_parity(Some(known), packet).stored,
        slice_with_parity(Some(known), packet).slice == known,
{
}

} // verus!
