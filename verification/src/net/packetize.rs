//! Splitting encoded slices into wire packets.
//!
//! The encoder hands out slices as they complete, and each slice is cut into packets small
//! enough to survive the path MTU. Slicing is what lets a frame start moving before it has
//! finished encoding, which is worth roughly half a frame time at the target frame rates.
//!
//! Nothing here allocates. [`SlicePacketizer`] borrows the encoder's bitstream and yields
//! packets whose payloads are subslices of it; the caller serialises each one into a send buffer
//! it owns and reuses.

use vstd::prelude::*;

use crate::net::fec::{lemma_cut, lemma_row_inside, shard_count_of};
use crate::net::packet::{VideoPacket, MAX_VIDEO_PAYLOAD};

verus! {

/// Largest slice this module can packetise, bounded by the `u16` packet counter.
pub const MAX_SLICE_LEN: usize = 65535 * MAX_VIDEO_PAYLOAD;

/// Reason a slice could not be packetised.
#[derive(Debug, Clone, Copy, PartialEq, Eq, Structural)]
pub enum PacketizeError {
    /// Slice had no bytes. An encoder that emits an empty slice is malfunctioning.
    EmptySlice,
    /// Slice would need more than `u16::MAX` packets.
    SliceTooLarge {
        /// Slice length that was rejected.
        actual: usize,
    },
}

/// Why a slice of `len` bytes cannot be cut into packets, if it cannot.
pub open spec fn slice_error(len: nat) -> Option<PacketizeError> {
    if len == 0 {
        Some(PacketizeError::EmptySlice)
    } else if len > MAX_SLICE_LEN {
        Some(PacketizeError::SliceTooLarge { actual: len as usize })
    } else {
        None
    }
}

/// How many packets a slice of `len` bytes is cut into.
pub open spec fn packets_for(len: nat) -> nat {
    shard_count_of(len, MAX_VIDEO_PAYLOAD as nat)
}

/// What packet `index` of a slice carries: full packets, and the rest in the last one.
pub open spec fn fragment(slice: Seq<u8>, index: int) -> Seq<u8> {
    let start = index * MAX_VIDEO_PAYLOAD;
    let end = (index + 1) * MAX_VIDEO_PAYLOAD;
    slice.subrange(
        start,
        if end < slice.len() {
            end
        } else {
            slice.len() as int
        },
    )
}

/// The first `count` fragments of a slice put end to end.
pub open spec fn fragments_joined(slice: Seq<u8>, count: nat) -> Seq<u8>
    decreases count,
{
    if count == 0 {
        Seq::empty()
    } else {
        fragments_joined(slice, (count - 1) as nat) + fragment(slice, count - 1)
    }
}

/// A slice is its fragments put end to end: nothing is lost, repeated or reordered by cutting it.
pub proof fn fragments_make_up_the_slice(slice: Seq<u8>)
    requires
        slice.len() > 0,
    ensures
        fragments_joined(slice, packets_for(slice.len())) == slice,
{
    let count = packets_for(slice.len());
    lemma_cut(slice.len() as int, MAX_VIDEO_PAYLOAD as int);
    lemma_joined_prefix(slice, (count - 1) as nat);
    assert(count * MAX_VIDEO_PAYLOAD == (count - 1) * MAX_VIDEO_PAYLOAD + MAX_VIDEO_PAYLOAD)
        by (nonlinear_arith);
    assert(fragments_joined(slice, count) =~= slice);
}

/// Full fragments put end to end are a prefix of the slice.
proof fn lemma_joined_prefix(slice: Seq<u8>, count: nat)
    requires
        count * MAX_VIDEO_PAYLOAD <= slice.len(),
    ensures
        fragments_joined(slice, count) == slice.take((count * MAX_VIDEO_PAYLOAD) as int),
    decreases count,
{
    if count > 0 {
        lemma_row_inside(count - 1, count as int, MAX_VIDEO_PAYLOAD as int);
        lemma_joined_prefix(slice, (count - 1) as nat);
        assert(fragments_joined(slice, count) =~= slice.take((count * MAX_VIDEO_PAYLOAD) as int));
    } else {
        assert(count * MAX_VIDEO_PAYLOAD == 0) by (nonlinear_arith)
            requires
                count == 0,
        ;
        assert(slice.take(0) =~= Seq::<u8>::empty());
    }
}

/// Cuts one encoded slice into [`VideoPacket`]s.
///
/// Yields packets in order, each carrying at most [`MAX_VIDEO_PAYLOAD`] bytes, with `pkt_idx`
/// counting up and `pkt_count` fixed for the whole slice so the receiver knows when the slice is
/// complete. Every packet repeats the frame's `capture_ts_us`, which is what lets the receiver
/// compute end-to-end latency from any packet that arrives.
#[derive(Debug, Clone)]
pub struct SlicePacketizer<'a> {
    frame_id: u32,
    slice_id: u16,
    flags: u8,
    capture_ts_us: u64,
    data: &'a [u8],
    next_idx: u16,
    pkt_count: u16,
}

impl<'a> SlicePacketizer<'a> {
    /// The slice being cut.
    pub closed spec fn slice(&self) -> Seq<u8> {
        self.data@
    }

    /// How many packets have been handed out.
    pub closed spec fn handed_out(&self) -> nat {
        self.next_idx as nat
    }

    /// The frame counter, the slice index, the flags and the timestamp every packet carries.
    pub closed spec fn header(&self) -> (u32, u16, u8, u64) {
        (self.frame_id, self.slice_id, self.flags, self.capture_ts_us)
    }

    /// The slice can be cut, and no more packets have been handed out than it has.
    pub closed spec fn wf(&self) -> bool {
        &&& slice_error(self.data@.len()) is None
        &&& self.pkt_count == packets_for(self.data@.len())
        &&& self.next_idx <= self.pkt_count
    }

    /// Whether a packet is packet `index` of the slice.
    pub open spec fn makes(&self, packet: VideoPacket, index: int) -> bool {
        &&& (packet.frame_id, packet.slice_id, packet.flags, packet.capture_ts_us) == self.header()
        &&& packet.pkt_idx == index
        &&& packet.pkt_count == packets_for(self.slice().len())
        &&& packet.payload@ == fragment(self.slice(), index)
    }

    /// Prepares to cut `data` into packets for the given frame and slice.
    ///
    /// `flags` is applied unchanged to every packet of the slice, so the caller sets
    /// [`FLAG_LAST_OF_FRAME`](crate::net::packet::FLAG_LAST_OF_FRAME) only on the slice that
    /// actually ends the frame.
    pub fn new(
        frame_id: u32,
        slice_id: u16,
        flags: u8,
        capture_ts_us: u64,
        data: &'a [u8],
    ) -> (packetizer: Result<SlicePacketizer<'a>, PacketizeError>)
        ensures
            match packetizer {
                Ok(packetizer) => {
                    &&& slice_error(data@.len()) is None
                    &&& packetizer.wf()
                    &&& packetizer.slice() == data@
                    &&& packetizer.handed_out() == 0
                    &&& packetizer.header() == (frame_id, slice_id, flags, capture_ts_us)
                },
                Err(error) => slice_error(data@.len()) == Some(error),
            },
    {
        if data.len() == 0 {
            return Err(PacketizeError::EmptySlice);
        }
        if data.len() > MAX_SLICE_LEN {
            return Err(PacketizeError::SliceTooLarge { actual: data.len() });
        }
        proof {
            lemma_packet_count(data@.len());
        }
        let pkt_count: u16 = ((data.len() - 1) / MAX_VIDEO_PAYLOAD + 1) as u16;
        Ok(
            SlicePacketizer {
                frame_id,
                slice_id,
                flags,
                capture_ts_us,
                data,
                next_idx: 0,
                pkt_count,
            },
        )
    }

    /// Returns how many packets this slice will produce.
    ///
    /// Known up front, because the receiver needs `pkt_count` in the very first packet it sees
    /// in order to size its reassembly state.
    #[must_use]
    pub fn packet_count(&self) -> (count: u16)
        requires
            self.wf(),
        ensures
            count == packets_for(self.slice().len()),
    {
        self.pkt_count
    }

    /// Yields the next packet of the slice, or `None` once the slice is exhausted.
    pub fn next(&mut self) -> (packet: Option<VideoPacket<'a>>)
        requires
            old(self).wf(),
        ensures
            final(self).wf(),
            final(self).slice() == old(self).slice(),
            final(self).header() == old(self).header(),
            match packet {
                Some(packet) => {
                    &&& old(self).handed_out() < packets_for(old(self).slice().len())
                    &&& old(self).makes(packet, old(self).handed_out() as int)
                    &&& final(self).handed_out() == old(self).handed_out() + 1
                },
                None => {
                    &&& old(self).handed_out() == packets_for(old(self).slice().len())
                    &&& *final(self) == *old(self)
                },
            },
    {
        if self.next_idx >= self.pkt_count {
            return None;
        }
        proof {
            lemma_cut(self.data@.len() as int, MAX_VIDEO_PAYLOAD as int);
            lemma_row_inside(
                self.next_idx as int,
                self.pkt_count as int,
                MAX_VIDEO_PAYLOAD as int,
            );
            assert(self.next_idx * MAX_VIDEO_PAYLOAD <= (self.pkt_count - 1) * MAX_VIDEO_PAYLOAD)
                by (nonlinear_arith)
                requires
                    self.next_idx <= self.pkt_count - 1,
                    MAX_VIDEO_PAYLOAD > 0,
            ;
        }
        let start: usize = self.next_idx as usize * MAX_VIDEO_PAYLOAD;
        let end: usize = if self.data.len() - start > MAX_VIDEO_PAYLOAD {
            start + MAX_VIDEO_PAYLOAD
        } else {
            self.data.len()
        };
        let packet = VideoPacket {
            frame_id: self.frame_id,
            slice_id: self.slice_id,
            pkt_idx: self.next_idx,
            pkt_count: self.pkt_count,
            flags: self.flags,
            capture_ts_us: self.capture_ts_us,
            payload: &self.data[start..end],
        };
        self.next_idx = self.next_idx + 1;
        Some(packet)
    }

    /// Reports the exact number of packets still to come.
    pub fn size_hint(&self) -> (hint: (usize, Option<usize>))
        requires
            self.wf(),
        ensures
            hint.0 == packets_for(self.slice().len()) - self.handed_out(),
            hint.1 == Some(hint.0),
    {
        let remaining: usize = (self.pkt_count - self.next_idx) as usize;
        (remaining, Some(remaining))
    }
}

/// A slice that can be cut has at least one packet and no more than the counter can say.
pub proof fn lemma_packet_count(len: nat)
    requires
        slice_error(len) is None,
    ensures
        packets_for(len) == (len - 1) / MAX_VIDEO_PAYLOAD as int + 1,
        1 <= packets_for(len) <= u16::MAX,
{
    lemma_cut(len as int, MAX_VIDEO_PAYLOAD as int);
    let whole = (len - 1) / MAX_VIDEO_PAYLOAD as int;
    assert(0 <= whole <= 65534) by (nonlinear_arith)
        requires
            whole == (len - 1) / 1180,
            0 < len <= 65535 * 1180,
    ;
}

/// Every packet of a slice but the last is full, the last holds something, and there are just as
/// many of them as it takes.
pub proof fn every_packet_but_the_last_is_full(slice: Seq<u8>, index: int)
    requires
        slice_error(slice.len()) is None,
        0 <= index < packets_for(slice.len()),
    ensures
        index + 1 < packets_for(slice.len()) ==> fragment(slice, index).len() == 1180,
        1 <= fragment(slice, index).len() <= 1180,
        (packets_for(slice.len()) - 1) * 1180 < slice.len() <= packets_for(slice.len()) * 1180,
        forall|j: int|
            0 <= j < fragment(slice, index).len() ==> #[trigger] fragment(slice, index)[j]
                == slice[index * 1180 + j],
{
    let len = slice.len() as int;
    let count = packets_for(slice.len()) as int;
    let p = MAX_VIDEO_PAYLOAD as int;
    lemma_cut(len, p);
    lemma_row_inside(index, count, p);
    assert(index * p <= (count - 1) * p) by (nonlinear_arith)
        requires
            index <= count - 1,
            p >= 0,
    ;
    assert(count * p == (count - 1) * p + p) by (nonlinear_arith);
    if index + 1 < count {
        assert((index + 1) * p <= (count - 1) * p) by (nonlinear_arith)
            requires
                index + 1 <= count - 1,
                p >= 0,
        ;
    }
}

} // verus!
