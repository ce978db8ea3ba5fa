//! Prism wire format.
//!
//! All multi-byte fields are little-endian. Encoding writes into a caller-supplied buffer and
//! decoding borrows from the input, so nothing on the frame path allocates.
//!
//! Each kind of packet has a `wire` spec function, which is its layout, and a `parse` spec
//! function, which is what its decoder makes of any bytes. The `*_round_trip` lemmas tie the
//! two together.

use vstd::prelude::*;

use crate::bytes::{
    byte_range, le_at, le_bytes, lemma_byte_ranges, lemma_le_bytes_len, lemma_le_bytes_of_value,
    lemma_le_value_of_bytes, lemma_nothing_overwritten, overwritten, put_byte, put_bytes, put_le,
    read_u16, read_u32, read_u64,
};

verus! {

/// Wire format revision. Bumped on any incompatible layout change.
pub const FORMAT_VERSION: u32 = 1;

/// Maximum UDP payload in bytes, held under the safe PMTU floor so packets never fragment.
pub const MAX_PACKET_SIZE: usize = 1200;

/// Bytes sealing adds to a packet: an eight-byte counter and a sixteen-byte tag.
pub const SEAL_OVERHEAD: usize = 24;

/// Largest packet that still fits in [`MAX_PACKET_SIZE`] once it has been sealed.
pub const MAX_PLAINTEXT_SIZE: usize = MAX_PACKET_SIZE - SEAL_OVERHEAD;

/// Byte length of a video packet header, including the leading channel tag.
pub const VIDEO_HEADER_LEN: usize = 20;

/// Largest slice fragment that fits in one video packet.
pub const MAX_VIDEO_PAYLOAD: usize = MAX_PACKET_SIZE - VIDEO_HEADER_LEN;

/// Exact byte length of a feedback packet; it carries no variable-length payload.
pub const FEEDBACK_PACKET_LEN: usize = 17;

/// Byte length of a control packet header: the channel tag and the message type.
pub const CONTROL_HEADER_LEN: usize = 2;

/// Exact byte length of a clock synchronisation ping.
pub const CLOCK_PING_LEN: usize = 10;

/// Exact byte length of a clock synchronisation pong.
pub const CLOCK_PONG_LEN: usize = 26;

/// Exact byte length of an input event packet.
pub const INPUT_PACKET_LEN: usize = 15;

/// Exact byte length of a cursor position message.
pub const CURSOR_POSITION_LEN: usize = 18;

/// Reserved video flag bits; any packet setting one of these is rejected.
pub const VIDEO_FLAGS_RESERVED_MASK: u8 = 0xf8;

/// Slice belongs to an IDR frame.
pub const FLAG_IDR: u8 = 0x01;

/// Slice is the last one of its frame.
pub const FLAG_LAST_OF_FRAME: u8 = 0x02;

/// Frame is marked as a long-term reference.
pub const FLAG_LTR_REF: u8 = 0x04;

/// Channel tag carried in the first byte of every packet.
///
/// A single UDP flow multiplexes all five channels. The tag is read before anything else and
/// decides which decoder handles the remaining bytes.
#[derive(Debug, Clone, Copy, PartialEq, Eq, Structural)]
pub enum Channel {
    /// Session setup, codec negotiation, and cursor updates.
    Control,
    /// Encoded video slices, host to client.
    Video,
    /// Opus frames, host to client.
    Audio,
    /// Keyboard, mouse, and gamepad events, client to host.
    Input,
    /// Frame acknowledgements and clock sync samples, client to host.
    Feedback,
}

impl Channel {
    /// The byte this channel is written as.
    pub open spec fn spec_tag(self) -> u8 {
        match self {
            Channel::Control => 0,
            Channel::Video => 1,
            Channel::Audio => 2,
            Channel::Input => 3,
            Channel::Feedback => 4,
        }
    }

    /// Returns the byte this channel is written as.
    pub fn tag(self) -> (tag: u8)
        ensures
            tag == self.spec_tag(),
    {
        match self {
            Channel::Control => 0,
            Channel::Video => 1,
            Channel::Audio => 2,
            Channel::Input => 3,
            Channel::Feedback => 4,
        }
    }
}

impl vstd::std_specs::convert::TryFromSpecImpl<u8> for Channel {
    open spec fn obeys_try_from_spec() -> bool {
        true
    }

    open spec fn try_from_spec(tag: u8) -> Result<Self, ProtocolError> {
        if tag == 0 {
            Ok(Channel::Control)
        } else if tag == 1 {
            Ok(Channel::Video)
        } else if tag == 2 {
            Ok(Channel::Audio)
        } else if tag == 3 {
            Ok(Channel::Input)
        } else if tag == 4 {
            Ok(Channel::Feedback)
        } else {
            Err(ProtocolError::UnknownChannel(tag))
        }
    }
}

impl TryFrom<u8> for Channel {
    type Error = ProtocolError;

    /// Converts a raw tag byte into a [`Channel`].
    ///
    /// Unknown tags are rejected rather than ignored, so a channel added in a future revision
    /// can never be silently misrouted into an existing decoder.
    fn try_from(tag: u8) -> (channel: Result<Self, ProtocolError>) {
        match tag {
            0 => Ok(Channel::Control),
            1 => Ok(Channel::Video),
            2 => Ok(Channel::Audio),
            3 => Ok(Channel::Input),
            4 => Ok(Channel::Feedback),
            other => Err(ProtocolError::UnknownChannel(other)),
        }
    }
}

/// Message type carried in the second byte of a control packet.
#[derive(Debug, Clone, Copy, PartialEq, Eq, Structural)]
pub enum ControlType {
    /// Client's half of a clock synchronisation exchange.
    ClockPing,
    /// Host's answer, carrying both of its own timestamps.
    ClockPong,
    /// Where the host's pointer is, so the client can draw the cursor itself.
    CursorPosition,
}

impl ControlType {
    /// The byte this message type is written as.
    pub open spec fn spec_tag(self) -> u8 {
        match self {
            ControlType::ClockPing => 0,
            ControlType::ClockPong => 1,
            ControlType::CursorPosition => 2,
        }
    }

    /// Returns the byte this message type is written as.
    pub fn tag(self) -> (tag: u8)
        ensures
            tag == self.spec_tag(),
    {
        match self {
            ControlType::ClockPing => 0,
            ControlType::ClockPong => 1,
            ControlType::CursorPosition => 2,
        }
    }
}

impl vstd::std_specs::convert::TryFromSpecImpl<u8> for ControlType {
    open spec fn obeys_try_from_spec() -> bool {
        true
    }

    open spec fn try_from_spec(tag: u8) -> Result<Self, ProtocolError> {
        if tag == 0 {
            Ok(ControlType::ClockPing)
        } else if tag == 1 {
            Ok(ControlType::ClockPong)
        } else if tag == 2 {
            Ok(ControlType::CursorPosition)
        } else {
            Err(ProtocolError::UnknownControlType(tag))
        }
    }
}

impl TryFrom<u8> for ControlType {
    type Error = ProtocolError;

    /// Converts a raw type byte into a [`ControlType`].
    ///
    /// A type this build does not know is refused rather than misread.
    fn try_from(tag: u8) -> (kind: Result<Self, ProtocolError>) {
        match tag {
            0 => Ok(ControlType::ClockPing),
            1 => Ok(ControlType::ClockPong),
            2 => Ok(ControlType::CursorPosition),
            other => Err(ProtocolError::UnknownControlType(other)),
        }
    }
}

/// Reason a byte sequence was rejected as malformed.
///
/// Decoders return this instead of a partially populated packet, so a corrupt or hostile
/// datagram can never reach the pipeline as if it were valid. Callers on the receive path
/// count the error and drop the packet.
#[allow(inconsistent_fields)]
#[derive(Debug, Clone, Copy, PartialEq, Eq, Structural)]
pub enum ProtocolError {
    /// Packet had no bytes at all, so not even the channel tag could be read.
    Empty,
    /// Leading byte was not one of the defined channel tags.
    UnknownChannel(u8),
    /// Control message type was not one this build knows.
    UnknownControlType(u8),
    /// Input event kind was not one this build knows.
    UnknownInputKind(u8),
    /// Pointer button index was not one this build knows.
    UnknownMouseButton(i16),
    /// Packet was routed to a decoder for a different channel.
    WrongChannel {
        /// Channel the decoder handles.
        expected: Channel,
        /// Tag actually found in the packet.
        got: u8,
    },
    /// Packet was shorter than the fixed header it claims to carry.
    TooShort {
        /// Bytes actually present.
        actual: usize,
        /// Bytes the layout requires.
        needed: usize,
    },
    /// Fixed-size packet did not have exactly the required length.
    WrongLength {
        /// Bytes actually present.
        actual: usize,
        /// Bytes the layout requires.
        expected: usize,
    },
    /// A reserved flag bit was set, meaning the sender speaks a format this build does not.
    ReservedFlags(u8),
    /// Slice fragment exceeded what one packet can carry.
    PayloadTooLarge {
        /// Payload length that was rejected.
        actual: usize,
    },
    /// Cursor position claimed a screen with no area.
    ///
    /// The client divides by these to place the cursor, so a zero would either crash it or
    /// silently put the cursor nowhere. A screen of no pixels is not a thing that exists.
    EmptyScreen {
        /// Width the sender claimed.
        width: u16,
        /// Height the sender claimed.
        height: u16,
    },
    /// Caller-supplied encode buffer was too small for the packet.
    BufferTooSmall {
        /// Buffer length that was supplied.
        actual: usize,
        /// Buffer length required.
        needed: usize,
    },
}

/// The channel a packet's first byte names, or why there is none.
pub open spec fn channel_parse(bytes: Seq<u8>) -> Result<Channel, ProtocolError> {
    if bytes.len() == 0 {
        Err(ProtocolError::Empty)
    } else {
        <Channel as vstd::std_specs::convert::TryFromSpec<u8>>::try_from_spec(bytes[0])
    }
}

/// Why a packet is not on the channel a decoder handles, if it is not.
pub open spec fn channel_error(bytes: Seq<u8>, expected: Channel) -> Option<ProtocolError> {
    match channel_parse(bytes) {
        Err(error) => Some(error),
        Ok(channel) => if channel == expected {
            None
        } else {
            Some(ProtocolError::WrongChannel { expected, got: bytes[0] })
        },
    }
}

/// Reads the channel tag from the first byte of a packet.
///
/// This is the only field that may be read before validation, and it decides which decoder
/// handles the rest of the bytes.
pub fn channel_of(bytes: &[u8]) -> (channel: Result<Channel, ProtocolError>)
    ensures
        channel == channel_parse(bytes@),
{
    if bytes.len() == 0 {
        return Err(ProtocolError::Empty);
    }
    Channel::try_from(bytes[0])
}

/// Checks that a packet is on the channel a decoder handles.
fn expect_channel(bytes: &[u8], expected: Channel) -> (checked: Result<(), ProtocolError>)
    ensures
        match checked {
            Ok(()) => channel_error(bytes@, expected) is None && bytes@.len() > 0,
            Err(error) => channel_error(bytes@, expected) == Some(error),
        },
{
    match channel_of(bytes) {
        Err(error) => Err(error),
        Ok(channel) => if channel == expected {
            Ok(())
        } else {
            Err(ProtocolError::WrongChannel { expected, got: bytes[0] })
        },
    }
}

/// One fragment of an encoded video slice, as carried on [`Channel::Video`].
///
/// A frame is split into slices by the encoder and each slice into packets of at most
/// [`MAX_VIDEO_PAYLOAD`] bytes. `capture_ts_us` is stamped once per frame and copied into
/// every packet of that frame, which is what anchors the end-to-end latency chain.
///
/// The payload borrows from the buffer it was decoded out of, so a decoded packet cannot
/// outlive the reassembly buffer that owns its bytes.
#[derive(Debug, Clone, PartialEq, Eq)]
pub struct VideoPacket<'a> {
    /// Monotonic frame counter, wraps at `u32::MAX`.
    pub frame_id: u32,
    /// Slice index within the frame.
    pub slice_id: u16,
    /// Packet index within the slice.
    pub pkt_idx: u16,
    /// Total packets making up this slice.
    pub pkt_count: u16,
    /// Bit flags; see [`FLAG_IDR`], [`FLAG_LAST_OF_FRAME`], and [`FLAG_LTR_REF`].
    pub flags: u8,
    /// Host clock at capture time, in microseconds.
    pub capture_ts_us: u64,
    /// Slice fragment carried by this packet.
    pub payload: &'a [u8],
}

/// Why bytes are not a video packet, if they are not.
pub open spec fn video_error(bytes: Seq<u8>) -> Option<ProtocolError> {
    match channel_error(bytes, Channel::Video) {
        Some(error) => Some(error),
        None => if bytes.len() < VIDEO_HEADER_LEN {
            Some(
                ProtocolError::TooShort { actual: bytes.len() as usize, needed: VIDEO_HEADER_LEN },
            )
        } else if bytes[11] & VIDEO_FLAGS_RESERVED_MASK != 0 {
            Some(ProtocolError::ReservedFlags(bytes[11]))
        } else {
            None
        },
    }
}

/// The bytes a video packet of these fields is written as.
pub open spec fn video_wire(
    frame_id: u32,
    slice_id: u16,
    pkt_idx: u16,
    pkt_count: u16,
    flags: u8,
    capture_ts_us: u64,
    payload: Seq<u8>,
) -> Seq<u8> {
    seq![Channel::Video.spec_tag()] + le_bytes(frame_id as nat, 4) + le_bytes(slice_id as nat, 2)
        + le_bytes(pkt_idx as nat, 2) + le_bytes(pkt_count as nat, 2) + seq![flags] + le_bytes(
        capture_ts_us as nat,
        8,
    ) + payload
}

impl<'a> VideoPacket<'a> {
    /// The bytes this packet is written as.
    pub open spec fn wire(&self) -> Seq<u8> {
        video_wire(
            self.frame_id,
            self.slice_id,
            self.pkt_idx,
            self.pkt_count,
            self.flags,
            self.capture_ts_us,
            self.payload@,
        )
    }

    /// Whether this packet is what the bytes of a video packet say.
    pub open spec fn reads_as(&self, bytes: Seq<u8>) -> bool {
        &&& self.frame_id == le_at(bytes, 1, 4)
        &&& self.slice_id == le_at(bytes, 5, 2)
        &&& self.pkt_idx == le_at(bytes, 7, 2)
        &&& self.pkt_count == le_at(bytes, 9, 2)
        &&& self.flags == bytes[11]
        &&& self.capture_ts_us == le_at(bytes, 12, 8)
        &&& self.payload@ == bytes.skip(VIDEO_HEADER_LEN as int)
    }

    /// Why this packet cannot be written into a buffer of `room` bytes, if it cannot.
    pub open spec fn encode_error(&self, room: nat) -> Option<ProtocolError> {
        if self.flags & VIDEO_FLAGS_RESERVED_MASK != 0 {
            Some(ProtocolError::ReservedFlags(self.flags))
        } else if self.payload@.len() > MAX_VIDEO_PAYLOAD {
            Some(ProtocolError::PayloadTooLarge { actual: self.payload@.len() as usize })
        } else if room < VIDEO_HEADER_LEN + self.payload@.len() {
            Some(
                ProtocolError::BufferTooSmall {
                    actual: room as usize,
                    needed: (VIDEO_HEADER_LEN + self.payload@.len()) as usize,
                },
            )
        } else {
            None
        }
    }

    /// Returns the number of bytes [`Self::encode_into`] will write.
    ///
    /// Callers size their send buffer with this before encoding, which is why encoding itself
    /// never needs to allocate.
    #[must_use]
    pub fn encoded_len(&self) -> (len: usize)
        requires
            VIDEO_HEADER_LEN + self.payload@.len() <= usize::MAX,
        ensures
            len == VIDEO_HEADER_LEN + self.payload@.len(),
            len == self.wire().len(),
    {
        broadcast use lemma_le_bytes_len;

        VIDEO_HEADER_LEN + self.payload.len()
    }

    /// Serialises this packet into `buf` and returns how many bytes were written.
    ///
    /// Writes the 20-byte header followed by the payload, all little-endian. Nothing is
    /// allocated; the caller owns the buffer and reuses it across frames. A packet that is
    /// refused leaves the buffer as it was.
    pub fn encode_into(&self, buf: &mut [u8]) -> (written: Result<usize, ProtocolError>)
        ensures
            match written {
                Ok(len) => {
                    &&& self.encode_error(old(buf)@.len()) is None
                    &&& len == self.wire().len()
                    &&& overwritten(final(buf)@, old(buf)@, self.wire())
                },
                Err(error) => {
                    &&& self.encode_error(old(buf)@.len()) == Some(error)
                    &&& final(buf)@ == old(buf)@
                },
            },
    {
        broadcast use lemma_le_bytes_len;

        if self.flags & VIDEO_FLAGS_RESERVED_MASK != 0 {
            return Err(ProtocolError::ReservedFlags(self.flags));
        }
        if self.payload.len() > MAX_VIDEO_PAYLOAD {
            return Err(ProtocolError::PayloadTooLarge { actual: self.payload.len() });
        }
        let needed: usize = self.encoded_len();
        if buf.len() < needed {
            return Err(ProtocolError::BufferTooSmall { actual: buf.len(), needed });
        }
        let ghost was = buf@;
        proof {
            lemma_nothing_overwritten(was);
        }
        put_byte(buf, 0, Channel::Video.tag());
        put_le(buf, 1, self.frame_id as u64, 4);
        put_le(buf, 5, self.slice_id as u64, 2);
        put_le(buf, 7, self.pkt_idx as u64, 2);
        put_le(buf, 9, self.pkt_count as u64, 2);
        put_byte(buf, 11, self.flags);
        put_le(buf, 12, self.capture_ts_us, 8);
        put_bytes(buf, VIDEO_HEADER_LEN, self.payload);
        Ok(needed)
    }

    /// Parses a video packet, validating every field before returning it.
    ///
    /// The returned payload borrows from `bytes` rather than copying, which is what keeps the
    /// receive path allocation-free.
    pub fn decode(bytes: &'a [u8]) -> (packet: Result<VideoPacket<'a>, ProtocolError>)
        ensures
            match packet {
                Ok(packet) => video_error(bytes@) is None && packet.reads_as(bytes@),
                Err(error) => video_error(bytes@) == Some(error),
            },
    {
        match expect_channel(bytes, Channel::Video) {
            Err(error) => return Err(error),
            Ok(()) => {},
        }
        if bytes.len() < VIDEO_HEADER_LEN {
            return Err(ProtocolError::TooShort { actual: bytes.len(), needed: VIDEO_HEADER_LEN });
        }
        let flags: u8 = bytes[11];
        if flags & VIDEO_FLAGS_RESERVED_MASK != 0 {
            return Err(ProtocolError::ReservedFlags(flags));
        }
        Ok(
            VideoPacket {
                frame_id: read_u32(bytes, 1),
                slice_id: read_u16(bytes, 5),
                pkt_idx: read_u16(bytes, 7),
                pkt_count: read_u16(bytes, 9),
                flags,
                capture_ts_us: read_u64(bytes, 12),
                payload: &bytes[VIDEO_HEADER_LEN..bytes.len()],
            },
        )
    }
}

/// A packet reads back from its own bytes, and from no other packet's: bytes that read as a
/// packet are the bytes it is written as.
pub proof fn video_round_trip(packet: VideoPacket, bytes: Seq<u8>)
    requires
        packet.flags & VIDEO_FLAGS_RESERVED_MASK == 0,
    ensures
        video_error(packet.wire()) is None,
        packet.reads_as(packet.wire()),
        video_error(bytes) is None && packet.reads_as(bytes) ==> bytes == packet.wire(),
{
    broadcast use lemma_le_bytes_len;

    lemma_byte_ranges();
    let wire = packet.wire();
    field_reads_back(wire, 1, packet.frame_id as nat, 4);
    field_reads_back(wire, 5, packet.slice_id as nat, 2);
    field_reads_back(wire, 7, packet.pkt_idx as nat, 2);
    field_reads_back(wire, 9, packet.pkt_count as nat, 2);
    field_reads_back(wire, 12, packet.capture_ts_us as nat, 8);
    assert(wire.skip(VIDEO_HEADER_LEN as int) =~= packet.payload@);
    if video_error(bytes) is None && packet.reads_as(bytes) {
        lemma_le_bytes_of_value(bytes.subrange(1, 5));
        lemma_le_bytes_of_value(bytes.subrange(5, 7));
        lemma_le_bytes_of_value(bytes.subrange(7, 9));
        lemma_le_bytes_of_value(bytes.subrange(9, 11));
        lemma_le_bytes_of_value(bytes.subrange(12, 20));
        assert(bytes =~= seq![bytes[0]] + bytes.subrange(1, 5) + bytes.subrange(5, 7)
            + bytes.subrange(7, 9) + bytes.subrange(9, 11) + seq![bytes[11]] + bytes.subrange(
            12,
            20,
        ) + bytes.skip(20));
    }
}

/// The fields a video packet was written with are the ones read out of its bytes.
pub proof fn video_fields_read_back(
    frame_id: u32,
    slice_id: u16,
    pkt_idx: u16,
    pkt_count: u16,
    flags: u8,
    capture_ts_us: u64,
    payload: Seq<u8>,
    read: VideoPacket,
)
    requires
        read.reads_as(
            video_wire(frame_id, slice_id, pkt_idx, pkt_count, flags, capture_ts_us, payload),
        ),
    ensures
        read.frame_id == frame_id,
        read.slice_id == slice_id,
        read.pkt_idx == pkt_idx,
        read.pkt_count == pkt_count,
        read.flags == flags,
        read.capture_ts_us == capture_ts_us,
        read.payload@ == payload,
{
    broadcast use lemma_le_bytes_len;

    lemma_byte_ranges();
    let wire = video_wire(frame_id, slice_id, pkt_idx, pkt_count, flags, capture_ts_us, payload);
    field_reads_back(wire, 1, frame_id as nat, 4);
    field_reads_back(wire, 5, slice_id as nat, 2);
    field_reads_back(wire, 7, pkt_idx as nat, 2);
    field_reads_back(wire, 9, pkt_count as nat, 2);
    field_reads_back(wire, 12, capture_ts_us as nat, 8);
    assert(wire.skip(VIDEO_HEADER_LEN as int) =~= payload);
}

/// A field written into a packet is the number read at its place.
pub proof fn field_reads_back(wire: Seq<u8>, at: int, value: nat, n: nat)
    requires
        0 <= at,
        at + n <= wire.len(),
        value < byte_range(n),
        forall|i: int| 0 <= i < n ==> wire[at + i] == #[trigger] le_bytes(value, n)[i],
    ensures
        le_at(wire, at, n as int) == value,
{
    broadcast use lemma_le_bytes_len;

    assert(wire.subrange(at, at + n) =~= le_bytes(value, n));
    lemma_le_value_of_bytes(value, n);
}

/// Client-to-host receive report, as carried on [`Channel::Feedback`].
///
/// `recv_bitmap` drives long-term-reference invalidation on the encoder: the host encodes
/// against the newest frame the client has confirmed, so packet loss never forces an IDR and
/// never produces a visible hitch. `client_ts_us` doubles as the clock-sync sample.
#[derive(Debug, Clone, Copy, PartialEq, Eq, Structural)]
pub struct FeedbackPacket {
    /// Highest frame the client has fully reassembled.
    pub last_frame_id: u32,
    /// Bit `n` set means frame `last_frame_id - 1 - n` was also received.
    pub recv_bitmap: u32,
    /// Client clock when the report was produced, in microseconds.
    pub client_ts_us: u64,
}

impl FeedbackPacket {
    /// The bytes this report is written as.
    pub open spec fn wire(&self) -> Seq<u8> {
        seq![Channel::Feedback.spec_tag()] + le_bytes(self.last_frame_id as nat, 4) + le_bytes(
            self.recv_bitmap as nat,
            4,
        ) + le_bytes(self.client_ts_us as nat, 8)
    }

    /// The report in some bytes, or why they are not one.
    pub open spec fn parse(bytes: Seq<u8>) -> Result<FeedbackPacket, ProtocolError> {
        match channel_error(bytes, Channel::Feedback) {
            Some(error) => Err(error),
            None => if bytes.len() != FEEDBACK_PACKET_LEN {
                Err(
                    ProtocolError::WrongLength {
                        actual: bytes.len() as usize,
                        expected: FEEDBACK_PACKET_LEN,
                    },
                )
            } else {
                Ok(
                    FeedbackPacket {
                        last_frame_id: le_at(bytes, 1, 4) as u32,
                        recv_bitmap: le_at(bytes, 5, 4) as u32,
                        client_ts_us: le_at(bytes, 9, 8) as u64,
                    },
                )
            },
        }
    }

    /// Serialises this report into `buf` and returns how many bytes were written.
    ///
    /// Feedback is sent for every received frame and is the highest-priority traffic on the
    /// return path; it is never batched, because a late acknowledgement stalls the encoder's
    /// long-term reference selection and costs a frame.
    pub fn encode_into(&self, buf: &mut [u8]) -> (written: Result<usize, ProtocolError>)
        ensures
            written_whole(written, old(buf)@, final(buf)@, self.wire()),
            self.wire().len() == FEEDBACK_PACKET_LEN,
    {
        broadcast use lemma_le_bytes_len;

        if buf.len() < FEEDBACK_PACKET_LEN {
            return Err(
                ProtocolError::BufferTooSmall { actual: buf.len(), needed: FEEDBACK_PACKET_LEN },
            );
        }
        proof {
            lemma_nothing_overwritten(buf@);
        }
        put_byte(buf, 0, Channel::Feedback.tag());
        put_le(buf, 1, self.last_frame_id as u64, 4);
        put_le(buf, 5, self.recv_bitmap as u64, 4);
        put_le(buf, 9, self.client_ts_us, 8);
        Ok(FEEDBACK_PACKET_LEN)
    }

    /// Parses a feedback packet, requiring an exact length match.
    ///
    /// Unlike video packets, feedback carries no variable-length payload, so anything other
    /// than exactly [`FEEDBACK_PACKET_LEN`] bytes indicates corruption or a version mismatch
    /// and is rejected outright.
    pub fn decode(bytes: &[u8]) -> (report: Result<FeedbackPacket, ProtocolError>)
        ensures
            report == FeedbackPacket::parse(bytes@),
    {
        match expect_channel(bytes, Channel::Feedback) {
            Err(error) => return Err(error),
            Ok(()) => {},
        }
        if bytes.len() != FEEDBACK_PACKET_LEN {
            return Err(
                ProtocolError::WrongLength { actual: bytes.len(), expected: FEEDBACK_PACKET_LEN },
            );
        }
        Ok(
            FeedbackPacket {
                last_frame_id: read_u32(bytes, 1),
                recv_bitmap: read_u32(bytes, 5),
                client_ts_us: read_u64(bytes, 9),
            },
        )
    }
}

/// What a fixed-size encoder does: writes the whole packet or refuses a buffer it does not
/// fit in, and leaves the rest of the buffer alone either way.
pub open spec fn written_whole(
    written: Result<usize, ProtocolError>,
    was: Seq<u8>,
    now: Seq<u8>,
    wire: Seq<u8>,
) -> bool {
    if was.len() < wire.len() {
        &&& written == Err::<usize, ProtocolError>(
            ProtocolError::BufferTooSmall {
                actual: was.len() as usize,
                needed: wire.len() as usize,
            },
        )
        &&& now == was
    } else {
        &&& written == Ok::<usize, ProtocolError>(wire.len() as usize)
        &&& overwritten(now, was, wire)
    }
}

/// A report reads back from its own bytes, and bytes that read as a report are the bytes it is
/// written as.
pub proof fn feedback_round_trip(report: FeedbackPacket, bytes: Seq<u8>)
    ensures
        FeedbackPacket::parse(report.wire()) == Ok::<FeedbackPacket, ProtocolError>(report),
        FeedbackPacket::parse(bytes) == Ok::<FeedbackPacket, ProtocolError>(report) ==> bytes
            == report.wire(),
{
    broadcast use lemma_le_bytes_len;

    lemma_byte_ranges();
    let wire = report.wire();
    field_reads_back(wire, 1, report.last_frame_id as nat, 4);
    field_reads_back(wire, 5, report.recv_bitmap as nat, 4);
    field_reads_back(wire, 9, report.client_ts_us as nat, 8);
    if FeedbackPacket::parse(bytes) == Ok::<FeedbackPacket, ProtocolError>(report) {
        lemma_le_bytes_of_value(bytes.subrange(1, 5));
        lemma_le_bytes_of_value(bytes.subrange(5, 9));
        lemma_le_bytes_of_value(bytes.subrange(9, 17));
        assert(bytes =~= seq![bytes[0]] + bytes.subrange(1, 5) + bytes.subrange(5, 9)
            + bytes.subrange(9, 17));
    }
}

/// The type a control packet names, or why there is none.
pub open spec fn control_type_parse(bytes: Seq<u8>) -> Result<ControlType, ProtocolError> {
    match channel_error(bytes, Channel::Control) {
        Some(error) => Err(error),
        None => if bytes.len() < CONTROL_HEADER_LEN {
            Err(
                ProtocolError::TooShort {
                    actual: bytes.len() as usize,
                    needed: CONTROL_HEADER_LEN,
                },
            )
        } else {
            <ControlType as vstd::std_specs::convert::TryFromSpec<u8>>::try_from_spec(bytes[1])
        },
    }
}

/// Why bytes are not a control message of the given type and length, if they are not.
pub open spec fn control_error(bytes: Seq<u8>, expected: ControlType, length: usize) -> Option<
    ProtocolError,
> {
    match control_type_parse(bytes) {
        Err(error) => Some(error),
        Ok(kind) => if kind != expected {
            Some(ProtocolError::UnknownControlType(bytes[1]))
        } else if bytes.len() != length {
            Some(
                ProtocolError::WrongLength { actual: bytes.len() as usize, expected: length },
            )
        } else {
            None
        },
    }
}

/// Reads the control message type from a control packet.
pub fn control_type_of(bytes: &[u8]) -> (kind: Result<ControlType, ProtocolError>)
    ensures
        kind == control_type_parse(bytes@),
{
    match expect_channel(bytes, Channel::Control) {
        Err(error) => return Err(error),
        Ok(()) => {},
    }
    if bytes.len() < CONTROL_HEADER_LEN {
        return Err(ProtocolError::TooShort { actual: bytes.len(), needed: CONTROL_HEADER_LEN });
    }
    ControlType::try_from(bytes[1])
}

/// Checks that a control packet has the expected type and exact length.
fn expect_control(bytes: &[u8], expected: ControlType, length: usize) -> (checked: Result<
    (),
    ProtocolError,
>)
    ensures
        match checked {
            Ok(()) => control_error(bytes@, expected, length) is None && bytes@.len() == length,
            Err(error) => control_error(bytes@, expected, length) == Some(error),
        },
{
    match control_type_of(bytes) {
        Err(error) => Err(error),
        Ok(actual) => if actual != expected {
            Err(ProtocolError::UnknownControlType(bytes[1]))
        } else if bytes.len() != length {
            Err(ProtocolError::WrongLength { actual: bytes.len(), expected: length })
        } else {
            Ok(())
        },
    }
}

/// The client's half of a clock synchronisation exchange.
///
/// Sent on [`Channel::Control`]. The host answers with a [`ClockPong`] carrying both of its
/// own timestamps, from which the client derives the offset between the two clocks.
#[derive(Debug, Clone, Copy, PartialEq, Eq, Structural)]
pub struct ClockPing {
    /// Client clock when the ping was sent, in microseconds.
    pub t1_us: u64,
}

impl ClockPing {
    /// The bytes this ping is written as.
    pub open spec fn wire(&self) -> Seq<u8> {
        seq![Channel::Control.spec_tag()] + seq![ControlType::ClockPing.spec_tag()] + le_bytes(
            self.t1_us as nat,
            8,
        )
    }

    /// The ping in some bytes, or why they are not one.
    pub open spec fn parse(bytes: Seq<u8>) -> Result<ClockPing, ProtocolError> {
        match control_error(bytes, ControlType::ClockPing, CLOCK_PING_LEN) {
            Some(error) => Err(error),
            None => Ok(ClockPing { t1_us: le_at(bytes, 2, 8) as u64 }),
        }
    }

    /// Serialises this ping into `buf` and returns how many bytes were written.
    pub fn encode_into(&self, buf: &mut [u8]) -> (written: Result<usize, ProtocolError>)
        ensures
            written_whole(written, old(buf)@, final(buf)@, self.wire()),
            self.wire().len() == CLOCK_PING_LEN,
    {
        broadcast use lemma_le_bytes_len;

        if buf.len() < CLOCK_PING_LEN {
            return Err(
                ProtocolError::BufferTooSmall { actual: buf.len(), needed: CLOCK_PING_LEN },
            );
        }
        proof {
            lemma_nothing_overwritten(buf@);
        }
        put_byte(buf, 0, Channel::Control.tag());
        put_byte(buf, 1, ControlType::ClockPing.tag());
        put_le(buf, 2, self.t1_us, 8);
        Ok(CLOCK_PING_LEN)
    }

    /// Parses a clock ping, requiring an exact length match.
    pub fn decode(bytes: &[u8]) -> (ping: Result<ClockPing, ProtocolError>)
        ensures
            ping == ClockPing::parse(bytes@),
    {
        match expect_control(bytes, ControlType::ClockPing, CLOCK_PING_LEN) {
            Err(error) => Err(error),
            Ok(()) => Ok(ClockPing { t1_us: read_u64(bytes, 2) }),
        }
    }
}

/// A ping reads back from its own bytes, and bytes that read as a ping are the bytes it is
/// written as.
pub proof fn clock_ping_round_trip(ping: ClockPing, bytes: Seq<u8>)
    ensures
        ClockPing::parse(ping.wire()) == Ok::<ClockPing, ProtocolError>(ping),
        ClockPing::parse(bytes) == Ok::<ClockPing, ProtocolError>(ping) ==> bytes == ping.wire(),
{
    broadcast use lemma_le_bytes_len;

    lemma_byte_ranges();
    field_reads_back(ping.wire(), 2, ping.t1_us as nat, 8);
    if ClockPing::parse(bytes) == Ok::<ClockPing, ProtocolError>(ping) {
        lemma_le_bytes_of_value(bytes.subrange(2, 10));
        assert(bytes =~= seq![bytes[0]] + seq![bytes[1]] + bytes.subrange(2, 10));
    }
}

/// The host's answer to a [`ClockPing`].
///
/// Carries the ping's own timestamp back so the client can pair the reply, plus the two host
/// timestamps that bracket the host's handling of it.
#[derive(Debug, Clone, Copy, PartialEq, Eq, Structural)]
pub struct ClockPong {
    /// Echoed from the ping, in client time.
    pub t1_us: u64,
    /// Host clock when the ping arrived, in microseconds.
    pub t2_us: u64,
    /// Host clock when this answer was sent, in microseconds.
    pub t3_us: u64,
}

impl ClockPong {
    /// The bytes this answer is written as.
    pub open spec fn wire(&self) -> Seq<u8> {
        seq![Channel::Control.spec_tag()] + seq![ControlType::ClockPong.spec_tag()] + le_bytes(
            self.t1_us as nat,
            8,
        ) + le_bytes(self.t2_us as nat, 8) + le_bytes(self.t3_us as nat, 8)
    }

    /// The answer in some bytes, or why they are not one.
    pub open spec fn parse(bytes: Seq<u8>) -> Result<ClockPong, ProtocolError> {
        match control_error(bytes, ControlType::ClockPong, CLOCK_PONG_LEN) {
            Some(error) => Err(error),
            None => Ok(
                ClockPong {
                    t1_us: le_at(bytes, 2, 8) as u64,
                    t2_us: le_at(bytes, 10, 8) as u64,
                    t3_us: le_at(bytes, 18, 8) as u64,
                },
            ),
        }
    }

    /// Serialises this answer into `buf` and returns how many bytes were written.
    pub fn encode_into(&self, buf: &mut [u8]) -> (written: Result<usize, ProtocolError>)
        ensures
            written_whole(written, old(buf)@, final(buf)@, self.wire()),
            self.wire().len() == CLOCK_PONG_LEN,
    {
        broadcast use lemma_le_bytes_len;

        if buf.len() < CLOCK_PONG_LEN {
            return Err(
                ProtocolError::BufferTooSmall { actual: buf.len(), needed: CLOCK_PONG_LEN },
            );
        }
        proof {
            lemma_nothing_overwritten(buf@);
        }
        put_byte(buf, 0, Channel::Control.tag());
        put_byte(buf, 1, ControlType::ClockPong.tag());
        put_le(buf, 2, self.t1_us, 8);
        put_le(buf, 10, self.t2_us, 8);
        put_le(buf, 18, self.t3_us, 8);
        Ok(CLOCK_PONG_LEN)
    }

    /// Parses a clock pong, requiring an exact length match.
    pub fn decode(bytes: &[u8]) -> (pong: Result<ClockPong, ProtocolError>)
        ensures
            pong == ClockPong::parse(bytes@),
    {
        match expect_control(bytes, ControlType::ClockPong, CLOCK_PONG_LEN) {
            Err(error) => Err(error),
            Ok(()) => Ok(
                ClockPong {
                    t1_us: read_u64(bytes, 2),
                    t2_us: read_u64(bytes, 10),
                    t3_us: read_u64(bytes, 18),
                },
            ),
        }
    }
}

/// A pong reads back from its own bytes, and bytes that read as a pong are the bytes it is
/// written as.
pub proof fn clock_pong_round_trip(pong: ClockPong, bytes: Seq<u8>)
    ensures
        ClockPong::parse(pong.wire()) == Ok::<ClockPong, ProtocolError>(pong),
        ClockPong::parse(bytes) == Ok::<ClockPong, ProtocolError>(pong) ==> bytes == pong.wire(),
{
    broadcast use lemma_le_bytes_len;

    lemma_byte_ranges();
    field_reads_back(pong.wire(), 2, pong.t1_us as nat, 8);
    field_reads_back(pong.wire(), 10, pong.t2_us as nat, 8);
    field_reads_back(pong.wire(), 18, pong.t3_us as nat, 8);
    if ClockPong::parse(bytes) == Ok::<ClockPong, ProtocolError>(pong) {
        lemma_le_bytes_of_value(bytes.subrange(2, 10));
        lemma_le_bytes_of_value(bytes.subrange(10, 18));
        lemma_le_bytes_of_value(bytes.subrange(18, 26));
        assert(bytes =~= seq![bytes[0]] + seq![bytes[1]] + bytes.subrange(2, 10) + bytes.subrange(
            10,
            18,
        ) + bytes.subrange(18, 26));
    }
}

/// Where the host's pointer is, as carried on [`Channel::Control`].
///
/// The host keeps the cursor out of the captured video, so the client has to draw it. That is
/// the point: a cursor baked into the frames inherits the whole video latency, while one drawn
/// by the client answers the hand holding the mouse immediately and is corrected by these
/// messages as they arrive.
///
/// The screen size travels with every message rather than being negotiated once. It is four
/// bytes against a packet already this small, and it means a client that joins late, or misses
/// the message where the host changed resolution, is never left scaling against a screen that
/// no longer exists.
#[derive(Debug, Clone, Copy, PartialEq, Eq, Structural)]
pub struct CursorPosition {
    /// Host clock when the pointer was read, in microseconds.
    ///
    /// This is what makes the message usable for correction rather than only display: the
    /// client stamps the motion it sends in the same clock, so it can tell which of its own
    /// movements this reading already accounts for.
    pub sample_ts_us: u64,
    /// Pixels from the left of the host's primary display.
    pub x: u16,
    /// Pixels from the top of the host's primary display.
    pub y: u16,
    /// Width of the host's primary display in pixels; never zero.
    pub screen_width: u16,
    /// Height of the host's primary display in pixels; never zero.
    pub screen_height: u16,
}

impl CursorPosition {
    /// The bytes this reading is written as.
    pub open spec fn wire(&self) -> Seq<u8> {
        seq![Channel::Control.spec_tag()] + seq![ControlType::CursorPosition.spec_tag()]
            + le_bytes(self.sample_ts_us as nat, 8) + le_bytes(self.x as nat, 2) + le_bytes(
            self.y as nat,
            2,
        ) + le_bytes(self.screen_width as nat, 2) + le_bytes(self.screen_height as nat, 2)
    }

    /// Whether the screen has pixels.
    pub open spec fn has_area(&self) -> bool {
        self.screen_width != 0 && self.screen_height != 0
    }

    /// The reading in some bytes, or why they are not one.
    pub open spec fn parse(bytes: Seq<u8>) -> Result<CursorPosition, ProtocolError> {
        match control_error(bytes, ControlType::CursorPosition, CURSOR_POSITION_LEN) {
            Some(error) => Err(error),
            None => {
                let width = le_at(bytes, 14, 2) as u16;
                let height = le_at(bytes, 16, 2) as u16;
                if width == 0 || height == 0 {
                    Err(ProtocolError::EmptyScreen { width, height })
                } else {
                    Ok(
                        CursorPosition {
                            sample_ts_us: le_at(bytes, 2, 8) as u64,
                            x: le_at(bytes, 10, 2) as u16,
                            y: le_at(bytes, 12, 2) as u16,
                            screen_width: width,
                            screen_height: height,
                        },
                    )
                }
            },
        }
    }

    /// Serialises this reading into `buf` and returns how many bytes were written.
    ///
    /// A screen with no area is refused, so a bad reading is caught where it is made rather
    /// than on the far side.
    pub fn encode_into(&self, buf: &mut [u8]) -> (written: Result<usize, ProtocolError>)
        ensures
            old(buf)@.len() < CURSOR_POSITION_LEN || self.has_area() ==> written_whole(
                written,
                old(buf)@,
                final(buf)@,
                self.wire(),
            ),
            old(buf)@.len() >= CURSOR_POSITION_LEN && !self.has_area() ==> {
                &&& written == Err::<usize, ProtocolError>(
                    ProtocolError::EmptyScreen {
                        width: self.screen_width,
                        height: self.screen_height,
                    },
                )
                &&& final(buf)@ == old(buf)@
            },
            self.wire().len() == CURSOR_POSITION_LEN,
    {
        broadcast use lemma_le_bytes_len;

        if buf.len() < CURSOR_POSITION_LEN {
            return Err(
                ProtocolError::BufferTooSmall { actual: buf.len(), needed: CURSOR_POSITION_LEN },
            );
        }
        if self.screen_width == 0 || self.screen_height == 0 {
            return Err(
                ProtocolError::EmptyScreen { width: self.screen_width, height: self.screen_height },
            );
        }
        proof {
            lemma_nothing_overwritten(buf@);
        }
        put_byte(buf, 0, Channel::Control.tag());
        put_byte(buf, 1, ControlType::CursorPosition.tag());
        put_le(buf, 2, self.sample_ts_us, 8);
        put_le(buf, 10, self.x as u64, 2);
        put_le(buf, 12, self.y as u64, 2);
        put_le(buf, 14, self.screen_width as u64, 2);
        put_le(buf, 16, self.screen_height as u64, 2);
        Ok(CURSOR_POSITION_LEN)
    }

    /// Parses a cursor position, requiring an exact length match and a screen with area.
    pub fn decode(bytes: &[u8]) -> (cursor: Result<CursorPosition, ProtocolError>)
        ensures
            cursor == CursorPosition::parse(bytes@),
    {
        match expect_control(bytes, ControlType::CursorPosition, CURSOR_POSITION_LEN) {
            Err(error) => return Err(error),
            Ok(()) => {},
        }
        let screen_width: u16 = read_u16(bytes, 14);
        let screen_height: u16 = read_u16(bytes, 16);
        if screen_width == 0 || screen_height == 0 {
            return Err(ProtocolError::EmptyScreen { width: screen_width, height: screen_height });
        }
        Ok(
            CursorPosition {
                sample_ts_us: read_u64(bytes, 2),
                x: read_u16(bytes, 10),
                y: read_u16(bytes, 12),
                screen_width,
                screen_height,
            },
        )
    }
}

/// A reading of a screen with area reads back from its own bytes, and bytes that read as a
/// reading are the bytes it is written as.
pub proof fn cursor_position_round_trip(cursor: CursorPosition, bytes: Seq<u8>)
    requires
        cursor.has_area(),
    ensures
        CursorPosition::parse(cursor.wire()) == Ok::<CursorPosition, ProtocolError>(cursor),
        CursorPosition::parse(bytes) == Ok::<CursorPosition, ProtocolError>(cursor) ==> bytes
            == cursor.wire(),
{
    broadcast use lemma_le_bytes_len;

    lemma_byte_ranges();
    field_reads_back(cursor.wire(), 2, cursor.sample_ts_us as nat, 8);
    field_reads_back(cursor.wire(), 10, cursor.x as nat, 2);
    field_reads_back(cursor.wire(), 12, cursor.y as nat, 2);
    field_reads_back(cursor.wire(), 14, cursor.screen_width as nat, 2);
    field_reads_back(cursor.wire(), 16, cursor.screen_height as nat, 2);
    if CursorPosition::parse(bytes) == Ok::<CursorPosition, ProtocolError>(cursor) {
        lemma_le_bytes_of_value(bytes.subrange(2, 10));
        lemma_le_bytes_of_value(bytes.subrange(10, 12));
        lemma_le_bytes_of_value(bytes.subrange(12, 14));
        lemma_le_bytes_of_value(bytes.subrange(14, 16));
        lemma_le_bytes_of_value(bytes.subrange(16, 18));
        assert(bytes =~= seq![bytes[0]] + seq![bytes[1]] + bytes.subrange(2, 10) + bytes.subrange(
            10,
            12,
        ) + bytes.subrange(12, 14) + bytes.subrange(14, 16) + bytes.subrange(16, 18));
    }
}

/// What an input packet describes.
///
/// The wire layout is one fixed size for all four, with the two coordinate fields
/// reinterpreted per kind. A tagged union with per-kind lengths would save a few bytes on a
/// packet that is already tiny, at the cost of a decoder that has to branch before it knows
/// how much to read.
#[derive(Debug, Clone, Copy, PartialEq, Eq, Structural)]
pub enum InputKind {
    /// Pointer motion, in device units relative to the last report.
    MouseMove,
    /// A pointer button going down or coming up.
    MouseButton,
    /// Scroll wheel motion.
    MouseScroll,
    /// A key going down or coming up.
    Key,
}

impl InputKind {
    /// The byte this kind is written as.
    pub open spec fn spec_tag(self) -> u8 {
        match self {
            InputKind::MouseMove => 0,
            InputKind::MouseButton => 1,
            InputKind::MouseScroll => 2,
            InputKind::Key => 3,
        }
    }

    /// Returns the byte this kind is written as.
    pub fn tag(self) -> (tag: u8)
        ensures
            tag == self.spec_tag(),
    {
        match self {
            InputKind::MouseMove => 0,
            InputKind::MouseButton => 1,
            InputKind::MouseScroll => 2,
            InputKind::Key => 3,
        }
    }
}

impl vstd::std_specs::convert::TryFromSpecImpl<u8> for InputKind {
    open spec fn obeys_try_from_spec() -> bool {
        true
    }

    open spec fn try_from_spec(tag: u8) -> Result<Self, ProtocolError> {
        if tag == 0 {
            Ok(InputKind::MouseMove)
        } else if tag == 1 {
            Ok(InputKind::MouseButton)
        } else if tag == 2 {
            Ok(InputKind::MouseScroll)
        } else if tag == 3 {
            Ok(InputKind::Key)
        } else {
            Err(ProtocolError::UnknownInputKind(tag))
        }
    }
}

impl TryFrom<u8> for InputKind {
    type Error = ProtocolError;

    /// Converts a raw kind byte into an [`InputKind`].
    fn try_from(tag: u8) -> (kind: Result<Self, ProtocolError>) {
        match tag {
            0 => Ok(InputKind::MouseMove),
            1 => Ok(InputKind::MouseButton),
            2 => Ok(InputKind::MouseScroll),
            3 => Ok(InputKind::Key),
            other => Err(ProtocolError::UnknownInputKind(other)),
        }
    }
}

/// Which pointer button an event refers to.
#[derive(Debug, Clone, Copy, PartialEq, Eq, Structural)]
pub enum MouseButton {
    /// The primary button.
    Left,
    /// The secondary button.
    Right,
    /// The wheel button.
    Middle,
}

impl MouseButton {
    /// The index this button is written as.
    pub open spec fn spec_index_of(self) -> i16 {
        match self {
            MouseButton::Left => 0,
            MouseButton::Right => 1,
            MouseButton::Middle => 2,
        }
    }

    /// Returns the index this button is written as.
    pub fn index(self) -> (index: i16)
        ensures
            index == self.spec_index_of(),
    {
        match self {
            MouseButton::Left => 0,
            MouseButton::Right => 1,
            MouseButton::Middle => 2,
        }
    }
}

impl vstd::std_specs::convert::TryFromSpecImpl<i16> for MouseButton {
    open spec fn obeys_try_from_spec() -> bool {
        true
    }

    open spec fn try_from_spec(index: i16) -> Result<Self, ProtocolError> {
        if index == 0 {
            Ok(MouseButton::Left)
        } else if index == 1 {
            Ok(MouseButton::Right)
        } else if index == 2 {
            Ok(MouseButton::Middle)
        } else {
            Err(ProtocolError::UnknownMouseButton(index))
        }
    }
}

impl TryFrom<i16> for MouseButton {
    type Error = ProtocolError;

    /// Converts a raw button index into a [`MouseButton`].
    fn try_from(index: i16) -> (button: Result<Self, ProtocolError>) {
        match index {
            0 => Ok(MouseButton::Left),
            1 => Ok(MouseButton::Right),
            2 => Ok(MouseButton::Middle),
            other => Err(ProtocolError::UnknownMouseButton(other)),
        }
    }
}

/// One input event, as carried on [`Channel::Input`].
///
/// Motion is relative rather than absolute because that is what a captured pointer produces
/// and what a game reads: an absolute position would have to be scaled between two different
/// screen sizes and would lose precision doing it.
///
/// Keys are identified by USB HID usage code. Both Windows and macOS have their own keyboard
/// numbering and neither is portable, but both can be mapped from HID, which is also what the
/// client's input library reports.
#[derive(Debug, Clone, Copy, PartialEq, Eq, Structural)]
pub enum InputEvent {
    /// Pointer motion relative to the last report.
    MouseMove {
        /// Horizontal movement; positive is right.
        dx: i16,
        /// Vertical movement; positive is down.
        dy: i16,
    },
    /// A pointer button changing state.
    MouseButton {
        /// Which button changed.
        button: MouseButton,
        /// Whether it is now down.
        pressed: bool,
    },
    /// Scroll wheel motion.
    MouseScroll {
        /// Horizontal scroll; positive is right.
        dx: i16,
        /// Vertical scroll; positive is down.
        dy: i16,
    },
    /// A key changing state.
    Key {
        /// USB HID usage code for the key.
        usage: u16,
        /// Whether it is now down.
        pressed: bool,
    },
}

/// The sixteen bits of a signed number, as an unsigned one.
pub open spec fn sixteen_bits(value: i16) -> nat {
    if value < 0 {
        (value + 0x1_0000) as nat
    } else {
        value as nat
    }
}

/// The signed number that sixteen bits stand for.
pub open spec fn signed_of(bits: nat) -> i16 {
    if bits >= 0x8000 {
        (bits - 0x1_0000) as i16
    } else {
        bits as i16
    }
}

/// Returns the sixteen bits of a signed number.
fn bits_of(value: i16) -> (bits: u16)
    ensures
        bits == sixteen_bits(value),
{
    if value < 0 {
        (value as i32 + 0x1_0000) as u16
    } else {
        value as u16
    }
}

/// Reads a little-endian `i16` at `at`.
fn read_i16(bytes: &[u8], at: usize) -> (value: i16)
    requires
        at + 2 <= bytes@.len(),
    ensures
        value == signed_of(le_at(bytes@, at as int, 2)),
{
    let bits: u16 = read_u16(bytes, at);
    if bits >= 0x8000 {
        (bits as i32 - 0x1_0000) as i16
    } else {
        bits as i16
    }
}

/// An input event with the time it happened.
///
/// The timestamp is what makes the input path measurable. Without it the only thing that can
/// be observed about input is whether it arrived, and this is the one part of the pipeline
/// where a few milliseconds are felt directly rather than seen.
///
/// It is carried **in the host's clock**, converted by the client before sending. The client
/// is the side that measures the offset between the two, so it is the side that can do the
/// conversion; a host receiving a raw client timestamp could only compare it against its own
/// clock and get the offset back as latency.
#[derive(Debug, Clone, Copy, PartialEq, Eq, Structural)]
pub struct InputPacket {
    /// When the event happened, in the host's clock, in microseconds.
    pub origin_ts_us: u64,
    /// What happened.
    pub event: InputEvent,
}

impl InputEvent {
    /// The kind, the two coordinate fields and the flags an event is written as.
    pub open spec fn fields(self) -> (InputKind, nat, nat, u8) {
        match self {
            InputEvent::MouseMove { dx, dy } => (
                InputKind::MouseMove,
                sixteen_bits(dx),
                sixteen_bits(dy),
                0,
            ),
            InputEvent::MouseScroll { dx, dy } => (
                InputKind::MouseScroll,
                sixteen_bits(dx),
                sixteen_bits(dy),
                0,
            ),
            InputEvent::MouseButton { button, pressed } => (
                InputKind::MouseButton,
                sixteen_bits(button.spec_index_of()),
                0,
                if pressed { 1 } else { 0 },
            ),
            InputEvent::Key { usage, pressed } => (
                InputKind::Key,
                usage as nat,
                0,
                if pressed { 1 } else { 0 },
            ),
        }
    }
}

impl InputPacket {
    /// The bytes this event is written as.
    pub open spec fn wire(&self) -> Seq<u8> {
        let (kind, x, y, flags) = self.event.fields();
        seq![Channel::Input.spec_tag()] + seq![kind.spec_tag()] + le_bytes(
            self.origin_ts_us as nat,
            8,
        ) + le_bytes(x, 2) + le_bytes(y, 2) + seq![flags]
    }

    /// The event in some bytes, or why they are not one.
    pub open spec fn parse(bytes: Seq<u8>) -> Result<InputPacket, ProtocolError> {
        match channel_error(bytes, Channel::Input) {
            Some(error) => Err(error),
            None => if bytes.len() != INPUT_PACKET_LEN {
                Err(
                    ProtocolError::WrongLength {
                        actual: bytes.len() as usize,
                        expected: INPUT_PACKET_LEN,
                    },
                )
            } else {
                let x = le_at(bytes, 10, 2);
                let y = le_at(bytes, 12, 2);
                let pressed = bytes[14] & 1 != 0;
                let origin_ts_us = le_at(bytes, 2, 8) as u64;
                match <InputKind as vstd::std_specs::convert::TryFromSpec<u8>>::try_from_spec(
                    bytes[1],
                ) {
                    Err(error) => Err(error),
                    Ok(InputKind::MouseMove) => Ok(
                        InputPacket {
                            origin_ts_us,
                            event: InputEvent::MouseMove { dx: signed_of(x), dy: signed_of(y) },
                        },
                    ),
                    Ok(InputKind::MouseScroll) => Ok(
                        InputPacket {
                            origin_ts_us,
                            event: InputEvent::MouseScroll { dx: signed_of(x), dy: signed_of(y) },
                        },
                    ),
                    Ok(InputKind::MouseButton) => {
                        match <MouseButton as vstd::std_specs::convert::TryFromSpec<
                            i16,
                        >>::try_from_spec(signed_of(x)) {
                            Err(error) => Err(error),
                            Ok(button) => Ok(
                                InputPacket {
                                    origin_ts_us,
                                    event: InputEvent::MouseButton { button, pressed },
                                },
                            ),
                        }
                    },
                    Ok(InputKind::Key) => Ok(
                        InputPacket {
                            origin_ts_us,
                            event: InputEvent::Key { usage: x as u16, pressed },
                        },
                    ),
                }
            },
        }
    }

    /// Serialises this event into `buf` and returns how many bytes were written.
    pub fn encode_into(&self, buf: &mut [u8]) -> (written: Result<usize, ProtocolError>)
        ensures
            written_whole(written, old(buf)@, final(buf)@, self.wire()),
            self.wire().len() == INPUT_PACKET_LEN,
    {
        broadcast use lemma_le_bytes_len;

        if buf.len() < INPUT_PACKET_LEN {
            return Err(
                ProtocolError::BufferTooSmall { actual: buf.len(), needed: INPUT_PACKET_LEN },
            );
        }
        let (kind, x, y, flags): (InputKind, u16, u16, u8) = match self.event {
            InputEvent::MouseMove { dx, dy } => (InputKind::MouseMove, bits_of(dx), bits_of(dy), 0),
            InputEvent::MouseScroll { dx, dy } => (
                InputKind::MouseScroll,
                bits_of(dx),
                bits_of(dy),
                0,
            ),
            InputEvent::MouseButton { button, pressed } => (
                InputKind::MouseButton,
                bits_of(button.index()),
                0,
                if pressed { 1 } else { 0 },
            ),
            InputEvent::Key { usage, pressed } => (
                InputKind::Key,
                usage,
                0,
                if pressed { 1 } else { 0 },
            ),
        };
        proof {
            lemma_nothing_overwritten(buf@);
        }
        put_byte(buf, 0, Channel::Input.tag());
        put_byte(buf, 1, kind.tag());
        put_le(buf, 2, self.origin_ts_us, 8);
        put_le(buf, 10, x as u64, 2);
        put_le(buf, 12, y as u64, 2);
        put_byte(buf, 14, flags);
        Ok(INPUT_PACKET_LEN)
    }

    /// Parses an input event, requiring an exact length match.
    pub fn decode(bytes: &[u8]) -> (packet: Result<InputPacket, ProtocolError>)
        ensures
            packet == InputPacket::parse(bytes@),
    {
        match expect_channel(bytes, Channel::Input) {
            Err(error) => return Err(error),
            Ok(()) => {},
        }
        if bytes.len() != INPUT_PACKET_LEN {
            return Err(
                ProtocolError::WrongLength { actual: bytes.len(), expected: INPUT_PACKET_LEN },
            );
        }
        let pressed: bool = bytes[14] & 1 != 0;
        let origin_ts_us: u64 = read_u64(bytes, 2);
        let event: InputEvent = match InputKind::try_from(bytes[1]) {
            Err(error) => return Err(error),
            Ok(InputKind::MouseMove) => InputEvent::MouseMove {
                dx: read_i16(bytes, 10),
                dy: read_i16(bytes, 12),
            },
            Ok(InputKind::MouseScroll) => InputEvent::MouseScroll {
                dx: read_i16(bytes, 10),
                dy: read_i16(bytes, 12),
            },
            Ok(InputKind::MouseButton) => match MouseButton::try_from(read_i16(bytes, 10)) {
                Err(error) => return Err(error),
                Ok(button) => InputEvent::MouseButton { button, pressed },
            },
            Ok(InputKind::Key) => InputEvent::Key { usage: read_u16(bytes, 10), pressed },
        };
        Ok(InputPacket { origin_ts_us, event })
    }
}

/// An event reads back from its own bytes.
pub proof fn input_round_trip(packet: InputPacket)
    ensures
        InputPacket::parse(packet.wire()) == Ok::<InputPacket, ProtocolError>(packet),
{
    broadcast use lemma_le_bytes_len;

    lemma_byte_ranges();
    let (kind, x, y, flags) = packet.event.fields();
    field_reads_back(packet.wire(), 2, packet.origin_ts_us as nat, 8);
    field_reads_back(packet.wire(), 10, x, 2);
    field_reads_back(packet.wire(), 12, y, 2);
    assert(0u8 & 1 == 0) by (bit_vector);
    assert(1u8 & 1 == 1) by (bit_vector);
}

/// One Reed-Solomon parity shard of a video slice.
///
/// Describes the whole block it belongs to as well as itself, so that a receiver holding any
/// one shard knows how many packets the slice has and how long it is.
#[derive(Debug, Clone, PartialEq, Eq)]
pub struct FecPacket<'a> {
    /// Frame the slice belongs to.
    pub frame_id: u32,
    /// Slice index within the frame.
    pub slice_id: u16,
    /// How many data packets the slice was split into.
    pub data_count: u8,
    /// How many parity shards protect it.
    pub parity_count: u8,
    /// Which of the parity shards this is.
    pub shard_index: u8,
    /// Length of the slice's last data packet.
    pub tail_len: u16,
    /// Host clock at capture time, in microseconds.
    pub capture_ts_us: u64,
    /// The shard itself, [`MAX_VIDEO_PAYLOAD`] bytes.
    pub payload: &'a [u8],
}

impl<'a> FecPacket<'a> {
    /// The length of the protected slice: every data packet but the last is full.
    pub open spec fn spec_slice_len(&self) -> int {
        (self.data_count - 1) * MAX_VIDEO_PAYLOAD + self.tail_len
    }

    /// Whether the shape in the header is that of a block: it has data packets, and the last of
    /// them is no longer than a packet can be.
    pub open spec fn describes_a_block(&self) -> bool {
        self.data_count > 0 && self.tail_len <= MAX_VIDEO_PAYLOAD
    }

    /// Returns the length of the protected slice in bytes.
    #[must_use]
    pub fn slice_len(&self) -> (len: usize)
        requires
            self.data_count > 0,
        ensures
            len == self.spec_slice_len(),
    {
        let full: usize = self.data_count as usize - 1;
        assert(full * MAX_VIDEO_PAYLOAD <= 254 * 1180) by (nonlinear_arith)
            requires
                full <= 254,
                MAX_VIDEO_PAYLOAD == 1180,
        ;
        full * MAX_VIDEO_PAYLOAD + self.tail_len as usize
    }
}

} // verus!
