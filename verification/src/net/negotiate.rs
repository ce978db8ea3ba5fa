//! Agreeing on a codec and a picture, in the handshake that was already happening.
//!
//! Both machines have hardware, and neither has the same hardware. Guessing wrong in either
//! direction produces a session that either looks worse than it needed to or does not decode at
//! all.
//!
//! # Why this rides inside the handshake
//!
//! The Noise handshake already carries a payload in each direction and already costs one round
//! trip. Negotiating separately would add a second, in front of every connection, to move
//! twenty bytes. So the client's capabilities travel in the message that opens the session and
//! the host's decision comes back in the message that completes it: by the time the session is
//! live, it is configured.
//!
//! # Why the host decides
//!
//! One side has to, and it is the side that will do the encoding: it knows what its own
//! hardware will accept, and it is the only one that can tell whether a request it cannot meet
//! should be refused or quietly served at something lower. A client that asked for AV1 and gets
//! H.264 has a working session rather than an argument.

use vstd::prelude::*;

use crate::bytes::{
    le_at, le_bytes, lemma_byte_ranges, lemma_le_bytes_len, lemma_nothing_overwritten, overwritten,
    put_byte, put_le, read_u16, read_u32,
};
use crate::net::packet::field_reads_back;

verus! {

/// One codec, chosen.
#[derive(Debug, Clone, Copy, PartialEq, Eq, Structural)]
pub enum Codec {
    /// H.264. The floor, and the one every machine has.
    H264,
    /// HEVC.
    Hevc,
    /// AV1.
    Av1,
}

impl Codec {
    /// The byte this codec travels as.
    pub open spec fn spec_byte(self) -> u8 {
        match self {
            Codec::H264 => 0,
            Codec::Hevc => 1,
            Codec::Av1 => 2,
        }
    }

    /// The codec a byte names.
    pub open spec fn named_by(byte: u8) -> Option<Codec> {
        if byte == 0 {
            Some(Codec::H264)
        } else if byte == 1 {
            Some(Codec::Hevc)
        } else if byte == 2 {
            Some(Codec::Av1)
        } else {
            None
        }
    }

    /// The bit this codec has in a set.
    pub open spec fn bit(self) -> u8 {
        match self {
            Codec::H264 => H264,
            Codec::Hevc => HEVC,
            Codec::Av1 => AV1,
        }
    }

    /// How much a codec is wanted: the fewer bits it takes for the same picture, the more.
    pub open spec fn merit(self) -> int {
        match self {
            Codec::H264 => 0,
            Codec::Hevc => 1,
            Codec::Av1 => 2,
        }
    }

    /// Reads a codec from the wire.
    #[must_use]
    pub fn from_byte(byte: u8) -> (codec: Option<Self>)
        ensures
            codec == Codec::named_by(byte),
    {
        match byte {
            0 => Some(Codec::H264),
            1 => Some(Codec::Hevc),
            2 => Some(Codec::Av1),
            _ => None,
        }
    }

    /// Returns the byte this codec travels as.
    #[must_use]
    pub fn byte(self) -> (byte: u8)
        ensures
            byte == self.spec_byte(),
    {
        match self {
            Codec::H264 => 0,
            Codec::Hevc => 1,
            Codec::Av1 => 2,
        }
    }

    /// Returns the set containing only this codec.
    #[must_use]
    pub fn as_set(self) -> (set: Codecs)
        ensures
            forall|codec: Codec| #[trigger] set.contains(codec) == (codec == self),
            set.spec_bits() == self.bit(),
    {
        proof {
            lemma_bits(0, 0);
        }
        match self {
            Codec::H264 => Codecs(H264),
            Codec::Hevc => Codecs(HEVC),
            Codec::Av1 => Codecs(AV1),
        }
    }
}

/// Codecs a machine may be able to encode or decode.
///
/// A set rather than a preference list. Both sides say what they can do and the host chooses,
/// so an ordering carried on the wire would be a second opinion about a decision that has an
/// owner.
#[derive(Debug, Clone, Copy, PartialEq, Eq, Structural)]
pub struct Codecs(u8);

/// The bit of H.264, which every machine this runs on can do.
pub const H264: u8 = 1;

/// The bit of HEVC, worth about half the bitrate of H.264 for the same picture.
pub const HEVC: u8 = 2;

/// The bit of AV1, which needs recent hardware to encode.
pub const AV1: u8 = 4;

/// The bits this version defines, so a future one's extra codecs are ignored rather than
/// misread as something this build knows.
const KNOWN: u8 = 0b0000_0111;

/// What the operators on sets do to each bit.
proof fn lemma_bits(a: u8, b: u8)
    ensures
        forall|codec: Codec|
            #![trigger codec.bit()]
            {
                &&& (a | b) & codec.bit() != 0 <==> a & codec.bit() != 0 || b & codec.bit() != 0
                &&& (a & b) & codec.bit() != 0 <==> a & codec.bit() != 0 && b & codec.bit() != 0
                &&& (a & 7) & codec.bit() == a & codec.bit()
                &&& 0u8 & codec.bit() == 0
            },
        a & 7 <= 7,
        a & b <= a,
        a <= 7 && b <= 7 ==> a | b <= 7,
        1u8 & 1 != 0 && 1u8 & 2 == 0 && 1u8 & 4 == 0,
        2u8 & 1 == 0 && 2u8 & 2 != 0 && 2u8 & 4 == 0,
        4u8 & 1 == 0 && 4u8 & 2 == 0 && 4u8 & 4 != 0,
        a <= 7 ==> (a == 0 <==> a & 1 == 0 && a & 2 == 0 && a & 4 == 0),
        a <= 7 && b <= 7 ==> (a & b == b <==> (b & 1 != 0 ==> a & 1 != 0) && (b & 2 != 0 ==> a & 2
            != 0) && (b & 4 != 0 ==> a & 4 != 0)),
        a <= 7 && b <= 7 ==> (a == b <==> (a & 1 == 0) == (b & 1 == 0) && (a & 2 == 0) == (b & 2
            == 0) && (a & 4 == 0) == (b & 4 == 0)),
        a <= 7 ==> a & 7 == a,
{
    assert forall|codec: Codec|
        #![trigger codec.bit()]
        {
            &&& (a | b) & codec.bit() != 0 <==> a & codec.bit() != 0 || b & codec.bit() != 0
            &&& (a & b) & codec.bit() != 0 <==> a & codec.bit() != 0 && b & codec.bit() != 0
            &&& (a & 7) & codec.bit() == a & codec.bit()
            &&& 0u8 & codec.bit() == 0
        } by {
        let m = codec.bit();
        assert(m == 1 || m == 2 || m == 4 ==> {
            &&& (a | b) & m != 0 <==> a & m != 0 || b & m != 0
            &&& (a & b) & m != 0 <==> a & m != 0 && b & m != 0
            &&& (a & 7) & m == a & m
            &&& 0u8 & m == 0
        }) by (bit_vector);
    }
    assert({
        &&& a & 7 <= 7
        &&& a & b <= a
        &&& a <= 7 && b <= 7 ==> a | b <= 7
        &&& 1u8 & 1 != 0 && 1u8 & 2 == 0 && 1u8 & 4 == 0
        &&& 2u8 & 1 == 0 && 2u8 & 2 != 0 && 2u8 & 4 == 0
        &&& 4u8 & 1 == 0 && 4u8 & 2 == 0 && 4u8 & 4 != 0
        &&& a <= 7 ==> (a == 0 <==> a & 1 == 0 && a & 2 == 0 && a & 4 == 0)
        &&& a <= 7 && b <= 7 ==> (a & b == b <==> (b & 1 != 0 ==> a & 1 != 0) && (b & 2 != 0 ==> a
            & 2 != 0) && (b & 4 != 0 ==> a & 4 != 0))
        &&& a <= 7 && b <= 7 ==> (a == b <==> (a & 1 == 0) == (b & 1 == 0) && (a & 2 == 0) == (b & 2
            == 0) && (a & 4 == 0) == (b & 4 == 0))
        &&& a <= 7 ==> a & 7 == a
    }) by (bit_vector);
}

impl Codecs {
    /// Only bits that stand for a codec are ever set.
    #[verifier::type_invariant]
    spec fn only_known_bits(self) -> bool {
        self.0 <= 7
    }

    /// Whether a codec is in the set.
    pub closed spec fn contains(self, codec: Codec) -> bool {
        self.0 & codec.bit() != 0
    }

    /// The bits the set travels as.
    pub closed spec fn spec_bits(self) -> u8 {
        self.0
    }

    /// A set with nothing in it.
    #[must_use]
    pub fn none() -> (set: Self)
        ensures
            forall|codec: Codec| !#[trigger] set.contains(codec),
            set.spec_bits() == 0,
    {
        proof {
            lemma_bits(0, 0);
        }
        Codecs(0)
    }

    /// Adds a codec.
    #[must_use]
    pub fn with(self, other: Self) -> (set: Self)
        ensures
            forall|codec: Codec| #[trigger]
                set.contains(codec) == (self.contains(codec) || other.contains(codec)),
            set.spec_bits() == self.spec_bits() | other.spec_bits(),
    {
        proof {
            use_type_invariant(self);
            use_type_invariant(other);
            lemma_bits(self.0, other.0);
        }
        Codecs(self.0 | other.0)
    }

    /// Returns whether this set has a codec.
    ///
    /// Asked about several, it has them only if it has every one of them; of none there is
    /// nothing to have.
    #[must_use]
    pub fn has(self, other: Self) -> (has: bool)
        ensures
            has == ((forall|codec: Codec| #[trigger]
                other.contains(codec) ==> self.contains(codec)) && exists|codec: Codec| #[trigger]
                other.contains(codec)),
    {
        proof {
            use_type_invariant(self);
            use_type_invariant(other);
            lemma_bits(self.0, other.0);
            lemma_bits(other.0, self.0);
            let x = Codec::H264;
            let y = Codec::Hevc;
            let z = Codec::Av1;
            assert(other.contains(x) || other.contains(y) || other.contains(z) || other.0 == 0);
            if forall|codec: Codec| #[trigger] other.contains(codec) ==> self.contains(codec) {
                assert(other.contains(x) ==> self.contains(x));
                assert(other.contains(y) ==> self.contains(y));
                assert(other.contains(z) ==> self.contains(z));
                assert(self.0 & other.0 == other.0);
            }
        }
        self.0 & other.0 == other.0 && other.0 != 0
    }

    /// Returns the codecs both sides can do.
    #[must_use]
    pub fn intersection(self, other: Self) -> (set: Self)
        ensures
            forall|codec: Codec| #[trigger]
                set.contains(codec) == (self.contains(codec) && other.contains(codec)),
            set.spec_bits() == self.spec_bits() & other.spec_bits(),
    {
        proof {
            use_type_invariant(self);
            lemma_bits(self.0, other.0);
        }
        Codecs(self.0 & other.0)
    }

    /// Returns whether the set is empty.
    #[must_use]
    pub fn is_empty(self) -> (empty: bool)
        ensures
            empty == (forall|codec: Codec| !#[trigger] self.contains(codec)),
    {
        proof {
            use_type_invariant(self);
            lemma_bits(self.0, 0);
            assert(self.contains(Codec::H264) || self.contains(Codec::Hevc) || self.contains(
                Codec::Av1,
            ) || self.0 == 0);
        }
        self.0 == 0
    }

    /// Returns the best codec in the set, or `None` if it is empty.
    ///
    /// Best means fewest bits for the same picture, which is the order AV1, HEVC, H.264. That
    /// is also the order of how recent the hardware has to be, so the choice is always the most
    /// that both machines can actually do.
    #[must_use]
    pub fn best(self) -> (best: Option<Codec>)
        ensures
            best is None <==> forall|codec: Codec| !#[trigger] self.contains(codec),
            best matches Some(chosen) ==> self.contains(chosen) && forall|codec: Codec| #[trigger]
                self.contains(codec) ==> codec.merit() <= chosen.merit(),
    {
        proof {
            use_type_invariant(self);
            lemma_bits(self.0, 0);
        }
        let av1: Codecs = Codec::Av1.as_set();
        let hevc: Codecs = Codec::Hevc.as_set();
        let h264: Codecs = Codec::H264.as_set();
        assert(av1.contains(Codec::Av1));
        assert(hevc.contains(Codec::Hevc));
        assert(h264.contains(Codec::H264));
        if self.has(av1) {
            Some(Codec::Av1)
        } else if self.has(hevc) {
            Some(Codec::Hevc)
        } else if self.has(h264) {
            Some(Codec::H264)
        } else {
            None
        }
    }

    /// Reads a set from the wire, dropping bits this version does not define.
    #[must_use]
    pub fn from_bits(bits: u8) -> (set: Self)
        ensures
            set == Codecs::read(bits),
            set.spec_bits() == bits & 7,
            forall|codec: Codec| #[trigger] set.contains(codec) == (bits & codec.bit() != 0),
    {
        proof {
            lemma_bits(bits, 0);
        }
        Codecs(bits & KNOWN)
    }

    /// The set that bits stand for.
    pub closed spec fn read(bits: u8) -> Codecs {
        Codecs(bits & 7)
    }

    /// Returns the bits as they travel.
    #[must_use]
    pub fn bits(self) -> (bits: u8)
        ensures
            bits == self.spec_bits(),
            bits <= 7,
            Codecs::read(bits) == self,
            forall|codec: Codec| #[trigger] self.contains(codec) == (bits & codec.bit() != 0),
    {
        proof {
            use_type_invariant(self);
            lemma_bits(self.0, 0);
        }
        self.0
    }
}

impl Default for Codecs {
    fn default() -> (set: Self)
        ensures
            forall|codec: Codec| !#[trigger] set.contains(codec),
            set.spec_bits() == 0,
    {
        Codecs::none()
    }
}

/// Bits that this version does not define are dropped when a set is read: only the three that it
/// does define decide which set it is, and they are the bits the set then travels as.
pub proof fn undefined_bits_are_dropped(bits: u8)
    ensures
        Codecs::read(bits).spec_bits() == bits & 7,
        Codecs::read(bits) == Codecs::read(bits & 7),
        forall|codec: Codec| #[trigger]
            Codecs::read(bits).contains(codec) == (bits & codec.bit() != 0),
        forall|other: u8| #[trigger]
            Codecs::read(other) == Codecs::read(bits) <==> other & 7 == bits & 7,
{
    lemma_bits(bits, 0);
    lemma_bits(bits & 7, 0);
}

/// A set reads back from the bits it travels as, and no two sets travel as the same bits.
pub proof fn a_set_reads_back_from_its_bits(set: Codecs, other: Codecs)
    requires
        set.spec_bits() <= 7,
    ensures
        Codecs::read(set.spec_bits()) == set,
        set.spec_bits() == other.spec_bits() ==> set == other,
{
    lemma_bits(set.spec_bits(), 0);
}

/// Reason a negotiation message could not be read, or a session could not be agreed.
#[derive(Debug, Clone, Copy, PartialEq, Eq)]
pub enum NegotiateError {
    /// The message was not the length its version requires.
    BadLength {
        /// Which message.
        kind: &'static str,
        /// Length that arrived.
        actual: usize,
        /// Length that was required.
        expected: usize,
    },
    /// The caller's buffer cannot hold the message.
    BufferTooSmall {
        /// Buffer length supplied.
        actual: usize,
        /// Buffer length required.
        expected: usize,
    },
    /// The peer speaks a revision this build does not.
    WrongRevision {
        /// What the peer said.
        theirs: u16,
    },
    /// The host named a codec this version does not define.
    UnknownCodec {
        /// The byte that was rejected.
        byte: u8,
    },
    /// There is no codec both machines can do.
    ///
    /// Should be impossible: every machine this runs on does H.264, and a client that offered
    /// nothing has said it cannot decode video at all.
    NoCommonCodec,
}

/// The revision of this agreement.
///
/// Bumped when the meaning of a field changes, and checked before anything is read: two builds
/// that disagree about what a byte means and carry on anyway produce a session that fails
/// somewhere far from the cause.
pub const REVISION: u16 = 1;

/// Bytes in the client's half.
pub const OFFER_LEN: usize = 12;

/// Bytes in the host's half.
pub const ACCEPT_LEN: usize = 14;

/// What an encoder of this module does: writes the whole message or refuses a buffer it does
/// not fit in, and leaves the rest of the buffer alone either way.
pub open spec fn written(
    result: Result<usize, NegotiateError>,
    was: Seq<u8>,
    now: Seq<u8>,
    wire: Seq<u8>,
) -> bool {
    if was.len() < wire.len() {
        &&& result == Err::<usize, NegotiateError>(
            NegotiateError::BufferTooSmall {
                actual: was.len() as usize,
                expected: wire.len() as usize,
            },
        )
        &&& now == was
    } else {
        &&& result == Ok::<usize, NegotiateError>(wire.len() as usize)
        &&& overwritten(now, was, wire)
    }
}

/// A truth value as it travels.
pub open spec fn flag(on: bool) -> u8 {
    if on {
        1
    } else {
        0
    }
}

/// What the client can do, sent in the message that opens the session.
#[derive(Debug, Clone, Copy, PartialEq, Eq)]
pub struct Offer {
    /// Codecs this machine can decode, in hardware or otherwise.
    pub codecs: Codecs,
    /// The largest picture it will accept.
    ///
    /// Its display, usually. A host streaming more than the client can show is spending bitrate
    /// on pixels that will be thrown away before anybody sees them.
    pub max_width: u16,
    /// The largest picture it will accept.
    pub max_height: u16,
    /// The highest rate it can present.
    pub max_fps: u16,
    /// Whether it wants sound.
    pub audio: bool,
}

impl Offer {
    /// The bytes this offer travels as. The last two are held back: a field added later can use
    /// them without changing the length.
    pub open spec fn wire(&self) -> Seq<u8> {
        le_bytes(REVISION as nat, 2) + seq![self.codecs.spec_bits()] + seq![flag(self.audio)]
            + le_bytes(self.max_width as nat, 2) + le_bytes(self.max_height as nat, 2) + le_bytes(
            self.max_fps as nat,
            2,
        ) + le_bytes(0, 2)
    }

    /// The offer in some bytes, or why they are not one.
    pub open spec fn parse(bytes: Seq<u8>) -> Result<Offer, NegotiateError> {
        if bytes.len() != OFFER_LEN {
            Err(
                NegotiateError::BadLength {
                    kind: "offer",
                    actual: bytes.len() as usize,
                    expected: OFFER_LEN,
                },
            )
        } else if le_at(bytes, 0, 2) != REVISION {
            Err(NegotiateError::WrongRevision { theirs: le_at(bytes, 0, 2) as u16 })
        } else {
            Ok(
                Offer {
                    codecs: Codecs::read(bytes[2]),
                    audio: bytes[3] != 0,
                    max_width: le_at(bytes, 4, 2) as u16,
                    max_height: le_at(bytes, 6, 2) as u16,
                    max_fps: le_at(bytes, 8, 2) as u16,
                },
            )
        }
    }

    /// Writes the offer into `out`.
    ///
    /// Returns [`NegotiateError::BufferTooSmall`] if `out` cannot hold it.
    pub fn encode_into(&self, out: &mut [u8]) -> (result: Result<usize, NegotiateError>)
        ensures
            written(result, old(out)@, final(out)@, self.wire()),
            self.wire().len() == OFFER_LEN,
            Offer::parse(self.wire()) == Ok::<Offer, NegotiateError>(*self),
    {
        broadcast use lemma_le_bytes_len;

        proof {
            use_type_invariant(&self.codecs);
            lemma_bits(self.codecs.0, 0);
            offer_round_trip(*self);
        }
        if out.len() < OFFER_LEN {
            return Err(
                NegotiateError::BufferTooSmall { actual: out.len(), expected: OFFER_LEN },
            );
        }
        proof {
            lemma_nothing_overwritten(out@);
        }
        put_le(out, 0, REVISION as u64, 2);
        put_byte(out, 2, self.codecs.bits());
        put_byte(out, 3, if self.audio { 1 } else { 0 });
        put_le(out, 4, self.max_width as u64, 2);
        put_le(out, 6, self.max_height as u64, 2);
        put_le(out, 8, self.max_fps as u64, 2);
        put_le(out, 10, 0, 2);
        Ok(OFFER_LEN)
    }

    /// Reads an offer.
    ///
    /// Returns [`NegotiateError::BadLength`] for a message of the wrong size and
    /// [`NegotiateError::WrongRevision`] for one this build does not speak.
    pub fn decode(bytes: &[u8]) -> (offer: Result<Self, NegotiateError>)
        ensures
            offer == Offer::parse(bytes@),
            offer matches Ok(offer) ==> offer.codecs.spec_bits() == bytes@[2] & 7,
    {
        if bytes.len() != OFFER_LEN {
            return Err(
                NegotiateError::BadLength {
                    kind: "offer",
                    actual: bytes.len(),
                    expected: OFFER_LEN,
                },
            );
        }
        let revision: u16 = read_u16(bytes, 0);
        if revision != REVISION {
            return Err(NegotiateError::WrongRevision { theirs: revision });
        }
        Ok(
            Offer {
                codecs: Codecs::from_bits(bytes[2]),
                audio: bytes[3] != 0,
                max_width: read_u16(bytes, 4),
                max_height: read_u16(bytes, 6),
                max_fps: read_u16(bytes, 8),
            },
        )
    }
}

/// What the host decided, sent in the message that completes the session.
#[derive(Debug, Clone, Copy, PartialEq, Eq)]
pub struct Accept {
    /// The codec the stream will use.
    pub codec: Codec,
    /// The picture the stream will carry.
    pub width: u16,
    /// The picture the stream will carry.
    pub height: u16,
    /// The rate it will run at.
    pub fps: u16,
    /// The bitrate it will aim for.
    pub bitrate_bps: u32,
    /// Whether sound will be sent.
    pub audio: bool,
}

impl Accept {
    /// The bytes this decision travels as.
    pub open spec fn wire(&self) -> Seq<u8> {
        le_bytes(REVISION as nat, 2) + seq![self.codec.spec_byte()] + seq![flag(self.audio)]
            + le_bytes(self.width as nat, 2) + le_bytes(self.height as nat, 2) + le_bytes(
            self.fps as nat,
            2,
        ) + le_bytes(self.bitrate_bps as nat, 4)
    }

    /// The decision in some bytes, or why they are not one.
    pub open spec fn parse(bytes: Seq<u8>) -> Result<Accept, NegotiateError> {
        if bytes.len() != ACCEPT_LEN {
            Err(
                NegotiateError::BadLength {
                    kind: "accept",
                    actual: bytes.len() as usize,
                    expected: ACCEPT_LEN,
                },
            )
        } else if le_at(bytes, 0, 2) != REVISION {
            Err(NegotiateError::WrongRevision { theirs: le_at(bytes, 0, 2) as u16 })
        } else {
            match Codec::named_by(bytes[2]) {
                None => Err(NegotiateError::UnknownCodec { byte: bytes[2] }),
                Some(codec) => Ok(
                    Accept {
                        codec,
                        audio: bytes[3] != 0,
                        width: le_at(bytes, 4, 2) as u16,
                        height: le_at(bytes, 6, 2) as u16,
                        fps: le_at(bytes, 8, 2) as u16,
                        bitrate_bps: le_at(bytes, 10, 4) as u32,
                    },
                ),
            }
        }
    }

    /// Writes the decision into `out`.
    ///
    /// Returns [`NegotiateError::BufferTooSmall`] if `out` cannot hold it.
    pub fn encode_into(&self, out: &mut [u8]) -> (result: Result<usize, NegotiateError>)
        ensures
            written(result, old(out)@, final(out)@, self.wire()),
            self.wire().len() == ACCEPT_LEN,
    {
        broadcast use lemma_le_bytes_len;

        if out.len() < ACCEPT_LEN {
            return Err(
                NegotiateError::BufferTooSmall { actual: out.len(), expected: ACCEPT_LEN },
            );
        }
        proof {
            lemma_nothing_overwritten(out@);
        }
        put_le(out, 0, REVISION as u64, 2);
        put_byte(out, 2, self.codec.byte());
        put_byte(out, 3, if self.audio { 1 } else { 0 });
        put_le(out, 4, self.width as u64, 2);
        put_le(out, 6, self.height as u64, 2);
        put_le(out, 8, self.fps as u64, 2);
        put_le(out, 10, self.bitrate_bps as u64, 4);
        Ok(ACCEPT_LEN)
    }

    /// Reads a decision.
    ///
    /// Returns [`NegotiateError::BadLength`], [`NegotiateError::WrongRevision`], or
    /// [`NegotiateError::UnknownCodec`] if the host named one this build cannot decode, which
    /// means the host is newer and chose something it should not have.
    pub fn decode(bytes: &[u8]) -> (accept: Result<Self, NegotiateError>)
        ensures
            accept == Accept::parse(bytes@),
    {
        if bytes.len() != ACCEPT_LEN {
            return Err(
                NegotiateError::BadLength {
                    kind: "accept",
                    actual: bytes.len(),
                    expected: ACCEPT_LEN,
                },
            );
        }
        let revision: u16 = read_u16(bytes, 0);
        if revision != REVISION {
            return Err(NegotiateError::WrongRevision { theirs: revision });
        }
        let codec: Codec = match Codec::from_byte(bytes[2]) {
            Some(codec) => codec,
            None => return Err(NegotiateError::UnknownCodec { byte: bytes[2] }),
        };
        Ok(
            Accept {
                codec,
                audio: bytes[3] != 0,
                width: read_u16(bytes, 4),
                height: read_u16(bytes, 6),
                fps: read_u16(bytes, 8),
                bitrate_bps: read_u32(bytes, 10),
            },
        )
    }
}

/// A decision reads back from its own bytes.
pub proof fn accept_round_trip(accept: Accept)
    ensures
        Accept::parse(accept.wire()) == Ok::<Accept, NegotiateError>(accept),
{
    broadcast use lemma_le_bytes_len;

    lemma_byte_ranges();
    let wire = accept.wire();
    field_reads_back(wire, 0, REVISION as nat, 2);
    field_reads_back(wire, 4, accept.width as nat, 2);
    field_reads_back(wire, 6, accept.height as nat, 2);
    field_reads_back(wire, 8, accept.fps as nat, 2);
    field_reads_back(wire, 10, accept.bitrate_bps as nat, 4);
}

/// What this version does not define never changes what an offer says: neither the bits of
/// codecs it does not know nor the two bytes that are held back.
pub proof fn an_offer_ignores_what_is_not_defined(bytes: Seq<u8>, other: Seq<u8>)
    requires
        bytes.len() == OFFER_LEN,
        other.len() == OFFER_LEN,
        forall|i: int| 0 <= i < 10 && i != 2 ==> #[trigger] bytes[i] == other[i],
        bytes[2] & 7 == other[2] & 7,
    ensures
        Offer::parse(bytes) == Offer::parse(other),
{
    undefined_bits_are_dropped(bytes[2]);
    undefined_bits_are_dropped(other[2]);
    assert(bytes.subrange(0, 2) =~= other.subrange(0, 2));
    assert(bytes.subrange(4, 6) =~= other.subrange(4, 6));
    assert(bytes.subrange(6, 8) =~= other.subrange(6, 8));
    assert(bytes.subrange(8, 10) =~= other.subrange(8, 10));
}

/// An offer reads back from its own bytes.
pub proof fn offer_round_trip(offer: Offer)
    requires
        offer.codecs.spec_bits() <= 7,
    ensures
        Offer::parse(offer.wire()) == Ok::<Offer, NegotiateError>(offer),
{
    broadcast use lemma_le_bytes_len;

    lemma_byte_ranges();
    a_set_reads_back_from_its_bits(offer.codecs, offer.codecs);
    let wire = offer.wire();
    field_reads_back(wire, 0, REVISION as nat, 2);
    field_reads_back(wire, 4, offer.max_width as nat, 2);
    field_reads_back(wire, 6, offer.max_height as nat, 2);
    field_reads_back(wire, 8, offer.max_fps as nat, 2);
}

/// Which codecs both machines can do depends on the bits both have set, each codec on its own:
/// bit 0 is H.264, bit 1 is HEVC and bit 2 is AV1.
pub proof fn a_codec_is_common_where_both_have_its_bit(host: HostAbility, offer: Offer)
    ensures
        common(host, offer, Codec::H264) == (host.codecs.spec_bits() & 1 != 0
            && offer.codecs.spec_bits() & 1 != 0),
        common(host, offer, Codec::Hevc) == (host.codecs.spec_bits() & 2 != 0
            && offer.codecs.spec_bits() & 2 != 0),
        common(host, offer, Codec::Av1) == (host.codecs.spec_bits() & 4 != 0
            && offer.codecs.spec_bits() & 4 != 0),
{
}

/// What a host is able and willing to send.
#[derive(Debug, Clone, Copy, PartialEq, Eq)]
pub struct HostAbility {
    /// Codecs this machine can encode.
    pub codecs: Codecs,
    /// The picture it would send if nothing constrained it: its screen.
    pub width: u16,
    /// The picture it would send if nothing constrained it.
    pub height: u16,
    /// The rate it would run at.
    pub fps: u16,
    /// The bitrate it would aim for.
    pub bitrate_bps: u32,
    /// Whether it can send sound.
    pub audio: bool,
}

/// The smaller of two sizes.
pub open spec fn smaller(a: u16, b: u16) -> int {
    if a <= b {
        a as int
    } else {
        b as int
    }
}

/// Whether both machines can do a codec.
pub open spec fn common(host: HostAbility, offer: Offer, codec: Codec) -> bool {
    host.codecs.contains(codec) && offer.codecs.contains(codec)
}

/// Decides what the session will be.
///
/// Every dimension is the smaller of what each side wants. A host that sent more pixels than
/// the client can show would be spending bitrate on pixels thrown away before anybody saw them,
/// and one that sent frames faster than the client can present would be spending it on frames
/// nobody sees at all.
///
/// Returns [`NegotiateError::NoCommonCodec`] if the two share none, which means the client
/// offered nothing this host can produce.
pub fn decide(host: HostAbility, offer: Offer) -> (accept: Result<Accept, NegotiateError>)
    ensures
        accept is Ok <==> exists|codec: Codec| #[trigger] common(host, offer, codec),
        accept matches Err(error) ==> error == NegotiateError::NoCommonCodec,
        accept matches Ok(session) ==> {
            &&& common(host, offer, session.codec)
            &&& forall|codec: Codec| #[trigger]
                common(host, offer, codec) ==> codec.merit() <= session.codec.merit()
            &&& session.width == smaller(host.width, offer.max_width) / 2 * 2
            &&& session.height == smaller(host.height, offer.max_height) / 2 * 2
            &&& session.fps == if smaller(host.fps, offer.max_fps) == 0 {
                1
            } else {
                smaller(host.fps, offer.max_fps)
            }
            &&& session.bitrate_bps == host.bitrate_bps
            &&& session.audio == (host.audio && offer.audio)
        },
        accept matches Ok(session) ==> {
            &&& session.codec == if common(host, offer, Codec::Av1) {
                Codec::Av1
            } else if common(host, offer, Codec::Hevc) {
                Codec::Hevc
            } else {
                Codec::H264
            }
            &&& session.width % 2 == 0 && session.height % 2 == 0
            &&& session.width <= host.width && session.width <= offer.max_width
            &&& session.height <= host.height && session.height <= offer.max_height
            &&& session.width + 2 > host.width || session.width + 2 > offer.max_width
            &&& session.height + 2 > host.height || session.height + 2 > offer.max_height
            &&& session.fps >= 1
            &&& session.fps == 1 || (session.fps <= host.fps && session.fps <= offer.max_fps)
            &&& session.fps >= host.fps || session.fps >= offer.max_fps
        },
{
    let shared: Codecs = host.codecs.intersection(offer.codecs);
    assert(forall|codec: Codec| #[trigger]
        common(host, offer, codec) == shared.contains(codec));
    let codec: Codec = match shared.best() {
        Some(codec) => codec,
        None => return Err(NegotiateError::NoCommonCodec),
    };
    assert(common(host, offer, codec));
    let width: u16 = if host.width <= offer.max_width {
        host.width
    } else {
        offer.max_width
    };
    let height: u16 = if host.height <= offer.max_height {
        host.height
    } else {
        offer.max_height
    };
    let fps: u16 = if host.fps <= offer.max_fps {
        host.fps
    } else {
        offer.max_fps
    };
    // Even, because every codec here subsamples chroma by two in both directions and an odd
    // dimension has no representation. Taking the minimum first and rounding after means a
    // client asking for an odd size gets the even one below it rather than a refusal.
    Ok(
        Accept {
            codec,
            width: width / 2 * 2,
            height: height / 2 * 2,
            fps: if fps == 0 {
                1
            } else {
                fps
            },
            bitrate_bps: host.bitrate_bps,
            audio: host.audio && offer.audio,
        },
    )
}

} // verus!
