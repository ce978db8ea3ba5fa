//! The messages two machines behind NAT use to find each other.
//!
//! A host and a client on different home connections cannot address each other: both sit behind a
//! router that has no inbound mapping until something inside creates one. The rendezvous server
//! is the fixed point they can both reach. Each sends it a datagram, it observes where that
//! datagram came from, and it tells each side where the other is. Then both send to the address
//! they were given at the same time, and each side's outbound packet opens the mapping its router
//! needs for the other's.
//!
//! # The server is not trusted
//!
//! It never sees a session key and cannot make one. The worst a hostile server can do is refuse
//! to introduce two peers, or introduce them to the wrong address, and the wrong address simply
//! fails the Noise handshake.
//!
//! # What registration proves
//!
//! A host claims a public key when it registers. If a claim were taken at face value, anyone who
//! has seen that key could register it and point the host's clients somewhere else. So the server
//! answers a claim with a challenge only the holder of the matching private key can read: a
//! Diffie-Hellman against the claimed key itself, sealed under the result.

use vstd::prelude::*;

use crate::bytes::{
    le_bytes, lemma_byte_ranges, lemma_le_bytes_len, lemma_le_bytes_of_value,
    lemma_le_value_of_bytes, lemma_nothing_overwritten, overwritten, put_bytes, put_le, read_u16,
};
use crate::net::crypto::{
    array_of, chacha_open, chacha_opened, chacha_seal, chacha_sealed, derive_key, fill_random,
    hkdf_sha256, x25519_public, x25519_shared, zeroed_array, NONCE_BYTES,
};
use crate::net::handshake::{agree, public_key, KEY_LEN};

verus! {

/// Bytes in the secret a challenge carries.
pub const PROOF_LEN: usize = 16;

/// Bytes in a relay token.
///
/// Eight random bytes, which is what the two peers present at the relay port to be paired with
/// each other. It authorises nothing, so its only job is to be unguessable enough that a stranger
/// cannot be spliced into somebody's relay by chance.
pub const RELAY_TOKEN_LEN: usize = 8;

/// Bytes of a sealed challenge: the secret, then its authentication tag.
pub const SEALED_PROOF_LEN: usize = 32;

/// Longest a rendezvous message can be, which every one of them is far below.
pub const MAX_MESSAGE_LEN: usize = 128;

/// A host claiming a public key.
pub const TAG_REGISTER: u8 = 0x01;

/// The server asking the claim to be proved.
pub const TAG_CHALLENGE: u8 = 0x02;

/// The host answering the challenge.
pub const TAG_PROVE: u8 = 0x03;

/// The server confirming the registration.
pub const TAG_REGISTERED: u8 = 0x04;

/// A client asking to be introduced to a host.
pub const TAG_CONNECT: u8 = 0x05;

/// The server telling a host that someone is calling.
pub const TAG_INCOMING: u8 = 0x06;

/// The server telling a client where the host is.
pub const TAG_FOUND: u8 = 0x07;

/// The server saying it knows no such host.
pub const TAG_UNKNOWN_HOST: u8 = 0x08;

/// A host keeping its registration and its NAT mapping alive.
pub const TAG_KEEPALIVE: u8 = 0x09;

/// A peer asking for the server to carry its traffic after punching failed.
pub const TAG_RELAY: u8 = 0x0a;

/// The server naming the port and token to relay through.
pub const TAG_RELAYING: u8 = 0x0b;

/// Reason a rendezvous message could not be read.
#[allow(inconsistent_fields)]
#[derive(Debug, Clone, Copy, PartialEq, Eq)]
pub enum RendezvousError {
    /// The datagram was empty.
    Empty,
    /// The first byte named no message this version knows.
    UnknownType {
        /// The byte that was rejected.
        tag: u8,
    },
    /// The message was not the length its type requires.
    BadLength {
        /// Which message it claimed to be.
        kind: &'static str,
        /// Length that arrived.
        actual: usize,
        /// Length that was required.
        expected: usize,
    },
    /// An address field did not name a version of IP.
    BadAddress {
        /// The byte that was rejected.
        family: u8,
    },
    /// The caller's buffer cannot hold the message.
    BufferTooSmall {
        /// Buffer length supplied.
        actual: usize,
        /// Buffer length required.
        needed: usize,
    },
    /// A challenge did not open, so the key was not held.
    NotProven,
}

/// The octets of an IP address of either version.
#[derive(Debug, Clone, Copy, PartialEq, Eq)]
pub enum IpOctets {
    /// An IPv4 address.
    V4([u8; 4]),
    /// An IPv6 address.
    V6([u8; 16]),
}

/// Where a peer is: an IP address and a port.
#[derive(Debug, Clone, Copy, PartialEq, Eq)]
pub struct PeerAddress {
    /// The address.
    pub ip: IpOctets,
    /// The port.
    pub port: u16,
}

/// One message in the rendezvous protocol.
#[derive(Debug, Clone, PartialEq, Eq)]
#[allow(inconsistent_fields)]
pub enum Message {
    /// A host claims a public key and asks to be reachable under it.
    Register {
        /// The key being claimed.
        host: [u8; KEY_LEN],
    },
    /// The server asks the claim to be proved.
    ///
    /// The secret is sealed under a Diffie-Hellman against the claimed key, so only the holder of
    /// its private half can read it.
    Challenge {
        /// The server's throwaway public key for this challenge.
        ephemeral: [u8; KEY_LEN],
        /// The sealed secret and its tag.
        sealed: [u8; SEALED_PROOF_LEN],
    },
    /// The host returns the secret, proving it holds the key.
    Prove {
        /// The key being claimed, repeated so the server needs no per-address state.
        host: [u8; KEY_LEN],
        /// The secret that was inside the challenge.
        secret: [u8; PROOF_LEN],
    },
    /// The server confirms a registration and reports where the host appears to be.
    ///
    /// The observed address is what a host needs to tell whether its router gave it a stable
    /// mapping, and it is the address clients will be sent to.
    Registered {
        /// Where the server saw the host.
        observed: PeerAddress,
    },
    /// A client asks to be introduced to a host.
    Connect {
        /// The host it wants.
        host: [u8; KEY_LEN],
        /// Its own key, so the host learns who is calling before it answers.
        client: [u8; KEY_LEN],
    },
    /// The server tells a registered host that a client is calling.
    ///
    /// The host answers by sending to that address, which opens its own router's mapping so the
    /// client's packets can arrive.
    Incoming {
        /// The caller's key.
        client: [u8; KEY_LEN],
        /// Where the server saw the caller.
        address: PeerAddress,
    },
    /// The server tells a client where the host is.
    Found {
        /// Where the server saw the host.
        address: PeerAddress,
        /// Where the server sees the client, for its own diagnostics.
        observed: PeerAddress,
    },
    /// The server knows no host under that key.
    ///
    /// Which means the host is not running, not that the key is wrong. The two are
    /// indistinguishable from here and the client can say only the former.
    UnknownHost,
    /// A peer asks the server to carry its traffic.
    ///
    /// Sent when punching has failed, which is what happens when both ends are behind a NAT that
    /// gives each destination a different mapping. Relaying is the exception path: it costs the
    /// server's bandwidth and adds its distance to the round trip.
    Relay {
        /// The host of the pair.
        host: [u8; KEY_LEN],
        /// The client of the pair.
        client: [u8; KEY_LEN],
    },
    /// The server names where to send and what to present.
    ///
    /// Sent to both peers. Each then sends its token to the relay port, and once both have been
    /// seen the server forwards between the two addresses verbatim.
    Relaying {
        /// The port to send to, on the same address the server was reached at.
        port: u16,
        /// What to present at that port.
        token: [u8; RELAY_TOKEN_LEN],
    },
    /// A host holds its registration and its router's mapping open.
    ///
    /// A NAT mapping expires after tens of seconds of silence, so a host that only spoke at
    /// startup would become unreachable without anything appearing to have gone wrong.
    Keepalive {
        /// The key whose registration is being held.
        host: [u8; KEY_LEN],
    },
}

/// The pieces of a message put end to end.
pub open spec fn joined(pieces: Seq<Seq<u8>>) -> Seq<u8>
    decreases pieces.len(),
{
    if pieces.len() == 0 {
        Seq::empty()
    } else {
        joined(pieces.drop_last()) + pieces.last()
    }
}

/// One piece more makes the whole longer by that piece.
pub broadcast proof fn lemma_joined_push(pieces: Seq<Seq<u8>>, piece: Seq<u8>)
    ensures
        #[trigger] joined(pieces.push(piece)) == joined(pieces) + piece,
{
    assert(pieces.push(piece).drop_last() =~= pieces);
}

/// One piece alone is the whole.
pub broadcast proof fn lemma_joined_one(piece: Seq<u8>)
    ensures
        #[trigger] joined(seq![piece]) == piece,
{
    reveal_with_fuel(joined, 2);
    assert(seq![piece].drop_last() =~= Seq::empty());
    assert(Seq::<u8>::empty() + piece =~= piece);
}

impl IpOctets {
    /// The byte that says which version the address is of.
    pub open spec fn family(self) -> u8 {
        match self {
            IpOctets::V4(_) => 4,
            IpOctets::V6(_) => 6,
        }
    }

    /// The bytes of the address.
    pub open spec fn octets(self) -> Seq<u8> {
        match self {
            IpOctets::V4(octets) => octets@,
            IpOctets::V6(octets) => octets@,
        }
    }
}

impl PeerAddress {
    /// Adds the pieces an address is written as: a family byte, the address, then the port.
    pub open spec fn after(self, pieces: Seq<Seq<u8>>) -> Seq<Seq<u8>> {
        pieces.push(seq![self.ip.family()]).push(self.ip.octets()).push(
            le_bytes(self.port as nat, 2),
        )
    }

    /// The bytes an address is written as.
    pub open spec fn wire(self) -> Seq<u8> {
        seq![self.ip.family()] + self.ip.octets() + le_bytes(self.port as nat, 2)
    }
}

impl Message {
    /// The first byte of the message.
    pub open spec fn tag(self) -> u8 {
        match self {
            Message::Register { .. } => TAG_REGISTER,
            Message::Challenge { .. } => TAG_CHALLENGE,
            Message::Prove { .. } => TAG_PROVE,
            Message::Registered { .. } => TAG_REGISTERED,
            Message::Connect { .. } => TAG_CONNECT,
            Message::Incoming { .. } => TAG_INCOMING,
            Message::Found { .. } => TAG_FOUND,
            Message::UnknownHost => TAG_UNKNOWN_HOST,
            Message::Keepalive { .. } => TAG_KEEPALIVE,
            Message::Relay { .. } => TAG_RELAY,
            Message::Relaying { .. } => TAG_RELAYING,
        }
    }

    /// The pieces the message is written as, in order.
    pub open spec fn pieces(self) -> Seq<Seq<u8>> {
        let start = seq![seq![self.tag()]];
        match self {
            Message::Register { host } => start.push(host@),
            Message::Challenge { ephemeral, sealed } => start.push(ephemeral@).push(sealed@),
            Message::Prove { host, secret } => start.push(host@).push(secret@),
            Message::Registered { observed } => observed.after(start),
            Message::Connect { host, client } => start.push(host@).push(client@),
            Message::Incoming { client, address } => address.after(start.push(client@)),
            Message::Found { address, observed } => observed.after(address.after(start)),
            Message::UnknownHost => start,
            Message::Keepalive { host } => start.push(host@),
            Message::Relay { host, client } => start.push(host@).push(client@),
            Message::Relaying { port, token } => start.push(le_bytes(port as nat, 2)).push(token@),
        }
    }

    /// The bytes the message is written as.
    pub open spec fn wire(self) -> Seq<u8> {
        joined(self.pieces())
    }
}

/// The bytes of each piece in a list.
pub open spec fn piece_bytes(pieces: Seq<Vec<u8>>) -> Seq<Seq<u8>> {
    Seq::new(pieces.len(), |i: int| pieces[i]@)
}

/// Gathers the pieces a message is written as.
struct Writer {
    pieces: Vec<Vec<u8>>,
}

impl Writer {
    /// The pieces gathered so far.
    spec fn gathered(&self) -> Seq<Seq<u8>> {
        piece_bytes(self.pieces@)
    }

    /// Starts a message with its tag.
    fn new(tag: u8) -> (writer: Writer)
        ensures
            writer.gathered() == seq![seq![tag]],
    {
        let first: Vec<u8> = vec![tag];
        assert(first@ =~= seq![tag]);
        let mut pieces: Vec<Vec<u8>> = Vec::new();
        pieces.push(first);
        let writer = Writer { pieces };
        assert(writer.gathered() =~= seq![seq![tag]]);
        writer
    }

    /// Adds a run of bytes.
    fn bytes(&mut self, value: &[u8])
        ensures
            final(self).gathered() == old(self).gathered().push(value@),
    {
        self.pieces.push(vstd::slice::slice_to_vec(value));
        assert(self.gathered() =~= old(self).gathered().push(value@));
    }

    /// Adds a little-endian number of two bytes.
    fn short(&mut self, value: u16)
        ensures
            final(self).gathered() == old(self).gathered().push(le_bytes(value as nat, 2)),
    {
        broadcast use lemma_le_bytes_len;

        let mut bytes: Vec<u8> = vec![0u8; 2];
        proof {
            lemma_nothing_overwritten(bytes@);
        }
        put_le(bytes.as_mut_slice(), 0, value as u64, 2);
        assert(bytes@ =~= le_bytes(value as nat, 2));
        self.bytes(bytes.as_slice());
    }

    /// Adds an address as a family byte, the address, then the port.
    fn address(&mut self, value: &PeerAddress)
        ensures
            final(self).gathered() == value.after(old(self).gathered()),
    {
        match &value.ip {
            IpOctets::V4(octets) => {
                let family: [u8; 1] = [4];
                assert(family@ =~= seq![4u8]);
                self.bytes(family.as_slice());
                self.bytes(octets.as_slice());
            },
            IpOctets::V6(octets) => {
                let family: [u8; 1] = [6];
                assert(family@ =~= seq![6u8]);
                self.bytes(family.as_slice());
                self.bytes(octets.as_slice());
            },
        }
        self.short(value.port);
    }
}

/// Whether writing pieces into a buffer of `room` bytes stops before piece `index`: the pieces
/// before it fit, and it does not.
pub open spec fn stops_at(pieces: Seq<Seq<u8>>, room: nat, index: int) -> bool {
    &&& 0 <= index < pieces.len()
    &&& joined(pieces.take(index)).len() <= room
    &&& joined(pieces.take(index + 1)).len() > room
}

impl Message {
    /// Gathers the pieces the message is written as.
    fn gather(&self) -> (pieces: Vec<Vec<u8>>)
        ensures
            piece_bytes(pieces@) == self.pieces(),
    {
        match self {
            Message::Register { host } => {
                let mut writer = Writer::new(TAG_REGISTER);
                writer.bytes(host.as_slice());
                writer.pieces
            },
            Message::Challenge { ephemeral, sealed } => {
                let mut writer = Writer::new(TAG_CHALLENGE);
                writer.bytes(ephemeral.as_slice());
                writer.bytes(sealed.as_slice());
                writer.pieces
            },
            Message::Prove { host, secret } => {
                let mut writer = Writer::new(TAG_PROVE);
                writer.bytes(host.as_slice());
                writer.bytes(secret.as_slice());
                writer.pieces
            },
            Message::Registered { observed } => {
                let mut writer = Writer::new(TAG_REGISTERED);
                writer.address(observed);
                writer.pieces
            },
            Message::Connect { host, client } => {
                let mut writer = Writer::new(TAG_CONNECT);
                writer.bytes(host.as_slice());
                writer.bytes(client.as_slice());
                writer.pieces
            },
            Message::Incoming { client, address } => {
                let mut writer = Writer::new(TAG_INCOMING);
                writer.bytes(client.as_slice());
                writer.address(address);
                writer.pieces
            },
            Message::Found { address, observed } => {
                let mut writer = Writer::new(TAG_FOUND);
                writer.address(address);
                writer.address(observed);
                writer.pieces
            },
            Message::UnknownHost => {
                let writer = Writer::new(TAG_UNKNOWN_HOST);
                writer.pieces
            },
            Message::Keepalive { host } => {
                let mut writer = Writer::new(TAG_KEEPALIVE);
                writer.bytes(host.as_slice());
                writer.pieces
            },
            Message::Relay { host, client } => {
                let mut writer = Writer::new(TAG_RELAY);
                writer.bytes(host.as_slice());
                writer.bytes(client.as_slice());
                writer.pieces
            },
            Message::Relaying { port, token } => {
                let mut writer = Writer::new(TAG_RELAYING);
                writer.short(*port);
                writer.bytes(token.as_slice());
                writer.pieces
            },
        }
    }

    /// Writes the message into `out` and returns how many bytes were used.
    ///
    /// A buffer that cannot hold it is filled with the pieces that do fit, and the error says how
    /// long it would have to be to hold one more.
    pub fn encode_into(&self, out: &mut [u8]) -> (written: Result<usize, RendezvousError>)
        ensures
            match written {
                Ok(len) => {
                    &&& len == self.wire().len()
                    &&& overwritten(final(out)@, old(out)@, self.wire())
                },
                Err(error) => {
                    &&& self.wire().len() > old(out)@.len()
                    &&& exists|index: int|
                        #![trigger stops_at(self.pieces(), old(out)@.len(), index)]
                        {
                            &&& stops_at(self.pieces(), old(out)@.len(), index)
                            &&& error == (RendezvousError::BufferTooSmall {
                                actual: old(out)@.len() as usize,
                                needed: joined(self.pieces().take(index + 1)).len() as usize,
                            })
                            &&& overwritten(
                                final(out)@,
                                old(out)@,
                                joined(self.pieces().take(index)),
                            )
                        }
                },
            },
    {
        let pieces: Vec<Vec<u8>> = self.gather();
        let ghost all = self.pieces();
        let ghost was = out@;
        let mut at: usize = 0;
        let mut i: usize = 0;
        proof {
            assert(out.len() == was.len());
            lemma_nothing_overwritten(was);
            lemma_wire_len(*self);
            assert(all.take(0) =~= Seq::empty());
        }
        while i < pieces.len()
            invariant
                i <= pieces@.len(),
                all == self.pieces(),
                all == piece_bytes(pieces@),
                out@.len() == was.len(),
                was.len() <= usize::MAX,
                was == old(out)@,
                at == joined(all.take(i as int)).len(),
                at <= was.len(),
                self.wire().len() <= MAX_MESSAGE_LEN,
                overwritten(out@, was, joined(all.take(i as int))),
            decreases pieces@.len() - i,
        {
            proof {
                assert(all.take(i + 1) =~= all.take(i as int).push(all[i as int]));
                lemma_joined_push(all.take(i as int), all[i as int]);
                lemma_joined_prefix(all, i + 1);
                assert(pieces@[i as int]@ == all[i as int]);
            }
            let piece: &[u8] = pieces[i].as_slice();
            let end: usize = at + piece.len();
            if end > out.len() {
                proof {
                    assert(stops_at(self.pieces(), old(out)@.len(), i as int));
                }
                return Err(RendezvousError::BufferTooSmall { actual: out.len(), needed: end });
            }
            put_bytes(out, at, piece);
            at = end;
            i = i + 1;
        }
        assert(all.take(all.len() as int) =~= all);
        Ok(at)
    }
}

/// The first pieces of a message are no longer than the whole.
proof fn lemma_joined_prefix(pieces: Seq<Seq<u8>>, count: int)
    requires
        0 <= count <= pieces.len(),
    ensures
        joined(pieces.take(count)).len() <= joined(pieces).len(),
    decreases pieces.len(),
{
    if count == pieces.len() {
        assert(pieces.take(count) =~= pieces);
    } else {
        assert(pieces.drop_last().take(count) =~= pieces.take(count));
        lemma_joined_prefix(pieces.drop_last(), count);
    }
}

/// No message is longer than the longest one may be.
pub proof fn lemma_wire_len(message: Message)
    ensures
        0 < message.wire().len() <= MAX_MESSAGE_LEN,
{
    broadcast use lemma_joined_push, lemma_joined_one, lemma_le_bytes_len;

}

/// One part of a message after its tag.
pub enum Part {
    /// There is none.
    Nothing,
    /// A run of so many bytes.
    Bytes(nat),
    /// An address.
    Address,
}

/// The parts of a message, by its tag.
pub open spec fn parts_of(tag: u8) -> Option<(Part, Part)> {
    if tag == TAG_REGISTER {
        Some((Part::Bytes(KEY_LEN as nat), Part::Nothing))
    } else if tag == TAG_CHALLENGE {
        Some((Part::Bytes(KEY_LEN as nat), Part::Bytes(SEALED_PROOF_LEN as nat)))
    } else if tag == TAG_PROVE {
        Some((Part::Bytes(KEY_LEN as nat), Part::Bytes(PROOF_LEN as nat)))
    } else if tag == TAG_REGISTERED {
        Some((Part::Address, Part::Nothing))
    } else if tag == TAG_CONNECT {
        Some((Part::Bytes(KEY_LEN as nat), Part::Bytes(KEY_LEN as nat)))
    } else if tag == TAG_INCOMING {
        Some((Part::Bytes(KEY_LEN as nat), Part::Address))
    } else if tag == TAG_FOUND {
        Some((Part::Address, Part::Address))
    } else if tag == TAG_UNKNOWN_HOST {
        Some((Part::Nothing, Part::Nothing))
    } else if tag == TAG_KEEPALIVE {
        Some((Part::Bytes(KEY_LEN as nat), Part::Nothing))
    } else if tag == TAG_RELAY {
        Some((Part::Bytes(KEY_LEN as nat), Part::Bytes(KEY_LEN as nat)))
    } else if tag == TAG_RELAYING {
        Some((Part::Bytes(2), Part::Bytes(RELAY_TOKEN_LEN as nat)))
    } else {
        None
    }
}

/// The name of a message type, for an error.
pub open spec fn kind_name(tag: u8) -> &'static str {
    if tag == TAG_REGISTER {
        "register"
    } else if tag == TAG_CHALLENGE {
        "challenge"
    } else if tag == TAG_PROVE {
        "prove"
    } else if tag == TAG_REGISTERED {
        "registered"
    } else if tag == TAG_CONNECT {
        "connect"
    } else if tag == TAG_INCOMING {
        "incoming"
    } else if tag == TAG_FOUND {
        "found"
    } else if tag == TAG_UNKNOWN_HOST {
        "unknown-host"
    } else if tag == TAG_KEEPALIVE {
        "keepalive"
    } else if tag == TAG_RELAY {
        "relay"
    } else if tag == TAG_RELAYING {
        "relaying"
    } else {
        "unknown"
    }
}

/// Names a message type for an error.
fn kind_of(tag: u8) -> (kind: &'static str)
    ensures
        kind == kind_name(tag),
{
    match tag {
        TAG_REGISTER => "register",
        TAG_CHALLENGE => "challenge",
        TAG_PROVE => "prove",
        TAG_REGISTERED => "registered",
        TAG_CONNECT => "connect",
        TAG_INCOMING => "incoming",
        TAG_FOUND => "found",
        TAG_UNKNOWN_HOST => "unknown-host",
        TAG_KEEPALIVE => "keepalive",
        TAG_RELAY => "relay",
        TAG_RELAYING => "relaying",
        _ => "unknown",
    }
}

/// Where a run of `n` bytes ends, if it is there.
pub open spec fn run_end(rest: Seq<u8>, at: nat, n: nat, kind: &'static str) -> Result<
    nat,
    RendezvousError,
> {
    if at + n > rest.len() {
        Err(
            RendezvousError::BadLength {
                kind,
                actual: rest.len() as usize,
                expected: (at + n) as usize,
            },
        )
    } else {
        Ok(at + n)
    }
}

/// Where an address ends, if it is there.
pub open spec fn address_end(rest: Seq<u8>, at: nat, kind: &'static str) -> Result<
    nat,
    RendezvousError,
> {
    match run_end(rest, at, 1, kind) {
        Err(error) => Err(error),
        Ok(after) => {
            let family = rest[at as int];
            if family != 4 && family != 6 {
                Err(RendezvousError::BadAddress { family })
            } else {
                match run_end(rest, after, if family == 4 { 4 } else { 16 }, kind) {
                    Err(error) => Err(error),
                    Ok(after) => run_end(rest, after, 2, kind),
                }
            }
        },
    }
}

/// Where a part ends, if it is there.
pub open spec fn part_end(rest: Seq<u8>, at: nat, part: Part, kind: &'static str) -> Result<
    nat,
    RendezvousError,
> {
    match part {
        Part::Nothing => Ok(at),
        Part::Bytes(n) => run_end(rest, at, n, kind),
        Part::Address => address_end(rest, at, kind),
    }
}

/// Why a datagram is not a message, if it is not.
pub open spec fn message_error(bytes: Seq<u8>) -> Option<RendezvousError> {
    if bytes.len() == 0 {
        Some(RendezvousError::Empty)
    } else {
        let rest = bytes.skip(1);
        match parts_end(rest, bytes[0]) {
            Err(error) => Some(error),
            Ok(end) => if end != rest.len() {
                Some(
                    RendezvousError::BadLength {
                        kind: kind_name(bytes[0]),
                        actual: rest.len() as usize,
                        expected: end as usize,
                    },
                )
            } else {
                None
            },
        }
    }
}

/// Reads fields out of a datagram, refusing to run past the end.
struct Reader<'a> {
    bytes: &'a [u8],
    at: usize,
}

impl<'a> Reader<'a> {
    /// The reader has not run past the end, nor further than a message goes.
    spec fn wf(&self) -> bool {
        self.at <= self.bytes@.len() && self.at <= MAX_MESSAGE_LEN
    }

    /// Reads a fixed-size array.
    fn array<const N: usize>(&mut self, kind: &'static str) -> (value: Result<
        [u8; N],
        RendezvousError,
    >)
        requires
            old(self).wf(),
            old(self).at + N <= MAX_MESSAGE_LEN,
        ensures
            final(self).bytes == old(self).bytes,
            match value {
                Ok(value) => {
                    &&& run_end(old(self).bytes@, old(self).at as nat, N as nat, kind) == Ok::<
                        nat,
                        RendezvousError,
                    >(final(self).at as nat)
                    &&& final(self).wf()
                    &&& value@ == old(self).bytes@.subrange(
                        old(self).at as int,
                        final(self).at as int,
                    )
                },
                Err(error) => run_end(old(self).bytes@, old(self).at as nat, N as nat, kind)
                    == Err::<nat, RendezvousError>(error),
            },
    {
        let end: usize = self.at + N;
        if end > self.bytes.len() {
            return Err(
                RendezvousError::BadLength { kind, actual: self.bytes.len(), expected: end },
            );
        }
        let value: [u8; N] = array_of::<N>(&self.bytes[self.at..end]);
        self.at = end;
        Ok(value)
    }

    /// Reads a little-endian number of two bytes.
    fn short(&mut self, kind: &'static str) -> (value: Result<u16, RendezvousError>)
        requires
            old(self).wf(),
            old(self).at + 2 <= MAX_MESSAGE_LEN,
        ensures
            final(self).bytes == old(self).bytes,
            match value {
                Ok(value) => {
                    &&& run_end(old(self).bytes@, old(self).at as nat, 2, kind) == Ok::<
                        nat,
                        RendezvousError,
                    >(final(self).at as nat)
                    &&& final(self).wf()
                    &&& le_bytes(value as nat, 2) == old(self).bytes@.subrange(
                        old(self).at as int,
                        final(self).at as int,
                    )
                },
                Err(error) => run_end(old(self).bytes@, old(self).at as nat, 2, kind) == Err::<
                    nat,
                    RendezvousError,
                >(error),
            },
    {
        match self.array::<2>(kind) {
            Err(error) => Err(error),
            Ok(bytes) => {
                let value: u16 = read_u16(bytes.as_slice(), 0);
                proof {
                    assert(bytes@.subrange(0, 2) =~= bytes@);
                    lemma_le_bytes_of_value(bytes@);
                }
                Ok(value)
            },
        }
    }

    /// Reads an address.
    fn address(&mut self, kind: &'static str) -> (value: Result<PeerAddress, RendezvousError>)
        requires
            old(self).wf(),
            old(self).at + 19 <= MAX_MESSAGE_LEN,
        ensures
            final(self).bytes == old(self).bytes,
            match value {
                Ok(value) => {
                    &&& address_end(old(self).bytes@, old(self).at as nat, kind) == Ok::<
                        nat,
                        RendezvousError,
                    >(final(self).at as nat)
                    &&& final(self).wf()
                    &&& final(self).at <= old(self).at + 19
                    &&& value.wire() == old(self).bytes@.subrange(
                        old(self).at as int,
                        final(self).at as int,
                    )
                },
                Err(error) => address_end(old(self).bytes@, old(self).at as nat, kind) == Err::<
                    nat,
                    RendezvousError,
                >(error),
            },
    {
        let ghost start = self.at as int;
        let family: u8 = match self.array::<1>(kind) {
            Err(error) => return Err(error),
            Ok(family) => family[0],
        };
        let ip: IpOctets = if family == 4 {
            match self.array::<4>(kind) {
                Err(error) => return Err(error),
                Ok(octets) => IpOctets::V4(octets),
            }
        } else if family == 6 {
            match self.array::<16>(kind) {
                Err(error) => return Err(error),
                Ok(octets) => IpOctets::V6(octets),
            }
        } else {
            return Err(RendezvousError::BadAddress { family });
        };
        let port: u16 = match self.short(kind) {
            Err(error) => return Err(error),
            Ok(port) => port,
        };
        let address = PeerAddress { ip, port };
        assert(address.wire() =~= self.bytes@.subrange(start, self.at as int));
        Ok(address)
    }

    /// Fails if anything is left over.
    fn expect_empty(&self, kind: &'static str) -> (done: Result<(), RendezvousError>)
        requires
            self.wf(),
        ensures
            match done {
                Ok(()) => self.at == self.bytes@.len(),
                Err(error) => self.at != self.bytes@.len() && error == (RendezvousError::BadLength {
                    kind,
                    actual: self.bytes@.len() as usize,
                    expected: self.at,
                }),
            },
    {
        if self.at == self.bytes.len() {
            return Ok(());
        }
        Err(
            RendezvousError::BadLength { kind, actual: self.bytes.len(), expected: self.at },
        )
    }
}

impl Message {
    /// The bytes after the tag.
    pub open spec fn body(self) -> Seq<u8> {
        match self {
            Message::Register { host } => host@,
            Message::Challenge { ephemeral, sealed } => ephemeral@ + sealed@,
            Message::Prove { host, secret } => host@ + secret@,
            Message::Registered { observed } => observed.wire(),
            Message::Connect { host, client } => host@ + client@,
            Message::Incoming { client, address } => client@ + address.wire(),
            Message::Found { address, observed } => address.wire() + observed.wire(),
            Message::UnknownHost => Seq::empty(),
            Message::Keepalive { host } => host@,
            Message::Relay { host, client } => host@ + client@,
            Message::Relaying { port, token } => le_bytes(port as nat, 2) + token@,
        }
    }
}

/// A message is its tag and what follows it.
proof fn lemma_wire_body(message: Message)
    ensures
        message.wire() == seq![message.tag()] + message.body(),
{
    broadcast use lemma_joined_push, lemma_joined_one;

    assert(message.wire() =~= seq![message.tag()] + message.body());
}

/// Where the parts of a message end, or why they do not.
pub open spec fn parts_end(rest: Seq<u8>, tag: u8) -> Result<nat, RendezvousError> {
    match parts_of(tag) {
        None => Err(RendezvousError::UnknownType { tag }),
        Some((first, second)) => match part_end(rest, 0, first, kind_name(tag)) {
            Err(error) => Err(error),
            Ok(after) => part_end(rest, after, second, kind_name(tag)),
        },
    }
}

/// Reads the parts of the message a tag names.
#[verifier::rlimit(40)]
fn read_parts(tag: u8, reader: &mut Reader<'_>) -> (message: Result<Message, RendezvousError>)
    requires
        old(reader).at == 0,
    ensures
        final(reader).bytes == old(reader).bytes,
        match message {
            Ok(message) => {
                &&& message.tag() == tag
                &&& final(reader).wf()
                &&& parts_end(old(reader).bytes@, tag) == Ok::<nat, RendezvousError>(
                    final(reader).at as nat,
                )
                &&& message.body() == old(reader).bytes@.subrange(0, final(reader).at as int)
            },
            Err(error) => parts_end(old(reader).bytes@, tag) == Err::<nat, RendezvousError>(error),
        },
{
    let kind: &'static str = kind_of(tag);
    let ghost rest = reader.bytes@;
    match tag {
        TAG_REGISTER => {
            let host: [u8; KEY_LEN] = match reader.array::<KEY_LEN>(kind) {
                Err(error) => return Err(error),
                Ok(host) => host,
            };
            let message = Message::Register { host };
            assert(message.body() =~= rest.subrange(0, reader.at as int));
            Ok(message)
        },
        TAG_CHALLENGE => {
            let ephemeral: [u8; KEY_LEN] = match reader.array::<KEY_LEN>(kind) {
                Err(error) => return Err(error),
                Ok(ephemeral) => ephemeral,
            };
            let sealed: [u8; SEALED_PROOF_LEN] = match reader.array::<SEALED_PROOF_LEN>(kind) {
                Err(error) => return Err(error),
                Ok(sealed) => sealed,
            };
            let message = Message::Challenge { ephemeral, sealed };
            assert(message.body() =~= rest.subrange(0, reader.at as int));
            Ok(message)
        },
        TAG_PROVE => {
            let host: [u8; KEY_LEN] = match reader.array::<KEY_LEN>(kind) {
                Err(error) => return Err(error),
                Ok(host) => host,
            };
            let secret: [u8; PROOF_LEN] = match reader.array::<PROOF_LEN>(kind) {
                Err(error) => return Err(error),
                Ok(secret) => secret,
            };
            let message = Message::Prove { host, secret };
            assert(message.body() =~= rest.subrange(0, reader.at as int));
            Ok(message)
        },
        TAG_REGISTERED => {
            let observed: PeerAddress = match reader.address(kind) {
                Err(error) => return Err(error),
                Ok(observed) => observed,
            };
            let message = Message::Registered { observed };
            assert(message.body() =~= rest.subrange(0, reader.at as int));
            Ok(message)
        },
        TAG_CONNECT => {
            let host: [u8; KEY_LEN] = match reader.array::<KEY_LEN>(kind) {
                Err(error) => return Err(error),
                Ok(host) => host,
            };
            let client: [u8; KEY_LEN] = match reader.array::<KEY_LEN>(kind) {
                Err(error) => return Err(error),
                Ok(client) => client,
            };
            let message = Message::Connect { host, client };
            assert(message.body() =~= rest.subrange(0, reader.at as int));
            Ok(message)
        },
        TAG_INCOMING => {
            let client: [u8; KEY_LEN] = match reader.array::<KEY_LEN>(kind) {
                Err(error) => return Err(error),
                Ok(client) => client,
            };
            let address: PeerAddress = match reader.address(kind) {
                Err(error) => return Err(error),
                Ok(address) => address,
            };
            let message = Message::Incoming { client, address };
            assert(message.body() =~= rest.subrange(0, reader.at as int));
            Ok(message)
        },
        TAG_FOUND => {
            let address: PeerAddress = match reader.address(kind) {
                Err(error) => return Err(error),
                Ok(address) => address,
            };
            let observed: PeerAddress = match reader.address(kind) {
                Err(error) => return Err(error),
                Ok(observed) => observed,
            };
            let message = Message::Found { address, observed };
            assert(message.body() =~= rest.subrange(0, reader.at as int));
            Ok(message)
        },
        TAG_UNKNOWN_HOST => {
            let message = Message::UnknownHost;
            assert(message.body() =~= rest.subrange(0, 0));
            Ok(message)
        },
        TAG_KEEPALIVE => {
            let host: [u8; KEY_LEN] = match reader.array::<KEY_LEN>(kind) {
                Err(error) => return Err(error),
                Ok(host) => host,
            };
            let message = Message::Keepalive { host };
            assert(message.body() =~= rest.subrange(0, reader.at as int));
            Ok(message)
        },
        TAG_RELAY => {
            let host: [u8; KEY_LEN] = match reader.array::<KEY_LEN>(kind) {
                Err(error) => return Err(error),
                Ok(host) => host,
            };
            let client: [u8; KEY_LEN] = match reader.array::<KEY_LEN>(kind) {
                Err(error) => return Err(error),
                Ok(client) => client,
            };
            let message = Message::Relay { host, client };
            assert(message.body() =~= rest.subrange(0, reader.at as int));
            Ok(message)
        },
        TAG_RELAYING => {
            let port: u16 = match reader.short(kind) {
                Err(error) => return Err(error),
                Ok(port) => port,
            };
            let token: [u8; RELAY_TOKEN_LEN] = match reader.array::<RELAY_TOKEN_LEN>(kind) {
                Err(error) => return Err(error),
                Ok(token) => token,
            };
            let message = Message::Relaying { port, token };
            assert(message.body() =~= rest.subrange(0, reader.at as int));
            Ok(message)
        },
        other => Err(RendezvousError::UnknownType { tag: other }),
    }
}

impl Message {
    /// Reads a message from a datagram.
    ///
    /// Anything that is not a message this version understands is refused, which is most of what
    /// an open port receives. A trailing byte means the sender and this reader disagree about the
    /// format, and a message only half understood is refused too.
    pub fn decode(bytes: &[u8]) -> (message: Result<Message, RendezvousError>)
        ensures
            match message {
                Ok(message) => message_error(bytes@) is None && message.wire() == bytes@,
                Err(error) => message_error(bytes@) == Some(error),
            },
    {
        if bytes.len() == 0 {
            return Err(RendezvousError::Empty);
        }
        let tag: u8 = bytes[0];
        let mut reader = Reader { bytes: &bytes[1..bytes.len()], at: 0 };
        assert(reader.bytes@ =~= bytes@.skip(1));
        let message: Message = match read_parts(tag, &mut reader) {
            Err(error) => return Err(error),
            Ok(message) => message,
        };
        match reader.expect_empty(kind_of(tag)) {
            Err(error) => Err(error),
            Ok(()) => {
                proof {
                    lemma_wire_body(message);
                    assert(message.wire() =~= bytes@);
                }
                Ok(message)
            },
        }
    }
}

/// Arrays that hold the same bytes are the same array.
proof fn lemma_same_array<const N: usize>(left: [u8; N], right: [u8; N])
    requires
        left@ == right@,
    ensures
        left == right,
{
    assert forall|i: int| 0 <= i < N implies left[i] == right[i] by {
        assert(left@[i] == right@[i]);
    }
    assert(left =~= right);
}

/// An address ends where its bytes do, and is the only one with those bytes.
proof fn lemma_address_reads_back(address: PeerAddress, rest: Seq<u8>, at: nat, kind: &'static str)
    requires
        at + address.wire().len() <= rest.len(),
        rest.subrange(at as int, (at + address.wire().len()) as int) == address.wire(),
    ensures
        address_end(rest, at, kind) == Ok::<nat, RendezvousError>(at + address.wire().len()),
{
    broadcast use lemma_le_bytes_len;

    assert(rest[at as int] == rest.subrange(at as int, (at + address.wire().len()) as int)[0]);
}

/// Two addresses written as the same bytes, or the first of one run and of another, are the same.
proof fn lemma_address_unique(
    left: PeerAddress,
    left_rest: Seq<u8>,
    right: PeerAddress,
    right_rest: Seq<u8>,
)
    requires
        left.wire() + left_rest == right.wire() + right_rest,
    ensures
        left == right,
        left_rest == right_rest,
{
    broadcast use lemma_le_bytes_len;

    let all = left.wire() + left_rest;
    let n = left.ip.octets().len() as int;
    assert(all[0] == left.ip.family());
    assert((right.wire() + right_rest)[0] == right.ip.family());
    assert(right.ip.octets().len() == n);
    assert(all.subrange(1, 1 + n) =~= left.ip.octets());
    assert((right.wire() + right_rest).subrange(1, 1 + n) =~= right.ip.octets());
    match (left.ip, right.ip) {
        (IpOctets::V4(a), IpOctets::V4(b)) => lemma_same_array(a, b),
        (IpOctets::V6(a), IpOctets::V6(b)) => lemma_same_array(a, b),
        _ => {},
    }
    assert(all.subrange(1 + n, 3 + n) =~= le_bytes(left.port as nat, 2));
    assert((right.wire() + right_rest).subrange(1 + n, 3 + n) =~= le_bytes(right.port as nat, 2));
    lemma_byte_ranges();
    lemma_le_value_of_bytes(left.port as nat, 2);
    lemma_le_value_of_bytes(right.port as nat, 2);
    assert(all.skip(3 + n) =~= left_rest);
    assert((right.wire() + right_rest).skip(3 + n) =~= right_rest);
}

/// A message reads back from its own bytes.
pub proof fn a_message_reads_back(message: Message)
    ensures
        message_error(message.wire()) is None,
{
    broadcast use lemma_le_bytes_len;

    lemma_wire_body(message);
    let rest = message.wire().skip(1);
    assert(rest =~= message.body());
    let kind = kind_name(message.tag());
    match message {
        Message::Registered { observed } => {
            assert(rest.subrange(0, rest.len() as int) =~= rest);
            lemma_address_reads_back(observed, rest, 0, kind);
        },
        Message::Incoming { client, address } => {
            assert(rest.subrange(32, rest.len() as int) =~= address.wire());
            lemma_address_reads_back(address, rest, 32, kind);
        },
        Message::Found { address, observed } => {
            let mid = address.wire().len();
            assert(rest.subrange(0, mid as int) =~= address.wire());
            assert(rest.subrange(mid as int, rest.len() as int) =~= observed.wire());
            lemma_address_reads_back(address, rest, 0, kind);
            lemma_address_reads_back(observed, rest, mid, kind);
        },
        _ => {},
    }
}

/// Splits two runs of bytes that begin with arrays of the same length.
proof fn lemma_split<const N: usize>(
    left: [u8; N],
    left_rest: Seq<u8>,
    right: [u8; N],
    right_rest: Seq<u8>,
)
    requires
        left@ + left_rest == right@ + right_rest,
    ensures
        left == right,
        left_rest == right_rest,
{
    assert((left@ + left_rest).take(N as int) =~= left@);
    assert((right@ + right_rest).take(N as int) =~= right@);
    lemma_same_array(left, right);
    assert((left@ + left_rest).skip(N as int) =~= left_rest);
    assert((right@ + right_rest).skip(N as int) =~= right_rest);
}

/// No two messages are written as the same bytes, so what a message reads back as is that message.
pub proof fn no_two_messages_look_alike(left: Message, right: Message)
    requires
        left.wire() == right.wire(),
    ensures
        left == right,
{
    lemma_wire_body(left);
    lemma_wire_body(right);
    assert(left.wire()[0] == left.tag());
    assert(right.wire()[0] == right.tag());
    assert(left.wire().skip(1) =~= left.body());
    assert(right.wire().skip(1) =~= right.body());
    let nothing = Seq::<u8>::empty();
    match (left, right) {
        (Message::Register { host: a }, Message::Register { host: b }) => lemma_same_array(a, b),
        (Message::Keepalive { host: a }, Message::Keepalive { host: b }) => lemma_same_array(a, b),
        (
            Message::Challenge { ephemeral: a, sealed: c },
            Message::Challenge { ephemeral: b, sealed: d },
        ) => {
            lemma_split(a, c@, b, d@);
            lemma_same_array(c, d);
        },
        (Message::Prove { host: a, secret: c }, Message::Prove { host: b, secret: d }) => {
            lemma_split(a, c@, b, d@);
            lemma_same_array(c, d);
        },
        (Message::Connect { host: a, client: c }, Message::Connect { host: b, client: d }) => {
            lemma_split(a, c@, b, d@);
            lemma_same_array(c, d);
        },
        (Message::Relay { host: a, client: c }, Message::Relay { host: b, client: d }) => {
            lemma_split(a, c@, b, d@);
            lemma_same_array(c, d);
        },
        (Message::Registered { observed: a }, Message::Registered { observed: b }) => {
            assert(a.wire() + nothing =~= a.wire());
            assert(b.wire() + nothing =~= b.wire());
            lemma_address_unique(a, nothing, b, nothing);
        },
        (Message::Incoming { client: a, address: c }, Message::Incoming { client: b, address: d })
        => {
            lemma_split(a, c.wire(), b, d.wire());
            assert(c.wire() + nothing =~= c.wire());
            assert(d.wire() + nothing =~= d.wire());
            lemma_address_unique(c, nothing, d, nothing);
        },
        (Message::Found { address: a, observed: c }, Message::Found { address: b, observed: d })
        => {
            lemma_address_unique(a, c.wire(), b, d.wire());
            assert(c.wire() + nothing =~= c.wire());
            assert(d.wire() + nothing =~= d.wire());
            lemma_address_unique(c, nothing, d, nothing);
        },
        (Message::Relaying { port: a, token: c }, Message::Relaying { port: b, token: d }) => {
            broadcast use lemma_le_bytes_len;

            lemma_byte_ranges();
            lemma_le_value_of_bytes(a as nat, 2);
            lemma_le_value_of_bytes(b as nat, 2);
            assert(left.body().take(2) =~= le_bytes(a as nat, 2));
            assert(right.body().take(2) =~= le_bytes(b as nat, 2));
            assert(left.body().skip(2) =~= c@);
            assert(right.body().skip(2) =~= d@);
            lemma_same_array(c, d);
        },
        _ => {},
    }
}

/// Binds the challenge's key derivation to this protocol and version:
/// `prism-rendezvous-challenge-v1`.
pub open spec fn challenge_info() -> Seq<u8> {
    seq![
        0x70u8, 0x72, 0x69, 0x73, 0x6d, 0x2d, 0x72, 0x65, 0x6e, 0x64, 0x65, 0x7a, 0x76, 0x6f, 0x75, 0x73, 0x2d, 0x63, 0x68, 0x61, 0x6c, 0x6c, 0x65, 0x6e, 0x67, 0x65, 0x2d, 0x76, 0x31,
    ]
}

/// Returns the bytes of `prism-rendezvous-challenge-v1`.
fn challenge_info_bytes() -> (bytes: Vec<u8>)
    ensures
        bytes@ == challenge_info(),
{
    let bytes: Vec<u8> = vec![
        0x70u8, 0x72, 0x69, 0x73, 0x6d, 0x2d, 0x72, 0x65, 0x6e, 0x64, 0x65, 0x7a, 0x76, 0x6f, 0x75, 0x73, 0x2d, 0x63, 0x68, 0x61, 0x6c, 0x6c, 0x65, 0x6e, 0x67, 0x65, 0x2d, 0x76, 0x31,
    ];
    assert(bytes@ =~= challenge_info());
    bytes
}

/// The nonce a challenge is sealed with, which is all zeros.
pub open spec fn zero_nonce() -> Seq<u8> {
    Seq::new(NONCE_BYTES as nat, |i: int| 0u8)
}

/// The key a challenge is sealed with, from the shared secret.
///
/// A fixed nonce is safe here only because the key is fresh for every challenge: the server makes
/// a new ephemeral each time, so no key ever seals twice.
pub open spec fn challenge_key_of(shared: Seq<u8>) -> Seq<u8> {
    hkdf_sha256(shared, challenge_info())
}

/// What the holder of a private key reads in a challenge, if it was aimed at that key.
pub open spec fn answer_to(private: Seq<u8>, ephemeral: Seq<u8>, sealed: Seq<u8>) -> Option<
    Seq<u8>,
> {
    chacha_opened(challenge_key_of(x25519_shared(private, ephemeral)), zero_nonce(), sealed)
}

/// Whether a message is the challenge to `host` made with this ephemeral key and secret.
pub open spec fn challenge_to(
    host: Seq<u8>,
    private: Seq<u8>,
    secret: Seq<u8>,
    message: Message,
) -> bool {
    message matches Message::Challenge { ephemeral, sealed } && {
        &&& ephemeral@ == x25519_public(private)
        &&& sealed@ == chacha_sealed(
            challenge_key_of(x25519_shared(private, host)),
            zero_nonce(),
            secret,
        )
    }
}

/// Whether whoever holds the private half of `host` reads `secret` in a message.
pub open spec fn answerable(host: Seq<u8>, secret: Seq<u8>, message: Message) -> bool {
    message matches Message::Challenge { ephemeral, sealed } && forall|holder: Seq<u8>|
        #![trigger x25519_public(holder)]
        holder.len() == KEY_LEN && host == x25519_public(holder) ==> answer_to(
            holder,
            ephemeral@,
            sealed@,
        ) == Some(secret)
}

/// Derives the sealing key for a challenge from the shared secret.
fn challenge_key(shared: &[u8; KEY_LEN]) -> (key: [u8; 32])
    ensures
        key@ == challenge_key_of(shared@),
{
    derive_key(shared.as_slice(), challenge_info_bytes().as_slice())
}

/// Builds the challenge to `host` out of an ephemeral private key and a secret.
///
/// Returns the message to send and the secret the answer has to contain.
pub fn challenge_with(
    host: &[u8; KEY_LEN],
    private: &[u8; KEY_LEN],
    secret: &[u8; PROOF_LEN],
) -> (challenge: Result<(Message, [u8; PROOF_LEN]), RendezvousError>)
    ensures
        challenge matches Ok((message, answer)) && {
            &&& challenge_to(host@, private@, secret@, message)
            &&& answerable(host@, secret@, message)
            &&& answer@ == secret@
        },
{
    let ephemeral: [u8; KEY_LEN] = match public_key(private) {
        Ok(ephemeral) => ephemeral,
        Err(_) => return Err(RendezvousError::NotProven),
    };
    let shared: [u8; KEY_LEN] = match agree(private, host) {
        Ok(shared) => shared,
        Err(_) => return Err(RendezvousError::NotProven),
    };
    let key: [u8; 32] = challenge_key(&shared);
    let nonce: [u8; NONCE_BYTES] = zeroed_array::<NONCE_BYTES>();
    let sealed: Vec<u8> = match chacha_seal(&key, &nonce, secret.as_slice()) {
        Some(sealed) => sealed,
        None => return Err(RendezvousError::NotProven),
    };
    let sealed: [u8; SEALED_PROOF_LEN] = array_of::<SEALED_PROOF_LEN>(sealed.as_slice());
    Ok((Message::Challenge { ephemeral, sealed }, *secret))
}

/// Builds a challenge only the holder of `host` can answer.
///
/// Returns the message to send and the secret the answer has to contain. Fails if the platform
/// has no usable randomness, which is a condition no challenge should be issued under.
pub fn challenge(host: &[u8; KEY_LEN]) -> (challenge: Result<
    (Message, [u8; PROOF_LEN]),
    RendezvousError,
>)
    ensures
        match challenge {
            Ok((message, secret)) => {
                &&& answerable(host@, secret@, message)
                &&& exists|private: Seq<u8>| #[trigger]
                    challenge_to(host@, private, secret@, message) && private.len() == KEY_LEN
            },
            Err(error) => error == RendezvousError::NotProven,
        },
{
    let mut private: Vec<u8> = vec![0u8; KEY_LEN];
    match fill_random(&mut private) {
        Ok(()) => {},
        Err(_) => return Err(RendezvousError::NotProven),
    }
    let mut secret: Vec<u8> = vec![0u8; PROOF_LEN];
    match fill_random(&mut secret) {
        Ok(()) => {},
        Err(_) => return Err(RendezvousError::NotProven),
    }
    let private: [u8; KEY_LEN] = array_of::<KEY_LEN>(private.as_slice());
    let secret: [u8; PROOF_LEN] = array_of::<PROOF_LEN>(secret.as_slice());
    challenge_with(host, &private, &secret)
}

/// Opens a challenge with the private key it was aimed at.
///
/// Fails if the challenge was not aimed at this key, which is what a server trying to make a host
/// prove a key it does not hold produces.
pub fn answer(
    private: &[u8; KEY_LEN],
    ephemeral: &[u8; KEY_LEN],
    sealed: &[u8; SEALED_PROOF_LEN],
) -> (secret: Result<[u8; PROOF_LEN], RendezvousError>)
    ensures
        match secret {
            Ok(secret) => answer_to(private@, ephemeral@, sealed@) == Some(secret@),
            Err(error) => answer_to(private@, ephemeral@, sealed@) is None && error
                == RendezvousError::NotProven,
        },
{
    let shared: [u8; KEY_LEN] = match agree(private, ephemeral) {
        Ok(shared) => shared,
        Err(_) => return Err(RendezvousError::NotProven),
    };
    let key: [u8; 32] = challenge_key(&shared);
    let nonce: [u8; NONCE_BYTES] = zeroed_array::<NONCE_BYTES>();
    match chacha_open(&key, &nonce, sealed.as_slice()) {
        Some(secret) => Ok(array_of::<PROOF_LEN>(secret.as_slice())),
        None => Err(RendezvousError::NotProven),
    }
}

} // verus!
