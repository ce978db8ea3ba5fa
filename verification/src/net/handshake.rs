//! Agreeing on session keys with a peer whose identity is already known.
//!
//! The pattern is Noise_IK. `I` is the initiator sending its static key; `K` is that the
//! initiator already **knows** the responder's static key, which it does because pairing put it
//! there. That combination is what buys a one round trip handshake with forward secrecy: the
//! client can encrypt to the host in its very first packet, and the host answers with the second.
//!
//! # What each side proves
//!
//! The initiator proves it holds the private half of the static key it sends. The responder
//! proves the same by being the only party able to read the first message at all. Neither proof
//! is worth anything on its own: the caller has to check the key it got back is the key pairing
//! recorded. [`Handshake::peer_static`] is what it checks, and refusing an unknown key there is
//! the entire authentication story.
//!
//! # Why the raw keys come out
//!
//! Noise's own transport mode keeps a nonce counter it increments per message, which assumes
//! messages arrive in the order they were sent. On UDP they do not. So the split is taken raw and
//! handed to [`crate::net::seal`], which puts the counter on the wire and keeps a replay window.

use vstd::prelude::*;

use snow::HandshakeState;

use crate::bytes::{lemma_nothing_overwritten, overwritten, put_bytes};
use crate::net::crypto::{
    array_of, curve25519_public, curve25519_shared, x25519_public, x25519_shared,
};
use crate::net::seal::{Opener, Sealer};

verus! {

/// Length of a static or ephemeral public key.
pub const KEY_LEN: usize = 32;

/// Bytes the first handshake message costs beyond its payload.
///
/// The initiator's ephemeral public key, its static public key under the first encryption, and
/// the payload's own tag.
pub const INIT_OVERHEAD: usize = 96;

/// Bytes the second handshake message costs beyond its payload.
///
/// The responder's ephemeral public key and the payload's tag.
pub const RESPONSE_OVERHEAD: usize = 48;

/// Largest payload either handshake message will carry.
///
/// Both messages have to fit in one datagram under the same PMTU floor the rest of the protocol
/// respects, because a fragmented handshake is a handshake that fails on exactly the paths
/// hardest to debug.
pub const MAX_HANDSHAKE_PAYLOAD: usize = 1024;

/// Reason a handshake could not proceed.
#[derive(Debug, Clone, Copy, PartialEq, Eq, Structural)]
pub enum HandshakeError {
    /// A key was not thirty-two bytes.
    BadKeyLength {
        /// Length that was rejected.
        actual: usize,
    },
    /// The payload exceeds what a handshake message carries.
    PayloadTooLarge {
        /// Length that was rejected.
        actual: usize,
    },
    /// The caller's buffer cannot hold the message.
    BufferTooSmall {
        /// Buffer length supplied.
        actual: usize,
        /// Buffer length required.
        needed: usize,
    },
    /// A message arrived when it was this side's turn to send, or after the handshake ended.
    OutOfTurn,
    /// The message did not authenticate.
    ///
    /// For a responder this is the common case rather than an alarming one: any packet at all
    /// arriving at the port lands here. It carries no detail, because the detail of which step
    /// failed is what an attacker learns from.
    NotAuthentic,
    /// Session keys were asked for before the handshake finished.
    Unfinished,
    /// The Noise implementation refused the configuration.
    ///
    /// A build-time mistake rather than anything a peer can cause.
    Misconfigured,
}

/// Copies a slice into a key array.
fn to_key(bytes: &[u8]) -> (key: Result<[u8; KEY_LEN], HandshakeError>)
    ensures
        match key {
            Ok(key) => bytes@.len() == KEY_LEN && key@ == bytes@,
            Err(error) => bytes@.len() != KEY_LEN && error == (HandshakeError::BadKeyLength {
                actual: bytes@.len() as usize,
            }),
        },
{
    if bytes.len() != KEY_LEN {
        return Err(HandshakeError::BadKeyLength { actual: bytes.len() });
    }
    Ok(array_of::<KEY_LEN>(bytes))
}

/// Derives the public half of a Curve25519 private key.
///
/// The public half is derived rather than stored alongside the private one so that a key file
/// which was truncated or edited fails immediately instead of producing a handshake that half
/// works.
pub fn public_key(private: &[u8; KEY_LEN]) -> (public: Result<[u8; KEY_LEN], HandshakeError>)
    ensures
        public matches Ok(public) && public@ == x25519_public(private@),
{
    match curve25519_public(private) {
        Some(public) => to_key(public.as_slice()),
        None => Err(HandshakeError::Misconfigured),
    }
}

/// Computes the Diffie-Hellman shared secret between a private key and a peer's public one.
///
/// Exposed because the rendezvous server uses it to make a host prove it holds the key it claims,
/// which needs a Diffie-Hellman and nothing else from Noise.
pub fn agree(private: &[u8; KEY_LEN], public: &[u8; KEY_LEN]) -> (shared: Result<
    [u8; KEY_LEN],
    HandshakeError,
>)
    ensures
        shared matches Ok(shared) && shared@ == x25519_shared(private@, public@),
        forall|other: Seq<u8>|
            #![trigger x25519_public(other)]
            other.len() == KEY_LEN && public@ == x25519_public(other) ==> shared->Ok_0@
                == x25519_shared(other, x25519_public(private@)),
{
    match curve25519_shared(private, public) {
        Some(shared) => to_key(shared.as_slice()),
        None => Err(HandshakeError::Misconfigured),
    }
}

/// A long-term key pair identifying one machine.
///
/// Generated once, on first run, and kept for the life of the installation. The public half is
/// what pairing shows the other side and what it pins; changing it is indistinguishable from
/// being a different machine, which is the point.
#[derive(Clone)]
pub struct Identity {
    private: [u8; KEY_LEN],
    public: [u8; KEY_LEN],
}

impl Identity {
    /// The private half.
    pub closed spec fn private_half(&self) -> Seq<u8> {
        self.private@
    }

    /// The public half.
    pub closed spec fn public_half(&self) -> Seq<u8> {
        self.public@
    }

    /// The public half belongs to the private one.
    pub open spec fn wf(&self) -> bool {
        &&& self.private_half().len() == KEY_LEN
        &&& self.public_half() == x25519_public(self.private_half())
    }

    /// Generates a fresh identity.
    ///
    /// Fails if the platform has no usable randomness, which is a condition no session should
    /// start under.
    pub fn generate() -> (identity: Result<Self, HandshakeError>)
        ensures
            match identity {
                Ok(identity) => identity.wf(),
                Err(error) => error == HandshakeError::Misconfigured,
            },
    {
        match generate_pair(PATTERN) {
            Err(_) => Err(HandshakeError::Misconfigured),
            Ok((private, public)) => match (
                to_key(private.as_slice()),
                to_key(public.as_slice()),
            ) {
                (Ok(private), Ok(public)) => Ok(Identity { private, public }),
                _ => Err(HandshakeError::Misconfigured),
            },
        }
    }

    /// Rebuilds an identity from a stored private key.
    ///
    /// Deriving the public half rather than storing it means a truncated or edited key file fails
    /// the handshake instead of half working.
    pub fn from_private(private: &[u8; KEY_LEN]) -> (identity: Result<Self, HandshakeError>)
        ensures
            identity matches Ok(identity) && identity.wf() && identity.private_half() == private@,
    {
        match public_key(private) {
            Ok(public) => Ok(Identity { private: *private, public }),
            Err(error) => Err(error),
        }
    }

    /// Returns the public key this machine is known by.
    #[must_use]
    pub fn public(&self) -> (key: &[u8; KEY_LEN])
        ensures
            key@ == self.public_half(),
    {
        &self.public
    }

    /// Returns the private key, for persisting it.
    ///
    /// The caller is responsible for storing this somewhere only this user can read.
    #[must_use]
    pub fn private(&self) -> (key: &[u8; KEY_LEN])
        ensures
            key@ == self.private_half(),
    {
        &self.private
    }
}

/// The Noise pattern and primitives, fixed rather than negotiated.
///
/// Negotiating a cipher suite is how protocols acquire downgrade attacks. There is one suite and a
/// version byte in the prologue; a peer that wants a different one is a peer running a different
/// version, and it fails to handshake rather than being talked down to a weaker one.
pub const PATTERN: &'static str = "Noise_IK_25519_ChaChaPoly_BLAKE2s";

/// Bound into the handshake transcript so the version cannot be stripped: `prism-handshake-v1`.
///
/// The prologue is mixed into the hash before any key material, so two peers that disagree about
/// it derive different keys and simply fail.
pub open spec fn prologue() -> Seq<u8> {
    seq![
        0x70u8, 0x72, 0x69, 0x73, 0x6d, 0x2d, 0x68, 0x61, 0x6e, 0x64, 0x73, 0x68, 0x61, 0x6b, 0x65, 0x2d, 0x76, 0x31,
    ]
}

/// Returns the bytes of `prism-handshake-v1`.
fn prologue_bytes() -> (bytes: Vec<u8>)
    ensures
        bytes@ == prologue(),
{
    let bytes: Vec<u8> = vec![
        0x70u8, 0x72, 0x69, 0x73, 0x6d, 0x2d, 0x68, 0x61, 0x6e, 0x64, 0x73, 0x68, 0x61, 0x6b, 0x65, 0x2d, 0x76, 0x31,
    ];
    assert(bytes@ =~= prologue());
    bytes
}

/// The state of a Noise handshake in the `snow` crate.
#[verifier::external_type_specification]
#[verifier::external_body]
pub struct ExHandshakeState(snow::HandshakeState);

/// The error type of the `snow` crate.
#[verifier::external_type_specification]
#[verifier::external_body]
pub struct ExNoiseError(snow::Error);

/// What a Noise handshake was made with.
pub struct NoiseSetup {
    /// The pattern and primitives.
    pub pattern: Seq<char>,
    /// What is bound into the transcript.
    pub prologue: Seq<u8>,
    /// This side's private key.
    pub private: Seq<u8>,
    /// Whether this side speaks first.
    pub initiator: bool,
}

/// What a Noise handshake was made with.
pub uninterp spec fn noise_setup(state: HandshakeState) -> NoiseSetup;

/// What `is_my_turn` of the `snow` crate returns.
pub uninterp spec fn noise_turn(state: HandshakeState) -> bool;

/// What `is_handshake_finished` of the `snow` crate returns.
pub uninterp spec fn noise_finished(state: HandshakeState) -> bool;

/// What `get_remote_static` of the `snow` crate returns.
pub uninterp spec fn noise_remote(state: HandshakeState) -> Option<Seq<u8>>;

/// The two keys that `dangerously_get_raw_split` of the `snow` crate returns, the first of which
/// is the one the initiator sends under.
pub uninterp spec fn noise_keys(state: HandshakeState) -> (Seq<u8>, Seq<u8>);

/// The messages a handshake has written and read so far, in order.
pub uninterp spec fn noise_exchanged(state: HandshakeState) -> Seq<Seq<u8>>;

/// What `read_message` of the `snow` crate reads out of the first message of a handshake, for a
/// responder that holds a private key: the payload and the static key of whoever wrote it, or
/// nothing where the message is not authentic.
pub uninterp spec fn noise_first(prologue: Seq<u8>, private: Seq<u8>, message: Seq<u8>) -> Option<
    (Seq<u8>, Seq<u8>),
>;

/// What `read_message` of the `snow` crate reads out of the second message of a handshake, for the
/// initiator that wrote the first: the payload, or nothing where the message is not authentic.
pub uninterp spec fn noise_answer(state: HandshakeState, message: Seq<u8>) -> Option<Seq<u8>>;

/// Whether two states are of one protocol, the first an initiator's that is talking to the second,
/// a responder's.
pub open spec fn is_talking_to(initiator: HandshakeState, responder: HandshakeState) -> bool {
    &&& noise_setup(initiator).initiator && !noise_setup(responder).initiator
    &&& noise_setup(initiator).pattern == noise_setup(responder).pattern
    &&& noise_setup(initiator).prologue == noise_setup(responder).prologue
    &&& noise_remote(initiator) == Some(x25519_public(noise_setup(responder).private))
}

/// Whether a responder has been told that it is this initiator who is speaking.
pub open spec fn has_heard_of(responder: HandshakeState, initiator: HandshakeState) -> bool {
    noise_remote(responder) == Some(x25519_public(noise_setup(initiator).private))
}

/// Whether a message that `writer` wrote is read by whom it is meant for: a first message by
/// every responder that holds the key it was aimed at, and a second message by the initiator that
/// wrote the first.
pub open spec fn is_read_by_its_peer(writer: HandshakeState, payload: Seq<u8>, message: Seq<u8>) -> bool {
    let setup = noise_setup(writer);
    if setup.initiator {
        forall|private: Seq<u8>|
            #![trigger x25519_public(private)]
            private.len() == KEY_LEN && noise_remote(writer) == Some(x25519_public(private))
                ==> noise_first(setup.prologue, private, message) == Some(
                (payload, x25519_public(setup.private)),
            )
    } else {
        forall|reader: HandshakeState| #[trigger]
            is_talking_to(reader, writer) && has_heard_of(writer, reader) && noise_exchanged(reader)
                == noise_exchanged(writer) ==> noise_answer(reader, message) == Some(payload)
    }
}

/// Whether an initiator is one that wrote `first` to the holder of `private`, under the name
/// `peer`, and waits for the answer.
pub open spec fn awaits_answer(
    initiator: HandshakeState,
    first: Seq<u8>,
    private: Seq<u8>,
    peer: Seq<u8>,
) -> bool {
    &&& noise_setup(initiator).initiator
    &&& noise_setup(initiator).pattern == PATTERN@
    &&& noise_setup(initiator).prologue == prologue()
    &&& x25519_public(noise_setup(initiator).private) == peer
    &&& noise_remote(initiator) == Some(x25519_public(private))
    &&& noise_exchanged(initiator) == seq![first]
}

/// Whether an initiator that is finished holds the keys of every responder that it finished the
/// same handshake with.
pub open spec fn agrees_with_its_peer(initiator: HandshakeState) -> bool {
    forall|responder: HandshakeState| #[trigger]
        is_talking_to(initiator, responder) && has_heard_of(responder, initiator)
            && noise_exchanged(responder) == noise_exchanged(initiator) && noise_finished(responder)
            ==> noise_keys(initiator) == noise_keys(responder)
}

/// What a message costs beyond its payload, by whether the initiator wrote it.
pub open spec fn overhead_of(initiator: bool) -> nat {
    if initiator {
        INIT_OVERHEAD as nat
    } else {
        RESPONSE_OVERHEAD as nat
    }
}

/// Calls `Builder::generate_keypair`: a private key and the public key that belongs to it, or an
/// error where the system has no randomness to give.
#[verifier::external_body]
fn generate_pair(pattern: &str) -> (pair: Result<(Vec<u8>, Vec<u8>), snow::Error>)
    ensures
        pair matches Ok((private, public)) ==> pattern@ == PATTERN@ ==> {
            &&& private@.len() == KEY_LEN
            &&& public@.len() == KEY_LEN
            &&& public@ == x25519_public(private@)
        },
{
    let pair = snow::Builder::new(pattern.parse()?).generate_keypair()?;
    Ok((pair.private, pair.public))
}

/// Calls `Builder::build_initiator` with a pattern, a prologue, a private key and the peer's
/// public key: a handshake that is this side's turn to speak in. With this pattern and keys of
/// 32 bytes it is built without fail.
#[verifier::external_body]
fn start_initiator(pattern: &str, prologue: &[u8], private: &[u8; 32], peer: &[u8; 32]) -> (state: Result<
    HandshakeState,
    snow::Error,
>)
    ensures
        match state {
            Ok(state) => {
                &&& noise_setup(state) == (NoiseSetup {
                    pattern: pattern@,
                    prologue: prologue@,
                    private: private@,
                    initiator: true,
                })
                &&& noise_exchanged(state) == Seq::<Seq<u8>>::empty()
                &&& pattern@ == PATTERN@ ==> noise_turn(state) && !noise_finished(state)
                    && noise_remote(state) == Some(peer@)
            },
            Err(_) => pattern@ != PATTERN@,
        },
{
    snow::Builder::new(pattern.parse()?)
        .prologue(prologue)?
        .local_private_key(private)?
        .remote_public_key(peer)?
        .build_initiator()
}

/// Calls `Builder::build_responder` with a pattern, a prologue and a private key: a handshake that
/// is the peer's turn to speak in, and that knows no peer yet. With this pattern and a key of 32
/// bytes it is built without fail.
#[verifier::external_body]
fn start_responder(pattern: &str, prologue: &[u8], private: &[u8; 32]) -> (state: Result<
    HandshakeState,
    snow::Error,
>)
    ensures
        match state {
            Ok(state) => {
                &&& noise_setup(state) == (NoiseSetup {
                    pattern: pattern@,
                    prologue: prologue@,
                    private: private@,
                    initiator: false,
                })
                &&& noise_exchanged(state) == Seq::<Seq<u8>>::empty()
                &&& pattern@ == PATTERN@ ==> !noise_turn(state) && !noise_finished(state)
                    && noise_remote(state) is None
            },
            Err(_) => pattern@ != PATTERN@,
        },
{
    snow::Builder::new(pattern.parse()?)
        .prologue(prologue)?
        .local_private_key(private)?
        .build_responder()
}

/// Calls `HandshakeState::write_message`. A message that is written is as long as its payload and
/// what the pattern adds, and the turn passes; the second of the two messages of this pattern is
/// the responder's, and finishes the handshake. An error leaves the turn where it was. Which bytes
/// come depends on a fresh random key, and so does whether any come at all. Whichever come, they
/// are read by the peer they are meant for: that is what the pattern is for.
#[verifier::external_body]
fn noise_write(state: &mut HandshakeState, payload: &[u8], message: &mut [u8]) -> (written: Result<
    usize,
    snow::Error,
>)
    requires
        noise_setup(*old(state)).pattern == PATTERN@,
        old(message)@.len() >= payload@.len() + overhead_of(noise_setup(*old(state)).initiator),
    ensures
        noise_setup(*final(state)) == noise_setup(*old(state)),
        noise_remote(*final(state)) == noise_remote(*old(state)),
        final(message)@.len() == old(message)@.len(),
        match written {
            Ok(len) => {
                &&& noise_turn(*old(state)) && !noise_finished(*old(state))
                &&& !noise_turn(*final(state))
                &&& len <= old(message)@.len()
                &&& final(message)@.skip(len as int) == old(message)@.skip(len as int)
                &&& len == payload@.len() + overhead_of(noise_setup(*old(state)).initiator)
                &&& noise_finished(*final(state)) == !noise_setup(*old(state)).initiator
                &&& noise_exchanged(*final(state)) == noise_exchanged(*old(state)).push(
                    final(message)@.take(len as int),
                )
                &&& is_read_by_its_peer(
                    *old(state),
                    payload@,
                    final(message)@.take(len as int),
                )
            },
            Err(_) => {
                &&& noise_turn(*final(state)) == noise_turn(*old(state))
                &&& noise_finished(*final(state)) == noise_finished(*old(state))
                &&& noise_exchanged(*final(state)) == noise_exchanged(*old(state))
            },
        },
{
    state.write_message(payload, message)
}

/// Calls `HandshakeState::read_message`. A message that is read is as long as its payload and what
/// the pattern adds, and the turn passes; the first of the two messages of this pattern tells the
/// responder who is speaking, and the second finishes the handshake, with the keys of the
/// responder that wrote it. An error leaves the turn where it was, and what can be read after it.
/// What a responder reads is a function of its private key, and what an initiator reads one of the
/// state it is in; either is refused where there is no room for it.
#[verifier::external_body]
fn noise_read(state: &mut HandshakeState, message: &[u8], payload: &mut [u8]) -> (read: Result<
    usize,
    snow::Error,
>)
    requires
        noise_setup(*old(state)).pattern == PATTERN@,
    ensures
        noise_setup(*final(state)) == noise_setup(*old(state)),
        final(payload)@.len() == old(payload)@.len(),
        match read {
            Ok(len) => {
                &&& !noise_turn(*old(state)) && !noise_finished(*old(state))
                &&& noise_turn(*final(state))
                &&& len <= old(payload)@.len()
                &&& message@.len() == len + overhead_of(!noise_setup(*old(state)).initiator)
                &&& noise_finished(*final(state)) == noise_setup(*old(state)).initiator
                &&& noise_exchanged(*final(state)) == noise_exchanged(*old(state)).push(message@)
                &&& if noise_setup(*old(state)).initiator {
                    &&& noise_answer(*old(state), message@) == Some(
                        final(payload)@.take(len as int),
                    )
                    &&& noise_remote(*final(state)) == noise_remote(*old(state))
                    &&& agrees_with_its_peer(*final(state))
                } else {
                    &&& noise_remote(*final(state)) matches Some(peer)
                    &&& peer.len() == KEY_LEN
                    &&& noise_first(
                        noise_setup(*old(state)).prologue,
                        noise_setup(*old(state)).private,
                        message@,
                    ) == Some((final(payload)@.take(len as int), peer))
                }
            },
            Err(_) => {
                &&& noise_turn(*final(state)) == noise_turn(*old(state))
                &&& noise_finished(*final(state)) == noise_finished(*old(state))
                &&& noise_exchanged(*final(state)) == noise_exchanged(*old(state))
                &&& noise_setup(*old(state)).initiator ==> {
                    &&& noise_remote(*final(state)) == noise_remote(*old(state))
                    &&& forall|other: Seq<u8>| #[trigger]
                        noise_answer(*final(state), other) == noise_answer(*old(state), other)
                    &&& !noise_turn(*old(state)) && !noise_finished(*old(state)) ==> (
                    noise_answer(*old(state), message@) matches Some(text) ==> text.len()
                        > old(payload)@.len())
                }
                &&& !noise_setup(*old(state)).initiator && !noise_turn(*old(state))
                    && !noise_finished(*old(state)) ==> (noise_first(
                    noise_setup(*old(state)).prologue,
                    noise_setup(*old(state)).private,
                    message@,
                ) matches Some((text, peer)) ==> text.len() > old(payload)@.len())
            },
        },
{
    state.read_message(message, payload)
}

/// Calls `HandshakeState::is_my_turn`.
#[verifier::external_body]
fn noise_is_my_turn(state: &HandshakeState) -> (turn: bool)
    ensures
        turn == noise_turn(*state),
{
    state.is_my_turn()
}

/// Calls `HandshakeState::is_handshake_finished`.
#[verifier::external_body]
fn noise_is_finished(state: &HandshakeState) -> (finished: bool)
    ensures
        finished == noise_finished(*state),
{
    state.is_handshake_finished()
}

/// Calls `HandshakeState::get_remote_static`.
#[verifier::external_body]
fn noise_get_remote(state: &HandshakeState) -> (remote: Option<Vec<u8>>)
    ensures
        match remote {
            Some(remote) => noise_remote(*state) == Some(remote@),
            None => noise_remote(*state) is None,
        },
{
    state.get_remote_static().map(|key| key.to_vec())
}

/// Calls `HandshakeState::dangerously_get_raw_split`: the two keys of the handshake as it stands.
#[verifier::external_body]
fn noise_split(state: &mut HandshakeState) -> (keys: ([u8; 32], [u8; 32]))
    ensures
        (keys.0@, keys.1@) == noise_keys(*old(state)),
{
    state.dangerously_get_raw_split()
}

/// The keys a finished handshake produced, one direction each.
pub struct Session {
    /// Seals packets sent to the peer.
    pub sealer: Sealer,
    /// Opens packets received from the peer.
    pub opener: Opener,
    /// The peer's static public key, as it proved during the handshake.
    pub peer_static: [u8; KEY_LEN],
}

/// Whether a session is the one a side of a handshake gets from its two keys.
///
/// Noise splits into two keys in a fixed order: the first is the initiator's sending key. Each
/// side has to pick the half matching its role, and getting this backwards produces a handshake
/// that succeeds and a session where nothing decrypts.
pub open spec fn session_of(keys: (Seq<u8>, Seq<u8>), initiator: bool, session: Session) -> bool {
    &&& session.sealer.key() == if initiator {
        keys.0
    } else {
        keys.1
    }
    &&& session.opener.key() == if initiator {
        keys.1
    } else {
        keys.0
    }
    &&& session.sealer.floor() == 0
    &&& session.opener.newest_accepted() is None
    &&& session.opener.refused() == (0nat, 0nat)
    &&& forall|counter: u64| !#[trigger] session.opener.refuses(counter)
}

/// Two sides that hold the same two keys can read each other: what either seals under is what the
/// other opens with.
pub proof fn each_side_opens_what_the_other_seals(
    keys: (Seq<u8>, Seq<u8>),
    initiator: Session,
    responder: Session,
)
    requires
        session_of(keys, true, initiator),
        session_of(keys, false, responder),
    ensures
        initiator.sealer.key() == responder.opener.key(),
        responder.sealer.key() == initiator.opener.key(),
{
}

/// Two sides that finished one handshake with each other can read each other: each got the
/// session that belongs to the other's, and knows the other by its key.
pub proof fn a_finished_handshake_joins_its_two_sides(
    initiator: HandshakeState,
    responder: HandshakeState,
    mine: Session,
    theirs: Session,
)
    requires
        agrees_with_its_peer(initiator),
        is_talking_to(initiator, responder),
        has_heard_of(responder, initiator),
        noise_exchanged(initiator) == noise_exchanged(responder),
        noise_finished(responder),
        session_of(noise_keys(initiator), true, mine),
        session_of(noise_keys(responder), false, theirs),
        noise_remote(initiator) == Some(mine.peer_static@),
        noise_remote(responder) == Some(theirs.peer_static@),
    ensures
        mine.sealer.key() == theirs.opener.key(),
        theirs.sealer.key() == mine.opener.key(),
        mine.peer_static@ == x25519_public(noise_setup(responder).private),
        theirs.peer_static@ == x25519_public(noise_setup(initiator).private),
{
    each_side_opens_what_the_other_seals(noise_keys(responder), mine, theirs);
}

/// One side of a handshake in progress.
pub struct Handshake {
    state: HandshakeState,
    initiator: bool,
}

/// Why a handshake message cannot be written, as far as that can be told beforehand.
pub open spec fn write_error(len: nat, room: nat, initiator: bool, turn: bool) -> Option<
    HandshakeError,
> {
    if len > MAX_HANDSHAKE_PAYLOAD {
        Some(HandshakeError::PayloadTooLarge { actual: len as usize })
    } else if room < len + overhead_of(initiator) {
        Some(
            HandshakeError::BufferTooSmall {
                actual: room as usize,
                needed: (len + overhead_of(initiator)) as usize,
            },
        )
    } else if !turn {
        Some(HandshakeError::OutOfTurn)
    } else {
        None
    }
}

/// Why a handshake message cannot be read, as far as that can be told beforehand.
pub open spec fn read_error(room: nat, expecting: bool) -> Option<HandshakeError> {
    if !expecting {
        Some(HandshakeError::OutOfTurn)
    } else if room < MAX_HANDSHAKE_PAYLOAD {
        Some(
            HandshakeError::BufferTooSmall {
                actual: room as usize,
                needed: MAX_HANDSHAKE_PAYLOAD,
            },
        )
    } else {
        None
    }
}

impl Handshake {
    /// The state of the handshake.
    pub closed spec fn noise(&self) -> HandshakeState {
        self.state
    }

    /// Whether this side speaks first.
    pub closed spec fn speaks_first(&self) -> bool {
        self.initiator
    }

    /// The handshake is one of this protocol, and this side has the role it says.
    pub open spec fn wf(&self) -> bool {
        let setup = noise_setup(self.noise());
        &&& setup.pattern == PATTERN@
        &&& setup.prologue == prologue()
        &&& setup.initiator == self.speaks_first()
        &&& noise_remote(self.noise()) matches Some(peer) ==> peer.len() == KEY_LEN
    }

    /// What this side reads out of a message when it listens: the payload, and who the peer is
    /// then known to be.
    pub open spec fn reads(&self, message: Seq<u8>) -> Option<(Seq<u8>, Option<Seq<u8>>)> {
        let setup = noise_setup(self.noise());
        if self.speaks_first() {
            match noise_answer(self.noise(), message) {
                Some(text) => Some((text, noise_remote(self.noise()))),
                None => None,
            }
        } else {
            match noise_first(setup.prologue, setup.private, message) {
                Some((text, peer)) => Some((text, Some(peer))),
                None => None,
            }
        }
    }

    /// Whether this side may speak now.
    pub open spec fn may_speak(&self) -> bool {
        noise_turn(self.noise()) && !noise_finished(self.noise())
    }

    /// Whether this side may listen now.
    pub open spec fn may_listen(&self) -> bool {
        !noise_turn(self.noise()) && !noise_finished(self.noise())
    }

    /// Starts the side that speaks first, to a peer whose static key is already known.
    pub fn initiator(identity: &Identity, peer_static: &[u8; KEY_LEN]) -> (handshake: Result<
        Self,
        HandshakeError,
    >)
        ensures
            handshake matches Ok(handshake) && {
                &&& handshake.wf()
                &&& handshake.speaks_first()
                &&& handshake.may_speak()
                &&& noise_setup(handshake.noise()).private == identity.private_half()
                &&& noise_remote(handshake.noise()) == Some(peer_static@)
                &&& noise_exchanged(handshake.noise()) == Seq::<Seq<u8>>::empty()
            },
    {
        match start_initiator(
            PATTERN,
            prologue_bytes().as_slice(),
            &identity.private,
            peer_static,
        ) {
            Ok(state) => Ok(Handshake { state, initiator: true }),
            Err(_) => Err(HandshakeError::Misconfigured),
        }
    }

    /// Starts the side that answers.
    ///
    /// The responder does not name the peer it expects. It cannot: the whole point of `IK` is that
    /// the initiator's identity arrives inside the first message. The caller checks
    /// [`Handshake::peer_static`] once that message is read.
    pub fn responder(identity: &Identity) -> (handshake: Result<Self, HandshakeError>)
        ensures
            handshake matches Ok(handshake) && {
                &&& handshake.wf()
                &&& !handshake.speaks_first()
                &&& handshake.may_listen()
                &&& noise_setup(handshake.noise()).private == identity.private_half()
                &&& noise_remote(handshake.noise()) is None
                &&& noise_exchanged(handshake.noise()) == Seq::<Seq<u8>>::empty()
            },
    {
        match start_responder(PATTERN, prologue_bytes().as_slice(), &identity.private) {
            Ok(state) => Ok(Handshake { state, initiator: false }),
            Err(_) => Err(HandshakeError::Misconfigured),
        }
    }

    /// Bytes of overhead the next outgoing message carries.
    fn outgoing_overhead(&self) -> (overhead: usize)
        ensures
            overhead == overhead_of(self.speaks_first()),
    {
        if self.initiator {
            INIT_OVERHEAD
        } else {
            RESPONSE_OVERHEAD
        }
    }

    /// Writes this side's next handshake message into `out`, returning its length.
    ///
    /// The payload rides inside the message. For the initiator it is encrypted to the responder's
    /// static key but not yet forward secret, so it may carry what the session needs to negotiate
    /// and must not carry a secret worth more than the static key. For the responder it is fully
    /// protected.
    pub fn write_message(&mut self, payload: &[u8], out: &mut [u8]) -> (written: Result<
        usize,
        HandshakeError,
    >)
        requires
            old(self).wf(),
        ensures
            final(self).wf(),
            final(self).speaks_first() == old(self).speaks_first(),
            noise_setup(final(self).noise()) == noise_setup(old(self).noise()),
            noise_remote(final(self).noise()) == noise_remote(old(self).noise()),
            final(out)@.len() == old(out)@.len(),
            ({
                let error = write_error(
                    payload@.len(),
                    old(out)@.len(),
                    old(self).speaks_first(),
                    old(self).may_speak(),
                );
                match written {
                    Ok(len) => {
                        &&& error is None
                        &&& len == payload@.len() + overhead_of(old(self).speaks_first())
                        &&& len <= old(out)@.len()
                        &&& !noise_turn(final(self).noise())
                        &&& noise_finished(final(self).noise()) == !old(self).speaks_first()
                        &&& final(out)@.skip(len as int) == old(out)@.skip(len as int)
                        &&& noise_exchanged(final(self).noise()) == noise_exchanged(
                            old(self).noise(),
                        ).push(final(out)@.take(len as int))
                        &&& is_read_by_its_peer(
                            old(self).noise(),
                            payload@,
                            final(out)@.take(len as int),
                        )
                    },
                    Err(reason) => {
                        &&& error matches Some(error) ==> reason == error
                        &&& error is None ==> reason == HandshakeError::OutOfTurn
                        &&& error is Some ==> final(out)@ == old(out)@
                        &&& noise_turn(final(self).noise()) == noise_turn(old(self).noise())
                        &&& noise_finished(final(self).noise()) == noise_finished(
                            old(self).noise(),
                        )
                    },
                }
            }),
    {
        if payload.len() > MAX_HANDSHAKE_PAYLOAD {
            return Err(HandshakeError::PayloadTooLarge { actual: payload.len() });
        }
        let needed: usize = payload.len() + self.outgoing_overhead();
        if out.len() < needed {
            return Err(HandshakeError::BufferTooSmall { actual: out.len(), needed });
        }
        if !noise_is_my_turn(&self.state) || noise_is_finished(&self.state) {
            return Err(HandshakeError::OutOfTurn);
        }
        match noise_write(&mut self.state, payload, out) {
            Ok(len) => Ok(len),
            Err(_) => Err(HandshakeError::OutOfTurn),
        }
    }

    /// Reads a handshake message from the peer, writing its payload into `payload`.
    ///
    /// Anything that does not decrypt is not authentic, which is what every unsolicited packet
    /// arriving at the port produces.
    pub fn read_message(&mut self, message: &[u8], payload: &mut [u8]) -> (read: Result<
        usize,
        HandshakeError,
    >)
        requires
            old(self).wf(),
        ensures
            final(self).speaks_first() == old(self).speaks_first(),
            noise_setup(final(self).noise()) == noise_setup(old(self).noise()),
            final(payload)@.len() == old(payload)@.len(),
            ({
                let error = read_error(old(payload)@.len(), old(self).may_listen());
                match read {
                    Ok(len) => {
                        &&& error is None
                        &&& final(self).wf()
                        &&& message@.len() == len + overhead_of(!old(self).speaks_first())
                        &&& len <= old(payload)@.len()
                        &&& noise_turn(final(self).noise())
                        &&& noise_finished(final(self).noise()) == old(self).speaks_first()
                        &&& noise_exchanged(final(self).noise()) == noise_exchanged(
                            old(self).noise(),
                        ).push(message@)
                        &&& old(self).reads(message@) == Some(
                            (final(payload)@.take(len as int), noise_remote(final(self).noise())),
                        )
                        &&& old(self).speaks_first() ==> noise_remote(final(self).noise())
                            == noise_remote(old(self).noise()) && agrees_with_its_peer(
                            final(self).noise(),
                        )
                        &&& !old(self).speaks_first() ==> noise_remote(final(self).noise()) is Some
                    },
                    Err(reason) => {
                        &&& error matches Some(error) ==> {
                            &&& reason == error
                            &&& *final(self) == *old(self)
                            &&& final(payload)@ == old(payload)@
                        }
                        &&& error is None ==> {
                            &&& reason == HandshakeError::NotAuthentic
                            &&& old(self).reads(message@) matches Some((text, peer)) ==> text.len()
                                > old(payload)@.len()
                        }
                        &&& old(self).speaks_first() ==> {
                            &&& final(self).wf()
                            &&& noise_remote(final(self).noise()) == noise_remote(
                                old(self).noise(),
                            )
                            &&& noise_exchanged(final(self).noise()) == noise_exchanged(
                                old(self).noise(),
                            )
                            &&& forall|other: Seq<u8>| #[trigger]
                                noise_answer(final(self).noise(), other) == noise_answer(
                                    old(self).noise(),
                                    other,
                                )
                        }
                        &&& noise_turn(final(self).noise()) == noise_turn(old(self).noise())
                        &&& noise_finished(final(self).noise()) == noise_finished(
                            old(self).noise(),
                        )
                    },
                }
            }),
    {
        if noise_is_my_turn(&self.state) || noise_is_finished(&self.state) {
            return Err(HandshakeError::OutOfTurn);
        }
        if payload.len() < MAX_HANDSHAKE_PAYLOAD {
            return Err(
                HandshakeError::BufferTooSmall {
                    actual: payload.len(),
                    needed: MAX_HANDSHAKE_PAYLOAD,
                },
            );
        }
        match noise_read(&mut self.state, message, payload) {
            Ok(len) => Ok(len),
            Err(_) => Err(HandshakeError::NotAuthentic),
        }
    }

    /// Returns the peer's static public key once a message carrying it has been read.
    ///
    /// For a responder this is available after the first message and is the value the caller must
    /// check against what pairing recorded. For an initiator it is known from the start.
    #[must_use]
    pub fn peer_static(&self) -> (peer: Option<[u8; KEY_LEN]>)
        requires
            self.wf(),
        ensures
            match peer {
                Some(peer) => noise_remote(self.noise()) == Some(peer@),
                None => noise_remote(self.noise()) is None,
            },
    {
        match noise_get_remote(&self.state) {
            None => None,
            Some(peer) => match to_key(peer.as_slice()) {
                Ok(peer) => Some(peer),
                Err(_) => None,
            },
        }
    }

    /// Returns whether both messages have been exchanged.
    #[must_use]
    pub fn is_finished(&self) -> (finished: bool)
        ensures
            finished == noise_finished(self.noise()),
    {
        noise_is_finished(&self.state)
    }

    /// Returns whether this side sends the next message.
    #[must_use]
    pub fn is_my_turn(&self) -> (turn: bool)
        ensures
            turn == noise_turn(self.noise()),
    {
        noise_is_my_turn(&self.state)
    }

    /// Consumes the finished handshake and returns the session keys.
    ///
    /// Refused before both messages were exchanged, which would otherwise hand out keys the peer
    /// has not authenticated.
    pub fn into_session(self) -> (session: Result<Session, HandshakeError>)
        requires
            self.wf(),
        ensures
            match session {
                Ok(session) => {
                    &&& noise_finished(self.noise())
                    &&& noise_remote(self.noise()) == Some(session.peer_static@)
                    &&& session_of(noise_keys(self.noise()), self.speaks_first(), session)
                },
                Err(error) => {
                    &&& !noise_finished(self.noise()) || noise_remote(self.noise()) is None
                    &&& error == HandshakeError::Unfinished
                },
            },
    {
        if !noise_is_finished(&self.state) {
            return Err(HandshakeError::Unfinished);
        }
        let peer_static: [u8; KEY_LEN] = match self.peer_static() {
            None => return Err(HandshakeError::Unfinished),
            Some(peer_static) => peer_static,
        };
        let mut state = self.state;
        let (first, second): ([u8; 32], [u8; 32]) = noise_split(&mut state);
        if self.initiator {
            Ok(Session { sealer: Sealer::new(&first), opener: Opener::new(&second), peer_static })
        } else {
            Ok(Session { sealer: Sealer::new(&second), opener: Opener::new(&first), peer_static })
        }
    }
}

/// Which peers a responder will complete a handshake with.
///
/// Named rather than defaulted, because "an empty list means anyone" is the kind of default that
/// turns into an open host the first time a configuration file fails to load.
#[derive(Debug, Clone)]
pub enum PeerPolicy {
    /// Only these static keys, which is what pairing produces.
    Paired(Vec<[u8; KEY_LEN]>),
    /// Any key at all. For a host deliberately in pairing mode, and for tests.
    Any,
}

impl PeerPolicy {
    /// Whether a peer's static key is one this side will talk to.
    pub open spec fn allows(&self, peer: Seq<u8>) -> bool {
        match self {
            PeerPolicy::Paired(keys) => exists|i: int|
                0 <= i < keys@.len() && (#[trigger] keys@[i])@ == peer,
            PeerPolicy::Any => true,
        }
    }

    /// Returns whether a peer's static key is one this side will talk to.
    ///
    /// Every key is compared in full and without an early exit on the first differing byte. The
    /// keys are public, so this is not about secrecy; it is about not growing a timing oracle here
    /// later when the same shape is reused for something that is secret.
    #[must_use]
    pub fn admits(&self, peer: &[u8; KEY_LEN]) -> (admitted: bool)
        ensures
            admitted == self.allows(peer@),
    {
        match self {
            PeerPolicy::Any => true,
            PeerPolicy::Paired(keys) => {
                let mut found: bool = false;
                let mut i: usize = 0;
                while i < keys.len()
                    invariant
                        i <= keys@.len(),
                        found == exists|k: int| 0 <= k < i && (#[trigger] keys@[k])@ == peer@,
                    decreases keys@.len() - i,
                {
                    let same: bool = same_key(&keys[i], peer);
                    proof {
                        if same {
                            assert(keys@[i as int]@ == peer@);
                        }
                    }
                    found = found || same;
                    i = i + 1;
                }
                found
            },
        }
    }
}

/// Differences gathered so far stay, and a byte adds one only if it differs.
proof fn lemma_difference(gathered: u8, left: u8, right: u8)
    by (bit_vector)
    ensures
        gathered | (left ^ right) == 0 <==> gathered == 0 && left == right,
{
}

/// Compares two keys without branching on their contents.
fn same_key(left: &[u8; KEY_LEN], right: &[u8; KEY_LEN]) -> (same: bool)
    ensures
        same == (left@ == right@),
{
    let mut difference: u8 = 0;
    let mut i: usize = 0;
    while i < KEY_LEN
        invariant
            i <= KEY_LEN,
            difference == 0 <==> (forall|k: int| 0 <= k < i ==> left@[k] == right@[k]),
        decreases KEY_LEN - i,
    {
        proof {
            lemma_difference(difference, left@[i as int], right@[i as int]);
        }
        difference = difference | (left[i] ^ right[i]);
        i = i + 1;
    }
    proof {
        if difference == 0 {
            assert(left@ =~= right@);
        }
    }
    difference == 0
}

/// Compares two runs of bytes.
fn same_bytes(left: &[u8], right: &[u8]) -> (same: bool)
    ensures
        same == (left@ == right@),
{
    if left.len() != right.len() {
        return false;
    }
    let mut i: usize = 0;
    while i < left.len()
        invariant
            i <= left@.len(),
            left@.len() == right@.len(),
            forall|k: int| 0 <= k < i ==> left@[k] == right@[k],
        decreases left@.len() - i,
    {
        if left[i] != right[i] {
            return false;
        }
        i = i + 1;
    }
    assert(left@ =~= right@);
    true
}

/// A finished handshake: the session keys and whatever the peer sent alongside them.
pub struct Established {
    /// The keys for this session.
    pub session: Session,
    /// The payload the peer carried in its handshake message.
    pub peer_payload: Vec<u8>,
}

/// Drives the initiating side of a handshake across an unreliable path.
///
/// The first message is kept so it can be sent again. On UDP either message can be lost, and a
/// handshake that gives up on the first loss is a session that fails to start on a path where
/// everything else would have worked. Retransmitting the *same bytes* rather than writing a new
/// message is what makes that safe: a second message would carry a second ephemeral key and the
/// responder would derive keys the initiator has thrown away.
pub struct Initiator {
    handshake: Option<Handshake>,
    first: Vec<u8>,
    established: Option<Established>,
}

impl Initiator {
    /// The handshake, while it is waiting for its answer.
    pub closed spec fn waiting(&self) -> Option<Handshake> {
        self.handshake
    }

    /// The message to send.
    pub closed spec fn first(&self) -> Seq<u8> {
        self.first@
    }

    /// The finished session, until it is taken.
    pub closed spec fn finished(&self) -> Option<Established> {
        self.established
    }

    /// A handshake that waits is one that this side started and that listens for its answer.
    pub open spec fn wf(&self) -> bool {
        self.waiting() matches Some(handshake) ==> {
            &&& handshake.wf()
            &&& handshake.speaks_first()
            &&& handshake.may_listen()
            &&& noise_remote(handshake.noise()) is Some
            &&& noise_exchanged(handshake.noise()) == seq![self.first()]
        }
    }

    /// The payload of the answer that this side is waiting for, where a datagram is that answer.
    pub open spec fn answered_by(&self, datagram: Seq<u8>) -> Option<Seq<u8>> {
        match self.waiting() {
            None => None,
            Some(handshake) => match noise_answer(handshake.noise(), datagram) {
                Some(text) if text.len() <= MAX_HANDSHAKE_PAYLOAD => Some(text),
                _ => None,
            },
        }
    }

    /// Starts a handshake to a peer whose static key is known, carrying `payload`.
    ///
    /// Whoever holds the private half of that key reads the payload out of the first message, and
    /// learns from it who is speaking. A system without randomness to give makes this fail.
    pub fn new(identity: &Identity, peer_static: &[u8; KEY_LEN], payload: &[u8]) -> (initiator:
        Result<Self, HandshakeError>)
        requires
            payload@.len() + INIT_OVERHEAD <= usize::MAX,
        ensures
            match initiator {
                Ok(initiator) => {
                    &&& payload@.len() <= MAX_HANDSHAKE_PAYLOAD
                    &&& initiator.wf()
                    &&& initiator.waiting() matches Some(handshake)
                    &&& noise_setup(handshake.noise()).private == identity.private_half()
                    &&& noise_remote(handshake.noise()) == Some(peer_static@)
                    &&& initiator.first().len() == payload@.len() + INIT_OVERHEAD
                    &&& initiator.finished() is None
                    &&& forall|private: Seq<u8>|
                        #![trigger x25519_public(private)]
                        private.len() == KEY_LEN && peer_static@ == x25519_public(private)
                            ==> noise_first(prologue(), private, initiator.first()) == Some(
                            (payload@, x25519_public(identity.private_half())),
                        )
                },
                Err(error) => if payload@.len() > MAX_HANDSHAKE_PAYLOAD {
                    error == (HandshakeError::PayloadTooLarge { actual: payload@.len() as usize })
                } else {
                    error == HandshakeError::OutOfTurn
                },
            },
    {
        let mut handshake: Handshake = match Handshake::initiator(identity, peer_static) {
            Ok(handshake) => handshake,
            Err(error) => return Err(error),
        };
        let mut first: Vec<u8> = vec![0u8; payload.len() + INIT_OVERHEAD];
        let written: usize = match handshake.write_message(payload, first.as_mut_slice()) {
            Ok(written) => written,
            Err(error) => return Err(error),
        };
        assert(first@.take(written as int) =~= first@);
        first.truncate(written);
        assert(noise_exchanged(handshake.noise()) =~= seq![first@]);
        Ok(Initiator { handshake: Some(handshake), first, established: None })
    }

    /// Returns the message to send, and to send again if no answer arrives.
    #[must_use]
    pub fn first_message(&self) -> (message: &[u8])
        ensures
            message@ == self.first(),
    {
        self.first.as_slice()
    }

    /// Feeds a datagram, returning whether it completed the handshake.
    ///
    /// Anything that is not the expected answer is reported as not having completed it, rather
    /// than as an error, because on a live socket most of what arrives is not.
    pub fn accept(&mut self, datagram: &[u8]) -> (completed: bool)
        requires
            old(self).wf(),
        ensures
            final(self).wf(),
            final(self).first() == old(self).first(),
            completed == (old(self).answered_by(datagram@) is Some),
            old(self).waiting() is None ==> *final(self) == *old(self),
            !completed ==> {
                &&& final(self).finished() == old(self).finished()
                &&& final(self).waiting() is Some == old(self).waiting() is Some
                &&& old(self).waiting() is Some ==> {
                    &&& noise_setup(final(self).waiting()->0.noise()) == noise_setup(
                        old(self).waiting()->0.noise(),
                    )
                    &&& noise_remote(final(self).waiting()->0.noise()) == noise_remote(
                        old(self).waiting()->0.noise(),
                    )
                    &&& forall|other: Seq<u8>| #[trigger]
                        final(self).answered_by(other) == old(self).answered_by(other)
                }
            },
            completed ==> {
                &&& final(self).waiting() is None
                &&& final(self).finished() matches Some(established)
                &&& old(self).answered_by(datagram@) == Some(established.peer_payload@)
                &&& noise_remote(old(self).waiting()->0.noise()) == Some(
                    established.session.peer_static@,
                )
                &&& established.peer_payload@.len() + RESPONSE_OVERHEAD == datagram@.len()
                &&& exists|state: HandshakeState|
                    #![trigger noise_keys(state)]
                    {
                        &&& noise_setup(state) == noise_setup(old(self).waiting()->0.noise())
                        &&& noise_remote(state) == noise_remote(old(self).waiting()->0.noise())
                        &&& noise_exchanged(state) == seq![old(self).first(), datagram@]
                        &&& noise_finished(state)
                        &&& agrees_with_its_peer(state)
                        &&& session_of(noise_keys(state), true, established.session)
                    }
            },
    {
        let mut handshake: Handshake = match self.handshake.take() {
            None => return false,
            Some(handshake) => handshake,
        };
        let mut payload: Vec<u8> = vec![0u8; MAX_HANDSHAKE_PAYLOAD];
        match handshake.read_message(datagram, payload.as_mut_slice()) {
            Err(_) => {
                self.handshake = Some(handshake);
                false
            },
            Ok(read) => {
                payload.truncate(read);
                assert(noise_exchanged(handshake.noise()) =~= seq![self.first(), datagram@]);
                match handshake.into_session() {
                    Err(_) => false,
                    Ok(session) => {
                        self.established = Some(Established { session, peer_payload: payload });
                        true
                    },
                }
            },
        }
    }

    /// Takes the finished session, once there is one.
    #[must_use]
    pub fn take(&mut self) -> (established: Option<Established>)
        ensures
            established == old(self).finished(),
            final(self).finished() is None,
            final(self).waiting() == old(self).waiting(),
            final(self).first() == old(self).first(),
    {
        self.established.take()
    }
}

/// What a responder decided about one datagram.
#[derive(Debug, Clone, Copy, PartialEq, Eq, Structural)]
pub enum Answer {
    /// Not a handshake message this responder will act on. Pass it on or drop it.
    Ignored,
    /// The first `usize` bytes of the reply buffer should be sent back to the peer.
    ///
    /// A handshake may become available from [`Responder::take`] at the same time; a repeat of a
    /// message already answered produces the same bytes and no new session.
    Reply(usize),
}

/// Drives the answering side of a handshake across an unreliable path.
///
/// Holds the answer it gave so a retransmitted first message gets the same bytes back. That
/// matters more than it looks: if the answer is lost, the initiator resends, and a responder that
/// started a fresh handshake would derive a second set of keys while the initiator kept waiting
/// for an answer to the first. The session would never start and nothing in the logs would say
/// why.
pub struct Responder {
    identity: Identity,
    policy: PeerPolicy,
    answered: Option<(Vec<u8>, Vec<u8>)>,
    established: Option<Established>,
}

impl Responder {
    /// The key this side answers with.
    pub closed spec fn own_identity(&self) -> Identity {
        self.identity
    }

    /// Which peers this side answers.
    pub closed spec fn own_policy(&self) -> PeerPolicy {
        self.policy
    }

    /// The message that was answered and the answer it got.
    pub closed spec fn answer_given(&self) -> Option<(Seq<u8>, Seq<u8>)> {
        match self.answered {
            None => None,
            Some((seen, answer)) => Some((seen@, answer@)),
        }
    }

    /// The finished session, until it is taken.
    pub closed spec fn finished(&self) -> Option<Established> {
        self.established
    }

    /// The payload of a first message and who wrote it, where this side will answer it: it reads,
    /// from a peer that the policy allows, and `room` holds an answer with a payload of `len`
    /// bytes.
    pub open spec fn answers(&self, datagram: Seq<u8>, len: nat, room: nat) -> Option<
        (Seq<u8>, Seq<u8>),
    > {
        match noise_first(prologue(), self.own_identity().private_half(), datagram) {
            Some((text, peer)) if text.len() <= MAX_HANDSHAKE_PAYLOAD && self.own_policy().allows(
                peer,
            ) && len <= MAX_HANDSHAKE_PAYLOAD && len + RESPONSE_OVERHEAD <= room => Some(
                (text, peer),
            ),
            _ => None,
        }
    }

    /// Creates a responder that will complete a handshake only with the peers `policy` names.
    #[must_use]
    pub fn new(identity: Identity, policy: PeerPolicy) -> (responder: Self)
        ensures
            responder.own_identity() == identity,
            responder.own_policy() == policy,
            responder.answer_given() is None,
            responder.finished() is None,
    {
        Responder { identity, policy, answered: None, established: None }
    }

    /// Feeds a datagram and writes any reply into `reply`.
    ///
    /// `reply` must be at least `RESPONSE_OVERHEAD + payload.len()` bytes.
    ///
    /// A peer the policy does not admit gets [`Answer::Ignored`] rather than a refusal. Silence is
    /// the right answer: a rejection would tell an unpaired caller that it had found a live host,
    /// which is exactly what a scan is looking for.
    ///
    /// A first message from a peer the policy admits is answered unless the system has no
    /// randomness to give, in which case it is ignored as well. The answer is one that the
    /// initiator that wrote the message can read.
    pub fn accept(&mut self, datagram: &[u8], payload: &[u8], reply: &mut [u8]) -> (answer: Answer)
        ensures
            final(self).own_identity() == old(self).own_identity(),
            final(self).own_policy() == old(self).own_policy(),
            final(reply)@.len() == old(reply)@.len(),
            old(self).answer_given() matches Some((seen, given)) ==> {
                &&& *final(self) == *old(self)
                &&& if datagram@ == seen && old(reply)@.len() >= given.len() {
                    &&& answer == Answer::Reply(given.len() as usize)
                    &&& overwritten(final(reply)@, old(reply)@, given)
                } else {
                    &&& answer == Answer::Ignored
                    &&& final(reply)@ == old(reply)@
                }
            },
            old(self).answer_given() is None ==> match answer {
                Answer::Ignored => {
                    &&& final(self).answer_given() is None
                    &&& final(self).finished() == old(self).finished()
                    &&& old(self).answers(datagram@, payload@.len(), old(reply)@.len()) is None
                        ==> final(reply)@ == old(reply)@
                },
                Answer::Reply(len) => {
                    let private = old(self).own_identity().private_half();
                    let given = final(reply)@.take(len as int);
                    &&& len == payload@.len() + RESPONSE_OVERHEAD
                    &&& len <= old(reply)@.len()
                    &&& final(reply)@.skip(len as int) == old(reply)@.skip(len as int)
                    &&& final(self).answer_given() == Some((datagram@, given))
                    &&& final(self).finished() matches Some(established)
                    &&& old(self).answers(datagram@, payload@.len(), old(reply)@.len()) == Some(
                        (established.peer_payload@, established.session.peer_static@),
                    )
                    &&& established.peer_payload@.len() + INIT_OVERHEAD == datagram@.len()
                    &&& forall|initiator: HandshakeState| #[trigger]
                        awaits_answer(
                            initiator,
                            datagram@,
                            private,
                            established.session.peer_static@,
                        ) ==> noise_answer(initiator, given) == Some(payload@)
                    &&& exists|state: HandshakeState|
                        #![trigger noise_keys(state)]
                        {
                            &&& noise_setup(state) == (NoiseSetup {
                                pattern: PATTERN@,
                                prologue: prologue(),
                                private,
                                initiator: false,
                            })
                            &&& noise_remote(state) == Some(established.session.peer_static@)
                            &&& noise_exchanged(state) == seq![datagram@, given]
                            &&& noise_finished(state)
                            &&& session_of(noise_keys(state), false, established.session)
                        }
                },
            },
    {
        if let Some((seen, answer)) = &self.answered {
            // Byte equality is enough to recognise a retransmission: the message is
            // authenticated, so nobody can produce a different one that would pass.
            if same_bytes(seen.as_slice(), datagram) {
                if reply.len() < answer.len() {
                    return Answer::Ignored;
                }
                proof {
                    lemma_nothing_overwritten(reply@);
                }
                put_bytes(reply, 0, answer.as_slice());
                return Answer::Reply(answer.len());
            }
            // A different first message while one is already answered. Starting over would
            // abandon a session that may be live, so it is refused.
            return Answer::Ignored;
        }
        let mut handshake: Handshake = match Handshake::responder(&self.identity) {
            Ok(handshake) => handshake,
            Err(_) => return Answer::Ignored,
        };
        let mut incoming: Vec<u8> = vec![0u8; MAX_HANDSHAKE_PAYLOAD];
        let read: usize = match handshake.read_message(datagram, incoming.as_mut_slice()) {
            Ok(read) => read,
            Err(_) => return Answer::Ignored,
        };
        let peer: [u8; KEY_LEN] = match handshake.peer_static() {
            Some(peer) => peer,
            None => return Answer::Ignored,
        };
        if !self.policy.admits(&peer) {
            return Answer::Ignored;
        }
        let ghost heard = handshake.noise();
        let written: usize = match handshake.write_message(payload, reply) {
            Ok(written) => written,
            Err(_) => return Answer::Ignored,
        };
        proof {
            assert(noise_exchanged(heard) =~= seq![datagram@]);
            assert(noise_exchanged(handshake.noise()) =~= seq![
                datagram@,
                reply@.take(written as int),
            ]);
            assert forall|initiator: HandshakeState| #[trigger]
                awaits_answer(
                    initiator,
                    datagram@,
                    self.own_identity().private_half(),
                    peer@,
                ) implies noise_answer(initiator, reply@.take(written as int)) == Some(
                payload@,
            ) by {
                assert(is_talking_to(initiator, heard));
            }
        }
        incoming.truncate(read);
        assert(reply@.subrange(0, written as int) =~= reply@.take(written as int));
        self.conclude(handshake, datagram, incoming, &reply[0..written])
    }

    /// Takes over a handshake in which a first message was answered: the session it made becomes
    /// available, and the answer is kept for a repeat of the message.
    ///
    /// A handshake that is not finished, or that does not know its peer, is ignored.
    pub fn conclude(
        &mut self,
        handshake: Handshake,
        datagram: &[u8],
        peer_payload: Vec<u8>,
        reply: &[u8],
    ) -> (answer: Answer)
        requires
            handshake.wf(),
        ensures
            final(self).own_identity() == old(self).own_identity(),
            final(self).own_policy() == old(self).own_policy(),
            if noise_finished(handshake.noise()) && noise_remote(handshake.noise()) is Some {
                &&& answer == Answer::Reply(reply@.len() as usize)
                &&& final(self).answer_given() == Some((datagram@, reply@))
                &&& final(self).finished() matches Some(established)
                &&& established.peer_payload@ == peer_payload@
                &&& noise_remote(handshake.noise()) == Some(established.session.peer_static@)
                &&& session_of(
                    noise_keys(handshake.noise()),
                    handshake.speaks_first(),
                    established.session,
                )
            } else {
                &&& answer == Answer::Ignored
                &&& *final(self) == *old(self)
            },
    {
        let session: Session = match handshake.into_session() {
            Ok(session) => session,
            Err(_) => return Answer::Ignored,
        };
        let seen: Vec<u8> = vstd::slice::slice_to_vec(datagram);
        let kept: Vec<u8> = vstd::slice::slice_to_vec(reply);
        self.answered = Some((seen, kept));
        self.established = Some(Established { session, peer_payload });
        Answer::Reply(reply.len())
    }

    /// Takes the finished session, once there is one.
    #[must_use]
    pub fn take(&mut self) -> (established: Option<Established>)
        ensures
            established == old(self).finished(),
            final(self).finished() is None,
            final(self).own_identity() == old(self).own_identity(),
            final(self).own_policy() == old(self).own_policy(),
            final(self).answer_given() == old(self).answer_given(),
    {
        self.established.take()
    }
}

/// The first of the two keys is the one the initiator sends under, and the second the one the
/// responder does: each side seals with its own and opens with the other's.
pub proof fn each_direction_has_its_own_key(
    keys: (Seq<u8>, Seq<u8>),
    initiator: Session,
    responder: Session,
)
    requires
        session_of(keys, true, initiator),
        session_of(keys, false, responder),
    ensures
        initiator.sealer.key() == keys.0 && responder.opener.key() == keys.0,
        responder.sealer.key() == keys.1 && initiator.opener.key() == keys.1,
        initiator.sealer.floor() == 0 && responder.sealer.floor() == 0,
        forall|counter: u64| !#[trigger] initiator.opener.refuses(counter),
        forall|counter: u64| !#[trigger] responder.opener.refuses(counter),
{
}

} // verus!
