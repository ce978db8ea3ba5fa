//! Encrypting packets on the way out and refusing forgeries on the way in.
//!
//! Every packet on the wire is sealed with AES-256-GCM. That is not only about confidentiality:
//! a remote desktop session carries keystrokes and accepts injected input, so an unauthenticated
//! flow is one where anyone who can reach the port can type on the host.
//!
//! # What travels in the clear
//!
//! Only the nonce counter. The channel tag and every header sit inside the seal, so an observer
//! learns a packet's size and nothing else.
//!
//! # Nonces
//!
//! A counter, one per direction, never reused. The counter is never allowed to wrap: the session
//! ends first, at a point no real session could reach.
//!
//! # Replay
//!
//! The tag proves a packet was written by the peer; it does not prove the peer wrote it *now*. A
//! sliding window of accepted counters closes that, and it has to slide rather than insist on
//! order, because UDP reorders constantly.

use vstd::prelude::*;

use std::sync::atomic::{AtomicU64, Ordering};
use std::sync::Arc;

use crate::bytes::{
    le_at, le_bytes, lemma_byte_ranges, lemma_le_bytes_len, lemma_le_bytes_of_value,
    lemma_le_value_of_bytes, lemma_nothing_overwritten, overwritten, put_bytes, put_le, read_u64,
};
use crate::net::crypto::{aes_open, aes_opened, aes_seal, aes_sealed};
use crate::net::packet::{field_reads_back, MAX_PLAINTEXT_SIZE, SEAL_OVERHEAD};

verus! {

/// Bytes of the nonce counter that travel ahead of the ciphertext.
///
/// Also where an opened packet's plaintext begins, which is what lets a caller open in place and
/// hand out a borrow of the same buffer.
pub const COUNTER_LEN: usize = 8;

/// Bytes of authentication tag GCM appends.
pub const TAG_LEN: usize = 16;

/// How many counters behind the newest one are still accepted.
///
/// Sixty-four covers far more reordering than any path this is meant for produces, while staying
/// a single word of state per direction.
pub const REPLAY_WINDOW: u64 = 64;

/// Highest counter a session will use before refusing to send.
///
/// Two to the sixty-four is unreachable, but stopping short of the wrap is what makes "never
/// reused" a fact rather than an assumption.
pub const MAX_COUNTER: u64 = 0xffff_ffff_ffff_fffe;

/// Reason a packet could not be sealed or opened.
#[allow(inconsistent_fields)]
#[derive(Debug, Clone, Copy, PartialEq, Eq, Structural)]
pub enum SealError {
    /// The plaintext is larger than a sealed packet may carry.
    TooLarge {
        /// Length that was rejected.
        actual: usize,
    },
    /// The caller's buffer cannot hold the sealed packet.
    BufferTooSmall {
        /// Buffer length supplied.
        actual: usize,
        /// Buffer length required.
        needed: usize,
    },
    /// The packet is too short to be a sealed one.
    TooShort {
        /// Length that was rejected.
        actual: usize,
    },
    /// The tag did not verify.
    ///
    /// Either the packet was altered or it was not written by the peer. There is no way to tell
    /// which and no reason to care: both are refused identically.
    NotAuthentic,
    /// The counter has already been accepted, or is too old to judge.
    ///
    /// Reported separately from a failed tag because it is operationally different: a replay is
    /// an attack or a duplicate, while a bad tag is a forgery or corruption.
    Replay {
        /// The counter that was refused.
        counter: u64,
    },
    /// The sending counter reached its ceiling.
    Exhausted,
}

/// The nonce of a counter: the counter fills the low sixty-four bits and the rest are zero.
pub open spec fn nonce_of(counter: u64) -> Seq<u8> {
    le_bytes(counter as nat, 8) + seq![0u8, 0u8, 0u8, 0u8]
}

/// A sealed packet: the counter, then the ciphertext, then the tag.
pub open spec fn sealed_packet(key: Seq<u8>, counter: u64, text: Seq<u8>) -> Seq<u8> {
    le_bytes(counter as nat, 8) + aes_sealed(key, nonce_of(counter), text)
}

/// Two counters never share a nonce.
pub proof fn nonces_are_distinct(left: u64, right: u64)
    requires
        left != right,
    ensures
        nonce_of(left) != nonce_of(right),
{
    broadcast use lemma_le_bytes_len;

    lemma_byte_ranges();
    lemma_le_value_of_bytes(left as nat, 8);
    lemma_le_value_of_bytes(right as nat, 8);
    if nonce_of(left) == nonce_of(right) {
        assert(nonce_of(left).take(8) =~= le_bytes(left as nat, 8));
        assert(nonce_of(right).take(8) =~= le_bytes(right as nat, 8));
    }
}

/// A handle never repeats a nonce, however many packets it seals and whatever other handles take
/// from the counter in between.
pub proof fn a_handle_never_repeats_a_nonce(floors: Seq<nat>, counters: Seq<u64>)
    requires
        floors.len() == counters.len() + 1,
        forall|i: int|
            0 <= i < counters.len() ==> draws(#[trigger] floors[i], counters[i], floors[i + 1]),
    ensures
        forall|i: int, j: int|
            0 <= i < j < counters.len() ==> nonce_of(#[trigger] counters[i]) != nonce_of(
                #[trigger] counters[j],
            ),
{
    assert forall|i: int, j: int| 0 <= i < j < counters.len() implies nonce_of(
        #[trigger] counters[i],
    ) != nonce_of(#[trigger] counters[j]) by {
        lemma_floors_rise(floors, counters, i, j);
        assert(draws(floors[j], counters[j], floors[j + 1]));
        nonces_are_distinct(counters[i], counters[j]);
    }
}

/// What was drawn lies below every later floor.
proof fn lemma_floors_rise(floors: Seq<nat>, counters: Seq<u64>, i: int, j: int)
    requires
        floors.len() == counters.len() + 1,
        forall|k: int|
            0 <= k < counters.len() ==> draws(#[trigger] floors[k], counters[k], floors[k + 1]),
        0 <= i < j <= counters.len(),
    ensures
        counters[i] < floors[j],
    decreases j,
{
    assert(draws(floors[j - 1], counters[j - 1], floors[j - 1 + 1]));
    if i < j - 1 {
        lemma_floors_rise(floors, counters, i, j - 1);
    }
}

/// Builds the nonce for a counter.
///
/// The keys are per-direction and per-session, so a counter is all that is needed to keep every
/// nonce under a key distinct.
fn nonce_for(counter: u64) -> (nonce: [u8; 12])
    ensures
        nonce@ == nonce_of(counter),
{
    broadcast use lemma_le_bytes_len;

    let mut bytes: Vec<u8> = vec![0u8; 12];
    proof {
        lemma_nothing_overwritten(bytes@);
    }
    put_le(bytes.as_mut_slice(), 0, counter, 8);
    assert(bytes@ =~= nonce_of(counter));
    crate::net::crypto::array_of::<12>(bytes.as_slice())
}

/// Why a text cannot be sealed into a buffer of `room` bytes, if it cannot.
pub open spec fn seal_error(len: nat, room: nat) -> Option<SealError> {
    if len > MAX_PLAINTEXT_SIZE {
        Some(SealError::TooLarge { actual: len as usize })
    } else if room < len + SEAL_OVERHEAD {
        Some(
            SealError::BufferTooSmall {
                actual: room as usize,
                needed: (len + SEAL_OVERHEAD) as usize,
            },
        )
    } else {
        None
    }
}

/// The counter that follows, unless the ceiling has been reached.
pub open spec fn following(counter: u64) -> Option<u64> {
    if counter < MAX_COUNTER {
        Some((counter + 1) as u64)
    } else {
        None
    }
}

/// Returns the counter that follows, unless the ceiling has been reached.
pub fn next_counter(counter: u64) -> (next: Option<u64>)
    ensures
        next == following(counter),
        next matches Some(next) ==> next > counter,
{
    if counter < MAX_COUNTER {
        Some(counter + 1)
    } else {
        None
    }
}

/// The least value that a shared counter can hold by now, as far as the holder of this handle
/// onto it knows. Every step moves the counter on, so it never falls below.
pub uninterp spec fn counter_floor(counter: AtomicU64) -> nat;

/// Calls `AtomicU64::new`: a counter that holds `start`, so it can hold no less from then on. By
/// how much other holders will have moved it on when it is next looked at is not claimed.
#[verifier::external_body]
fn counter_from(start: u64) -> (counter: AtomicU64)
    ensures
        counter_floor(counter) == start,
{
    AtomicU64::new(start)
}

/// Whether drawing `counter` from a handle takes what the handle knows from one floor to the next.
pub open spec fn draws(before: nat, counter: u64, after: nat) -> bool {
    before <= counter && after == counter + 1
}

/// Calls `AtomicU64::fetch_update` with [`next_counter`]: hands out the counter's value and moves
/// it on in one atomic step, or refuses at the ceiling. What value comes depends on what other
/// holders of the counter have taken. It is no less than what the counter was last known to hold,
/// because every step moves it on, and the counter is known to be past it afterwards. That two
/// holders of one counter are never given the same value follows from the step being atomic; it
/// speaks of both their calls and is not claimed here.
#[verifier::external_body]
fn reserve(counter: &mut Arc<AtomicU64>) -> (reserved: Result<u64, u64>)
    ensures
        match reserved {
            Ok(value) => {
                &&& following(value) is Some
                &&& draws(counter_floor(**old(counter)), value, counter_floor(**final(counter)))
            },
            Err(value) => following(value) is None && *final(counter) == *old(counter),
        },
{
    counter.fetch_update(Ordering::Relaxed, Ordering::Relaxed, |current| next_counter(current))
}

/// Calls `AtomicU64::load`: what the counter holds now. That depends on what other holders have
/// taken, but it is no less than what this one knows of.
#[verifier::external_body]
fn reached(counter: &Arc<AtomicU64>) -> (value: u64)
    ensures
        value >= counter_floor(**counter),
{
    counter.load(Ordering::Relaxed)
}

/// Seals `plaintext` under one counter into `out` and returns how many bytes were written.
///
/// The caller answers for never using a counter twice with one key; [`Sealer`] does.
pub fn seal_with(key: &[u8; 32], counter: u64, plaintext: &[u8], out: &mut [u8]) -> (written: Result<
    usize,
    SealError,
>)
    ensures
        match written {
            Ok(len) => {
                &&& seal_error(plaintext@.len(), old(out)@.len()) is None
                &&& len == plaintext@.len() + SEAL_OVERHEAD
                &&& sealed_packet(key@, counter, plaintext@).len() == len
                &&& overwritten(
                    final(out)@,
                    old(out)@,
                    sealed_packet(key@, counter, plaintext@),
                )
                &&& aes_opened(
                    key@,
                    nonce_of(counter),
                    aes_sealed(key@, nonce_of(counter), plaintext@),
                ) == Some(plaintext@)
            },
            Err(error) => {
                &&& seal_error(plaintext@.len(), old(out)@.len()) == Some(error)
                &&& final(out)@ == old(out)@
            },
        },
{
    broadcast use lemma_le_bytes_len;

    if plaintext.len() > MAX_PLAINTEXT_SIZE {
        return Err(SealError::TooLarge { actual: plaintext.len() });
    }
    let needed: usize = plaintext.len() + SEAL_OVERHEAD;
    if out.len() < needed {
        return Err(SealError::BufferTooSmall { actual: out.len(), needed });
    }
    let sealed: Vec<u8> = match aes_seal(key, &nonce_for(counter), plaintext) {
        Some(sealed) => sealed,
        None => return Err(SealError::NotAuthentic),
    };
    proof {
        lemma_nothing_overwritten(out@);
    }
    put_le(out, 0, counter, 8);
    put_bytes(out, COUNTER_LEN, sealed.as_slice());
    Ok(needed)
}

/// Seals outgoing packets for one direction.
///
/// One per direction, each with its own key and its own counter. Sharing a key between directions
/// would let each side's counters collide with the other's, which is nonce reuse by another name.
///
/// The counter is atomic because one direction is written by more than one thread: on the host,
/// video leaves the encoder thread while clock synchronisation replies leave the return path
/// thread, and both are the same direction under the same key. Use [`Sealer::split`] to hand the
/// second thread its own handle.
pub struct Sealer {
    key: [u8; 32],
    counter: Arc<AtomicU64>,
}

impl Sealer {
    /// The key this direction is sealed under.
    pub closed spec fn key(&self) -> Seq<u8> {
        self.key@
    }

    /// The least counter this handle can still be given.
    pub closed spec fn floor(&self) -> nat {
        counter_floor(*self.counter)
    }

    /// Creates a sealer from a thirty-two byte key.
    #[must_use]
    pub fn new(key: &[u8; 32]) -> (sealer: Self)
        ensures
            sealer.key() == key@,
            sealer.floor() == 0,
    {
        Sealer { key: *key, counter: Arc::new(counter_from(0)) }
    }

    /// Returns a second handle onto the same direction.
    ///
    /// The two handles share one counter, so no nonce is ever issued twice however the sends
    /// interleave. That sharing is the entire point: two independent sealers on one key would
    /// both start at zero and reuse every nonce.
    #[must_use]
    pub fn split(&self) -> (handle: Self)
        ensures
            handle.key() == self.key(),
            handle.floor() == self.floor(),
    {
        Sealer { key: self.key, counter: self.counter.clone() }
    }

    /// Seals `plaintext` into `out` and returns how many bytes were written.
    ///
    /// The sealed packet is the counter, then the ciphertext, then the tag. The counter is
    /// reserved with one atomic step so that two handles onto this direction cannot be handed the
    /// same one, and so that reaching the ceiling refuses rather than wrapping past it.
    pub fn seal(&mut self, plaintext: &[u8], out: &mut [u8]) -> (written: Result<usize, SealError>)
        ensures
            final(self).key() == old(self).key(),
            match written {
                Ok(len) => {
                    &&& seal_error(plaintext@.len(), old(out)@.len()) is None
                    &&& len == plaintext@.len() + SEAL_OVERHEAD
                    &&& exists|counter: u64|
                        counter < MAX_COUNTER && draws(
                            old(self).floor(),
                            counter,
                            final(self).floor(),
                        ) && overwritten(
                            final(out)@,
                            old(out)@,
                            #[trigger] sealed_packet(old(self).key(), counter, plaintext@),
                        ) && aes_opened(
                            old(self).key(),
                            nonce_of(counter),
                            aes_sealed(old(self).key(), nonce_of(counter), plaintext@),
                        ) == Some(plaintext@)
                },
                Err(error) => {
                    &&& seal_error(plaintext@.len(), old(out)@.len()) is Some ==> seal_error(
                        plaintext@.len(),
                        old(out)@.len(),
                    ) == Some(error)
                    &&& seal_error(plaintext@.len(), old(out)@.len()) is None ==> error
                        == SealError::Exhausted
                    &&& final(self).floor() == old(self).floor()
                    &&& final(out)@ == old(out)@
                },
            },
    {
        if plaintext.len() > MAX_PLAINTEXT_SIZE {
            return Err(SealError::TooLarge { actual: plaintext.len() });
        }
        let needed: usize = plaintext.len() + SEAL_OVERHEAD;
        if out.len() < needed {
            return Err(SealError::BufferTooSmall { actual: out.len(), needed });
        }
        match reserve(&mut self.counter) {
            Err(_) => Err(SealError::Exhausted),
            Ok(counter) => {
                let written: Result<usize, SealError> = seal_with(
                    &self.key,
                    counter,
                    plaintext,
                    out,
                );
                assert(written is Ok);
                assert(overwritten(
                    out@,
                    old(out)@,
                    sealed_packet(old(self).key(), counter, plaintext@),
                ));
                written
            },
        }
    }

    /// Returns how many packets this direction has sent.
    ///
    /// Counts every handle onto the direction, not only this one, because it is the counter
    /// itself that is being reported. How much other handles have sent by now is not known here,
    /// but every packet of this one is counted.
    #[must_use]
    pub fn sent(&self) -> (sent: u64)
        ensures
            sent >= self.floor(),
    {
        reached(&self.counter)
    }
}

/// Whether bit `place` of a word is set.
pub open spec fn bit_set(word: u64, place: u64) -> bool {
    word & (1u64 << place) != 0
}

/// What shifting a window by `advance` and marking the counter it left does to each bit.
proof fn lemma_shifted_bits(word: u64, advance: u64, place: u64)
    by (bit_vector)
    requires
        1 <= advance < 64,
        place < 64,
    ensures
        ((word << advance) | (1u64 << ((advance - 1) as u64))) & (1u64 << place) != 0 <==> place
            == advance - 1 || (place >= advance && word & (1u64 << ((place - advance) as u64))
            != 0),
{
}

/// What marking one bit does to each bit.
proof fn lemma_marked_bits(word: u64, mark: u64, place: u64)
    by (bit_vector)
    requires
        mark < 64,
        place < 64,
    ensures
        (word | (1u64 << mark)) & (1u64 << place) != 0 <==> place == mark || word & (1u64 << place)
            != 0,
{
}

/// No bit of zero is set.
proof fn lemma_no_bits(place: u64)
    by (bit_vector)
    requires
        place < 64,
    ensures
        0u64 & (1u64 << place) == 0,
{
}

/// Opens incoming packets for one direction, refusing forgeries and replays.
pub struct Opener {
    key: [u8; 32],
    newest: u64,
    /// Bit `n` set means the counter `newest - 1 - n` has already been accepted.
    seen: u64,
    started: bool,
    forged: u64,
    replayed: u64,
}

impl Opener {
    /// The key this direction is opened with.
    pub closed spec fn key(&self) -> Seq<u8> {
        self.key@
    }

    /// The newest counter accepted so far.
    pub closed spec fn newest_accepted(&self) -> Option<u64> {
        if self.started {
            Some(self.newest)
        } else {
            None
        }
    }

    /// How many packets failed authentication, and how many authentic ones were replays.
    pub closed spec fn refused(&self) -> (nat, nat) {
        (self.forged as nat, self.replayed as nat)
    }

    /// Whether a counter has been accepted already or is too old to judge.
    pub closed spec fn refuses(&self, counter: u64) -> bool {
        &&& self.started
        &&& counter <= self.newest
        &&& {
            ||| counter == self.newest
            ||| self.newest - counter > REPLAY_WINDOW
            ||| bit_set(self.seen, (self.newest - counter - 1) as u64)
        }
    }

    /// Whether accepting `counter` takes `self` to `after`: that counter is refused from now on,
    /// and so is everything that was refused before or has fallen out of the window, and nothing
    /// else is.
    pub open spec fn accepting(&self, counter: u64, after: &Opener) -> bool {
        let newest = match self.newest_accepted() {
            Some(newest) => if counter > newest {
                counter
            } else {
                newest
            },
            None => counter,
        };
        &&& after.key() == self.key()
        &&& after.newest_accepted() == Some(newest)
        &&& forall|other: u64| #[trigger]
            after.refuses(other) <==> other == counter || self.refuses(other) || other
                + REPLAY_WINDOW < newest
    }

    /// The text of a packet that this direction takes, or `None` for one that it refuses.
    pub open spec fn opens(&self, packet: Seq<u8>) -> Option<Seq<u8>> {
        let counter = le_at(packet, 0, 8) as u64;
        if packet.len() < SEAL_OVERHEAD || self.refuses(counter) {
            None
        } else {
            aes_opened(self.key(), nonce_of(counter), packet.skip(COUNTER_LEN as int))
        }
    }

    /// The counts of refused packets after one more that does not open: a forgery where it is not
    /// authentic, a replay where it is, and neither where it is too short to be a packet at all.
    pub open spec fn refused_with(&self, packet: Seq<u8>) -> (nat, nat) {
        let counter = le_at(packet, 0, 8) as u64;
        if packet.len() < SEAL_OVERHEAD {
            self.refused()
        } else if aes_opened(
            self.key(),
            nonce_of(counter),
            packet.skip(COUNTER_LEN as int),
        ) is None {
            (self.refused().0 + 1, self.refused().1)
        } else {
            (self.refused().0, self.refused().1 + 1)
        }
    }

    /// Creates an opener from a thirty-two byte key.
    #[must_use]
    pub fn new(key: &[u8; 32]) -> (opener: Self)
        ensures
            opener.key() == key@,
            opener.newest_accepted() is None,
            opener.refused() == (0nat, 0nat),
            forall|counter: u64| !#[trigger] opener.refuses(counter),
    {
        Opener { key: *key, newest: 0, seen: 0, started: false, forged: 0, replayed: 0 }
    }

    /// Records a counter, returning whether it was new.
    fn accept(&mut self, counter: u64) -> (new: bool)
        ensures
            final(self).refused() == old(self).refused(),
            new == !old(self).refuses(counter),
            new ==> old(self).accepting(counter, final(self)),
            !new ==> *final(self) == *old(self),
    {
        let ghost before = *self;
        if !self.started {
            self.started = true;
            self.newest = counter;
            self.seen = 0;
            proof {
                assert forall|other: u64| #[trigger] self.refuses(other) <==> other == counter
                    || before.refuses(other) || other + REPLAY_WINDOW < counter by {
                    if other < counter && counter - other <= REPLAY_WINDOW {
                        lemma_no_bits((counter - other - 1) as u64);
                    }
                }
            }
            return true;
        }
        if counter > self.newest {
            let advance: u64 = counter - self.newest;
            // The counter that was newest until now stays in the window for as long as it is no
            // further behind than the window is wide.
            self.seen = if advance > REPLAY_WINDOW {
                0
            } else if advance == REPLAY_WINDOW {
                1u64 << 63
            } else {
                (self.seen << advance) | (1u64 << (advance - 1))
            };
            self.newest = counter;
            proof {
                assert forall|other: u64| #[trigger] self.refuses(other) <==> other == counter
                    || before.refuses(other) || other + REPLAY_WINDOW < counter by {
                    if other < counter && counter - other <= REPLAY_WINDOW {
                        let place = (counter - other - 1) as u64;
                        if advance > REPLAY_WINDOW {
                            lemma_no_bits(place);
                        } else if advance == REPLAY_WINDOW {
                            lemma_no_bits(place);
                            lemma_marked_bits(0, 63, place);
                            assert(0u64 | (1u64 << 63) == 1u64 << 63) by (bit_vector);
                        } else {
                            lemma_shifted_bits(before.seen, advance, place);
                        }
                    }
                }
            }
            return true;
        }
        let behind: u64 = self.newest - counter;
        if behind == 0 || behind > REPLAY_WINDOW {
            return false;
        }
        let bit: u64 = 1u64 << (behind - 1);
        if self.seen & bit != 0 {
            return false;
        }
        self.seen = self.seen | bit;
        proof {
            assert forall|other: u64| #[trigger] self.refuses(other) <==> other == counter
                || before.refuses(other) || other + REPLAY_WINDOW < before.newest by {
                if other < self.newest && self.newest - other <= REPLAY_WINDOW {
                    lemma_marked_bits(
                        before.seen,
                        (behind - 1) as u64,
                        (self.newest - other - 1) as u64,
                    );
                }
            }
        }
        true
    }

    /// Opens `packet` in place and returns the plaintext.
    ///
    /// The counter is checked against the replay window **after** the tag verifies, never before.
    /// Rejecting on the counter first would let anyone who can guess a counter disturb the window
    /// without holding the key.
    pub fn open<'a>(&mut self, packet: &'a mut [u8]) -> (text: Result<&'a [u8], SealError>)
        requires
            old(self).refused().0 < u64::MAX,
            old(self).refused().1 < u64::MAX,
        ensures
            final(packet)@.len() == old(packet)@.len(),
            ({
                let counter = le_at(old(packet)@, 0, 8) as u64;
                let opened = aes_opened(
                    old(self).key(),
                    nonce_of(counter),
                    old(packet)@.skip(COUNTER_LEN as int),
                );
                let body_end = old(packet)@.len() - TAG_LEN;
                if old(packet)@.len() < SEAL_OVERHEAD {
                    &&& text matches Err(error)
                    &&& error == SealError::TooShort { actual: old(packet)@.len() as usize }
                    &&& *final(self) == *old(self)
                    &&& final(packet)@ == old(packet)@
                } else if opened is None {
                    &&& text matches Err(error)
                    &&& error == SealError::NotAuthentic
                    &&& final(self).key() == old(self).key()
                    &&& final(self).newest_accepted() == old(self).newest_accepted()
                    &&& final(self).refused() == (old(self).refused().0 + 1, old(self).refused().1)
                    &&& forall|other: u64| #[trigger]
                        final(self).refuses(other) == old(self).refuses(other)
                    &&& final(packet)@ == old(packet)@
                } else if old(self).refuses(counter) {
                    &&& text matches Err(error)
                    &&& error == SealError::Replay { counter }
                    &&& final(self).key() == old(self).key()
                    &&& final(self).newest_accepted() == old(self).newest_accepted()
                    &&& final(self).refused() == (old(self).refused().0, old(self).refused().1 + 1)
                    &&& forall|other: u64| #[trigger]
                        final(self).refuses(other) == old(self).refuses(other)
                    &&& final(packet)@ == old(packet)@.take(COUNTER_LEN as int) + opened->0
                        + old(packet)@.skip(body_end)
                } else {
                    &&& text matches Ok(text)
                    &&& text@ == opened->0
                    &&& text@.len() == old(packet)@.len() - SEAL_OVERHEAD
                    &&& old(packet)@ == sealed_packet(old(self).key(), counter, text@)
                    &&& final(self).refused() == old(self).refused()
                    &&& old(self).accepting(counter, final(self))
                    &&& final(packet)@ == old(packet)@.take(COUNTER_LEN as int) + text@
                        + old(packet)@.skip(body_end)
                }
            }),
    {
        if packet.len() < SEAL_OVERHEAD {
            return Err(SealError::TooShort { actual: packet.len() });
        }
        let ghost before = packet@;
        let counter: u64 = read_u64(packet, 0);
        let body_end: usize = packet.len() - TAG_LEN;
        proof {
            assert(before.subrange(COUNTER_LEN as int, before.len() as int) =~= before.skip(
                COUNTER_LEN as int,
            ));
        }
        let text: Vec<u8> = match aes_open(
            &self.key,
            &nonce_for(counter),
            &packet[COUNTER_LEN..packet.len()],
        ) {
            Some(text) => text,
            None => {
                self.forged = self.forged + 1;
                return Err(SealError::NotAuthentic);
            },
        };
        proof {
            lemma_counter_back(before);
            assert(before =~= before.take(8) + before.skip(8));
            assert(overwritten(before, before, before.take(8)));
        }
        put_bytes(packet, COUNTER_LEN, text.as_slice());
        proof {
            assert(overwritten(packet@, before, before.take(8) + text@));
            assert(packet@ =~= before.take(8) + text@ + before.skip(body_end as int));
        }
        if !self.accept(counter) {
            self.replayed = self.replayed + 1;
            return Err(SealError::Replay { counter });
        }
        let opened: &'a [u8] = &packet[COUNTER_LEN..body_end];
        proof {
            assert(opened@ =~= text@);
            assert(before =~= sealed_packet(old(self).key(), counter, text@));
            assert(packet@ =~= before.take(COUNTER_LEN as int) + opened@ + before.skip(
                body_end as int,
            ));
        }
        Ok(opened)
    }

    /// Returns how many packets failed authentication.
    ///
    /// Non-zero means either corruption or someone writing packets at this port. Worth surfacing
    /// rather than counting silently: on a healthy path it is exactly zero.
    #[must_use]
    pub fn forged(&self) -> (count: u64)
        ensures
            count == self.refused().0,
    {
        self.forged
    }

    /// Returns how many authentic packets were refused as replays.
    #[must_use]
    pub fn replayed(&self) -> (count: u64)
        ensures
            count == self.refused().1,
    {
        self.replayed
    }
}

/// The counter at the head of a packet is the one its first eight bytes are written as.
proof fn lemma_counter_back(packet: Seq<u8>)
    requires
        packet.len() >= 8,
    ensures
        le_bytes(le_at(packet, 0, 8), 8) == packet.take(8),
        le_at(packet, 0, 8) <= u64::MAX,
{
    lemma_byte_ranges();
    lemma_le_bytes_of_value(packet.subrange(0, 8));
    assert(packet.subrange(0, 8) =~= packet.take(8));
}

/// What a sealer wrote, an opener with the same key reads: the packet states the counter it was
/// sealed under, and what follows it opens to the text.
pub proof fn a_sealed_packet_opens_to_its_text(key: Seq<u8>, counter: u64, text: Seq<u8>)
    requires
        aes_opened(key, nonce_of(counter), aes_sealed(key, nonce_of(counter), text)) == Some(text),
    ensures
        le_at(sealed_packet(key, counter, text), 0, 8) == counter,
        aes_opened(
            key,
            nonce_of(counter),
            sealed_packet(key, counter, text).skip(COUNTER_LEN as int),
        ) == Some(text),
{
    broadcast use lemma_le_bytes_len;

    lemma_byte_ranges();
    let packet = sealed_packet(key, counter, text);
    field_reads_back(packet, 0, counter as nat, 8);
    assert(packet.skip(8) =~= aes_sealed(key, nonce_of(counter), text));
}

/// A counter that was accepted once is refused ever after, whatever is accepted later.
pub proof fn an_accepted_counter_is_never_accepted_again(
    before: Opener,
    counter: u64,
    after: Opener,
    later: u64,
    last: Opener,
)
    requires
        before.accepting(counter, &after),
        after.accepting(later, &last),
    ensures
        after.refuses(counter),
        last.refuses(counter),
        forall|other: u64| #[trigger] before.refuses(other) ==> after.refuses(other),
{
    assert(after.refuses(counter));
    assert forall|other: u64| #[trigger] before.refuses(other) implies after.refuses(other) by {
        assert(after.refuses(other) <==> other == counter || before.refuses(other) || other
            + REPLAY_WINDOW < after.newest_accepted()->0);
    }
}

/// Accepting a packet refuses what has fallen more than sixty-four behind the newest, and of the
/// rest nothing but that packet's own counter that was not refused before.
pub proof fn the_window_is_sixty_four_wide(
    before: Opener,
    counter: u64,
    after: Opener,
    other: u64,
)
    requires
        before.accepting(counter, &after),
    ensures
        ({
            let newest = after.newest_accepted()->0;
            &&& after.newest_accepted() is Some
            &&& newest >= counter
            &&& before.newest_accepted() matches Some(was) ==> newest >= was && (newest == was
                || newest == counter)
            &&& before.newest_accepted() is None ==> newest == counter
            &&& other + 64 < newest ==> after.refuses(other)
            &&& other + 64 >= newest && other != counter ==> after.refuses(other)
                == before.refuses(other)
            &&& after.refuses(counter)
        }),
{
    assert(after.refuses(other) == after.refuses(other));
    assert(after.refuses(counter));
}

/// A nonce is its counter, least byte first, and nothing else: the last four bytes are zero.
pub proof fn a_nonce_is_its_counter(counter: u64)
    ensures
        nonce_of(counter).len() == 12,
        le_at(nonce_of(counter), 0, 8) == counter,
        forall|i: int| 8 <= i < 12 ==> #[trigger] nonce_of(counter)[i] == 0,
{
    broadcast use lemma_le_bytes_len;

    lemma_byte_ranges();
    field_reads_back(nonce_of(counter), 0, counter as nat, 8);
}

} // verus!
