//! Turning a six digit number a person reads off a screen into two pinned public keys.
//!
//! Pairing happens once per pair of machines. After it, each side holds the other's static key and
//! [`crate::net::handshake`] does the rest forever; the number is never used again.
//!
//! # Why a PIN needs SPAKE2 rather than a hash
//!
//! Six digits is a million possibilities, which a laptop exhausts in well under a second. SPAKE2
//! is a password-authenticated key exchange: the only way to test a guess is to run the protocol
//! against the real host, which gets exactly **one** attempt before the PIN is retired.
//!
//! # The exchange
//!
//! ```text
//! client -> host   hello    the client's SPAKE2 element
//! host  -> client  offer    the host's SPAKE2 element, then the host's static key, sealed
//! client -> host   accept   the client's static key, sealed
//! ```
//!
//! There is no separate key confirmation step. The seal is the confirmation: a wrong PIN produces
//! a different key, the sealed part does not open, and the exchange ends there.

use vstd::prelude::*;
use vstd::string::*;

use spake2::{Ed25519Group, Spake2};

use crate::bytes::{lemma_nothing_overwritten, overwritten, put_bytes};
use crate::net::crypto::{
    array_of, chacha_open, chacha_opened, chacha_seal, chacha_sealed, derive_key, fill_random,
    hkdf_sha256, zeroed_array, NONCE_BYTES,
};
use crate::net::handshake::KEY_LEN;
use crate::net::rendezvous::zero_nonce;

verus! {

/// Digits in a pairing code.
///
/// Six is what a person will read off a screen and type without resenting it. The security does
/// not come from the length; it comes from the host allowing one attempt.
pub const PIN_DIGITS: usize = 6;

/// Bytes in the SPAKE2 element each side sends.
pub const ELEMENT_LEN: usize = 33;

/// Bytes of authentication tag on the sealed halves.
pub const TAG_LEN: usize = 16;

/// Length of the client's opening message.
pub const HELLO_LEN: usize = ELEMENT_LEN;

/// Length of the host's answer: its element, then its sealed static key.
pub const OFFER_LEN: usize = ELEMENT_LEN + KEY_LEN + TAG_LEN;

/// Length of the client's closing message: its sealed static key.
pub const ACCEPT_LEN: usize = KEY_LEN + TAG_LEN;

/// Names the host in the SPAKE2 transcript, so the two roles cannot be swapped:
/// `prism-pairing-host-v1`.
pub open spec fn host_id() -> Seq<u8> {
    seq![
        0x70u8, 0x72, 0x69, 0x73, 0x6d, 0x2d, 0x70, 0x61, 0x69, 0x72, 0x69, 0x6e, 0x67, 0x2d,
        0x68, 0x6f, 0x73, 0x74, 0x2d, 0x76, 0x31,
    ]
}

/// Returns the bytes of `prism-pairing-host-v1`.
fn host_id_bytes() -> (bytes: Vec<u8>)
    ensures
        bytes@ == host_id(),
{
    let bytes: Vec<u8> = vec![
        0x70u8, 0x72, 0x69, 0x73, 0x6d, 0x2d, 0x70, 0x61, 0x69, 0x72, 0x69, 0x6e, 0x67, 0x2d,
        0x68, 0x6f, 0x73, 0x74, 0x2d, 0x76, 0x31,
    ];
    assert(bytes@ =~= host_id());
    bytes
}

/// Names the client in the SPAKE2 transcript:
/// `prism-pairing-client-v1`.
pub open spec fn client_id() -> Seq<u8> {
    seq![
        0x70u8, 0x72, 0x69, 0x73, 0x6d, 0x2d, 0x70, 0x61, 0x69, 0x72, 0x69, 0x6e, 0x67, 0x2d,
        0x63, 0x6c, 0x69, 0x65, 0x6e, 0x74, 0x2d, 0x76, 0x31,
    ]
}

/// Returns the bytes of `prism-pairing-client-v1`.
fn client_id_bytes() -> (bytes: Vec<u8>)
    ensures
        bytes@ == client_id(),
{
    let bytes: Vec<u8> = vec![
        0x70u8, 0x72, 0x69, 0x73, 0x6d, 0x2d, 0x70, 0x61, 0x69, 0x72, 0x69, 0x6e, 0x67, 0x2d,
        0x63, 0x6c, 0x69, 0x65, 0x6e, 0x74, 0x2d, 0x76, 0x31,
    ];
    assert(bytes@ =~= client_id());
    bytes
}

/// Separates the two directions' keys, so one direction's seal cannot open the other's:
/// `prism-pairing-host-to-client`.
pub open spec fn host_to_client() -> Seq<u8> {
    seq![
        0x70u8, 0x72, 0x69, 0x73, 0x6d, 0x2d, 0x70, 0x61, 0x69, 0x72, 0x69, 0x6e, 0x67, 0x2d,
        0x68, 0x6f, 0x73, 0x74, 0x2d, 0x74, 0x6f, 0x2d, 0x63, 0x6c, 0x69, 0x65, 0x6e, 0x74,
    ]
}

/// Returns the bytes of `prism-pairing-host-to-client`.
fn host_to_client_bytes() -> (bytes: Vec<u8>)
    ensures
        bytes@ == host_to_client(),
{
    let bytes: Vec<u8> = vec![
        0x70u8, 0x72, 0x69, 0x73, 0x6d, 0x2d, 0x70, 0x61, 0x69, 0x72, 0x69, 0x6e, 0x67, 0x2d,
        0x68, 0x6f, 0x73, 0x74, 0x2d, 0x74, 0x6f, 0x2d, 0x63, 0x6c, 0x69, 0x65, 0x6e, 0x74,
    ];
    assert(bytes@ =~= host_to_client());
    bytes
}

/// Separates the two directions' keys:
/// `prism-pairing-client-to-host`.
pub open spec fn client_to_host() -> Seq<u8> {
    seq![
        0x70u8, 0x72, 0x69, 0x73, 0x6d, 0x2d, 0x70, 0x61, 0x69, 0x72, 0x69, 0x6e, 0x67, 0x2d,
        0x63, 0x6c, 0x69, 0x65, 0x6e, 0x74, 0x2d, 0x74, 0x6f, 0x2d, 0x68, 0x6f, 0x73, 0x74,
    ]
}

/// Returns the bytes of `prism-pairing-client-to-host`.
fn client_to_host_bytes() -> (bytes: Vec<u8>)
    ensures
        bytes@ == client_to_host(),
{
    let bytes: Vec<u8> = vec![
        0x70u8, 0x72, 0x69, 0x73, 0x6d, 0x2d, 0x70, 0x61, 0x69, 0x72, 0x69, 0x6e, 0x67, 0x2d,
        0x63, 0x6c, 0x69, 0x65, 0x6e, 0x74, 0x2d, 0x74, 0x6f, 0x2d, 0x68, 0x6f, 0x73, 0x74,
    ];
    assert(bytes@ =~= client_to_host());
    bytes
}

/// Reason a pairing attempt could not continue.
#[allow(inconsistent_fields)]
#[derive(Debug, Clone, Copy, PartialEq, Eq, Structural)]
pub enum PairingError {
    /// A message was not the length its step requires.
    BadLength {
        /// Length that arrived.
        actual: usize,
        /// Length that was required.
        expected: usize,
    },
    /// The caller's buffer cannot hold the message to be written.
    BufferTooSmall {
        /// Buffer length supplied.
        actual: usize,
        /// Buffer length required.
        needed: usize,
    },
    /// The peer's SPAKE2 element was not a valid one.
    ///
    /// Indistinguishable, deliberately, from a wrong PIN.
    Failed,
    /// The PIN has already been used for an attempt.
    ///
    /// The whole security argument rests on this. A PIN that allowed a second guess would allow a
    /// millionth.
    Spent,
    /// A pairing code was not six digits.
    BadPin,
}

/// Whether a character is white space.
pub open spec fn is_space(c: char) -> bool {
    let code = c as u32;
    ||| 0x09 <= code <= 0x0d
    ||| code == 0x20
    ||| code == 0x85
    ||| code == 0xa0
    ||| code == 0x1680
    ||| 0x2000 <= code <= 0x200a
    ||| code == 0x2028
    ||| code == 0x2029
    ||| code == 0x202f
    ||| code == 0x205f
    ||| code == 0x3000
}

/// Returns whether a character is white space.
fn is_white_space(c: char) -> (space: bool)
    ensures
        space == is_space(c),
{
    let code: u32 = c as u32;
    (0x09 <= code && code <= 0x0d) || code == 0x20 || code == 0x85 || code == 0xa0 || code == 0x1680
        || (0x2000 <= code && code <= 0x200a) || code == 0x2028 || code == 0x2029 || code == 0x202f
        || code == 0x205f || code == 0x3000
}

/// A text without the white space it begins with.
pub open spec fn without_leading(text: Seq<char>) -> Seq<char>
    decreases text.len(),
{
    if text.len() > 0 && is_space(text[0]) {
        without_leading(text.skip(1))
    } else {
        text
    }
}

/// A text without the white space it ends with.
pub open spec fn without_trailing(text: Seq<char>) -> Seq<char>
    decreases text.len(),
{
    if text.len() > 0 && is_space(text.last()) {
        without_trailing(text.drop_last())
    } else {
        text
    }
}

/// A text without the white space around it.
pub open spec fn trimmed(text: Seq<char>) -> Seq<char> {
    without_trailing(without_leading(text))
}

/// Whether a character is one of the ten digits.
pub open spec fn is_digit(c: char) -> bool {
    0x30 <= c as u32 <= 0x39
}

/// Whether a text is a pairing code.
pub open spec fn is_code(text: Seq<char>) -> bool {
    &&& text.len() == PIN_DIGITS
    &&& forall|i: int| 0 <= i < text.len() ==> is_digit(#[trigger] text[i])
}

/// A freshly generated pairing code.
///
/// Displayed by the host and typed into the client. Single use: the host retires it whether the
/// attempt succeeded or failed.
#[derive(Clone, PartialEq, Eq)]
pub struct Pin {
    digits: [u8; PIN_DIGITS],
}

/// Returns the text of one digit.
fn digit_text(digit: u8) -> (text: &'static str)
    requires
        digit < 10,
    ensures
        text@.len() == 1,
        text@[0] as u32 == 0x30 + digit,
{
    proof {
        reveal_strlit("0");
        reveal_strlit("1");
        reveal_strlit("2");
        reveal_strlit("3");
        reveal_strlit("4");
        reveal_strlit("5");
        reveal_strlit("6");
        reveal_strlit("7");
        reveal_strlit("8");
        reveal_strlit("9");
    }
    match digit {
        0 => "0",
        1 => "1",
        2 => "2",
        3 => "3",
        4 => "4",
        5 => "5",
        6 => "6",
        7 => "7",
        8 => "8",
        _ => "9",
    }
}

/// The digit a random byte stands for, unless it is one to draw again.
///
/// 250 is the largest multiple of ten at or below 256, so bytes above it are drawn again rather
/// than folded in and biasing the result.
pub fn digit_from(byte: u8) -> (digit: Option<u8>)
    ensures
        digit == if byte < 250 {
            Some((byte % 10) as u8)
        } else {
            None
        },
{
    if byte < 250 {
        Some(byte % 10)
    } else {
        None
    }
}

/// The drawn bytes that stand for a digit, in the order they were drawn.
pub open spec fn usable(bytes: Seq<u8>) -> Seq<u8> {
    bytes.filter(|byte: u8| byte < 250)
}

impl Pin {
    /// The digits of the code.
    pub closed spec fn digits(&self) -> Seq<u8> {
        self.digits@
    }

    /// Six digits, each of them one.
    pub open spec fn wf(&self) -> bool {
        &&& self.digits().len() == PIN_DIGITS
        &&& forall|i: int| 0 <= i < self.digits().len() ==> #[trigger] self.digits()[i] < 10
    }

    /// The bytes SPAKE2 mixes in: the code as it is displayed.
    pub open spec fn password(&self) -> Seq<u8> {
        Seq::new(PIN_DIGITS as nat, |i: int| (0x30 + self.digits()[i]) as u8)
    }

    /// Whether a text is this code.
    pub open spec fn reads(&self, text: Seq<char>) -> bool {
        &&& text.len() == PIN_DIGITS
        &&& forall|i: int|
            0 <= i < PIN_DIGITS ==> (#[trigger] text[i]) as u32 == 0x30 + self.digits()[i]
    }

    /// Whether this is the code that drawn bytes give: each digit from a usable byte of its own,
    /// in the order they were drawn.
    pub open spec fn drawn_as(&self, bytes: Seq<u8>) -> bool {
        &&& usable(bytes).len() >= PIN_DIGITS
        &&& self.digits() == Seq::new(
            PIN_DIGITS as nat,
            |i: int| (usable(bytes)[i] % 10) as u8,
        )
    }

    /// Makes a code of the first six usable ones of some drawn bytes, or asks for more with `None`.
    pub fn from_draws(bytes: &[u8]) -> (pin: Option<Self>)
        ensures
            match pin {
                Some(pin) => pin.wf() && pin.drawn_as(bytes@),
                None => usable(bytes@).len() < PIN_DIGITS,
            },
    {
        let mut digits: [u8; PIN_DIGITS] = zeroed_array::<PIN_DIGITS>();
        let mut found: usize = 0;
        let mut i: usize = 0;
        proof {
            reveal(Seq::filter);
        }
        while i < bytes.len()
            invariant
                found <= i <= bytes@.len(),
                usable(bytes@.take(i as int)).len() == found,
                forall|k: int| 0 <= k < PIN_DIGITS ==> digits@[k] < 10,
                forall|k: int|
                    0 <= k < found && k < PIN_DIGITS ==> #[trigger] digits@[k] == usable(
                        bytes@.take(i as int),
                    )[k] % 10,
            decreases bytes@.len() - i,
        {
            let ghost before = bytes@.take(i as int);
            let byte: u8 = bytes[i];
            proof {
                reveal(Seq::filter);
                assert(bytes@.take(i + 1).drop_last() =~= before);
                assert(bytes@.take(i + 1).last() == byte);
            }
            if let Some(digit) = digit_from(byte) {
                assert(usable(bytes@.take(i + 1)) == usable(before).push(byte));
                if found < PIN_DIGITS {
                    digits[found] = digit;
                }
                found = found + 1;
            } else {
                assert(usable(bytes@.take(i + 1)) == usable(before));
            }
            i = i + 1;
        }
        assert(bytes@.take(i as int) =~= bytes@);
        if found < PIN_DIGITS {
            return None;
        }
        let pin = Pin { digits };
        assert(pin.digits() =~= Seq::new(
            PIN_DIGITS as nat,
            |k: int| (usable(bytes@)[k] % 10) as u8,
        ));
        Some(pin)
    }

    /// Generates a code from the system's randomness.
    ///
    /// Rejection sampled rather than reduced modulo ten, because the modulo would make the low
    /// digits slightly likelier and shrink the space an attacker has to search. Fails if the
    /// platform has no usable randomness, which is a condition no pairing should proceed under. A
    /// source that gives out more bytes than memory can hold and no six of them usable is one
    /// that has none.
    pub fn generate() -> (pin: Result<Self, PairingError>)
        ensures
            match pin {
                Ok(pin) => pin.wf() && exists|bytes: Seq<u8>| #[trigger] pin.drawn_as(bytes),
                Err(error) => error == PairingError::Failed,
            },
    {
        let mut bytes: Vec<u8> = Vec::new();
        while bytes.len() < usize::MAX
            decreases usize::MAX - bytes.len(),
        {
            let mut byte: Vec<u8> = vec![0u8; 1];
            match fill_random(&mut byte) {
                Ok(()) => {},
                Err(_) => return Err(PairingError::Failed),
            }
            bytes.push(byte[0]);
            if let Some(pin) = Pin::from_draws(bytes.as_slice()) {
                return Ok(pin);
            }
        }
        Err(PairingError::Failed)
    }

    /// Parses a code a person typed: six digits, white space around them allowed.
    pub fn parse(text: &str) -> (pin: Result<Self, PairingError>)
        ensures
            match pin {
                Ok(pin) => {
                    &&& is_code(trimmed(text@))
                    &&& pin.wf()
                    &&& pin.reads(trimmed(text@))
                },
                Err(error) => !is_code(trimmed(text@)) && error == PairingError::BadPin,
            },
    {
        let len: usize = text.unicode_len();
        let mut start: usize = 0;
        assert(text@.skip(0) =~= text@);
        while start < len && is_white_space(text.get_char(start))
            invariant
                start <= len,
                len == text@.len(),
                without_leading(text@) == without_leading(text@.skip(start as int)),
            decreases len - start,
        {
            assert(text@.skip(start as int).skip(1) =~= text@.skip(start + 1));
            start = start + 1;
        }
        let ghost led = text@.skip(start as int);
        assert(without_leading(text@) == led);
        let mut end: usize = len;
        proof {
            assert(led.take(led.len() as int) =~= led);
        }
        while end > start && is_white_space(text.get_char(end - 1))
            invariant
                start <= end <= len,
                len == text@.len(),
                led == text@.skip(start as int),
                without_trailing(led) == without_trailing(led.take(end - start)),
            decreases end,
        {
            assert(led.take(end - start).drop_last() =~= led.take(end - start - 1));
            end = end - 1;
        }
        let ghost code = text@.subrange(start as int, end as int);
        proof {
            assert(led.take(end - start) =~= code);
            assert(trimmed(text@) == code);
        }
        if end - start != PIN_DIGITS {
            return Err(PairingError::BadPin);
        }
        let mut digits: [u8; PIN_DIGITS] = zeroed_array::<PIN_DIGITS>();
        let mut i: usize = 0;
        while i < PIN_DIGITS
            invariant
                i <= PIN_DIGITS,
                start + PIN_DIGITS == end,
                end <= len,
                len == text@.len(),
                code == text@.subrange(start as int, end as int),
                forall|k: int| 0 <= k < i ==> is_digit(#[trigger] code[k]),
                forall|k: int| 0 <= k < i ==> (#[trigger] code[k]) as u32 == 0x30 + digits@[k],
                forall|k: int| 0 <= k < PIN_DIGITS ==> digits@[k] < 10,
                trimmed(text@) == code,
            decreases PIN_DIGITS - i,
        {
            let c: char = text.get_char(start + i);
            assert(c == code[i as int]);
            let value: u32 = c as u32;
            if value < 0x30 || value > 0x39 {
                assert(!is_digit(code[i as int]));
                return Err(PairingError::BadPin);
            }
            digits[i] = (value - 0x30) as u8;
            i = i + 1;
        }
        Ok(Pin { digits })
    }

    /// Renders the code for display.
    #[must_use]
    pub fn to_display(&self) -> (text: String)
        requires
            self.wf(),
        ensures
            self.reads(text@),
    {
        let mut text: String = String::new();
        let mut i: usize = 0;
        while i < PIN_DIGITS
            invariant
                i <= PIN_DIGITS,
                self.wf(),
                text@.len() == i,
                forall|k: int|
                    0 <= k < i ==> (#[trigger] text@[k]) as u32 == 0x30 + self.digits()[k],
            decreases PIN_DIGITS - i,
        {
            assert(self.digits()[i as int] < 10);
            text.append(digit_text(self.digits[i]));
            i = i + 1;
        }
        text
    }

    /// Returns the bytes SPAKE2 mixes in.
    fn as_password(&self) -> (password: Vec<u8>)
        requires
            self.wf(),
        ensures
            password@ == self.password(),
    {
        let mut password: Vec<u8> = Vec::new();
        let mut i: usize = 0;
        while i < PIN_DIGITS
            invariant
                i <= PIN_DIGITS,
                self.wf(),
                password@ == self.password().take(i as int),
            decreases PIN_DIGITS - i,
        {
            assert(self.digits()[i as int] < 10);
            password.push(0x30 + self.digits[i]);
            assert(password@ =~= self.password().take(i + 1));
            i = i + 1;
        }
        assert(self.password().take(PIN_DIGITS as int) =~= self.password());
        password
    }
}

/// A code reads back from the text it is displayed as.
pub proof fn a_displayed_code_reads_back(pin: Pin, text: Seq<char>)
    requires
        pin.wf(),
        pin.reads(text),
    ensures
        trimmed(text) == text,
        is_code(trimmed(text)),
{
    assert forall|i: int| 0 <= i < text.len() implies is_digit(#[trigger] text[i]) by {
        assert(text[i] as u32 == 0x30 + pin.digits()[i]);
        assert(pin.digits()[i] < 10);
    }
    assert(is_digit(text[0]));
    assert(is_digit(text[PIN_DIGITS - 1]));
}

/// One side of a SPAKE2 exchange that has sent its element: `Spake2<Ed25519Group>` of the `spake2`
/// crate.
///
/// The crate's type is bounded by a trait of that crate, which is why it is held behind a field
/// here. What is known of it is what it was made with, [`pake_setup`], and what the functions that
/// call it say.
#[verifier::external_body]
pub struct PakeState {
    inner: Spake2<Ed25519Group>,
}

/// The error type of the `spake2` crate.
#[verifier::external_type_specification]
#[verifier::external_body]
pub struct ExPakeError(spake2::Error);

/// What one side of a SPAKE2 exchange was made with, and the element it sent.
pub struct PakeSetup {
    /// The password.
    pub password: Seq<u8>,
    /// The name of the side that is called A.
    pub id_a: Seq<u8>,
    /// The name of the side that is called B.
    pub id_b: Seq<u8>,
    /// Whether this is side A.
    pub side_a: bool,
    /// The element.
    pub element: Seq<u8>,
}

/// What one side of a SPAKE2 exchange was made with, and the element it sent.
pub uninterp spec fn pake_setup(state: PakeState) -> PakeSetup;

/// The secret that `Spake2::finish` of the `spake2` crate gets from the peer's element, if that is
/// one.
pub uninterp spec fn pake_shared(state: PakeState, peer: Seq<u8>) -> Option<Seq<u8>>;

/// Whether two sides of an exchange belong together: the same password, the same names, and one
/// of each side.
pub open spec fn counterparts(left: PakeSetup, right: PakeSetup) -> bool {
    &&& left.password == right.password
    &&& left.id_a == right.id_a
    &&& left.id_b == right.id_b
    &&& left.side_a != right.side_a
}

/// Calls `Spake2::start_a`: side A of an exchange, and the element to send, which is different
/// every time.
#[verifier::external_body]
fn start_a(password: &[u8], id_a: &[u8], id_b: &[u8]) -> (started: (PakeState, Vec<u8>))
    ensures
        pake_setup(started.0) == (PakeSetup {
            password: password@,
            id_a: id_a@,
            id_b: id_b@,
            side_a: true,
            element: started.1@,
        }),
        started.1@.len() == ELEMENT_LEN,
{
    let (inner, element) = Spake2::<Ed25519Group>::start_a(
        &spake2::Password::new(password),
        &spake2::Identity::new(id_a),
        &spake2::Identity::new(id_b),
    );
    (PakeState { inner }, element)
}

/// Calls `Spake2::start_b`: side B of an exchange, and the element to send, which is different
/// every time.
#[verifier::external_body]
fn start_b(password: &[u8], id_a: &[u8], id_b: &[u8]) -> (started: (PakeState, Vec<u8>))
    ensures
        pake_setup(started.0) == (PakeSetup {
            password: password@,
            id_a: id_a@,
            id_b: id_b@,
            side_a: false,
            element: started.1@,
        }),
        started.1@.len() == ELEMENT_LEN,
{
    let (inner, element) = Spake2::<Ed25519Group>::start_b(
        &spake2::Password::new(password),
        &spake2::Identity::new(id_a),
        &spake2::Identity::new(id_b),
    );
    (PakeState { inner }, element)
}

/// Calls `Spake2::finish`: the secret this side shares with the peer whose element it is given.
///
/// Two sides that belong together and have each other's elements get the same secret. That is what
/// a password-authenticated key exchange is.
#[verifier::external_body]
fn finish_pake(state: PakeState, peer: &[u8]) -> (shared: Result<Vec<u8>, spake2::Error>)
    ensures
        match shared {
            Ok(shared) => pake_shared(state, peer@) == Some(shared@),
            Err(_) => pake_shared(state, peer@) is None,
        },
        forall|other: PakeState| #[trigger]
            counterparts(pake_setup(state), pake_setup(other)) && peer@ == pake_setup(other).element
                ==> {
                &&& shared is Ok
                &&& pake_shared(other, pake_setup(state).element) == Some(shared->Ok_0@)
            },
{
    state.inner.finish(peer)
}

/// The key the host's half is sealed under, from the shared secret.
pub open spec fn offer_key(shared: Seq<u8>) -> Seq<u8> {
    hkdf_sha256(shared, host_to_client())
}

/// The key the client's half is sealed under, from the shared secret.
pub open spec fn accept_key(shared: Seq<u8>) -> Seq<u8> {
    hkdf_sha256(shared, client_to_host())
}

/// Splits the SPAKE2 output into one key per direction.
///
/// One key used both ways would mean both sides sealing under the same key with the same fixed
/// nonce, which is nonce reuse in the plainest possible form. The exchange is two messages, so a
/// counter would be overkill and a separated key is exactly enough.
fn directional_keys(shared: &[u8]) -> (keys: ([u8; 32], [u8; 32]))
    ensures
        keys.0@ == offer_key(shared@),
        keys.1@ == accept_key(shared@),
{
    (
        derive_key(shared, host_to_client_bytes().as_slice()),
        derive_key(shared, client_to_host_bytes().as_slice()),
    )
}

/// Seals a static key.
///
/// The nonce is fixed at zero, which is safe only because each key seals exactly one message.
fn seal_key(key: &[u8; 32], value: &[u8; KEY_LEN]) -> (sealed: Result<Vec<u8>, PairingError>)
    ensures
        sealed matches Ok(sealed) && {
            &&& sealed@ == chacha_sealed(key@, zero_nonce(), value@)
            &&& sealed@.len() == ACCEPT_LEN
            &&& chacha_opened(key@, zero_nonce(), sealed@) == Some(value@)
        },
{
    let nonce: [u8; NONCE_BYTES] = zeroed_array::<NONCE_BYTES>();
    match chacha_seal(key, &nonce, value.as_slice()) {
        Some(sealed) => Ok(sealed),
        None => Err(PairingError::Failed),
    }
}

/// What opening a sealed static key gives.
pub open spec fn key_opened(key: Seq<u8>, sealed: Seq<u8>) -> Result<Seq<u8>, PairingError> {
    if sealed.len() != ACCEPT_LEN {
        Err(PairingError::BadLength { actual: sealed.len() as usize, expected: ACCEPT_LEN })
    } else {
        match chacha_opened(key, zero_nonce(), sealed) {
            Some(value) => Ok(value),
            None => Err(PairingError::Failed),
        }
    }
}

/// Opens a sealed static key.
fn open_key(key: &[u8; 32], sealed: &[u8]) -> (value: Result<[u8; KEY_LEN], PairingError>)
    ensures
        match value {
            Ok(value) => key_opened(key@, sealed@) == Ok::<Seq<u8>, PairingError>(value@),
            Err(error) => key_opened(key@, sealed@) == Err::<Seq<u8>, PairingError>(error),
        },
{
    if sealed.len() != ACCEPT_LEN {
        return Err(PairingError::BadLength { actual: sealed.len(), expected: ACCEPT_LEN });
    }
    let nonce: [u8; NONCE_BYTES] = zeroed_array::<NONCE_BYTES>();
    match chacha_open(key, &nonce, sealed) {
        Some(value) => Ok(array_of::<KEY_LEN>(value.as_slice())),
        None => Err(PairingError::Failed),
    }
}

/// What the host sends back: its element, then its static key sealed under the shared secret.
pub open spec fn offer_of(element: Seq<u8>, shared: Seq<u8>, identity: Seq<u8>) -> Seq<u8> {
    element + chacha_sealed(offer_key(shared), zero_nonce(), identity)
}

/// What the client sends back: its static key sealed under the shared secret.
pub open spec fn accept_of(shared: Seq<u8>, identity: Seq<u8>) -> Seq<u8> {
    chacha_sealed(accept_key(shared), zero_nonce(), identity)
}

/// Writes the host's offer, given what the exchange agreed on, and returns the keys of the two
/// directions.
pub fn write_offer(
    element: &[u8],
    shared: &[u8],
    identity: &[u8; KEY_LEN],
    out: &mut [u8],
) -> (keys: Result<([u8; 32], [u8; 32]), PairingError>)
    requires
        element@.len() == ELEMENT_LEN,
        old(out)@.len() >= OFFER_LEN,
    ensures
        keys matches Ok(keys) && {
            &&& keys.0@ == offer_key(shared@)
            &&& keys.1@ == accept_key(shared@)
        },
        offer_of(element@, shared@, identity@).len() == OFFER_LEN,
        overwritten(final(out)@, old(out)@, offer_of(element@, shared@, identity@)),
        chacha_opened(
            offer_key(shared@),
            zero_nonce(),
            offer_of(element@, shared@, identity@).skip(ELEMENT_LEN as int),
        ) == Some(identity@),
{
    let keys: ([u8; 32], [u8; 32]) = directional_keys(shared);
    let sealed: Vec<u8> = match seal_key(&keys.0, identity) {
        Ok(sealed) => sealed,
        Err(error) => return Err(error),
    };
    proof {
        lemma_nothing_overwritten(out@);
        assert(offer_of(element@, shared@, identity@).skip(ELEMENT_LEN as int) =~= sealed@);
    }
    put_bytes(out, 0, element);
    put_bytes(out, ELEMENT_LEN, sealed.as_slice());
    Ok(keys)
}

/// What the client makes of an offer, given the secret the exchange agreed on.
pub open spec fn offer_opened(shared: Seq<u8>, offer: Seq<u8>) -> Result<Seq<u8>, PairingError> {
    key_opened(offer_key(shared), offer.skip(ELEMENT_LEN as int))
}

/// Reads the host's offer and writes the closing message, given the secret the exchange agreed on.
///
/// Returns the host's static key.
pub fn read_offer(
    shared: &[u8],
    offer: &[u8],
    identity: &[u8; KEY_LEN],
    out: &mut [u8],
) -> (host_key: Result<[u8; KEY_LEN], PairingError>)
    requires
        offer@.len() == OFFER_LEN,
        old(out)@.len() >= ACCEPT_LEN,
    ensures
        match host_key {
            Ok(key) => {
                &&& offer_opened(shared@, offer@) == Ok::<Seq<u8>, PairingError>(key@)
                &&& accept_of(shared@, identity@).len() == ACCEPT_LEN
                &&& overwritten(final(out)@, old(out)@, accept_of(shared@, identity@))
                &&& chacha_opened(
                    accept_key(shared@),
                    zero_nonce(),
                    accept_of(shared@, identity@),
                ) == Some(identity@)
            },
            Err(error) => {
                &&& offer_opened(shared@, offer@) == Err::<Seq<u8>, PairingError>(error)
                &&& final(out)@ == old(out)@
            },
        },
{
    let (host_to_client, client_to_host): ([u8; 32], [u8; 32]) = directional_keys(shared);
    proof {
        assert(offer@.subrange(ELEMENT_LEN as int, offer@.len() as int) =~= offer@.skip(
            ELEMENT_LEN as int,
        ));
    }
    let host_key: [u8; KEY_LEN] = match open_key(
        &host_to_client,
        &offer[ELEMENT_LEN..offer.len()],
    ) {
        Ok(host_key) => host_key,
        Err(error) => return Err(error),
    };
    let sealed: Vec<u8> = match seal_key(&client_to_host, identity) {
        Ok(sealed) => sealed,
        Err(error) => return Err(error),
    };
    proof {
        lemma_nothing_overwritten(out@);
    }
    put_bytes(out, 0, sealed.as_slice());
    Ok(host_key)
}

/// Whether a side of an exchange is the host's for a code.
pub open spec fn host_side(state: PakeState, pin: Pin) -> bool {
    let setup = pake_setup(state);
    &&& setup.password == pin.password()
    &&& setup.id_a == host_id()
    &&& setup.id_b == client_id()
    &&& setup.side_a
}

/// Whether a side of an exchange is the client's for a code.
pub open spec fn client_side(state: PakeState, pin: Pin) -> bool {
    let setup = pake_setup(state);
    &&& setup.password == pin.password()
    &&& setup.id_a == host_id()
    &&& setup.id_b == client_id()
    &&& !setup.side_a
}

/// The host's side of a pairing exchange.
///
/// Holds the code until one attempt has been made, then refuses.
pub struct PairingHost {
    pin: Option<Pin>,
    identity: [u8; KEY_LEN],
    keys: Option<([u8; 32], [u8; 32])>,
}

impl PairingHost {
    /// The code, until it is spent.
    pub closed spec fn code(&self) -> Option<Pin> {
        self.pin
    }

    /// This machine's static key.
    pub closed spec fn static_key(&self) -> Seq<u8> {
        self.identity@
    }

    /// The keys of the two directions, once a client's opening message was answered.
    pub closed spec fn direction_keys(&self) -> Option<(Seq<u8>, Seq<u8>)> {
        match self.keys {
            Some((offer, accept)) => Some((offer@, accept@)),
            None => None,
        }
    }

    /// A code that is held is one.
    pub open spec fn wf(&self) -> bool {
        self.code() matches Some(pin) ==> pin.wf()
    }

    /// Starts a pairing window for `pin`, offering `identity` as this machine's static key.
    #[must_use]
    pub fn new(pin: Pin, identity: [u8; KEY_LEN]) -> (host: Self)
        requires
            pin.wf(),
        ensures
            host.wf(),
            host.code() == Some(pin),
            host.static_key() == identity@,
            host.direction_keys() is None,
    {
        PairingHost { pin: Some(pin), identity, keys: None }
    }

    /// Answers the client's opening message, writing the offer into `out`.
    ///
    /// Spends the code: whatever happens next, this host will not accept another opening message
    /// until it is given a new one.
    pub fn answer(&mut self, hello: &[u8], out: &mut [u8]) -> (written: Result<usize, PairingError>)
        requires
            old(self).wf(),
        ensures
            final(self).wf(),
            final(self).static_key() == old(self).static_key(),
            if hello@.len() != HELLO_LEN {
                &&& written == Err::<usize, PairingError>(
                    PairingError::BadLength {
                        actual: hello@.len() as usize,
                        expected: HELLO_LEN,
                    },
                )
                &&& *final(self) == *old(self)
                &&& final(out)@ == old(out)@
            } else if old(out)@.len() < OFFER_LEN {
                &&& written == Err::<usize, PairingError>(
                    PairingError::BufferTooSmall {
                        actual: old(out)@.len() as usize,
                        needed: OFFER_LEN,
                    },
                )
                &&& *final(self) == *old(self)
                &&& final(out)@ == old(out)@
            } else if old(self).code() is None {
                &&& written == Err::<usize, PairingError>(PairingError::Spent)
                &&& final(self).direction_keys() == old(self).direction_keys()
                &&& final(self).code() is None
                &&& final(out)@ == old(out)@
            } else {
                &&& final(self).code() is None
                &&& match written {
                    Ok(len) => {
                        &&& len == OFFER_LEN
                        &&& exists|host: PakeState|
                            #![trigger host_side(host, old(self).code()->0)]
                            {
                                &&& host_side(host, old(self).code()->0)
                                &&& pake_shared(host, hello@) matches Some(shared)
                                &&& final(self).direction_keys() == Some(
                                    (offer_key(shared), accept_key(shared)),
                                )
                                &&& overwritten(
                                    final(out)@,
                                    old(out)@,
                                    offer_of(
                                        pake_setup(host).element,
                                        shared,
                                        old(self).static_key(),
                                    ),
                                )
                            }
                        &&& forall|client: PakeState| #[trigger]
                            client_side(client, old(self).code()->0) && pake_setup(client).element
                                == hello@ ==> {
                                let offer = final(out)@.take(OFFER_LEN as int);
                                &&& pake_shared(client, offer.take(ELEMENT_LEN as int)) matches Some(
                                    shared,
                                )
                                &&& offer_opened(shared, offer) == Ok::<Seq<u8>, PairingError>(
                                    old(self).static_key(),
                                )
                                &&& final(self).direction_keys() == Some(
                                    (offer_key(shared), accept_key(shared)),
                                )
                            }
                    },
                    Err(error) => {
                        &&& error == PairingError::Failed
                        &&& final(self).direction_keys() == old(self).direction_keys()
                        &&& final(out)@ == old(out)@
                        &&& forall|client: PakeState| #[trigger]
                            client_side(client, old(self).code()->0) ==> pake_setup(client).element
                                != hello@
                    },
                }
            },
    {
        if hello.len() != HELLO_LEN {
            return Err(PairingError::BadLength { actual: hello.len(), expected: HELLO_LEN });
        }
        if out.len() < OFFER_LEN {
            return Err(PairingError::BufferTooSmall { actual: out.len(), needed: OFFER_LEN });
        }
        let pin: Pin = match self.pin.take() {
            Some(pin) => pin,
            None => return Err(PairingError::Spent),
        };
        let (state, element): (PakeState, Vec<u8>) = start_a(
            pin.as_password().as_slice(),
            host_id_bytes().as_slice(),
            client_id_bytes().as_slice(),
        );
        let ghost host = state;
        let ghost was = out@;
        proof {
            assert(host_side(host, pin));
            assert forall|client: PakeState| #[trigger] client_side(client, pin) implies counterparts(
                pake_setup(host),
                pake_setup(client),
            ) by {}
        }
        let shared: Vec<u8> = match finish_pake(state, hello) {
            Ok(shared) => shared,
            Err(_) => return Err(PairingError::Failed),
        };
        let keys: ([u8; 32], [u8; 32]) = match write_offer(
            element.as_slice(),
            shared.as_slice(),
            &self.identity,
            out,
        ) {
            Ok(keys) => keys,
            Err(error) => return Err(error),
        };
        self.keys = Some(keys);
        proof {
            let whole = offer_of(element@, shared@, self.identity@);
            assert(overwritten(out@, was, whole));
            assert(out@.take(OFFER_LEN as int) =~= whole);
            assert(whole.take(ELEMENT_LEN as int) =~= element@);
        }
        Ok(OFFER_LEN)
    }

    /// Reads the client's closing message and returns the key it carried.
    ///
    /// A message that does not open is refused, which is what a wrong PIN produces.
    pub fn accept(&mut self, accept: &[u8]) -> (client_key: Result<[u8; KEY_LEN], PairingError>)
        ensures
            *final(self) == *old(self),
            if accept@.len() != ACCEPT_LEN {
                client_key matches Err(error) && error == (PairingError::BadLength {
                    actual: accept@.len() as usize,
                    expected: ACCEPT_LEN,
                })
            } else {
                match old(self).direction_keys() {
                    None => client_key matches Err(error) && error == PairingError::Failed,
                    Some((_, key)) => match client_key {
                        Ok(value) => key_opened(key, accept@) == Ok::<Seq<u8>, PairingError>(
                            value@,
                        ),
                        Err(error) => key_opened(key, accept@) == Err::<Seq<u8>, PairingError>(
                            error,
                        ),
                    },
                }
            },
    {
        if accept.len() != ACCEPT_LEN {
            return Err(PairingError::BadLength { actual: accept.len(), expected: ACCEPT_LEN });
        }
        match &self.keys {
            None => Err(PairingError::Failed),
            Some(keys) => open_key(&keys.1, accept),
        }
    }
}

/// The client's side of a pairing exchange.
pub struct PairingClient {
    identity: [u8; KEY_LEN],
    state: Option<PakeState>,
    hello: [u8; HELLO_LEN],
}

impl PairingClient {
    /// The exchange, until it is finished.
    pub closed spec fn exchange(&self) -> Option<PakeState> {
        self.state
    }

    /// This machine's static key.
    pub closed spec fn static_key(&self) -> Seq<u8> {
        self.identity@
    }

    /// The opening message.
    pub closed spec fn opening(&self) -> Seq<u8> {
        self.hello@
    }

    /// Starts an attempt with the code the person typed.
    #[must_use]
    pub fn new(pin: &Pin, identity: [u8; KEY_LEN]) -> (client: Self)
        requires
            pin.wf(),
        ensures
            client.static_key() == identity@,
            client.exchange() matches Some(state) && client_side(state, *pin) && pake_setup(
                state,
            ).element == client.opening(),
    {
        let (state, element): (PakeState, Vec<u8>) = start_b(
            pin.as_password().as_slice(),
            host_id_bytes().as_slice(),
            client_id_bytes().as_slice(),
        );
        let hello: [u8; HELLO_LEN] = array_of::<HELLO_LEN>(element.as_slice());
        PairingClient { identity, state: Some(state), hello }
    }

    /// Returns the opening message to send, and to send again if no answer arrives.
    #[must_use]
    pub fn hello(&self) -> (hello: &[u8])
        ensures
            hello@ == self.opening(),
    {
        self.hello.as_slice()
    }

    /// Reads the host's offer and writes the closing message into `out`.
    ///
    /// Returns the host's static key alongside the length written. An offer that does not open is
    /// refused, which is what a wrong PIN produces, and what an impostor answering in the host's
    /// place produces too.
    pub fn finish(&mut self, offer: &[u8], out: &mut [u8]) -> (finished: Result<
        ([u8; KEY_LEN], usize),
        PairingError,
    >)
        ensures
            final(self).static_key() == old(self).static_key(),
            final(self).opening() == old(self).opening(),
            if offer@.len() != OFFER_LEN {
                &&& finished matches Err(error)
                &&& error == PairingError::BadLength {
                    actual: offer@.len() as usize,
                    expected: OFFER_LEN,
                }
                &&& *final(self) == *old(self)
                &&& final(out)@ == old(out)@
            } else if old(out)@.len() < ACCEPT_LEN {
                &&& finished matches Err(error)
                &&& error == PairingError::BufferTooSmall {
                    actual: old(out)@.len() as usize,
                    needed: ACCEPT_LEN,
                }
                &&& *final(self) == *old(self)
                &&& final(out)@ == old(out)@
            } else if old(self).exchange() is None {
                &&& finished matches Err(error)
                &&& error == PairingError::Spent
                &&& final(self).exchange() is None
                &&& final(out)@ == old(out)@
            } else {
                &&& final(self).exchange() is None
                &&& match pake_shared(
                    old(self).exchange()->0,
                    offer@.take(ELEMENT_LEN as int),
                ) {
                    None => {
                        &&& finished matches Err(error)
                        &&& error == PairingError::Failed
                        &&& final(out)@ == old(out)@
                    },
                    Some(shared) => match finished {
                        Ok((key, len)) => {
                            &&& len == ACCEPT_LEN
                            &&& offer_opened(shared, offer@) == Ok::<Seq<u8>, PairingError>(key@)
                            &&& overwritten(
                                final(out)@,
                                old(out)@,
                                accept_of(shared, old(self).static_key()),
                            )
                            &&& key_opened(
                                accept_key(shared),
                                final(out)@.take(ACCEPT_LEN as int),
                            ) == Ok::<Seq<u8>, PairingError>(old(self).static_key())
                        },
                        Err(error) => {
                            &&& offer_opened(shared, offer@) == Err::<Seq<u8>, PairingError>(error)
                            &&& final(out)@ == old(out)@
                        },
                    },
                }
            },
    {
        if offer.len() != OFFER_LEN {
            return Err(PairingError::BadLength { actual: offer.len(), expected: OFFER_LEN });
        }
        if out.len() < ACCEPT_LEN {
            return Err(PairingError::BufferTooSmall { actual: out.len(), needed: ACCEPT_LEN });
        }
        let state: PakeState = match self.state.take() {
            Some(state) => state,
            None => return Err(PairingError::Spent),
        };
        proof {
            assert(offer@.subrange(0, ELEMENT_LEN as int) =~= offer@.take(ELEMENT_LEN as int));
        }
        let shared: Vec<u8> = match finish_pake(state, &offer[0..ELEMENT_LEN]) {
            Ok(shared) => shared,
            Err(_) => return Err(PairingError::Failed),
        };
        match read_offer(shared.as_slice(), offer, &self.identity, out) {
            Err(error) => Err(error),
            Ok(host_key) => {
                assert(out@.take(ACCEPT_LEN as int) =~= accept_of(shared@, self.identity@));
                Ok((host_key, ACCEPT_LEN))
            },
        }
    }
}

/// White space around a text is stripped and nothing else is: what is left is the text between the
/// first and the last character that is not white space.
pub proof fn only_white_space_around_a_text_is_stripped(
    before: Seq<char>,
    text: Seq<char>,
    after: Seq<char>,
)
    requires
        forall|i: int| 0 <= i < before.len() ==> is_space(#[trigger] before[i]),
        forall|i: int| 0 <= i < after.len() ==> is_space(#[trigger] after[i]),
        text.len() > 0,
        !is_space(text[0]),
        !is_space(text.last()),
    ensures
        trimmed(before + text + after) == text,
{
    lemma_leading(before, text + after);
    assert(before + text + after =~= before + (text + after));
    lemma_trailing(text, after);
}

/// Leading white space goes, up to what is not.
proof fn lemma_leading(before: Seq<char>, rest: Seq<char>)
    requires
        forall|i: int| 0 <= i < before.len() ==> is_space(#[trigger] before[i]),
        rest.len() > 0,
        !is_space(rest[0]),
    ensures
        without_leading(before + rest) == rest,
    decreases before.len(),
{
    if before.len() == 0 {
        assert(before + rest =~= rest);
    } else {
        assert((before + rest)[0] == before[0]);
        assert((before + rest).skip(1) =~= before.skip(1) + rest);
        lemma_leading(before.skip(1), rest);
    }
}

/// Trailing white space goes, down to what is not.
proof fn lemma_trailing(text: Seq<char>, after: Seq<char>)
    requires
        forall|i: int| 0 <= i < after.len() ==> is_space(#[trigger] after[i]),
        text.len() > 0,
        !is_space(text.last()),
    ensures
        without_trailing(text + after) == text,
    decreases after.len(),
{
    if after.len() == 0 {
        assert(text + after =~= text);
    } else {
        assert((text + after).last() == after.last());
        assert(is_space(after[after.len() - 1]));
        assert((text + after).drop_last() =~= text + after.drop_last());
        lemma_trailing(text, after.drop_last());
    }
}

} // verus!
