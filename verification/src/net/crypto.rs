//! The cryptographic primitives this crate calls, each behind a function with a contract.
//!
//! What a primitive computes takes pages to state, so its result has a name: a spec function
//! without a body, which says only that equal inputs give equal results. Beside the names stand
//! the few facts the rest of the crate rests on: that opening gives back what was sealed, and
//! that two key pairs agree on one secret.

use vstd::prelude::*;

use aes_gcm::aead::{AeadInPlace, KeyInit};
use aes_gcm::Aes256Gcm;
use chacha20poly1305::ChaCha20Poly1305;
use hmac::Mac;
use snow::params::DHChoice;
use snow::resolvers::{CryptoResolver, DefaultResolver};
use subtle::ConstantTimeEq;

verus! {

/// Bytes in the nonce of either cipher.
pub const NONCE_BYTES: usize = 12;

/// Bytes of authentication tag either cipher appends.
pub const TAG_BYTES: usize = 16;

/// The longest text that is ever sealed here.
pub const MAX_TEXT: usize = 65535;

/// The public key of a Curve25519 private key, as the `snow` crate computes it.
pub uninterp spec fn x25519_public(private: Seq<u8>) -> Seq<u8>;

/// The shared secret of a Curve25519 private key and a public key, as the `snow` crate computes
/// it.
pub uninterp spec fn x25519_shared(private: Seq<u8>, public: Seq<u8>) -> Seq<u8>;

/// The 32 bytes that HKDF with SHA-256 and no salt expands key material to, as the `hkdf` crate
/// computes them.
pub uninterp spec fn hkdf_sha256(material: Seq<u8>, info: Seq<u8>) -> Seq<u8>;

/// HMAC with SHA-256, as the `hmac` crate computes it.
pub uninterp spec fn hmac_sha256(key: Seq<u8>, message: Seq<u8>) -> Seq<u8>;

/// A text sealed with ChaCha20-Poly1305 and no associated data, as the `chacha20poly1305` crate
/// seals it: the ciphertext, then the tag.
pub uninterp spec fn chacha_sealed(key: Seq<u8>, nonce: Seq<u8>, text: Seq<u8>) -> Seq<u8>;

/// What the `chacha20poly1305` crate opens a ciphertext and its tag to, if they are authentic.
pub uninterp spec fn chacha_opened(key: Seq<u8>, nonce: Seq<u8>, sealed: Seq<u8>) -> Option<
    Seq<u8>,
>;

/// A text sealed with AES-256-GCM and no associated data, as the `aes-gcm` crate seals it: the
/// ciphertext, then the tag.
pub uninterp spec fn aes_sealed(key: Seq<u8>, nonce: Seq<u8>, text: Seq<u8>) -> Seq<u8>;

/// What the `aes-gcm` crate opens a ciphertext and its tag to, if they are authentic.
pub uninterp spec fn aes_opened(key: Seq<u8>, nonce: Seq<u8>, sealed: Seq<u8>) -> Option<Seq<u8>>;

/// The error type of the `getrandom` crate.
#[verifier::external_type_specification]
#[verifier::external_body]
pub struct ExRandomError(getrandom::Error);

/// Calls `getrandom::fill`: as many random bytes as there is room for. Which bytes come is up to
/// the system, and so is whether any come at all.
#[verifier::external_body]
pub(crate) fn fill_random(room: &mut Vec<u8>) -> (filled: Result<(), getrandom::Error>)
    ensures
        final(room)@.len() == old(room)@.len(),
{
    getrandom::fill(room)
}

/// Calls `set` and `pubkey` on the Curve25519 implementation of the `snow` crate's
/// `DefaultResolver`, which always has one in this build: the public key of a private key.
#[verifier::external_body]
pub(crate) fn curve25519_public(private: &[u8; 32]) -> (public: Option<Vec<u8>>)
    ensures
        public matches Some(public) && public@ == x25519_public(private@) && public@.len() == 32,
{
    let mut dh = DefaultResolver.resolve_dh(&DHChoice::Curve25519)?;
    dh.set(private);
    Some(dh.pubkey().to_vec())
}

/// Calls `set` and `dh` on the Curve25519 implementation of the `snow` crate's `DefaultResolver`,
/// which always has one in this build and refuses no key of 32 bytes: the shared secret of a
/// private key and a public key.
///
/// Whoever holds the private half of that public key gets the same secret from it and from the
/// public half of this private key. That is what a Diffie-Hellman exchange is.
#[verifier::external_body]
pub(crate) fn curve25519_shared(private: &[u8; 32], public: &[u8; 32]) -> (shared: Option<Vec<u8>>)
    ensures
        shared matches Some(shared) && shared@ == x25519_shared(private@, public@)
            && shared@.len() == 32,
        forall|other: Seq<u8>|
            #![trigger x25519_public(other)]
            other.len() == 32 && public@ == x25519_public(other) ==> shared->0@ == x25519_shared(
                other,
                x25519_public(private@),
            ),
{
    let mut dh = DefaultResolver.resolve_dh(&DHChoice::Curve25519)?;
    dh.set(private);
    let mut shared = vec![0u8; 32];
    dh.dh(public, &mut shared).ok()?;
    Some(shared)
}

/// Calls `Hkdf::<Sha256>::new` without a salt and `expand` to 32 bytes, which is within what
/// `expand` allows.
#[verifier::external_body]
pub(crate) fn derive_key(material: &[u8], info: &[u8]) -> (key: [u8; 32])
    ensures
        key@ == hkdf_sha256(material@, info@),
{
    let hkdf = hkdf::Hkdf::<sha2::Sha256>::new(None, material);
    let mut key = [0u8; 32];
    hkdf.expand(info, &mut key).expect("thirty-two bytes is within HKDF's output limit");
    key
}

/// Calls `Hmac::<Sha256>::new_from_slice`, which takes a key of any length, `update` and
/// `finalize`: a keyed hash of 32 bytes.
#[verifier::external_body]
pub(crate) fn keyed_hash(key: &[u8], message: &[u8]) -> (hash: Vec<u8>)
    ensures
        hash@ == hmac_sha256(key@, message@),
        hash@.len() == 32,
{
    let mut mac = <hmac::Hmac::<sha2::Sha256> as hmac::Mac>::new_from_slice(key)
        .expect("HMAC takes a key of any length");
    mac.update(message);
    mac.finalize().into_bytes().to_vec()
}

/// Calls `ct_eq` of the `subtle` crate on two slices: whether they are equal, in a time that does
/// not tell how much of them is.
#[verifier::external_body]
pub(crate) fn equal_in_constant_time(left: &[u8], right: &[u8]) -> (equal: bool)
    ensures
        equal == (left@ == right@),
{
    left.ct_eq(right).into()
}

/// Calls `encrypt_in_place_detached` of `ChaCha20Poly1305` with no associated data: it turns a text into
/// its ciphertext and returns the tag. It seals a text this short without fail, and what it seals
/// opens again to the same text.
#[verifier::external_body]
fn chacha_encrypt(key: &[u8; 32], nonce: &[u8; 12], text: &mut Vec<u8>) -> (tag: Option<[u8; 16]>)
    requires
        old(text)@.len() <= MAX_TEXT,
    ensures
        final(text)@.len() == old(text)@.len(),
        tag matches Some(tag) && {
            &&& final(text)@ + tag@ == chacha_sealed(key@, nonce@, old(text)@)
            &&& chacha_opened(key@, nonce@, final(text)@ + tag@) == Some(old(text)@)
        },
{
    ChaCha20Poly1305::new(key.into())
        .encrypt_in_place_detached(nonce.into(), &[], text)
        .ok()
        .map(|tag| tag.into())
}

/// Calls `decrypt_in_place_detached` of `ChaCha20Poly1305` with no associated data. It gives a text back
/// only where the tag is the one that sealing that text appends.
#[verifier::external_body]
fn chacha_decrypt(key: &[u8; 32], nonce: &[u8; 12], body: &[u8], tag: &[u8; 16]) -> (text: Option<
    Vec<u8>,
>)
    ensures
        match text {
            Some(text) => {
                &&& chacha_opened(key@, nonce@, body@ + tag@) == Some(text@)
                &&& text@.len() == body@.len()
                &&& chacha_sealed(key@, nonce@, text@) == body@ + tag@
            },
            None => chacha_opened(key@, nonce@, body@ + tag@) is None,
        },
{
    let mut text = body.to_vec();
    ChaCha20Poly1305::new(key.into())
        .decrypt_in_place_detached(nonce.into(), &[], &mut text, tag.into())
        .ok()?;
    Some(text)
}

/// Seals a text: the ciphertext, then the tag.
pub(crate) fn chacha_seal(key: &[u8; 32], nonce: &[u8; 12], text: &[u8]) -> (sealed: Option<Vec<u8>>)
    requires
        text@.len() <= MAX_TEXT,
    ensures
        sealed matches Some(sealed) && {
            &&& sealed@ == chacha_sealed(key@, nonce@, text@)
            &&& sealed@.len() == text@.len() + TAG_BYTES
            &&& chacha_opened(key@, nonce@, sealed@) == Some(text@)
        },
{
    let mut sealed: Vec<u8> = vstd::slice::slice_to_vec(text);
    match chacha_encrypt(key, nonce, &mut sealed) {
        None => None,
        Some(tag) => {
            let ghost body = sealed@;
            sealed.extend_from_slice(tag.as_slice());
            assert(sealed@ =~= body + tag@);
            Some(sealed)
        },
    }
}

/// Opens a ciphertext that its tag follows.
pub(crate) fn chacha_open(key: &[u8; 32], nonce: &[u8; 12], sealed: &[u8]) -> (text: Option<Vec<u8>>)
    requires
        TAG_BYTES <= sealed@.len(),
    ensures
        match text {
            Some(text) => {
                &&& chacha_opened(key@, nonce@, sealed@) == Some(text@)
                &&& text@.len() + TAG_BYTES == sealed@.len()
                &&& chacha_sealed(key@, nonce@, text@) == sealed@
            },
            None => chacha_opened(key@, nonce@, sealed@) is None,
        },
{
    let end: usize = sealed.len() - TAG_BYTES;
    let body: &[u8] = &sealed[0..end];
    let tag: [u8; TAG_BYTES] = array_of::<TAG_BYTES>(&sealed[end..sealed.len()]);
    assert(body@ + tag@ =~= sealed@);
    chacha_decrypt(key, nonce, body, &tag)
}

/// Calls `encrypt_in_place_detached` of `Aes256Gcm` with no associated data: it turns a text into
/// its ciphertext and returns the tag. It seals a text this short without fail, and what it seals
/// opens again to the same text.
#[verifier::external_body]
fn aes_encrypt(key: &[u8; 32], nonce: &[u8; 12], text: &mut Vec<u8>) -> (tag: Option<[u8; 16]>)
    requires
        old(text)@.len() <= MAX_TEXT,
    ensures
        final(text)@.len() == old(text)@.len(),
        tag matches Some(tag) && {
            &&& final(text)@ + tag@ == aes_sealed(key@, nonce@, old(text)@)
            &&& aes_opened(key@, nonce@, final(text)@ + tag@) == Some(old(text)@)
        },
{
    Aes256Gcm::new(key.into())
        .encrypt_in_place_detached(nonce.into(), &[], text)
        .ok()
        .map(|tag| tag.into())
}

/// Calls `decrypt_in_place_detached` of `Aes256Gcm` with no associated data. It gives a text back
/// only where the tag is the one that sealing that text appends.
#[verifier::external_body]
fn aes_decrypt(key: &[u8; 32], nonce: &[u8; 12], body: &[u8], tag: &[u8; 16]) -> (text: Option<
    Vec<u8>,
>)
    ensures
        match text {
            Some(text) => {
                &&& aes_opened(key@, nonce@, body@ + tag@) == Some(text@)
                &&& text@.len() == body@.len()
                &&& aes_sealed(key@, nonce@, text@) == body@ + tag@
            },
            None => aes_opened(key@, nonce@, body@ + tag@) is None,
        },
{
    let mut text = body.to_vec();
    Aes256Gcm::new(key.into())
        .decrypt_in_place_detached(nonce.into(), &[], &mut text, tag.into())
        .ok()?;
    Some(text)
}

/// Seals a text: the ciphertext, then the tag.
pub(crate) fn aes_seal(key: &[u8; 32], nonce: &[u8; 12], text: &[u8]) -> (sealed: Option<Vec<u8>>)
    requires
        text@.len() <= MAX_TEXT,
    ensures
        sealed matches Some(sealed) && {
            &&& sealed@ == aes_sealed(key@, nonce@, text@)
            &&& sealed@.len() == text@.len() + TAG_BYTES
            &&& aes_opened(key@, nonce@, sealed@) == Some(text@)
        },
{
    let mut sealed: Vec<u8> = vstd::slice::slice_to_vec(text);
    match aes_encrypt(key, nonce, &mut sealed) {
        None => None,
        Some(tag) => {
            let ghost body = sealed@;
            sealed.extend_from_slice(tag.as_slice());
            assert(sealed@ =~= body + tag@);
            Some(sealed)
        },
    }
}

/// Opens a ciphertext that its tag follows.
pub(crate) fn aes_open(key: &[u8; 32], nonce: &[u8; 12], sealed: &[u8]) -> (text: Option<Vec<u8>>)
    requires
        TAG_BYTES <= sealed@.len(),
    ensures
        match text {
            Some(text) => {
                &&& aes_opened(key@, nonce@, sealed@) == Some(text@)
                &&& text@.len() + TAG_BYTES == sealed@.len()
                &&& aes_sealed(key@, nonce@, text@) == sealed@
            },
            None => aes_opened(key@, nonce@, sealed@) is None,
        },
{
    let end: usize = sealed.len() - TAG_BYTES;
    let body: &[u8] = &sealed[0..end];
    let tag: [u8; TAG_BYTES] = array_of::<TAG_BYTES>(&sealed[end..sealed.len()]);
    assert(body@ + tag@ =~= sealed@);
    aes_decrypt(key, nonce, body, &tag)
}

/// Copies bytes into an array of that length.
pub(crate) fn array_of<const N: usize>(bytes: &[u8]) -> (array: [u8; N])
    requires
        bytes@.len() == N,
    ensures
        array@ == bytes@,
{
    let mut array: [u8; N] = vstd::array::array_fill_for_copy_types(0u8);
    let mut i: usize = 0;
    while i < N
        invariant
            i <= N,
            bytes@.len() == N,
            array@.len() == N,
            forall|k: int| 0 <= k < i ==> array@[k] == bytes@[k],
        decreases N - i,
    {
        array[i] = bytes[i];
        i = i + 1;
    }
    assert(array@ =~= bytes@);
    array
}

/// Makes an array of zeros.
pub(crate) fn zeroed_array<const N: usize>() -> (array: [u8; N])
    ensures
        array@ == Seq::new(N as nat, |i: int| 0u8),
{
    let array: [u8; N] = vstd::array::array_fill_for_copy_types(0u8);
    assert(array@ =~= Seq::new(N as nat, |i: int| 0u8));
    array
}

} // verus!
