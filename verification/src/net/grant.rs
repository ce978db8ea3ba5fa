//! Permission to be relayed, in a form the server carrying the traffic can check by itself.
//!
//! Relaying costs the operator bandwidth somebody pays for, so an account can be allowed it or
//! not. The permission travels with the peer: the account server mints a grant at sign-in, the
//! peer presents it when it asks to be relayed, and the relay checks it against a secret the two
//! share. No lookup, no round trip, and nothing to be down.
//!
//! What the tag covers is the whole of what it means: this key, until this moment. Binding the
//! key is what stops a grant being passed to a friend; binding the expiry is what stops one being
//! kept forever.

use vstd::prelude::*;

use crate::bytes::{be_bytes, le_bytes, lemma_le_bytes_len, lemma_nothing_overwritten, put_le};
use crate::net::crypto::{
    array_of, equal_in_constant_time, hmac_sha256, keyed_hash, zeroed_array,
};
use crate::net::handshake::KEY_LEN;

verus! {

/// How many bytes of the keyed hash travel.
///
/// Half of SHA-256. What an attacker gains by guessing one is a relay session, and a hundred and
/// twenty-eight bits is far past the point where that is worth attempting.
pub const TAG_LEN: usize = 16;

/// How long a grant lasts.
///
/// Long enough that somebody who signed in this morning can still be relayed this evening, short
/// enough that revoking an account's relay stops mattering within a day rather than never.
pub const GRANT_SECONDS: u64 = 24 * 60 * 60;

/// Leave for clocks that disagree.
///
/// Two machines that have never spoken agree on the time to within about this. Refusing a grant
/// because the relay's clock runs a minute fast would be a session lost to something neither end
/// can see.
pub const SKEW_SECONDS: u64 = 60;

/// Separates this use of the secret from any other, so one can never be replayed as another:
/// `prism-relay-grant-v1`.
pub open spec fn grant_domain() -> Seq<u8> {
    seq![
        0x70u8, 0x72, 0x69, 0x73, 0x6d, 0x2d, 0x72, 0x65, 0x6c, 0x61, 0x79, 0x2d, 0x67, 0x72, 0x61,
        0x6e, 0x74, 0x2d, 0x76, 0x31,
    ]
}

/// Returns the bytes of `prism-relay-grant-v1`.
fn domain_bytes() -> (bytes: Vec<u8>)
    ensures
        bytes@ == grant_domain(),
{
    let bytes: Vec<u8> = vec![
        0x70u8, 0x72, 0x69, 0x73, 0x6d, 0x2d, 0x72, 0x65, 0x6c, 0x61, 0x79, 0x2d, 0x67, 0x72, 0x61,
        0x6e, 0x74, 0x2d, 0x76, 0x31,
    ];
    assert(bytes@ =~= grant_domain());
    bytes
}

/// Permission for one machine to be relayed, until a moment.
#[derive(Debug, Clone, Copy, PartialEq, Eq)]
pub struct Grant {
    /// When it stops being good, as seconds since the Unix epoch.
    pub expires_unix: u64,
    /// The keyed hash over the key and that moment.
    pub tag: [u8; TAG_LEN],
}

/// What the tag of a grant covers: the domain, the key, and the moment in network byte order.
pub open spec fn grant_message(key: Seq<u8>, expires_unix: u64) -> Seq<u8> {
    grant_domain() + key + be_bytes(expires_unix as nat, 8)
}

/// The tag a grant for this key and moment carries.
pub open spec fn grant_tag(secret: Seq<u8>, key: Seq<u8>, expires_unix: u64) -> Seq<u8> {
    hmac_sha256(secret, grant_message(key, expires_unix)).take(TAG_LEN as int)
}

/// Whether a moment is past the end of a grant, clocks that disagree allowed for.
pub open spec fn expired(expires_unix: u64, now_unix: u64) -> bool {
    expires_unix + SKEW_SECONDS < now_unix
}

impl Grant {
    /// Whether this is the absence of a grant.
    pub open spec fn absent(self) -> bool {
        self.expires_unix == 0 && self.tag@ == Seq::new(TAG_LEN as nat, |i: int| 0u8)
    }

    /// A grant that is not one.
    ///
    /// What a peer presents when it has none: an account that may not relay, or a machine that
    /// paired without an account at all. A relay configured to require grants refuses it, and one
    /// that is not ignores the whole question.
    #[must_use]
    pub fn none() -> (grant: Self)
        ensures
            grant.absent(),
    {
        Grant { expires_unix: 0, tag: zeroed_array::<TAG_LEN>() }
    }

    /// Whether this is the absence of a grant rather than one.
    #[must_use]
    pub fn is_none(&self) -> (absent: bool)
        ensures
            absent == self.absent(),
    {
        if self.expires_unix != 0 {
            return false;
        }
        let mut i: usize = 0;
        while i < TAG_LEN
            invariant
                i <= TAG_LEN,
                self.expires_unix == 0,
                forall|k: int| 0 <= k < i ==> self.tag@[k] == 0,
            decreases TAG_LEN - i,
        {
            if self.tag[i] != 0 {
                assert(self.tag@[i as int] != Seq::new(TAG_LEN as nat, |i: int| 0u8)[i as int]);
                return false;
            }
            i = i + 1;
        }
        assert(self.tag@ =~= Seq::new(TAG_LEN as nat, |i: int| 0u8));
        true
    }
}

/// Computes the tag a grant for this key and moment should carry.
fn tag_for(secret: &[u8], key: &[u8; KEY_LEN], expires_unix: u64) -> (tag: [u8; TAG_LEN])
    ensures
        tag@ == grant_tag(secret@, key@, expires_unix),
{
    broadcast use lemma_le_bytes_len;

    let mut message: Vec<u8> = domain_bytes();
    message.extend_from_slice(key.as_slice());
    let ghost prefix = message@;
    assert(prefix =~= grant_domain() + key@);
    let mut moment: Vec<u8> = vec![0u8; 8];
    proof {
        lemma_nothing_overwritten(moment@);
    }
    put_le(moment.as_mut_slice(), 0, expires_unix, 8);
    assert(moment@ =~= le_bytes(expires_unix as nat, 8));
    let mut i: usize = 8;
    while i > 0
        invariant
            i <= 8,
            moment@ == le_bytes(expires_unix as nat, 8),
            moment@.len() == 8,
            message@ == prefix + be_bytes(expires_unix as nat, 8).take(8 - i),
        decreases i,
    {
        i = i - 1;
        message.push(moment[i]);
        assert(message@ =~= prefix + be_bytes(expires_unix as nat, 8).take(8 - i));
    }
    assert(message@ =~= grant_message(key@, expires_unix));
    let full: Vec<u8> = keyed_hash(secret, message.as_slice());
    let tag: [u8; TAG_LEN] = array_of::<TAG_LEN>(&full[0..TAG_LEN]);
    assert(tag@ =~= full@.take(TAG_LEN as int));
    tag
}

/// Issues a grant, which is what the account server does when somebody signs in.
///
/// Present here rather than only in the server that uses it so that the two sides cannot drift:
/// what mints and what checks are the same function read twice.
#[must_use]
pub fn issue(secret: &[u8], key: &[u8; KEY_LEN], expires_unix: u64) -> (grant: Grant)
    ensures
        grant.expires_unix == expires_unix,
        grant.tag@ == grant_tag(secret@, key@, expires_unix),
{
    Grant { expires_unix, tag: tag_for(secret, key, expires_unix) }
}

/// Whether a grant permits this key to be relayed now.
///
/// The comparison is constant time, so a relay answering many attempts does not leak how much of
/// a guess was right through how long it took to say no.
#[must_use]
pub fn permits(secret: &[u8], key: &[u8; KEY_LEN], grant: &Grant, now_unix: u64) -> (permitted: bool)
    ensures
        permitted == permitted_by(secret@, key@, *grant, now_unix),
{
    if grant.expires_unix.saturating_add(SKEW_SECONDS) < now_unix {
        return false;
    }
    let expected: [u8; TAG_LEN] = tag_for(secret, key, grant.expires_unix);
    equal_in_constant_time(expected.as_slice(), grant.tag.as_slice())
}

/// Whether a grant permits a key to be relayed: its time has not run out, and its tag is the one
/// for that key and that time.
pub open spec fn permitted_by(secret: Seq<u8>, key: Seq<u8>, grant: Grant, now_unix: u64) -> bool {
    !expired(grant.expires_unix, now_unix) && grant.tag@ == grant_tag(
        secret,
        key,
        grant.expires_unix,
    )
}

/// A grant that was issued permits the key it was issued for until it expires, and after that
/// nobody: with the tag of another key, secret or moment it permits a key only where the two tags
/// are the same.
pub proof fn an_issued_grant_permits_its_key_until_it_expires(
    secret: Seq<u8>,
    key: Seq<u8>,
    grant: Grant,
    now_unix: u64,
    other_secret: Seq<u8>,
    other_key: Seq<u8>,
    other_moment: u64,
)
    requires
        grant.tag@ == grant_tag(secret, key, grant.expires_unix),
    ensures
        permitted_by(secret, key, grant, now_unix) == !expired(grant.expires_unix, now_unix),
        permitted_by(
            other_secret,
            other_key,
            Grant { expires_unix: other_moment, tag: grant.tag },
            now_unix,
        ) ==> grant_tag(other_secret, other_key, other_moment) == grant_tag(
            secret,
            key,
            grant.expires_unix,
        ),
{
}

} // verus!
