use prism_core::net::grant::{issue, permits, Grant, GRANT_SECONDS, SKEW_SECONDS};
use prism_core::net::handshake::KEY_LEN;

const SECRET: &[u8] = b"a secret two servers share";
const NOW: u64 = 1_800_000_000;

fn key(byte: u8) -> [u8; KEY_LEN] {
    [byte; KEY_LEN]
}

#[test]
fn a_grant_permits_the_key_it_was_issued_for() {
    let grant = issue(SECRET, &key(1), NOW + GRANT_SECONDS);

    assert!(permits(SECRET, &key(1), &grant, NOW));
}

#[test]
fn a_grant_does_not_travel_to_another_machine() {
    // The whole point of binding the key: a grant handed to a friend is a grant that does
    // nothing for them.
    let grant = issue(SECRET, &key(1), NOW + GRANT_SECONDS);

    assert!(!permits(SECRET, &key(2), &grant, NOW));
}

#[test]
fn a_grant_stops_being_good() {
    let grant = issue(SECRET, &key(1), NOW);

    assert!(permits(SECRET, &key(1), &grant, NOW));
    assert!(!permits(SECRET, &key(1), &grant, NOW + SKEW_SECONDS + 1));
}

#[test]
fn a_clock_that_runs_a_little_fast_does_not_lose_a_session() {
    let grant = issue(SECRET, &key(1), NOW);

    assert!(permits(SECRET, &key(1), &grant, NOW + SKEW_SECONDS - 1));
}

#[test]
fn a_grant_from_another_secret_is_refused() {
    let grant = issue(b"someone else's secret", &key(1), NOW + GRANT_SECONDS);

    assert!(!permits(SECRET, &key(1), &grant, NOW));
}

#[test]
fn the_expiry_cannot_be_moved_without_the_secret() {
    let mut grant = issue(SECRET, &key(1), NOW);
    grant.expires_unix = NOW + GRANT_SECONDS;

    assert!(!permits(SECRET, &key(1), &grant, NOW));
}

#[test]
fn the_absence_of_a_grant_is_not_a_grant() {
    assert!(Grant::none().is_none());
    assert!(!permits(SECRET, &key(1), &Grant::none(), NOW));
}

#[test]
fn a_grant_carries_the_keyed_hash_of_its_key_and_moment() {
    let grant = issue(SECRET, &key(1), NOW);

    assert_eq!(
        grant.tag,
        [
            0xe0, 0xf2, 0x53, 0x02, 0x34, 0x40, 0x4b, 0xb4, 0x89, 0x84, 0xb7, 0x79, 0x5e, 0x7e,
            0x91, 0x25
        ]
    );
    assert!(!grant.is_none());
}
