use mem_etcd::lease::lease::LeaseError;
use mem_etcd::lease::lessor::Lessor;

const SECOND: u128 = 1_000_000_000;

/// The leases that have expired, after they were forgotten.
fn expire(l: &mut Lessor, now: u128) -> Vec<(i64, Vec<Vec<u8>>)> {
    let mut r = Vec::new();
    for e in l.tick(now) {
        l.forget(e.id);
        r.push((e.id, e.keys));
    }
    r
}

#[test]
fn leases_expire_in_time() {
    let mut l = Lessor::seeded(0);
    l.grant_at(1, 10, 0).unwrap();
    l.grant_at(2, 20, 0).unwrap();
    l.attach(1, b"k").unwrap();
    assert!(expire(&mut l, 10 * SECOND - 1).is_empty());
    assert_eq!(l.lookup_ttl_at(1, 4 * SECOND).unwrap(), 6);
    assert_eq!(l.lookup_ttl_at(1, 10 * SECOND).unwrap(), 0);
    assert_eq!(expire(&mut l, 10 * SECOND), vec![(1, vec![b"k".to_vec()])]);
    assert!(l.lookup(1).is_none());
    assert!(l.lookup(2).is_some());
    assert_eq!(l.lookup_ttl_at(1, 0), Err(LeaseError::NotFound(1)));
}

#[test]
fn renewed_leases_live_on() {
    let mut l = Lessor::seeded(0);
    l.grant_at(1, 10, 0).unwrap();
    assert_eq!(l.renew_at(1, 8 * SECOND).unwrap(), 10);
    assert!(expire(&mut l, 17 * SECOND).is_empty());
    assert_eq!(expire(&mut l, 18 * SECOND), vec![(1, vec![])]);
}

#[test]
fn followers_expire_no_leases() {
    let mut l = Lessor::seeded(0);
    l.grant_at(1, 10, 0).unwrap();
    l.demote();
    assert!(expire(&mut l, 100 * SECOND).is_empty());
    l.promote(5 * SECOND);
    assert!(expire(&mut l, 15 * SECOND - 1).is_empty());
    assert_eq!(expire(&mut l, 15 * SECOND), vec![(1, vec![])]);
}

#[test]
fn every_lease_expires_once() {
    let mut l = Lessor::seeded(0);
    l.grant_at(1, 10, 0).unwrap();
    l.grant_at(2, 5, 0).unwrap();
    l.renew_at(2, 3 * SECOND).unwrap();
    l.promote(2 * SECOND);
    // One expires at 12 seconds, the other at 10.
    let ids: Vec<i64> = l.tick(10 * SECOND).iter().map(|e| e.id).collect();
    assert_eq!(ids, vec![2]);
    // It is not told again, but it is there until it is forgotten.
    assert!(l.tick(11 * SECOND).is_empty());
    assert!(l.lookup(2).is_some());
    // A renewal starts it anew.
    l.renew_at(2, 11 * SECOND).unwrap();
    assert_eq!(expire(&mut l, 12 * SECOND), vec![(1, vec![])]);
    assert_eq!(expire(&mut l, 16 * SECOND), vec![(2, vec![])]);
    assert!(l.get_leases().is_empty());
}

#[test]
fn error_names() {
    assert_eq!(LeaseError::NotFound(3).name(), "NotFound(3)");
    assert_eq!(LeaseError::Exists(-3).name(), "Exists(-3)");
    assert_eq!(LeaseError::TTLTooLarge.name(), "TTLTooLarge");
}
