use mem_etcd::lease::lease::{LeaseError, NO_LEASE};
use mem_etcd::lease::lessor::Lessor;

#[test]
fn test_lease_grant() {
    let mut lessor = Lessor::new();
    let id1 = lessor.grant(NO_LEASE, 10).unwrap();
    assert!(id1 > 0);
    let id2 = lessor.grant(NO_LEASE, 20).unwrap();
    assert_ne!(id1, id2);
    assert_eq!(lessor.lookup(id1).unwrap().ttl, 10);
}

#[test]
fn test_lease_revoke() {
    let mut lessor = Lessor::new();
    let id = lessor.grant(NO_LEASE, 10).unwrap();
    lessor.attach(id, b"test_key").unwrap();
    let keys = lessor.revoke(id).unwrap();
    assert_eq!(keys, vec![b"test_key".to_vec()]);
    assert!(lessor.lookup(id).is_none());
}

#[test]
fn test_lease_renew() {
    let mut lessor = Lessor::new();
    let id = lessor.grant(NO_LEASE, 10).unwrap();
    assert_eq!(lessor.renew(id).unwrap(), 10);
}

#[test]
fn test_lease_attach_detach() {
    let mut lessor = Lessor::new();
    let id = lessor.grant(NO_LEASE, 10).unwrap();
    lessor.attach(id, b"key1").unwrap();
    assert_eq!(lessor.lookup(id).unwrap().keys, vec![b"key1".to_vec()]);
    lessor.detach(id, b"key1").unwrap();
    assert!(lessor.lookup(id).unwrap().keys.is_empty());
}

#[test]
fn test_lease_list() {
    let mut lessor = Lessor::new();
    assert!(lessor.get_leases().is_empty());
    let id1 = lessor.grant(NO_LEASE, 10).unwrap();
    let id2 = lessor.grant(NO_LEASE, 20).unwrap();
    assert_eq!(lessor.get_leases().len(), 2);
    lessor.revoke(id1).unwrap();
    assert_eq!(lessor.get_leases().len(), 1);
    assert!(lessor.get_leases().contains(&id2));
}

#[test]
fn test_lease_grant_duplicate_id() {
    let mut lessor = Lessor::new();
    lessor.grant(42, 10).unwrap();
    let result = lessor.grant(42, 10);
    assert!(result.is_err());
    assert_eq!(result.unwrap_err(), LeaseError::Exists(42));
}

#[test]
fn test_lease_grant_negative_ttl() {
    let mut lessor = Lessor::new();
    let result = lessor.grant(NO_LEASE, -1);
    assert!(result.is_err());
    assert_eq!(result.unwrap_err(), LeaseError::TTLTooLarge);
}

#[test]
fn test_lease_revoke_not_found() {
    let mut lessor = Lessor::new();
    let result = lessor.revoke(999);
    assert!(result.is_err());
    assert_eq!(result.unwrap_err(), LeaseError::NotFound(999));
}

#[test]
fn test_lease_renew_not_found() {
    let mut lessor = Lessor::new();
    let result = lessor.renew(999);
    assert!(result.is_err());
    assert_eq!(result.unwrap_err(), LeaseError::NotFound(999));
}

#[test]
fn test_lease_lookup_empty() {
    let mut lessor = Lessor::new();
    assert!(lessor.lookup(999).is_none());
}

#[test]
fn test_lease_lookup_after_grant() {
    let mut lessor = Lessor::new();
    let id = lessor.grant(NO_LEASE, 10).unwrap();
    assert!(lessor.lookup(id).is_some());
}

#[test]
fn test_lease_attach_not_found() {
    let mut lessor = Lessor::new();
    let result = lessor.attach(999, b"key");
    assert!(result.is_err());
    assert_eq!(result.unwrap_err(), LeaseError::NotFound(999));
}

#[test]
fn test_lease_detach_not_found() {
    let mut lessor = Lessor::new();
    let result = lessor.detach(999, b"key");
    assert!(result.is_err());
    assert_eq!(result.unwrap_err(), LeaseError::NotFound(999));
}

#[test]
fn test_lease_ttl() {
    let mut lessor = Lessor::new();
    let id = lessor.grant(NO_LEASE, 60).unwrap();
    let ttl = lessor.lookup_ttl(id).unwrap();
    assert!(ttl >= 0);
    assert!(ttl <= 60);
}

#[test]
fn test_lease_ttl_not_found() {
    let mut lessor = Lessor::new();
    let result = lessor.lookup_ttl(999);
    assert!(result.is_err());
}

#[test]
fn test_lease_comprehensive() {
    let mut lessor = Lessor::new();
    // Grant
    let id = lessor.grant(NO_LEASE, 30).unwrap();
    assert!(id > 0);
    assert!(lessor.lookup(id).is_some());
    // Attach
    lessor.attach(id, b"k1").unwrap();
    lessor.attach(id, b"k2").unwrap();
    assert_eq!(lessor.lookup(id).unwrap().keys.len(), 2);
    // Detach one
    lessor.detach(id, b"k1").unwrap();
    assert_eq!(lessor.lookup(id).unwrap().keys.len(), 1);
    // Renew
    assert_eq!(lessor.renew(id).unwrap(), 30);
    // Revoke
    let keys = lessor.revoke(id).unwrap();
    assert_eq!(keys, vec![b"k2".to_vec()]);
    assert!(lessor.lookup(id).is_none());
}
