use mem_etcd::lease::lease::{Lease, LeaseError, NO_LEASE};

#[test]
fn test_lease_error_display() {
    assert_eq!(
        LeaseError::NotFound(42).text(),
        "lease not found: 42"
    );
    assert_eq!(
        LeaseError::Exists(7).text(),
        "lease already exists: 7"
    );
    assert_eq!(
        LeaseError::TTLTooLarge.text(),
        "ttl too large"
    );
}

#[test]
fn test_lease_error_equality() {
    assert_eq!(LeaseError::NotFound(1), LeaseError::NotFound(1));
    assert_eq!(LeaseError::Exists(2), LeaseError::Exists(2));
    assert_eq!(LeaseError::TTLTooLarge, LeaseError::TTLTooLarge);
    assert_ne!(LeaseError::NotFound(1), LeaseError::NotFound(2));
    assert_ne!(LeaseError::NotFound(1), LeaseError::Exists(1));
}

#[test]
fn test_lease_creation() {
    let lease = Lease {
        id: 1,
        ttl: 10,
        remaining_ttl: 10,
        expiry: 0,
        keys: vec![b"key1".to_vec(), b"key2".to_vec()],
        checkpoint_ttl: None,
    };
    assert_eq!(lease.id, 1);
    assert_eq!(lease.ttl, 10);
    assert_eq!(lease.keys.len(), 2);
}

#[test]
fn test_no_lease_constant() {
    assert_eq!(NO_LEASE, 0);
}
