use mem_etcd::lease::lease::LeaseError;
use mem_etcd::membership::MembershipError;
use mem_etcd::rpc::error::{err_compacted, err_future_rev, err_key_not_found, err_lease_exists, err_lease_not_found, err_no_leader, err_no_space, err_not_leader, err_request_too_large, is_compacted, is_future_rev, is_no_leader, is_not_leader, map_lease_error, map_membership_error};
use mem_etcd::rpc::status::Code;

#[test]
fn test_err_compacted() {
    let status = err_compacted(42);
    assert_eq!(status.code(), Code::OutOfRange);
    assert!(status.message().contains("compacted"));
    assert!(status.message().contains("42"));
}

#[test]
fn test_err_future_rev() {
    let status = err_future_rev(999);
    assert_eq!(status.code(), Code::OutOfRange);
    assert!(status.message().contains("future revision"));
    assert!(status.message().contains("999"));
}

#[test]
fn test_err_no_leader() {
    let status = err_no_leader();
    assert_eq!(status.code(), Code::Unavailable);
    assert!(status.message().contains("no leader"));
}

#[test]
fn test_err_not_leader() {
    let status = err_not_leader(3);
    assert_eq!(status.code(), Code::FailedPrecondition);
    assert!(status.message().contains("not leader"));
    assert!(status.message().contains("3"));
}

#[test]
fn test_err_request_too_large() {
    let status = err_request_too_large();
    assert_eq!(status.code(), Code::ResourceExhausted);
}

#[test]
fn test_err_no_space() {
    let status = err_no_space();
    assert_eq!(status.code(), Code::ResourceExhausted);
    assert!(status.message().contains("no space"));
}

#[test]
fn test_err_lease_not_found() {
    let status = err_lease_not_found(7);
    assert_eq!(status.code(), Code::NotFound);
    assert!(status.message().contains("7"));
}

#[test]
fn test_err_lease_exists() {
    let status = err_lease_exists(7);
    assert_eq!(status.code(), Code::AlreadyExists);
    assert!(status.message().contains("7"));
}

#[test]
fn test_err_key_not_found() {
    let status = err_key_not_found();
    assert_eq!(status.code(), Code::NotFound);
}

#[test]
fn test_map_membership_id_removed() {
    let status = map_membership_error(&MembershipError::IdRemoved);
    assert_eq!(status.code(), Code::NotFound);
}

#[test]
fn test_map_membership_id_not_found() {
    let status = map_membership_error(&MembershipError::IdNotFound);
    assert_eq!(status.code(), Code::NotFound);
}

#[test]
fn test_map_membership_id_exists() {
    let status = map_membership_error(&MembershipError::IdExists);
    assert_eq!(status.code(), Code::AlreadyExists);
}

#[test]
fn test_map_membership_peer_url_exists() {
    let status = map_membership_error(&MembershipError::PeerUrlExists);
    assert_eq!(status.code(), Code::AlreadyExists);
}

#[test]
fn test_map_membership_member_not_learner() {
    let status = map_membership_error(&MembershipError::MemberNotLearner);
    assert_eq!(status.code(), Code::FailedPrecondition);
}

#[test]
fn test_map_membership_too_many_learners() {
    let status = map_membership_error(&MembershipError::TooManyLearners);
    assert_eq!(status.code(), Code::ResourceExhausted);
}

#[test]
fn test_map_membership_not_enough_started() {
    let status = map_membership_error(&MembershipError::NotEnoughStartedMembers);
    assert_eq!(status.code(), Code::FailedPrecondition);
}

#[test]
fn test_map_lease_not_found() {
    let status = map_lease_error(&LeaseError::NotFound(42));
    assert_eq!(status.code(), Code::NotFound);
}

#[test]
fn test_map_lease_exists() {
    let status = map_lease_error(&LeaseError::Exists(42));
    assert_eq!(status.code(), Code::AlreadyExists);
}

#[test]
fn test_map_lease_ttl_too_large() {
    let status = map_lease_error(&LeaseError::TTLTooLarge);
    assert_eq!(status.code(), Code::InvalidArgument);
}

#[test]
fn test_is_not_leader() {
    let s = err_not_leader(1);
    assert!(is_not_leader(&s));
    assert!(!is_no_leader(&s));
}

#[test]
fn test_is_no_leader() {
    let s = err_no_leader();
    assert!(is_no_leader(&s));
    assert!(!is_not_leader(&s));
}

#[test]
fn test_is_compacted() {
    let s = err_compacted(5);
    assert!(is_compacted(&s));
    assert!(!is_future_rev(&s));
}

#[test]
fn test_is_future_rev() {
    let s = err_future_rev(5);
    assert!(is_future_rev(&s));
    assert!(!is_compacted(&s));
}
