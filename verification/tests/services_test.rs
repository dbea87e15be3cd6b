use bytes::Bytes;
use mem_etcd::etcdserverpb::{
    CompactionRequest, DeleteRangeRequest, LeaseGrantRequest, LeaseRevokeRequest, PutRequest,
    RangeRequest,
};
use mem_etcd::kv_service::{KvService, Outcome};
use mem_etcd::lease_service::LeaseService;
use mem_etcd::maintenance_service::MaintenanceService;
use mem_etcd::raft::{RaftMetrics, RaftRequest};
use mem_etcd::rpc::status::{Code, Status};
use mem_etcd::store::Store;

#[test]
fn lease_numbers_count_up() {
    let mut s = LeaseService::new();
    let a = s.lease_grant(LeaseGrantRequest { ttl: 5, id: 0 });
    let b = s.lease_grant(LeaseGrantRequest { ttl: 6, id: 0 });
    let c = s.lease_grant(LeaseGrantRequest { ttl: 7, id: 42 });
    assert_eq!((a.id, b.id, c.id), (0, 1, 42));
    assert_eq!((a.ttl, b.ttl, c.ttl), (5, 6, 7));
    assert_eq!(s.lease_revoke(LeaseRevokeRequest { id: 1 }).header.unwrap().revision, 2);
    assert_eq!(s.lease_time_to_live().code(), Code::Unimplemented);
    assert_eq!(s.lease_leases().message(), "lease_leases not implemented");
    assert_eq!(s.lease_keep_alive().header.unwrap().revision, 1);
}

#[test]
fn maintenance_answers() {
    let mut store = Store::new(None);
    store.set(b"a".to_vec(), Some(Bytes::from_static(b"12345")), None).unwrap();
    let m = MaintenanceService::new();
    let s = m.status(&store);
    assert_eq!(s.version, "3.5.16");
    assert_eq!(s.db_size, 5);
    assert_eq!(s.db_size_in_use, 5);
    assert_eq!(s.header.unwrap().revision, 1);
    assert!(m.alarm(&store).alarms.is_empty());
    assert_eq!(m.defragment(&store).header.unwrap().revision, 1);
    assert_eq!(m.hash().message(), "hash not implemented");
    assert_eq!(m.hash_kv().message(), "hash_kv not implemented");
    assert_eq!(m.snapshot().message(), "snapshot not implemented");
    assert_eq!(m.move_leader().message(), "move_leader not implemented");
    assert_eq!(m.downgrade().code(), Code::Unimplemented);
}

#[test]
fn leader_proposes_writes() {
    let mut store = Store::new(None);
    let service = KvService::with_raft(RaftMetrics { id: 1, current_leader: Some(1) });
    let put = PutRequest { key: b"k".to_vec(), value: b"v".to_vec(), ..Default::default() };
    match service.put(&mut store, put).unwrap() {
        Outcome::Propose(RaftRequest::Put { key, value }, pending) => {
            assert_eq!(key, b"k".to_vec());
            assert_eq!(value, Bytes::from_static(b"v"));
            assert_eq!(KvService::put_response(pending, 9).header.unwrap().revision, 9);
        }
        other => panic!("not proposed: {:?}", other),
    }
    assert_eq!(store.current_revision(), 0);
    store.set(b"k".to_vec(), Some(Bytes::from_static(b"v")), None).unwrap();
    let delete = DeleteRangeRequest { key: b"k".to_vec(), range_end: vec![], prev_kv: true };
    match service.delete_range(&mut store, delete).unwrap() {
        Outcome::Propose(RaftRequest::Delete { key }, pending) => {
            assert_eq!(key, b"k".to_vec());
            let r = KvService::delete_response(pending, 10);
            assert_eq!(r.header.unwrap().revision, 10);
            assert_eq!(r.deleted, 1);
        }
        other => panic!("not proposed: {:?}", other),
    }
    assert_eq!(store.current_revision(), 1);
}

#[test]
fn followers_refuse_writes() {
    let mut store = Store::new(None);
    for leader in [None, Some(2)] {
        let service = KvService::with_raft(RaftMetrics { id: 1, current_leader: leader });
        let put = PutRequest { key: b"k".to_vec(), ..Default::default() };
        assert!(service.put(&mut store, put).is_err());
        assert!(service.ensure_leader().is_err());
        // Reads are answered all the same.
        let range = RangeRequest { key: b"k".to_vec(), ..Default::default() };
        assert_eq!(service.range(&store, range).unwrap().count, 0);
    }
    assert_eq!(store.current_revision(), 0);
}

#[test]
fn compaction_errors_reach_clients() {
    let mut store = Store::new(None);
    let service = KvService::new();
    let e = service
        .compact(&mut store, CompactionRequest { revision: 5, physical: false })
        .unwrap_err();
    assert!(!e.message().is_empty());
}

#[test]
fn status_codes() {
    assert_eq!(Status::not_found("x").code(), Code::NotFound);
    assert_eq!(Code::Unauthenticated.number(), 16);
    assert_eq!(Code::Cancelled.number(), 1);
    let cause = Status::unavailable("no leader");
    let e = Status::caused("it failed: ", &cause);
    assert_eq!(e.code(), Code::Internal);
    assert!(e.message().starts_with("it failed: "));
    assert!(e.message().contains("no leader"));
    assert!(e.message().contains("Unavailable"));
}
