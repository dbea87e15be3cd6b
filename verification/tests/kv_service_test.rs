use mem_etcd::etcdserverpb::compare::{CompareResult, TargetUnion};
use mem_etcd::etcdserverpb::{
    request_op, CompactionRequest, Compare, DeleteRangeRequest, PutRequest, RangeRequest,
    RequestOp, TxnRequest,
};
use mem_etcd::kv_service::{KvService, Outcome};
use mem_etcd::store::Store;

fn done<R, P>(outcome: Outcome<R, P>) -> R {
    match outcome {
        Outcome::Done(r) => r,
        Outcome::Propose(_, _) => panic!("nothing is replicated here"),
    }
}

#[test]
fn test_put_and_range() {
    let mut store = Store::new(None);
    let kv_service = KvService::new();

    // Test Put
    let put_req = PutRequest {
        key: b"foo".to_vec(),
        value: b"bar".to_vec(),
        lease: 0,
        prev_kv: false,
        ignore_value: false,
        ignore_lease: false,
    };

    let put_response = done(kv_service.put(&mut store, put_req).unwrap());
    assert_eq!(put_response.header.as_ref().unwrap().revision, 1);

    // Test Range
    let range_req = RangeRequest {
        key: b"foo".to_vec(),
        range_end: vec![],
        limit: 0,
        revision: 0,
        sort_order: 0,
        sort_target: 0,
        serializable: false,
        keys_only: false,
        count_only: false,
        min_mod_revision: 0,
        max_mod_revision: 0,
        min_create_revision: 0,
        max_create_revision: 0,
    };

    let range_response = kv_service.range(&store, range_req).unwrap();
    let response = range_response;
    assert_eq!(response.kvs.len(), 1);
    assert_eq!(response.count, 1);
    assert_eq!(response.kvs[0].key, b"foo");
    assert_eq!(response.kvs[0].value, b"bar".to_vec());
}

#[test]
fn test_delete_range() {
    let mut store = Store::new(None);
    let kv_service = KvService::new();

    // First put a key
    let put_req = PutRequest {
        key: b"foo".to_vec(),
        value: b"bar".to_vec(),
        ..Default::default()
    };
    done(kv_service.put(&mut store, put_req).unwrap());

    // Then delete it
    let delete_req = DeleteRangeRequest {
        key: b"foo".to_vec(),
        range_end: vec![],
        prev_kv: false,
    };

    let delete_response = done(kv_service.delete_range(&mut store, delete_req).unwrap());
    assert!(delete_response.header.is_some());

    // Verify it's gone with a range request
    let range_req = RangeRequest {
        key: b"foo".to_vec(),
        ..Default::default()
    };

    let range_response = kv_service.range(&store, range_req).unwrap();
    assert_eq!(range_response.kvs.len(), 0);
}

#[test]
fn test_range_count_only() {
    let mut store = Store::new(None);
    let kv_service = KvService::new();

    let put_req = PutRequest {
        key: b"foo".to_vec(),
        value: b"bar".to_vec(),
        ..Default::default()
    };
    done(kv_service.put(&mut store, put_req).unwrap());

    let range_req = RangeRequest {
        key: b"foo".to_vec(),
        count_only: true,
        ..Default::default()
    };

    let range_response = kv_service.range(&store, range_req).unwrap();
    assert_eq!(range_response.count, 1);
    assert_eq!(range_response.kvs.len(), 0);
}

#[test]
fn test_range_limit() {
    let mut store = Store::new(None);
    let kv_service = KvService::new();

    for i in 0..10 {
        let put_req = PutRequest {
            key: vec![(b'a' + i)],
            value: vec![b'r', i],
            ..Default::default()
        };
        done(kv_service.put(&mut store, put_req).unwrap());
    }

    let range_req = RangeRequest {
        key: b"a".to_vec(),
        range_end: b"z".to_vec(),
        limit: 4,
        ..Default::default()
    };

    let range_response = kv_service.range(&store, range_req).unwrap();
    assert_eq!(range_response.count, 10);
    assert_eq!(range_response.kvs.len(), 4);
    assert_eq!(range_response.more, true);

    let range_req = RangeRequest {
        key: b"a".to_vec(),
        range_end: b"z".to_vec(),
        limit: 10,
        ..Default::default()
    };

    let range_response = kv_service.range(&store, range_req).unwrap();
    assert_eq!(range_response.count, 10);
    assert_eq!(range_response.kvs.len(), 10);
    assert_eq!(range_response.more, false);

    let range_req = RangeRequest {
        key: b"a".to_vec(),
        range_end: b"z".to_vec(),
        limit: 15,
        ..Default::default()
    };

    let range_response = kv_service.range(&store, range_req).unwrap();
    assert_eq!(range_response.count, 10);
    assert_eq!(range_response.kvs.len(), 10);
    assert_eq!(range_response.more, false);
}

#[test]
fn test_txn() {
    let mut store = Store::new(None);
    let kv_service = KvService::new();

    // First put a key
    let put_req = PutRequest {
        key: b"foo".to_vec(),
        value: b"bar".to_vec(),
        ..Default::default()
    };
    let put_response = done(kv_service.put(&mut store, put_req).unwrap());
    let rev = put_response.header.as_ref().unwrap().revision;

    // Create a transaction that checks modRevision
    let txn_req = TxnRequest {
        compare: vec![Compare {
            result: CompareResult::Equal as i32,
            target: 0, // MOD
            key: b"foo".to_vec(),
            range_end: vec![],
            target_union: Some(TargetUnion::ModRevision(rev)),
        }],
        success: vec![RequestOp {
            request: Some(request_op::Request::RequestPut(PutRequest {
                key: b"foo".to_vec(),
                value: b"baz".to_vec(),
                ..Default::default()
            })),
        }],
        failure: vec![RequestOp {
            request: Some(request_op::Request::RequestRange(RangeRequest {
                key: b"foo".to_vec(),
                ..Default::default()
            })),
        }],
    };

    let txn_response = done(kv_service.txn(&mut store, txn_req).unwrap());
    assert!(txn_response.succeeded);
    assert_eq!(txn_response.responses.len(), 1);
}

#[test]
fn test_txn_failure() {
    let mut store = Store::new(None);
    let kv_service = KvService::new();

    // First put a key
    let put_req = PutRequest {
        key: b"foo".to_vec(),
        value: b"bar".to_vec(),
        ..Default::default()
    };
    let put_response = done(kv_service.put(&mut store, put_req).unwrap());
    let _rev = put_response.header.as_ref().unwrap().revision;

    // Create a transaction that checks modRevision
    let txn_req = TxnRequest {
        compare: vec![Compare {
            result: CompareResult::Equal as i32,
            target: 0, // MOD
            key: b"foo".to_vec(),
            range_end: vec![],
            target_union: Some(TargetUnion::ModRevision(0)),  // mod is zero so this should fail
        }],
        success: vec![RequestOp {
            request: Some(request_op::Request::RequestPut(PutRequest {
                key: b"foo".to_vec(),
                value: b"baz".to_vec(),
                ..Default::default()
            })),
        }],
        failure: vec![], // No failure repsonse please
    };

    let txn_response = done(kv_service.txn(&mut store, txn_req).unwrap());
    assert_eq!(txn_response.succeeded, false);
    assert_eq!(txn_response.responses.len(), 0);
}

#[test]
fn kv_service_test_test_compaction() {
    let mut store = Store::new(None);
    let kv_service = KvService::new();

    // Create some revisions
    let put_req = PutRequest {
        key: b"foo".to_vec(),
        value: b"bar1".to_vec(),
        ..Default::default()
    };
    done(kv_service.put(&mut store, put_req).unwrap());

    let put_req = PutRequest {
        key: b"foo".to_vec(),
        value: b"bar2".to_vec(),
        ..Default::default()
    };
    done(kv_service.put(&mut store, put_req).unwrap());

    // Compact at revision 2
    let compact_req = CompactionRequest {
        revision: 2,
        physical: false,
    };

    let compact_response = kv_service.compact(&mut store, compact_req).unwrap();
    assert!(compact_response.header.is_some());

    // Try to get revision 1 (should fail)
    let range_req = RangeRequest {
        key: b"foo".to_vec(),
        revision: 1,
        ..Default::default()
    };

    let range_result = kv_service.range(&store, range_req);
    assert!(
        range_result.is_err(),
        "Expected error when requesting compacted revision"
    );
}
