use bytes::Bytes;
use mem_etcd::etcdserverpb::compare::{CompareResult, TargetUnion};
use mem_etcd::etcdserverpb::request_op::Request;
use mem_etcd::etcdserverpb::response_op::Response;
use mem_etcd::etcdserverpb::{
    Compare, DeleteRangeRequest, PutRequest, RangeRequest, RequestOp, TxnRequest, TxnResponse,
};
use mem_etcd::kv_service::{current_pair, KvService, Outcome};
use mem_etcd::raft::{RaftMetrics, RaftRequest};
use mem_etcd::store::{SetRequired, Store};

fn compare(result: CompareResult, target: TargetUnion) -> Compare {
    Compare {
        result: result as i32,
        target: 0,
        key: b"foo".to_vec(),
        range_end: vec![],
        target_union: Some(target),
    }
}

fn put(key: &[u8], value: &[u8]) -> RequestOp {
    RequestOp {
        request: Some(Request::RequestPut(PutRequest {
            key: key.to_vec(),
            value: value.to_vec(),
            ..Default::default()
        })),
    }
}

fn range(key: &[u8]) -> RequestOp {
    RequestOp {
        request: Some(Request::RequestRange(RangeRequest {
            key: key.to_vec(),
            ..Default::default()
        })),
    }
}

fn delete(key: &[u8], end: &[u8]) -> RequestOp {
    RequestOp {
        request: Some(Request::RequestDeleteRange(DeleteRangeRequest {
            key: key.to_vec(),
            range_end: end.to_vec(),
            prev_kv: false,
        })),
    }
}

fn txn(compare: Vec<Compare>, success: Vec<RequestOp>, failure: Vec<RequestOp>) -> TxnRequest {
    TxnRequest { compare, success, failure }
}

fn run(store: &mut Store, req: TxnRequest) -> TxnResponse {
    match KvService::new().txn(store, req).unwrap() {
        Outcome::Done(r) => r,
        Outcome::Propose(_, _) => panic!("nothing is replicated here"),
    }
}

fn refusal(req: TxnRequest) -> String {
    let mut store = Store::new(None);
    KvService::new().txn(&mut store, req).unwrap_err().message().to_string()
}

fn equal(target: TargetUnion) -> Vec<Compare> {
    vec![compare(CompareResult::Equal, target)]
}

#[test]
fn refused_transactions() {
    let none = equal(TargetUnion::ModRevision(0));
    assert_eq!(refusal(txn(vec![], vec![put(b"foo", b"1")], vec![])), "only one compare supported");
    let mut c = equal(TargetUnion::ModRevision(0));
    c[0].target_union = None;
    assert_eq!(
        refusal(txn(c, vec![put(b"foo", b"1")], vec![])),
        "compare target_union is required"
    );
    assert_eq!(
        refusal(txn(equal(TargetUnion::CreateRevision(0)), vec![put(b"foo", b"1")], vec![])),
        "only MOD or VERSION target supported"
    );
    assert_eq!(refusal(txn(none, vec![], vec![])), "only one success supported");
    assert_eq!(
        refusal(txn(
            equal(TargetUnion::Version(0)),
            vec![put(b"foo", b"1")],
            vec![range(b"foo"), range(b"foo")]
        )),
        "only one failure supported"
    );
    assert_eq!(
        refusal(txn(equal(TargetUnion::Version(0)), vec![put(b"foo", b"1")], vec![range(b"bar")])),
        "compare key must match failure key"
    );
    assert_eq!(
        refusal(txn(equal(TargetUnion::Version(0)), vec![put(b"", b"1")], vec![])),
        "key required in success put"
    );
    assert_eq!(
        refusal(txn(equal(TargetUnion::Version(0)), vec![put(b"bar", b"1")], vec![])),
        "compare key must match put key"
    );
    assert_eq!(
        refusal(txn(equal(TargetUnion::Version(0)), vec![delete(b"", b"")], vec![])),
        "key required in success deleteRange"
    );
    assert_eq!(
        refusal(txn(equal(TargetUnion::Version(0)), vec![delete(b"foo", b"fop")], vec![])),
        "range end not supported in deleteRange"
    );
    assert_eq!(
        refusal(txn(equal(TargetUnion::Version(0)), vec![delete(b"bar", b"")], vec![])),
        "compare key must match deleteRange key"
    );
    assert_eq!(
        refusal(txn(equal(TargetUnion::Version(0)), vec![range(b"foo")], vec![])),
        "only put and deleteRange supported in success"
    );
}

#[test]
fn create_once_by_transaction() {
    let mut store = Store::new(None);
    let req = || {
        txn(equal(TargetUnion::ModRevision(0)), vec![put(b"foo", b"1")], vec![range(b"foo")])
    };
    let first = run(&mut store, req());
    assert!(first.succeeded);
    assert_eq!(first.header.unwrap().revision, 1);
    let second = run(&mut store, req());
    assert!(!second.succeeded);
    match second.responses[0].response.as_ref().unwrap() {
        Response::ResponseRange(r) => {
            assert_eq!(r.count, 1);
            assert_eq!(r.kvs[0].value, Bytes::from_static(b"1"));
        }
        other => panic!("not a range: {:?}", other),
    }
    assert_eq!(store.current_revision(), 1);
}

#[test]
fn delete_by_transaction() {
    let mut store = Store::new(None);
    store.set(b"foo".to_vec(), Some(Bytes::from_static(b"1")), None).unwrap();
    let r = run(
        &mut store,
        txn(equal(TargetUnion::ModRevision(1)), vec![delete(b"foo", b"")], vec![]),
    );
    assert!(r.succeeded);
    match r.responses[0].response.as_ref().unwrap() {
        Response::ResponseDeleteRange(d) => assert_eq!(d.deleted, 1),
        other => panic!("not a deletion: {:?}", other),
    }
    assert_eq!(store.range(b"foo".to_vec(), vec![], 0, None).unwrap().kvs.len(), 0);
}

#[test]
fn replicated_transactions_are_proposed() {
    let mut store = Store::new(None);
    let service = KvService::with_raft(RaftMetrics { id: 1, current_leader: Some(1) });
    let req = txn(equal(TargetUnion::ModRevision(0)), vec![put(b"foo", b"1")], vec![]);
    match service.txn(&mut store, req).unwrap() {
        Outcome::Propose(RaftRequest::Put { key, .. }, pending) => {
            assert_eq!(key, b"foo".to_vec());
            let r = KvService::txn_response(pending, 3);
            assert!(r.succeeded);
            assert_eq!(r.header.unwrap().revision, 3);
        }
        other => panic!("not proposed: {:?}", other),
    }
    let req = txn(equal(TargetUnion::ModRevision(7)), vec![put(b"foo", b"1")], vec![]);
    match service.txn(&mut store, req).unwrap() {
        Outcome::Done(r) => assert!(!r.succeeded),
        other => panic!("proposed: {:?}", other),
    }
}

#[test]
fn comparisons() {
    let mut store = Store::new(None);
    store.set(b"foo".to_vec(), Some(Bytes::from_static(b"1")), None).unwrap();
    store.set(b"foo".to_vec(), Some(Bytes::from_static(b"2")), None).unwrap();
    let (kv, rev) = current_pair(&store, &b"foo".to_vec(), Some(1));
    assert_eq!(rev, 2);
    let last = |n| Some(SetRequired { required_last_revision: Some(n), required_version: None });
    let check = |n, c: CompareResult| KvService::check_compare(&kv, &last(n), c as i32);
    assert!(check(2, CompareResult::Equal));
    assert!(!check(1, CompareResult::Equal));
    assert!(check(1, CompareResult::NotEqual));
    assert!(!check(2, CompareResult::NotEqual));
    assert!(check(1, CompareResult::Greater));
    assert!(!check(2, CompareResult::Greater));
    assert!(check(3, CompareResult::Less));
    assert!(!check(2, CompareResult::Less));
}

#[test]
fn transactions_need_an_operation() {
    let empty = RequestOp { request: None };
    assert!(!KvService::can_txn(&txn(equal(TargetUnion::Version(0)), vec![empty], vec![])));
    let empty = RequestOp { request: None };
    assert!(KvService::can_txn(&txn(vec![], vec![empty], vec![])));
    assert!(KvService::can_txn(&txn(
        equal(TargetUnion::Version(0)),
        vec![put(b"foo", b"1")],
        vec![]
    )));
}

/// What is there has the version 2, and the last revision 2.
fn written_twice() -> Store {
    let mut store = Store::new(None);
    store.set(b"foo".to_vec(), Some(Bytes::from_static(b"1")), None).unwrap();
    store.set(b"foo".to_vec(), Some(Bytes::from_static(b"2")), None).unwrap();
    store
}

#[test]
fn replicated_transactions_compare_as_asked() {
    let service = KvService::with_raft(RaftMetrics { id: 1, current_leader: Some(1) });
    let proposed = |result: CompareResult, target: TargetUnion| {
        let mut store = written_twice();
        let req = txn(vec![compare(result, target)], vec![put(b"foo", b"3")], vec![range(b"foo")]);
        let r = service.txn(&mut store, req).unwrap();
        assert_eq!(store.current_revision(), 2);
        matches!(r, Outcome::Propose(_, _))
    };
    assert!(proposed(CompareResult::Greater, TargetUnion::ModRevision(1)));
    assert!(!proposed(CompareResult::Greater, TargetUnion::ModRevision(2)));
    assert!(proposed(CompareResult::Less, TargetUnion::ModRevision(3)));
    assert!(!proposed(CompareResult::Less, TargetUnion::ModRevision(2)));
    assert!(proposed(CompareResult::NotEqual, TargetUnion::Version(1)));
    assert!(!proposed(CompareResult::NotEqual, TargetUnion::Version(2)));
    assert!(proposed(CompareResult::Equal, TargetUnion::Version(2)));
    assert!(!proposed(CompareResult::Equal, TargetUnion::Version(3)));
    // Where nothing is, only a requirement of zero is met.
    let mut store = Store::new(None);
    let c = vec![compare(CompareResult::Less, TargetUnion::Version(1))];
    let r = service.txn(&mut store, txn(c, vec![put(b"foo", b"1")], vec![])).unwrap();
    assert!(matches!(r, Outcome::Done(_)));
}

#[test]
fn the_store_requires_equality() {
    let succeeds = |result: CompareResult, target: TargetUnion| {
        let mut store = written_twice();
        let r = run(
            &mut store,
            txn(vec![compare(result, target)], vec![put(b"foo", b"3")], vec![range(b"foo")]),
        );
        assert_eq!(store.current_revision(), if r.succeeded { 3 } else { 2 });
        r.succeeded
    };
    for result in
        [CompareResult::Equal, CompareResult::Greater, CompareResult::Less, CompareResult::NotEqual]
    {
        assert!(succeeds(result, TargetUnion::ModRevision(2)));
        assert!(!succeeds(result, TargetUnion::ModRevision(1)));
        assert!(!succeeds(result, TargetUnion::ModRevision(3)));
        assert!(succeeds(result, TargetUnion::Version(2)));
        assert!(!succeeds(result, TargetUnion::Version(1)));
        assert!(!succeeds(result, TargetUnion::Version(3)));
    }
}
