use mem_etcd::etcdserverpb::request_op::Request;
use mem_etcd::etcdserverpb::{RangeRequest, RequestOp, TxnRequest};
use mem_etcd::pkg::pbutil::is_maybe_fragmented;

#[test]
fn test_is_maybe_fragmented() {
    let range_op = RequestOp {
        request: Some(Request::RequestRange(RangeRequest::default())),
    };
    assert!(!is_maybe_fragmented(&range_op).unwrap());

    let txn_op = RequestOp {
        request: Some(Request::RequestTxn(TxnRequest::default())),
    };
    assert!(is_maybe_fragmented(&txn_op).unwrap());
}
