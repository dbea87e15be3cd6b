//! The operations that a transaction can ask for.

use crate::etcdserverpb::{DeleteRangeRequest, PutRequest, RangeRequest, TxnRequest};
use vstd::prelude::*;

verus! {

/// An operation of a transaction.
#[derive(Debug)]
pub enum Request {
    RequestRange(RangeRequest),
    RequestPut(PutRequest),
    RequestDeleteRange(DeleteRangeRequest),
    RequestTxn(TxnRequest),
}

} // verus!
