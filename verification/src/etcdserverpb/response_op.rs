//! What the operations of a transaction did.

use crate::etcdserverpb::{DeleteRangeResponse, PutResponse, RangeResponse, TxnResponse};
use vstd::prelude::*;

verus! {

/// What an operation of a transaction did.
#[derive(Debug)]
pub enum Response {
    ResponseRange(RangeResponse),
    ResponsePut(PutResponse),
    ResponseDeleteRange(DeleteRangeResponse),
    ResponseTxn(TxnResponse),
}

} // verus!
