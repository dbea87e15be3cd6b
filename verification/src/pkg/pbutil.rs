//! Questions on requests as they are sent.

use crate::etcdserverpb::request_op::Request;
use crate::etcdserverpb::RequestOp;
use vstd::prelude::*;

verus! {

/// Whether an operation holds a transaction, which may need more than one entry of
/// the log.
pub fn is_maybe_fragmented(op: &RequestOp) -> (r: Result<bool, String>)
    ensures
        r == Ok::<bool, String>(op.request matches Some(Request::RequestTxn(_))),
{
    match &op.request {
        Some(Request::RequestTxn(_)) => Ok(true),
        _ => Ok(false),
    }
}

} // verus!
