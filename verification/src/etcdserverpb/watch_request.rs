//! What a client can ask on a watch stream.

use crate::etcdserverpb::{WatchCancelRequest, WatchCreateRequest, WatchProgressRequest};
use vstd::prelude::*;

verus! {

/// What a message on a watch stream asks for.
#[derive(Debug)]
pub enum RequestUnion {
    CreateRequest(WatchCreateRequest),
    CancelRequest(WatchCancelRequest),
    ProgressRequest(WatchProgressRequest),
}

} // verus!
