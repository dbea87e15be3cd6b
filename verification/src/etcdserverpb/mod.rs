//! The requests of clients and the responses to them.

use crate::mvccpb::{Event, KeyValue};
use vstd::prelude::*;

pub mod compare;
pub mod request_op;
pub mod response_op;
pub mod watch_request;

verus! {

/// What every response starts with.
#[derive(Clone, Copy, Debug, PartialEq, Eq, Structural, Default)]
pub struct ResponseHeader {
    pub cluster_id: u64,
    pub member_id: u64,
    pub revision: i64,
    pub raft_term: u64,
}

/// The header that names a revision.
pub open spec fn header_at(revision: int) -> ResponseHeader {
    ResponseHeader { cluster_id: 0, member_id: 0, revision: revision as i64, raft_term: 0 }
}

impl ResponseHeader {
    /// The header that names a revision.
    pub fn at(revision: i64) -> (r: ResponseHeader)
        ensures
            r == header_at(revision as int),
    {
        ResponseHeader { cluster_id: 0, member_id: 0, revision, raft_term: 0 }
    }
}

/// Asks for the pairs of a range.
#[derive(Debug, Default)]
pub struct RangeRequest {
    pub key: Vec<u8>,
    pub range_end: Vec<u8>,
    pub limit: i64,
    pub revision: i64,
    pub sort_order: i32,
    pub sort_target: i32,
    pub serializable: bool,
    pub keys_only: bool,
    pub count_only: bool,
    pub min_mod_revision: i64,
    pub max_mod_revision: i64,
    pub min_create_revision: i64,
    pub max_create_revision: i64,
}

/// The pairs of a range.
#[derive(Debug)]
pub struct RangeResponse {
    pub header: Option<ResponseHeader>,
    pub kvs: Vec<KeyValue>,
    pub more: bool,
    pub count: i64,
}

/// Asks for a write.
#[derive(Debug, Default)]
pub struct PutRequest {
    pub key: Vec<u8>,
    pub value: Vec<u8>,
    pub lease: i64,
    pub prev_kv: bool,
    pub ignore_value: bool,
    pub ignore_lease: bool,
}

/// What a write did.
#[derive(Debug)]
pub struct PutResponse {
    pub header: Option<ResponseHeader>,
    pub prev_kv: Option<KeyValue>,
}

/// Asks for a deletion.
#[derive(Debug, Default)]
pub struct DeleteRangeRequest {
    pub key: Vec<u8>,
    pub range_end: Vec<u8>,
    pub prev_kv: bool,
}

/// What a deletion did.
#[derive(Debug)]
pub struct DeleteRangeResponse {
    pub header: Option<ResponseHeader>,
    pub deleted: i64,
    pub prev_kvs: Vec<KeyValue>,
}

/// A condition of a transaction.
#[derive(Debug, Default)]
pub struct Compare {
    pub result: i32,
    pub target: i32,
    pub key: Vec<u8>,
    pub range_end: Vec<u8>,
    pub target_union: Option<compare::TargetUnion>,
}

/// An operation of a transaction.
#[derive(Debug, Default)]
pub struct RequestOp {
    pub request: Option<request_op::Request>,
}

/// Asks for a transaction: the operations of `success` where the conditions hold,
/// and those of `failure` where they do not.
#[derive(Debug, Default)]
pub struct TxnRequest {
    pub compare: Vec<Compare>,
    pub success: Vec<RequestOp>,
    pub failure: Vec<RequestOp>,
}

/// What an operation of a transaction did.
#[derive(Debug)]
pub struct ResponseOp {
    pub response: Option<response_op::Response>,
}

/// What a transaction did.
#[derive(Debug)]
pub struct TxnResponse {
    pub header: Option<ResponseHeader>,
    pub succeeded: bool,
    pub responses: Vec<ResponseOp>,
}

/// Asks for a compaction.
#[derive(Debug, Default)]
pub struct CompactionRequest {
    pub revision: i64,
    pub physical: bool,
}

/// What a compaction did.
#[derive(Debug)]
pub struct CompactionResponse {
    pub header: Option<ResponseHeader>,
}

/// Asks for a watch.
#[derive(Debug, Default)]
pub struct WatchCreateRequest {
    pub key: Vec<u8>,
    pub range_end: Vec<u8>,
    pub start_revision: i64,
    pub progress_notify: bool,
    pub filters: Vec<i32>,
    pub prev_kv: bool,
    pub watch_id: i64,
    pub fragment: bool,
}

/// Asks for the end of a watch.
#[derive(Debug, Default)]
pub struct WatchCancelRequest {
    pub watch_id: i64,
}

/// Asks for the progress of a watch.
#[derive(Debug, Default)]
pub struct WatchProgressRequest {}

/// A message on a watch stream.
#[derive(Debug, Default)]
pub struct WatchRequest {
    pub request_union: Option<watch_request::RequestUnion>,
}

/// What a watch tells.
#[derive(Debug)]
pub struct WatchResponse {
    pub header: Option<ResponseHeader>,
    pub watch_id: i64,
    pub created: bool,
    pub canceled: bool,
    pub compact_revision: i64,
    pub cancel_reason: String,
    pub fragment: bool,
    pub events: Vec<Event>,
}

/// Asks for a lease.
#[derive(Debug, Default)]
pub struct LeaseGrantRequest {
    pub ttl: i64,
    pub id: i64,
}

/// A granted lease.
#[derive(Debug, Default)]
pub struct LeaseGrantResponse {
    pub header: Option<ResponseHeader>,
    pub id: i64,
    pub ttl: i64,
    pub error: String,
}

/// Asks for the end of a lease.
#[derive(Debug, Default)]
pub struct LeaseRevokeRequest {
    pub id: i64,
}

/// The end of a lease.
#[derive(Debug, Default)]
pub struct LeaseRevokeResponse {
    pub header: Option<ResponseHeader>,
}

/// A lease that goes on.
#[derive(Debug, Default)]
pub struct LeaseKeepAliveResponse {
    pub header: Option<ResponseHeader>,
    pub id: i64,
    pub ttl: i64,
}

/// The alarms that are raised.
#[derive(Debug)]
pub struct AlarmResponse {
    pub header: Option<ResponseHeader>,
    pub alarms: Vec<crate::alarm::AlarmMember>,
}

/// The state of the server.
#[derive(Debug, Default)]
pub struct StatusResponse {
    pub header: Option<ResponseHeader>,
    pub version: String,
    pub db_size: i64,
    pub leader: u64,
    pub raft_index: u64,
    pub raft_term: u64,
    pub raft_applied_index: u64,
    pub errors: Vec<String>,
    pub db_size_in_use: i64,
    pub is_learner: bool,
}

/// What a defragmentation did.
#[derive(Debug, Default)]
pub struct DefragmentResponse {
    pub header: Option<ResponseHeader>,
}

/// A member of the cluster.
#[derive(Debug, Default)]
pub struct Member {
    pub id: u64,
    pub name: String,
    pub peer_ur_ls: Vec<String>,
    pub client_ur_ls: Vec<String>,
    pub is_learner: bool,
}

/// Asks for a new member.
#[derive(Debug, Default)]
pub struct MemberAddRequest {
    pub peer_ur_ls: Vec<String>,
    pub is_learner: bool,
}

/// A new member.
#[derive(Debug, Default)]
pub struct MemberAddResponse {
    pub header: Option<ResponseHeader>,
    pub member: Option<Member>,
    pub members: Vec<Member>,
}

/// Asks that a member leaves.
#[derive(Debug, Default)]
pub struct MemberRemoveRequest {
    pub id: u64,
}

/// Gives a member other addresses.
#[derive(Debug, Default)]
pub struct MemberUpdateRequest {
    pub id: u64,
    pub peer_ur_ls: Vec<String>,
}

/// Makes a learner a voting member.
#[derive(Debug, Default)]
pub struct MemberPromoteRequest {
    pub id: u64,
}

/// The members of the cluster.
#[derive(Debug, Default)]
pub struct MembersResponse {
    pub header: Option<ResponseHeader>,
    pub members: Vec<Member>,
}

} // verus!
