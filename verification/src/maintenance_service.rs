//! The maintenance requests.

use crate::etcdserverpb::{
    header_at, AlarmResponse, DefragmentResponse, ResponseHeader, StatusResponse,
};
use crate::lease_service::not_implemented;
use crate::rpc::status::Status;
use crate::store::Store;
use vstd::prelude::*;
use vstd::string::*;

verus! {

/// The maintenance requests.
#[derive(Debug)]
pub struct MaintenanceService {}

impl MaintenanceService {
    /// The maintenance requests.
    pub fn new() -> (r: MaintenanceService) {
        MaintenanceService {  }
    }

    /// No alarm is raised.
    pub fn alarm(&self, store: &Store) -> (r: AlarmResponse)
        requires
            store.wf(),
        ensures
            r.header == Some(header_at(store@.history.current())),
            r.alarms@.len() == 0,
    {
        AlarmResponse {
            header: Some(ResponseHeader::at(store.current_revision())),
            alarms: Vec::new(),
        }
    }

    /// The state of the server: its version, which has to be late enough for clients
    /// to rely on the progress of watches, and the size of the values that are kept.
    pub fn status(&self, store: &Store) -> (r: StatusResponse)
        requires
            store.wf(),
            store@.history.bytes() <= i64::MAX,
        ensures
            r.header == Some(header_at(store@.history.current())),
            r.version@ == "3.5.16"@,
            r.db_size == store@.history.bytes(),
            r.db_size_in_use == store@.history.bytes(),
            r.leader == 0,
            r.raft_index == 0,
            r.raft_term == 0,
            r.raft_applied_index == 0,
            r.errors@.len() == 0,
            !r.is_learner,
    {
        let db_size = store.value_bytes() as i64;
        StatusResponse {
            header: Some(ResponseHeader::at(store.current_revision())),
            version: "3.5.16".to_owned(),
            db_size,
            leader: 0,
            raft_index: 0,
            raft_term: 0,
            raft_applied_index: 0,
            errors: Vec::new(),
            db_size_in_use: db_size,
            is_learner: false,
        }
    }

    /// There is nothing to defragment.
    pub fn defragment(&self, store: &Store) -> (r: DefragmentResponse)
        requires
            store.wf(),
        ensures
            r.header == Some(header_at(store@.history.current())),
    {
        DefragmentResponse { header: Some(ResponseHeader::at(store.current_revision())) }
    }

    /// The store is not hashed.
    pub fn hash(&self) -> (r: Status)
        ensures
            r@ == not_implemented("hash not implemented"@),
    {
        Status::unimplemented("hash not implemented")
    }

    /// The keys are not hashed.
    pub fn hash_kv(&self) -> (r: Status)
        ensures
            r@ == not_implemented("hash_kv not implemented"@),
    {
        Status::unimplemented("hash_kv not implemented")
    }

    /// No snapshot is sent.
    pub fn snapshot(&self) -> (r: Status)
        ensures
            r@ == not_implemented("snapshot not implemented"@),
    {
        Status::unimplemented("snapshot not implemented")
    }

    /// The leader is not moved.
    pub fn move_leader(&self) -> (r: Status)
        ensures
            r@ == not_implemented("move_leader not implemented"@),
    {
        Status::unimplemented("move_leader not implemented")
    }

    /// There is no downgrade.
    pub fn downgrade(&self) -> (r: Status)
        ensures
            r@ == not_implemented("downgrade not implemented"@),
    {
        Status::unimplemented("downgrade not implemented")
    }
}

} // verus!
