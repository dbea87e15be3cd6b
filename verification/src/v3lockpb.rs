//! The requests of locks and the responses to them.

use crate::mvccpb::FlatView;
use vstd::prelude::*;

verus! {

/// Asks for a lock.
#[derive(Debug, Default)]
pub struct LockRequest {
    pub name: Vec<u8>,
    pub lease: i64,
}

/// A lock that was acquired.
#[derive(Debug, Default)]
pub struct LockResponse {
    pub kv_key: Vec<u8>,
    pub kv_value: Vec<u8>,
    pub kv_create_revision: i64,
    pub kv_mod_revision: i64,
    pub kv_version: i64,
    pub kv_lease: i64,
    pub revision: i64,
}

impl View for LockResponse {
    type V = FlatView;

    open spec fn view(&self) -> FlatView {
        FlatView {
            key: self.kv_key@,
            value: self.kv_value@,
            create_revision: self.kv_create_revision as int,
            mod_revision: self.kv_mod_revision as int,
            version: self.kv_version as int,
            lease: self.kv_lease as int,
            revision: self.revision as int,
        }
    }
}

/// Gives a lock back.
#[derive(Debug, Default)]
pub struct UnlockRequest {
    pub name: Vec<u8>,
}

/// The revision at which a lock was given back.
#[derive(Debug, Default)]
pub struct UnlockResponse {
    pub revision: i64,
}

} // verus!
