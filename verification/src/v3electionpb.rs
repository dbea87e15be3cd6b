//! The requests of elections and the responses to them.

use crate::mvccpb::FlatView;
use vstd::prelude::*;

verus! {

/// Asks for the leadership of an election.
#[derive(Debug, Default)]
pub struct CampaignRequest {
    pub name: Vec<u8>,
    pub lease: i64,
    pub value: Vec<u8>,
}

/// The leader after a campaign.
#[derive(Debug, Default)]
pub struct CampaignResponse {
    pub leader_key: Vec<u8>,
    pub leader_value: Vec<u8>,
    pub leader_create_revision: i64,
    pub leader_mod_revision: i64,
    pub leader_version: i64,
    pub leader_lease: i64,
    pub revision: i64,
}

impl View for CampaignResponse {
    type V = FlatView;

    open spec fn view(&self) -> FlatView {
        FlatView {
            key: self.leader_key@,
            value: self.leader_value@,
            create_revision: self.leader_create_revision as int,
            mod_revision: self.leader_mod_revision as int,
            version: self.leader_version as int,
            lease: self.leader_lease as int,
            revision: self.revision as int,
        }
    }
}

/// Gives the leader of an election a new value.
#[derive(Debug, Default)]
pub struct ProclaimRequest {
    pub name: Vec<u8>,
    pub value: Vec<u8>,
}

/// The revision of the new value.
#[derive(Debug, Default)]
pub struct ProclaimResponse {
    pub revision: i64,
}

/// Asks for the leader of an election.
#[derive(Debug, Default)]
pub struct LeaderRequest {
    pub name: Vec<u8>,
}

/// The leader of an election.
#[derive(Debug, Default)]
pub struct LeaderResponse {
    pub kv_key: Vec<u8>,
    pub kv_value: Vec<u8>,
    pub kv_create_revision: i64,
    pub kv_mod_revision: i64,
    pub kv_version: i64,
    pub kv_lease: i64,
    pub revision: i64,
}

impl View for LeaderResponse {
    type V = FlatView;

    open spec fn view(&self) -> FlatView {
        FlatView {
            key: self.kv_key@,
            value: self.kv_value@,
            create_revision: self.kv_create_revision as int,
            mod_revision: self.kv_mod_revision as int,
            version: self.kv_version as int,
            lease: self.kv_lease as int,
            revision: self.revision as int,
        }
    }
}

/// Asks for the leaders of an election as they change.
#[derive(Debug, Default)]
pub struct ObserveRequest {
    pub name: Vec<u8>,
}

/// Ends the leadership of an election.
#[derive(Debug, Default)]
pub struct ResignRequest {
    pub name: Vec<u8>,
}

/// The revision of the end of the leadership.
#[derive(Debug, Default)]
pub struct ResignResponse {
    pub revision: i64,
}

} // verus!
