//! The logic of an etcd-compatible key-value server: a revisioned store with
//! watches, leases, authentication, membership and the decisions of its
//! request handlers, each with a proved contract.

pub mod alarm;
pub mod auth;
pub mod auth_laws;
pub mod block_deque;
pub mod clock;
pub mod compactor;
pub mod config;
pub mod config_laws;
pub mod election;
pub mod election_laws;
pub mod etcdserverpb;
pub mod history;
pub mod keyspace;
pub mod keyspace_laws;
pub mod kv_laws;
pub mod kv_service;
pub mod lease;
pub mod lease_laws;
pub mod lease_service;
pub mod lock;
pub mod maintenance_service;
pub mod membership;
pub mod membership_laws;
pub mod mvccpb;
pub mod notify;
pub mod order;
pub mod outside;
pub mod pkg;
pub mod raft;
pub mod raft_laws;
pub mod rpc;
pub mod sha256;
pub mod snap;
pub mod sorted_map;
pub mod store;
pub mod store_laws;
pub mod text;
pub mod transfer;
pub mod v3electionpb;
pub mod v3lockpb;
pub mod watch_laws;
pub mod watch_service;
