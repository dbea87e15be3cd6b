//! The configuration of a server, and what it starts with.

use crate::history::History;
use crate::notify::{opt_vec, WalMode, WalRecord};
use crate::outside::{bytes_from_vec, byte_set_contents, byte_set_insert, byte_set_new};
use crate::raft::{
    parse_peers, peer_of, peer_views, peers_of, read_peer, NodeId, PeerErrorView,
};
use crate::store::{Store, StoreView, WalSettings};
use crate::text::{chars_of, joined, pieces, split, text_equal, views};
use dashmap::DashSet;
use vstd::prelude::*;
use vstd::string::*;
use vstd::utf8::*;

verus! {

/// Whether a node starts a cluster or joins one.
#[derive(Clone, Copy, Debug, PartialEq, Eq, Structural)]
pub enum ClusterState {
    New,
    Existing,
}

/// The configuration of a server.
#[derive(Debug)]
pub struct ServerConfig {
    /// The name of this member.
    pub name: String,
    pub data_dir: String,
    /// The directory of the write-ahead log; empty for no log.
    pub wal_dir: String,
    /// How the log is kept: `none`, `async` or `sync`.
    pub wal_mode: String,
    /// Where clients are served.
    pub listen_client_addr: String,
    /// Where other members are served.
    pub listen_peer_addr: Option<String>,
    /// The members of a new cluster: their names and addresses.
    pub initial_cluster: Vec<(String, String)>,
    pub initial_cluster_state: ClusterState,
    pub cluster_name: String,
    /// Writes are replicated.
    pub enable_raft: bool,
    /// The number of this node.
    pub raft_node_id: Option<u64>,
    /// The nodes: `1@host:port,2@host:port`.
    pub raft_peers: Option<String>,
    /// This node initialises the cluster.
    pub raft_init: bool,
    /// The entries between two snapshots.
    pub snapshot_count: u64,
    /// The snapshots that are kept.
    pub max_snapshots: u64,
    pub max_request_bytes: i64,
    pub quota_backend_bytes: i64,
    /// When the store is compacted: `periodic` or `revision`.
    pub auto_compaction_mode: String,
    /// The time or the number of revisions between compactions.
    pub auto_compaction_retention: String,
    /// The kind of tokens.
    pub auth_token: String,
    pub enable_auth: bool,
    /// The prefixes of keys that the log does not keep.
    pub wal_no_write_prefixes: Vec<String>,
}

/// The mode that a word names.
pub open spec fn wal_mode_of(word: Seq<char>) -> Option<WalMode> {
    if word == "none"@ {
        Some(WalMode::Off)
    } else if word == "async"@ {
        Some(WalMode::Async)
    } else if word == "sync"@ {
        Some(WalMode::Sync)
    } else {
        None
    }
}

/// The name of a member stands in a list of members.
pub open spec fn is_listed(members: Seq<(String, String)>, name: Seq<char>) -> bool {
    exists|i: int| 0 <= i < members.len() && (#[trigger] members[i]).0@ == name
}

/// Why a configuration is refused, if it is.
pub open spec fn config_error(c: ServerConfig) -> Option<Seq<char>> {
    if c.name@.len() == 0 {
        Some("name must not be empty"@)
    } else if wal_mode_of(c.wal_mode@) is None {
        Some(
            "invalid wal_mode: '"@ + c.wal_mode@ + "' (expected 'none', 'async', or 'sync')"@,
        )
    } else if c.listen_client_addr@.len() == 0 {
        Some("listen_client_addr must not be empty"@)
    } else if c.initial_cluster_state == ClusterState::New && c.initial_cluster@.len() > 0
        && !is_listed(c.initial_cluster@, c.name@) {
        Some("node '"@ + c.name@ + "' not found in initial_cluster"@)
    } else {
        None
    }
}

/// The address of a node in a list of peers: that of the first entry with its
/// number. Entries that cannot be read are passed over.
pub open spec fn peer_address(entries: Seq<Seq<char>>, node_id: nat) -> Option<Seq<char>>
    decreases entries.len(),
{
    if entries.len() == 0 {
        None
    } else {
        match peer_address(entries.drop_last(), node_id) {
            Some(a) => Some(a),
            None => match peer_of(entries.last()) {
                Ok(Some((id, addr))) => if id == node_id {
                    Some(addr)
                } else {
                    None
                },
                _ => None,
            },
        }
    }
}

/// Whether a text is empty.
fn is_empty(s: &String) -> (r: bool)
    ensures
        r == (s@.len() == 0),
{
    chars_of(s.as_str()).len() == 0
}

/// The mode that a word names.
pub fn wal_mode_from_str(s: &str) -> (r: Result<WalMode, String>)
    ensures
        r is Ok == wal_mode_of(s@) is Some,
        r matches Ok(m) ==> wal_mode_of(s@) == Some(m),
        r matches Err(e) ==> e@ == "invalid wal_mode: '"@ + s@ + "'"@,
{
    if text_equal(s, "none") {
        Ok(WalMode::Off)
    } else if text_equal(s, "async") {
        Ok(WalMode::Async)
    } else if text_equal(s, "sync") {
        Ok(WalMode::Sync)
    } else {
        let mut e = joined("invalid wal_mode: '", s);
        e.append("'");
        Err(e)
    }
}

impl ServerConfig {
    /// A configuration for a single node.
    pub fn default() -> (r: ServerConfig)
        ensures
            r.name@ == "default"@,
            r.data_dir@ == "./mem_etcd.data"@,
            r.wal_dir@ == "./wal"@,
            r.wal_mode@ == "async"@,
            r.listen_client_addr@ == "[::]:2379"@,
            r.listen_peer_addr is None,
            r.initial_cluster@.len() == 0,
            r.initial_cluster_state == ClusterState::New,
            r.cluster_name@ == "default"@,
            !r.enable_raft,
            r.raft_node_id is None,
            r.raft_peers is None,
            !r.raft_init,
            r.snapshot_count == 100_000,
            r.max_snapshots == 5,
            r.max_request_bytes == 1_500_000,
            r.quota_backend_bytes == 2_000_000_000,
            r.auto_compaction_mode@ == "periodic"@,
            r.auto_compaction_retention@ == "1h"@,
            r.auth_token@ == "simple"@,
            !r.enable_auth,
            r.wal_no_write_prefixes@.len() == 0,
            config_error(r) is None,
    {
        proof {
            reveal_strlit("default");
            reveal_strlit("[::]:2379");
        }
        ServerConfig {
            name: "default".to_owned(),
            data_dir: "./mem_etcd.data".to_owned(),
            wal_dir: "./wal".to_owned(),
            wal_mode: "async".to_owned(),
            listen_client_addr: "[::]:2379".to_owned(),
            listen_peer_addr: None,
            initial_cluster: Vec::new(),
            initial_cluster_state: ClusterState::New,
            cluster_name: "default".to_owned(),
            enable_raft: false,
            raft_node_id: None,
            raft_peers: None,
            raft_init: false,
            snapshot_count: 100_000,
            max_snapshots: 5,
            max_request_bytes: 1_500_000,
            quota_backend_bytes: 2_000_000_000,
            auto_compaction_mode: "periodic".to_owned(),
            auto_compaction_retention: "1h".to_owned(),
            auth_token: "simple".to_owned(),
            enable_auth: false,
            wal_no_write_prefixes: Vec::new(),
        }
    }

    /// Refuses a configuration that makes no sense.
    pub fn validate(&self) -> (r: Result<(), String>)
        ensures
            r is Err == config_error(*self) is Some,
            r matches Err(e) ==> config_error(*self) == Some(e@),
    {
        if is_empty(&self.name) {
            return Err("name must not be empty".to_owned());
        }
        if wal_mode_from_str(self.wal_mode.as_str()).is_err() {
            let mut e = joined("invalid wal_mode: '", self.wal_mode.as_str());
            e.append("' (expected 'none', 'async', or 'sync')");
            return Err(e);
        }
        if is_empty(&self.listen_client_addr) {
            return Err("listen_client_addr must not be empty".to_owned());
        }
        if self.initial_cluster_state == ClusterState::New && self.initial_cluster.len() > 0 {
            let mut i: usize = 0;
            let mut found = false;
            while i < self.initial_cluster.len() && !found
                invariant
                    i <= self.initial_cluster@.len(),
                    found ==> is_listed(self.initial_cluster@, self.name@),
                    !found ==> forall|j: int|
                        0 <= j < i ==> (#[trigger] self.initial_cluster@[j]).0@ != self.name@,
                decreases self.initial_cluster@.len() - i,
            {
                if text_equal(self.initial_cluster[i].0.as_str(), self.name.as_str()) {
                    assert(self.initial_cluster@[i as int].0@ == self.name@);
                    found = true;
                }
                i += 1;
            }
            if !found {
                let mut e = joined("node '", self.name.as_str());
                e.append("' not found in initial_cluster");
                return Err(e);
            }
        }
        Ok(())
    }

    /// No node starts as a learner.
    pub fn is_learner(&self) -> (r: bool)
        ensures
            !r,
    {
        false
    }

    /// The address of a node in the list of peers.
    pub fn peer_url_for(&self, node_id: u64) -> (r: Option<String>)
        ensures
            ({
                let addr = match self.raft_peers {
                    Some(s) => peer_address(pieces(s@, ','), node_id as nat),
                    None => None,
                };
                &&& r is Some == addr is Some
                &&& r matches Some(a) ==> addr == Some(a@)
            }),
    {
        let peers = match &self.raft_peers {
            Some(s) => s,
            None => {
                return None;
            },
        };
        let chars = chars_of(peers.as_str());
        let list = split(&chars, ',');
        let ghost all = views(list@);
        let mut i: usize = 0;
        assert(all.take(0) =~= Seq::empty());
        while i < list.len()
            invariant
                i <= list@.len(),
                all == views(list@),
                all == pieces(peers@, ','),
                self.raft_peers == Some(*peers),
                peer_address(all.take(i as int), node_id as nat) is None,
            decreases list@.len() - i,
        {
            proof {
                assert(all.take(i + 1).drop_last() =~= all.take(i as int));
                assert(all.take(i + 1).last() == list@[i as int]@);
            }
            if let Ok(Some((id, addr))) = read_peer(&list[i]) {
                if id == node_id {
                    proof {
                        lemma_first_address(all, i + 1, node_id as nat);
                    }
                    return Some(addr);
                }
            }
            i += 1;
        }
        assert(all.take(all.len() as int) =~= all);
        None
    }
}

/// The address that the first entries give is that of the whole list.
proof fn lemma_first_address(entries: Seq<Seq<char>>, n: int, node_id: nat)
    requires
        0 <= n <= entries.len(),
        peer_address(entries.take(n), node_id) is Some,
    ensures
        peer_address(entries, node_id) == peer_address(entries.take(n), node_id),
    decreases entries.len(),
{
    if n == entries.len() {
        assert(entries.take(n) =~= entries);
    } else {
        assert(entries.drop_last().take(n) =~= entries.take(n));
        lemma_first_address(entries.drop_last(), n, node_id);
    }
}

/// How a node takes part in replication.
#[derive(Debug)]
pub struct RaftPlan {
    pub node_id: NodeId,
    pub peers: Vec<(NodeId, String)>,
    /// This node initialises the cluster.
    pub init: bool,
}

/// What a configuration comes to.
#[derive(Debug)]
pub struct BootPlan {
    pub wal: Option<WalSettings>,
    pub raft: Option<RaftPlan>,
}

/// What a server starts with.
pub struct BootstrappedServer {
    pub store: Store,
    pub raft: Option<RaftPlan>,
}

/// Why a server cannot start, if it cannot.
pub open spec fn boot_error(c: ServerConfig) -> Option<Seq<char>> {
    match config_error(c) {
        Some(e) => Some("config validation failed: "@ + e),
        None => if !c.enable_raft {
            None
        } else if c.raft_node_id is None {
            Some("--raft-node-id is required when --raft-enabled"@)
        } else {
            match c.raft_peers {
                None => Some("--raft-peers is required when --raft-enabled"@),
                Some(s) => match peers_of(pieces(s@, ',')) {
                    Err(e) => Some(e.text()),
                    Ok(_) => None,
                },
            }
        },
    }
}

/// The prefixes that the log does not keep, as bytes.
pub open spec fn prefix_bytes(prefixes: Seq<String>) -> Seq<Seq<u8>> {
    prefixes.map_values(|s: String| encode_utf8(s@))
}

/// The settings of the log: none without a directory. With replication it is not
/// read at the start.
pub open spec fn is_wal_of(w: Option<WalSettings>, c: ServerConfig) -> bool {
    &&& w is None == (c.wal_dir@.len() == 0)
    &&& w matches Some(s) ==> {
        &&& s.wal_dir@ == c.wal_dir@
        &&& wal_mode_of(c.wal_mode@) == Some(s.default_mode)
        &&& s.load_wal_dir == !c.enable_raft
        &&& byte_set_contents(s.prefix_modes_no_persist) == prefix_bytes(
            c.wal_no_write_prefixes@,
        ).to_set()
    }
}

/// How a node takes part in replication, if it does.
pub open spec fn is_raft_of(r: Option<RaftPlan>, c: ServerConfig) -> bool {
    &&& r is Some == c.enable_raft
    &&& r matches Some(p) ==> {
        &&& c.raft_node_id == Some(p.node_id)
        &&& c.raft_peers matches Some(s) && peers_of(pieces(s@, ',')) == Ok::<
            _,
            PeerErrorView,
        >(peer_views(p.peers@))
        &&& p.init == c.raft_init
    }
}

fn no_write_prefixes(prefixes: &Vec<String>) -> (r: DashSet<Vec<u8>>)
    ensures
        byte_set_contents(r) == prefix_bytes(prefixes@).to_set(),
{
    let ghost all = prefix_bytes(prefixes@);
    let mut r = byte_set_new();
    let mut i: usize = 0;
    assert(all.take(0).to_set() =~= Set::empty());
    while i < prefixes.len()
        invariant
            i <= prefixes@.len(),
            all == prefix_bytes(prefixes@),
            byte_set_contents(r) == all.take(i as int).to_set(),
        decreases prefixes@.len() - i,
    {
        let _ = byte_set_insert(&mut r, vstd::slice::slice_to_vec(prefixes[i].as_str().as_bytes()));
        proof {
            let done = all.take(i as int);
            let more = all.take(i + 1);
            assert(more =~= done.push(all[i as int]));
            assert forall|x: Seq<u8>| #[trigger] more.contains(x) <==> done.contains(x) || x
                == all[i as int] by {
                if done.contains(x) {
                    let k = choose|k: int| 0 <= k < done.len() && done[k] == x;
                    assert(more[k] == x);
                }
                assert(more[i as int] == all[i as int]);
            }
            assert(more.to_set() =~= done.to_set().insert(all[i as int]));
        }
        i += 1;
    }
    assert(all.take(all.len() as int) =~= all);
    r
}

/// What a configuration comes to.
pub fn plan(config: &ServerConfig) -> (r: Result<BootPlan, String>)
    ensures
        r is Err == boot_error(*config) is Some,
        r matches Err(e) ==> boot_error(*config) == Some(e@),
        r matches Ok(p) ==> is_wal_of(p.wal, *config) && is_raft_of(p.raft, *config),
{
    match config.validate() {
        Ok(()) => {},
        Err(e) => {
            return Err(joined("config validation failed: ", e.as_str()));
        },
    }
    let mode = match wal_mode_from_str(config.wal_mode.as_str()) {
        Ok(mode) => mode,
        Err(e) => {
            assert(false);
            return Err(e);
        },
    };
    let wal = if is_empty(&config.wal_dir) {
        None
    } else {
        Some(
            WalSettings {
                wal_dir: config.wal_dir.clone(),
                default_mode: mode,
                load_wal_dir: !config.enable_raft,
                prefix_modes_no_persist: no_write_prefixes(&config.wal_no_write_prefixes),
            },
        )
    };
    let raft = if config.enable_raft {
        let node_id = match config.raft_node_id {
            Some(id) => id,
            None => {
                return Err("--raft-node-id is required when --raft-enabled".to_owned());
            },
        };
        let peers = match &config.raft_peers {
            Some(s) => match parse_peers(s.as_str()) {
                Ok(peers) => peers,
                Err(e) => {
                    return Err(e.text());
                },
            },
            None => {
                return Err("--raft-peers is required when --raft-enabled".to_owned());
            },
        };
        Some(RaftPlan { node_id, peers, init: config.raft_init })
    } else {
        None
    };
    Ok(BootPlan { wal, raft })
}

/// A new store for a log.
pub open spec fn new_store(wal_sync: bool) -> StoreView {
    StoreView {
        history: History::empty(),
        watchers: Map::empty(),
        watch_counter: 0,
        jobs: Seq::empty(),
        progress: 0,
        wal_sync,
    }
}

/// The store after the records of a log were written into it.
pub open spec fn restored(s: StoreView, records: Seq<WalRecord>) -> StoreView
    decreases records.len(),
{
    if records.len() == 0 {
        s
    } else {
        restored(s, records.drop_last()).after_record(
            records.last().key@,
            opt_vec(records.last().value),
        )
    }
}

/// The key that takes the first revision: a tilde.
pub open spec fn first_key() -> Seq<u8> {
    seq![126u8]
}

/// Starts a server: its store has the records of the log, in their order, and then
/// a key that takes a revision, since clients take the first revision for no
/// revision.
pub fn bootstrap(config: &ServerConfig, records: Vec<WalRecord>) -> (r: Result<
    BootstrappedServer,
    String,
>)
    requires
        records@.len() < i64::MAX,
        records@.len() < usize::MAX,
    ensures
        r is Err == boot_error(*config) is Some,
        r matches Err(e) ==> boot_error(*config) == Some(e@),
        r matches Ok(b) ==> {
            &&& b.store.wf()
            &&& b.store@ == restored(
                new_store(config.wal_dir@.len() > 0 && config.wal_mode@ == "sync"@),
                records@,
            ).after_write(first_key(), Some(Seq::empty()))
            &&& is_raft_of(b.raft, *config)
        },
{
    proof {
        reveal_strlit("none");
        reveal_strlit("async");
        reveal_strlit("sync");
        assert("none"@[0] == 'n' && "async"@[0] == 'a' && "sync"@[0] == 's');
    }
    let plan = match plan(config) {
        Ok(plan) => plan,
        Err(e) => {
            return Err(e);
        },
    };
    let mut store = Store::new(plan.wal);
    let ghost start = store@;
    let ghost all = records@;
    assert(all.take(0) =~= Seq::empty());
    for rec in it: records
        invariant
            store.wf(),
            it.seq() == all,
            all.len() < i64::MAX,
            all.len() < usize::MAX,
            store@ == restored(start, all.take(it.index())),
            store@.history.current() <= it.index(),
    {
        proof {
            let n = it.index();
            assert(all.take(n + 1).drop_last() =~= all.take(n));
            assert(all.take(n + 1).last() == rec);
        }
        store.restore(rec);
    }
    assert(all.take(all.len() as int) =~= all);
    let key: Vec<u8> = vec![126u8];
    let value: Vec<u8> = Vec::new();
    proof {
        assert(key@ =~= first_key());
        assert(value@ =~= Seq::empty());
    }
    let _ = store.set(key, Some(bytes_from_vec(value)), None);
    Ok(BootstrappedServer { store, raft: plan.raft })
}

} // verus!
