use mem_etcd::config::{bootstrap, plan, wal_mode_from_str, ClusterState, ServerConfig};
use mem_etcd::notify::{WalMode, WalRecord};

fn record(key: &[u8], value: Option<&[u8]>) -> WalRecord {
    WalRecord { prefix: vec![], rev: 0, key: key.to_vec(), value: value.map(|v| v.to_vec()) }
}

#[test]
fn default_configuration_is_valid() {
    let c = ServerConfig::default();
    assert!(c.validate().is_ok());
    assert_eq!(c.name, "default");
    assert_eq!(c.wal_mode, "async");
    assert!(!c.is_learner());
    assert_eq!(c.peer_url_for(1), None);
}

#[test]
fn refused_configurations() {
    let mut c = ServerConfig::default();
    c.name = String::new();
    assert_eq!(c.validate().unwrap_err(), "name must not be empty");
    let mut c = ServerConfig::default();
    c.wal_mode = "fast".to_string();
    assert_eq!(
        c.validate().unwrap_err(),
        "invalid wal_mode: 'fast' (expected 'none', 'async', or 'sync')"
    );
    let mut c = ServerConfig::default();
    c.listen_client_addr = String::new();
    assert_eq!(c.validate().unwrap_err(), "listen_client_addr must not be empty");
    let mut c = ServerConfig::default();
    c.initial_cluster = vec![("other".to_string(), "http://other".to_string())];
    assert_eq!(c.validate().unwrap_err(), "node 'default' not found in initial_cluster");
    c.initial_cluster_state = ClusterState::Existing;
    assert!(c.validate().is_ok());
}

#[test]
fn wal_modes() {
    assert_eq!(wal_mode_from_str("none"), Ok(WalMode::Off));
    assert_eq!(wal_mode_from_str("async"), Ok(WalMode::Async));
    assert_eq!(wal_mode_from_str("sync"), Ok(WalMode::Sync));
    assert_eq!(wal_mode_from_str("x").unwrap_err(), "invalid wal_mode: 'x'");
}

#[test]
fn peers_have_addresses() {
    let mut c = ServerConfig::default();
    c.raft_peers = Some("1@a:1,2@b:2".to_string());
    assert_eq!(c.peer_url_for(2), Some("b:2".to_string()));
    assert_eq!(c.peer_url_for(3), None);
}

#[test]
fn plans() {
    let mut c = ServerConfig::default();
    c.wal_no_write_prefixes =
        vec!["/registry/leases/".to_string(), "/registry/leases/".to_string()];
    let p = plan(&c).unwrap();
    let wal = p.wal.unwrap();
    assert_eq!(wal.wal_dir, "./wal");
    assert_eq!(wal.default_mode, WalMode::Async);
    assert!(wal.load_wal_dir);
    assert_eq!(wal.prefix_modes_no_persist.len(), 1);
    assert!(wal.prefix_modes_no_persist.contains(&b"/registry/leases/".to_vec()));
    assert!(p.raft.is_none());
    // What stands under such a prefix is not written to the log.
    let mut r = record(b"/registry/leases/a", Some(b"1"));
    r.prefix = b"/registry/leases/".to_vec();
    assert!(!wal.keeps(&r));
    r.prefix = b"/registry/pods/".to_vec();
    assert!(wal.keeps(&r));
    let mut off = ServerConfig::default();
    off.wal_mode = "none".to_string();
    assert!(!plan(&off).unwrap().wal.unwrap().keeps(&r));

    c.enable_raft = true;
    assert_eq!(plan(&c).unwrap_err(), "--raft-node-id is required when --raft-enabled");
    c.raft_node_id = Some(1);
    assert_eq!(plan(&c).unwrap_err(), "--raft-peers is required when --raft-enabled");
    c.raft_peers = Some("1@a:1".to_string());
    c.raft_init = true;
    let p = plan(&c).unwrap();
    assert!(!p.wal.unwrap().load_wal_dir);
    let raft = p.raft.unwrap();
    assert_eq!(raft.node_id, 1);
    assert!(raft.init);
    assert_eq!(raft.peers, vec![(1, "a:1".to_string())]);
    c.name = String::new();
    assert_eq!(plan(&c).unwrap_err(), "config validation failed: name must not be empty");
}

#[test]
fn bootstrap_restores_the_log() {
    let c = ServerConfig::default();
    let b = bootstrap(
        &c,
        vec![
            record(b"a", Some(b"1")),
            record(b"b", Some(b"2")),
            record(b"a", None),
            record(b"missing", None),
        ],
    )
    .unwrap();
    // Three records were written, and the key that takes a revision.
    assert_eq!(b.store.current_revision(), 4);
    assert_eq!(b.store.range(b"a".to_vec(), vec![], 0, None).unwrap().kvs.len(), 0);
    assert_eq!(b.store.range(b"b".to_vec(), vec![], 0, None).unwrap().kvs.len(), 1);
    assert_eq!(b.store.range(b"~".to_vec(), vec![], 0, None).unwrap().kvs.len(), 1);
}
