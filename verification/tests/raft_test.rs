use bytes::Bytes;
use mem_etcd::raft::{
    in_memory_address, leader_wait, parse_peers, Entry, EntryPayload, LeaderWait, LogEntry, LogId,
    node_error, FullSnapshotData, MemLogStore, PeerError, PeerMap, RaftMetrics, RaftRequest, RaftRpc, Router, SnapshotMeta,
    StateMachineStore, StoredMembership, StoredSnapshot, Vote,
};
use mem_etcd::store::Store;

fn id(index: u64) -> LogId {
    LogId { term: 1, node_id: 1, index }
}

fn put(index: u64, key: &[u8], value: &'static [u8]) -> Entry<Vec<u64>> {
    Entry {
        log_id: id(index),
        payload: EntryPayload::Normal(RaftRequest::Put {
            key: key.to_vec(),
            value: Bytes::from_static(value),
        }),
    }
}

fn delete(index: u64, key: &[u8]) -> Entry<Vec<u64>> {
    Entry {
        log_id: id(index),
        payload: EntryPayload::Normal(RaftRequest::Delete { key: key.to_vec() }),
    }
}

fn entries() -> Vec<Entry<Vec<u64>>> {
    vec![
        Entry { log_id: id(1), payload: EntryPayload::Blank },
        put(2, b"a", b"1"),
        Entry { log_id: id(3), payload: EntryPayload::Membership(vec![1, 2, 3]) },
        put(4, b"b", b"2"),
        put(5, b"a", b"3"),
        delete(6, b"b"),
        delete(7, b"c"),
    ]
}

fn value(store: &Store, key: &[u8]) -> Option<Bytes> {
    let r = store.range(key.to_vec(), vec![], 0, None).unwrap();
    r.kvs.first().map(|kv| kv.value.clone())
}

#[test]
fn replicas_agree() {
    let mut a = Store::new(None);
    let mut b = Store::new(None);
    let mut m = StateMachineStore::new(Vec::new());
    let mut n = StateMachineStore::new(Vec::new());
    let all = m.apply(&mut a, entries());
    // The other replica gets the entries one by one.
    let mut one_by_one = Vec::new();
    for e in entries() {
        one_by_one.push(n.apply_entry(&mut b, e).revision);
    }
    let revisions: Vec<i64> = all.iter().map(|r| r.revision).collect();
    assert_eq!(revisions, one_by_one);
    assert_eq!(a.current_revision(), 4);
    assert_eq!(b.current_revision(), 4);
    for s in [&a, &b] {
        assert_eq!(value(s, b"a"), Some(Bytes::from_static(b"3")));
        assert_eq!(value(s, b"b"), None);
    }
    let (last_applied, stored) = m.applied_state();
    assert_eq!(last_applied, Some(id(7)));
    assert_eq!(stored.membership, vec![1, 2, 3]);
    assert_eq!(stored.log_id, Some(id(3)));
}

#[test]
fn empty_values_replicate() {
    let mut s = Store::new(None);
    let mut m = StateMachineStore::new(Vec::<u64>::new());
    m.apply(&mut s, vec![put(1, b"empty", b"")]);
    assert_eq!(value(&s, b"empty"), Some(Bytes::new()));
}

#[test]
fn snapshots_carry_the_store() {
    let mut a = Store::new(None);
    let mut m = StateMachineStore::new(Vec::new());
    m.apply(&mut a, entries());
    m.apply(&mut a, vec![put(8, b"/registry/pods/x", b""), put(9, b"0", b"first")]);
    let contents = m.snapshot_data(&a);
    assert_eq!(contents.last_applied_log, Some(id(9)));
    assert_eq!(contents.last_membership.membership, vec![1, 2, 3]);
    assert_eq!(
        contents.kv_entries,
        vec![
            (b"/registry/pods/x".to_vec(), b"".to_vec(), 5, 5, 1),
            (b"0".to_vec(), b"first".to_vec(), 6, 6, 1),
            (b"a".to_vec(), b"3".to_vec(), 1, 3, 2),
        ]
    );
    assert!(Store::can_import_snapshot(&contents.kv_entries));

    // A node that is behind, with a key that is no longer there.
    let mut b = Store::new(None);
    let mut n = StateMachineStore::new(Vec::new());
    n.apply(&mut b, vec![put(2, b"a", b"1"), put(4, b"b", b"2")]);
    m.build_snapshot(vec![7]);
    let made = m.get_current_snapshot().unwrap();
    let sent = StoredSnapshot {
        meta: SnapshotMeta {
            last_log_id: made.meta.last_log_id,
            last_membership: StoredMembership { log_id: Some(id(3)), membership: vec![1, 2, 3] },
            snapshot_id: made.meta.snapshot_id.clone(),
        },
        data: made.data.clone(),
    };
    n.install_snapshot(&mut b, sent, contents);
    assert_eq!(n.applied_state().0, Some(id(9)));
    assert_eq!(b.export_snapshot_data(), a.export_snapshot_data());
    assert_eq!(value(&b, b"b"), None);
    // Both go on in the same way.
    let more = || vec![put(10, b"a", b"4"), put(11, b"b", b"5"), delete(12, b"0")];
    let x: Vec<i64> = m.apply(&mut a, more()).iter().map(|r| r.revision).collect();
    let y: Vec<i64> = n.apply(&mut b, more()).iter().map(|r| r.revision).collect();
    assert_eq!(x, vec![7, 8, 9]);
    assert_eq!(x, y);
    assert_eq!(b.export_snapshot_data(), a.export_snapshot_data());
}

#[test]
fn imports_replace_everything() {
    let mut s = Store::new(None);
    s.set(b"old".to_vec(), Some(Bytes::from_static(b"1")), None).unwrap();
    s.set(b"old".to_vec(), Some(Bytes::from_static(b"2")), None).unwrap();
    let watcher = s.watch(b"k".to_vec(), vec![], 0, false);
    assert!(watcher.is_ok());
    let _ = s.take_jobs();
    // The last entry of a key counts, in whatever order they come.
    s.import_snapshot_data(vec![
        (b"z".to_vec(), b"26".to_vec(), 3, 4, 2),
        (b"k".to_vec(), b"x".to_vec(), 1, 1, 1),
        (b"k".to_vec(), b"y".to_vec(), 2, 9, 5),
    ]);
    assert_eq!(
        s.export_snapshot_data(),
        vec![
            (b"k".to_vec(), b"y".to_vec(), 2, 9, 5),
            (b"z".to_vec(), b"26".to_vec(), 3, 4, 2),
        ]
    );
    assert_eq!(s.current_revision(), 9);
    assert_eq!(s.compacted_revision(), 9);
    assert!(s.range(b"k".to_vec(), vec![], 5, None).is_err());
    assert_eq!(value(&s, b"old"), None);
    assert!(s.take_jobs().is_empty());
    // Watchers stay, and writes go on from there.
    assert_eq!(s.watcher_count(), 1);
    assert_eq!(s.set(b"k".to_vec(), Some(Bytes::from_static(b"new")), None).unwrap(), 10);
    let jobs = s.take_jobs();
    assert_eq!(jobs[0].watchers.len(), 1);
    assert_eq!(jobs[0].msg.kv.version, 6);
    assert_eq!(jobs[0].msg.kv.create_revision, 2);
    // An import of nothing leaves nothing, and no revision comes twice.
    s.import_snapshot_data(vec![]);
    assert!(s.export_snapshot_data().is_empty());
    assert_eq!(s.current_revision(), 10);
    assert_eq!(s.set(b"k".to_vec(), Some(Bytes::from_static(b"1")), None).unwrap(), 11);
}

#[test]
fn wrong_revisions_are_not_imported() {
    let entry = |create, modified, version| vec![(b"k".to_vec(), b"v".to_vec(), create, modified, version)];
    assert!(Store::can_import_snapshot(&entry(1, 1, 1)));
    assert!(Store::can_import_snapshot(&vec![]));
    assert!(!Store::can_import_snapshot(&entry(0, 1, 1)));
    assert!(!Store::can_import_snapshot(&entry(2, 1, 1)));
    assert!(!Store::can_import_snapshot(&entry(1, 1, 0)));
    assert!(!Store::can_import_snapshot(&entry(1, 1, 2)));
    assert!(!Store::can_import_snapshot(&entry(1, -1, 1)));
}

#[test]
fn snapshots_are_named_and_installed() {
    let mut s = Store::new(None);
    let mut m = StateMachineStore::new(Vec::<u64>::new());
    assert!(m.get_current_snapshot().is_none());
    m.build_snapshot(vec![1]);
    assert_eq!(m.get_current_snapshot().unwrap().meta.snapshot_id, "--1");
    m.apply(&mut s, vec![put(9, b"a", b"1")]);
    m.build_snapshot(vec![2]);
    let made = m.get_current_snapshot().unwrap();
    assert_eq!(made.meta.snapshot_id, "T1-N1-9-2");
    assert_eq!(made.meta.last_log_id, Some(id(9)));
    assert_eq!(made.data, vec![2]);

    let mut n = StateMachineStore::new(Vec::<u64>::new());
    let sent = StoredSnapshot {
        meta: SnapshotMeta {
            last_log_id: made.meta.last_log_id,
            last_membership: StoredMembership { log_id: None, membership: vec![4] },
            snapshot_id: made.meta.snapshot_id.clone(),
        },
        data: made.data.clone(),
    };
    let contents = FullSnapshotData {
        last_applied_log: Some(id(9)),
        last_membership: StoredMembership { log_id: None, membership: vec![4] },
        kv_entries: vec![(b"a".to_vec(), b"1".to_vec(), 1, 1, 1)],
    };
    let mut t = Store::new(None);
    n.install_snapshot(&mut t, sent, contents);
    assert_eq!(value(&t, b"a"), Some(Bytes::from_static(b"1")));
    assert_eq!(n.applied_state().0, Some(id(9)));
    assert_eq!(n.applied_state().1.membership, vec![4]);
    assert_eq!(n.get_current_snapshot().unwrap().meta.snapshot_id, "T1-N1-9-2");
    assert_eq!(n.get_current_snapshot().unwrap().data, vec![2]);
}

#[test]
fn log_keeps_what_is_appended() {
    let mut log: MemLogStore<u32> = MemLogStore::new();
    assert_eq!(log.get_log_state().last_log_id, None);
    log.append((1..=5).map(|i| LogEntry { log_id: id(i), entry: i as u32 * 10 }).collect());
    let got: Vec<u32> = log.try_get_log_entries(2, Some(4)).iter().map(|e| e.entry).collect();
    assert_eq!(got, vec![20, 30]);
    let got: Vec<u32> = log.try_get_log_entries(4, None).iter().map(|e| e.entry).collect();
    assert_eq!(got, vec![40, 50]);
    log.truncate(id(5));
    assert_eq!(log.get_log_state().last_log_id, Some(id(4)));
    log.purge(id(2));
    assert_eq!(log.get_log_state().last_purged_log_id, Some(id(2)));
    let got: Vec<u32> = log.try_get_log_entries(0, None).iter().map(|e| e.entry).collect();
    assert_eq!(got, vec![30, 40]);
    log.purge(id(4));
    assert_eq!(log.get_log_state().last_log_id, Some(id(4)));
}

#[test]
fn log_keeps_votes() {
    let mut log: MemLogStore<u32> = MemLogStore::new();
    assert_eq!(log.read_vote(), None);
    let vote = Vote { term: 3, node_id: 2, committed: true };
    log.save_vote(vote);
    assert_eq!(log.read_vote(), Some(vote));
    log.save_committed(Some(id(8)));
    assert_eq!(log.read_committed(), Some(id(8)));
}

#[test]
fn peers_are_read() {
    let peers = parse_peers("1@host1:2380, 2@host2:2380").unwrap();
    assert_eq!(
        peers,
        vec![(1, "host1:2380".to_string()), (2, "host2:2380".to_string())]
    );
    assert!(matches!(parse_peers("nonsense"), Err(PeerError::InvalidEntry(_))));
    assert!(matches!(parse_peers("x@host"), Err(PeerError::InvalidId(_))));
    assert_eq!(parse_peers("x@host").unwrap_err().text(), "invalid digit found in string");

    let map = PeerMap::new(peers);
    assert_eq!(map.endpoint(2).unwrap(), "http://host2:2380");
    assert_eq!(map.endpoint(3).unwrap_err(), "node 3 address not found");
    assert_eq!(in_memory_address(4), "in-memory-4");
}

#[test]
fn rpc_paths_lead_back() {
    for rpc in [RaftRpc::Append, RaftRpc::Vote, RaftRpc::Snapshot] {
        assert_eq!(RaftRpc::of_path(rpc.path()), Some(rpc));
    }
    assert_eq!(RaftRpc::of_path("/raft/other"), None);
}

#[test]
fn leader_is_waited_for() {
    let none = RaftMetrics { id: 1, current_leader: None };
    let some = RaftMetrics { id: 1, current_leader: Some(2) };
    assert_eq!(leader_wait(&some, true), LeaderWait::Leader(2));
    assert_eq!(leader_wait(&none, false), LeaderWait::Sleep);
    assert_eq!(leader_wait(&none, true), LeaderWait::TimedOut);
}

#[test]
fn nodes_are_found_while_they_are_registered() {
    let mut r: Router<&str> = Router::new();
    assert_eq!(r.target(1).unwrap_err(), "node 1 not found");
    r.register(2, "b");
    r.register(1, "a");
    r.register(2, "c");
    assert_eq!(r.target(1), Ok(&"a"));
    assert_eq!(r.target(2), Ok(&"c"));
    r.unregister(1);
    assert_eq!(r.target(1).unwrap_err(), "node 1 not found");
    assert_eq!(r.target(2), Ok(&"c"));
    assert_eq!(node_error(3, " channel closed"), "node 3 channel closed");
}
