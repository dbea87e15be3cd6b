use mem_etcd::lease::lessor::Lessor;
use mem_etcd::lock::{lock_key, LockService, LockStep};
use mem_etcd::mvccpb::KeyValueWithPrev;
use mem_etcd::store::Store;
use mem_etcd::v3lockpb::{LockRequest, UnlockRequest};

fn request(lease: i64) -> LockRequest {
    LockRequest { name: b"l".to_vec(), lease }
}

#[test]
fn lock_is_held_by_one() {
    let mut store = Store::new(None);
    let mut lessor = Lessor::new();
    let service = LockService::new();
    assert_eq!(lock_key(&b"l".to_vec()), b"\0lock\0l".to_vec());

    match service.lock(&mut store, &mut lessor, request(5)).unwrap() {
        LockStep::Acquired(r) => {
            assert_eq!(r.kv_key, b"\0lock\0l".to_vec());
            assert_eq!(r.revision, 1);
        }
        LockStep::Wait(_) => panic!("the lock is free"),
    }
    assert_eq!(lessor.lookup(5).unwrap().keys, vec![b"\0lock\0l".to_vec()]);
    assert!(service.lock(&mut store, &mut lessor, request(5)).is_err());
    let _ = store.take_jobs();

    let wait = match service.lock(&mut store, &mut lessor, request(6)).unwrap() {
        LockStep::Wait(w) => w,
        LockStep::Acquired(_) => panic!("the lock is held"),
    };
    assert_eq!(store.watcher_count(), 1);

    let u = service.unlock(&mut store, UnlockRequest { name: b"l".to_vec() }).unwrap();
    assert_eq!(u.revision, 2);
    let mut changes: Vec<KeyValueWithPrev> = Vec::new();
    for job in store.take_jobs() {
        if job.watchers.contains(&wait.watcher_id) {
            changes.push(job.msg.clone());
        }
    }
    assert_eq!(changes.len(), 1);
    assert!(wait.on_changes(&mut store, &changes));
    assert_eq!(store.watcher_count(), 0);
    assert!(matches!(service.attempt(&mut store, wait.key), LockStep::Acquired(_)));
}

#[test]
fn unlock_of_a_free_lock() {
    let mut store = Store::new(None);
    let service = LockService::new();
    match service.unlock(&mut store, UnlockRequest { name: b"l".to_vec() }) {
        Ok(r) => assert_eq!(r.revision, 0),
        Err(e) => assert!(!e.message().is_empty()),
    }
    assert_eq!(store.current_revision(), 0);
}

#[test]
fn locks_do_not_share_keys() {
    assert_ne!(lock_key(&b"a".to_vec()), lock_key(&b"b".to_vec()));
}
