use bytes::Bytes;
use mem_etcd::mvccpb::KeyValueWithPrev;
use mem_etcd::notify::{Notifier, NotifyJob};
use mem_etcd::store::Store;

fn put(s: &mut Store, key: &[u8], value: &'static [u8]) -> i64 {
    s.set(key.to_vec(), Some(Bytes::from_static(value)), None).unwrap()
}

/// What watchers are told, in the order in which it goes out.
struct Mail {
    notifier: Notifier,
    sent: Vec<NotifyJob>,
    read: Vec<(i64, i64)>,
}

impl Mail {
    fn new() -> Mail {
        Mail { notifier: Notifier::new(), sent: Vec::new(), read: Vec::new() }
    }

    fn next(&mut self, s: &mut Store, watcher: i64) -> Option<KeyValueWithPrev> {
        for job in s.take_jobs() {
            self.sent.extend(self.notifier.offer(job));
        }
        for job in &self.sent {
            if job.watchers.contains(&watcher) && !self.read.contains(&(watcher, job.rev)) {
                self.read.push((watcher, job.rev));
                return Some(job.msg.clone());
            }
        }
        None
    }
}

#[test]
fn test_watch_past_results() {
    let mut s = Store::new(None);
    put(&mut s, b"a", b"a1"); // rev 1
    put(&mut s, b"a", b"a2"); // rev 2
    put(&mut s, b"a", b"a3"); // rev 3
    put(&mut s, b"b", b"b1"); // rev 4
    put(&mut s, b"a", b"a4"); // rev 5

    let (kvs, _) = s.watch(b"a".to_vec(), b"".to_vec(), 0, false).unwrap();
    assert_eq!(kvs.len(), 0, "unexpected kvs: {:?}", kvs);

    let (kvs, _) = s.watch(b"a".to_vec(), b"".to_vec(), 1, false).unwrap();
    assert_eq!(kvs.len(), 4, "unexpected kvs: {:?}", kvs);

    let (kvs, _) = s.watch(b"b".to_vec(), b"".to_vec(), 1, false).unwrap();
    assert_eq!(kvs.len(), 1, "unexpected kvs: {:?}", kvs);

    let (kvs, _) = s.watch(b"b".to_vec(), b"".to_vec(), 4, false).unwrap();
    assert_eq!(kvs.len(), 1, "unexpected kvs: {:?}", kvs);

    let (kvs, _) = s.watch(b"b".to_vec(), b"".to_vec(), 5, false).unwrap();
    assert_eq!(kvs.len(), 0, "unexpected kvs: {:?}", kvs);

    let (kvs, _) = s.watch(b"a".to_vec(), b"c".to_vec(), 1, false).unwrap();
    assert_eq!(kvs.len(), 5, "unexpected kvs: {:?}", kvs);
}

#[test]
fn test_watch_at_compaction() {
    let mut s = Store::new(None);
    put(&mut s, b"a", b"a1");
    put(&mut s, b"a", b"a2");
    put(&mut s, b"a", b"a3");
    put(&mut s, b"b", b"b4");

    s.compact(3).unwrap();

    let (kvs, _) = s.watch(b"a".to_vec(), b"c".to_vec(), 3, false).unwrap();
    assert_eq!(kvs.len(), 2, "unexpected kvs: {:?}", kvs);
    assert_eq!(kvs[0].kv.value, b"a3".to_vec(), "unexpected value");
    assert_eq!(kvs[1].kv.value, b"b4".to_vec(), "unexpected value");
}

#[test]
fn test_watch_single() {
    let mut s = Store::new(None);
    let mut mail = Mail::new();
    put(&mut s, b"foo", b"v1");
    put(&mut s, b"foo", b"v2");

    let (_, w) = s.watch(b"foo".to_vec(), b"".to_vec(), 0, false).unwrap();

    // Verify that w.ch is empty
    assert!(
        mail.next(&mut s, w).is_none(),
        "unexpected event"
    );

    put(&mut s, b"foo", b"v3");
    put(&mut s, b"foo", b"v4");

    let c = mail.next(&mut s, w).unwrap();
    assert_eq!(c.kv.value, b"v3".to_vec(), "unexpected value");

    let c = mail.next(&mut s, w).unwrap();
    assert_eq!(c.kv.value, b"v4".to_vec(), "unexpected value");
}

#[test]
fn test_watch_range() {
    let mut s = Store::new(None);
    let mut mail = Mail::new();
    put(&mut s, b"a", b"a1");
    put(&mut s, b"b", b"b1");

    let (_, a) = s.watch(b"a".to_vec(), b"".to_vec(), 0, false).unwrap();
    let (_, b) = s.watch(b"b".to_vec(), b"".to_vec(), 0, false).unwrap();
    let (_, ac) = s.watch(b"a".to_vec(), b"c".to_vec(), 0, false).unwrap();

    // Verify that all are empty
    assert!(
        mail.next(&mut s, a).is_none(),
        "unexpected event"
    );
    assert!(
        mail.next(&mut s, b).is_none(),
        "unexpected event"
    );
    assert!(
        mail.next(&mut s, ac).is_none(),
        "unexpected event"
    );

    put(&mut s, b"c", b"c1");
    // Verify that all are empty. Watch end range is exclusive.
    assert!(
        mail.next(&mut s, a).is_none(),
        "unexpected event"
    );
    assert!(
        mail.next(&mut s, b).is_none(),
        "unexpected event"
    );
    assert!(
        mail.next(&mut s, ac).is_none(),
        "unexpected event"
    );

    put(&mut s, b"a", b"a2");
    let v = mail.next(&mut s, a).unwrap();
    assert_eq!(v.kv.value, b"a2".to_vec(), "unexpected value");

    let v = mail.next(&mut s, ac).unwrap();
    assert_eq!(v.kv.value, b"a2".to_vec(), "unexpected value");

    assert!(
        mail.next(&mut s, b).is_none(),
        "unexpected event"
    );

    put(&mut s, b"b", b"b2");
    assert!(
        mail.next(&mut s, a).is_none(),
        "unexpected event"
    );

    let v = mail.next(&mut s, b).unwrap();
    assert_eq!(v.kv.key, b"b".to_vec(), "unexpected key");
    assert_eq!(v.kv.value, b"b2".to_vec(), "unexpected value");

    let v = mail.next(&mut s, ac).unwrap();
    assert_eq!(v.kv.key, b"b".to_vec(), "unexpected key");
    assert_eq!(v.kv.value, b"b2".to_vec(), "unexpected value");

    assert!(
        mail.next(&mut s, a).is_none(),
        "unexpected event"
    );
}

#[test]
fn test_watch_revision_error() {
    let mut s = Store::new(None);
    put(&mut s, b"a", b"a1");
    put(&mut s, b"a", b"a2");
    put(&mut s, b"a", b"a3");

    s.compact(2).unwrap();

    let result = s.watch(b"a".to_vec(), b"".to_vec(), 1, false);
    assert!(result.is_err(), "expected ErrCompacted");
}

#[test]
fn test_watch_future_revision() {
    let mut s = Store::new(None);
    let mut mail = Mail::new();
    put(&mut s, b"a", b"a1"); // rev 1
    put(&mut s, b"a", b"a2"); // rev 2
    put(&mut s, b"a", b"a3"); // rev 3

    let (_, a) = s.watch(b"a".to_vec(), b"".to_vec(), 4, false).unwrap();
    assert!(
        mail.next(&mut s, a).is_none(),
        "unexpected event"
    );

    put(&mut s, b"a", b"a4"); // rev 4
    let v = mail.next(&mut s, a).unwrap();
    assert_eq!(v.kv.value, b"a4".to_vec(), "unexpected value");
}

#[test]
fn test_watch_delete() {
    let mut s = Store::new(None);
    let mut mail = Mail::new();

    put(&mut s, b"a", b"r1");
    put(&mut s, b"a", b"r2");

    let rev = s.delete(b"a".to_vec(), None).unwrap();
    assert_eq!(rev, 3, "unexpected revision");

    let (revs, _) = s.watch(b"a".to_vec(), b"".to_vec(), 1, false).unwrap();
    assert_eq!(revs.len(), 3, "Expected 3 revisions, got {}", revs.len());
    assert_eq!(
        revs[0].kv.value,
        b"r1".to_vec(),
        "Expected r1, got {:?}",
        revs[0].kv.value
    );
    assert_eq!(
        revs[1].kv.value,
        b"r2".to_vec(),
        "Expected r2, got {:?}",
        revs[1].kv.value
    );
    assert_eq!(
        revs[2].kv.value,
        b"".to_vec(),
        "Expected value to be None, got {:?}",
        revs[2].kv.value
    );

    put(&mut s, b"a", b"r3");
    let (_, w) = s.watch(b"a".to_vec(), b"".to_vec(), 4, false).unwrap();
    assert!(
        mail.next(&mut s, w).is_none(),
        "unexpected event"
    );

    s.delete(b"a".to_vec(), None).unwrap();
    let v = mail.next(&mut s, w).unwrap();
    assert_eq!(
        v.kv.value,
        b"".to_vec(),
        "Expected value to be None, got {:?}",
        v.kv.value
    );
}
