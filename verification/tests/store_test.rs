use bytes::Bytes;
use mem_etcd::store::{RangeResult, SetRequired, Store};

fn put(s: &mut Store, key: &[u8], value: &'static [u8]) -> i64 {
    s.set(key.to_vec(), Some(Bytes::from_static(value)), None).unwrap()
}

#[test]
fn test_range_revision() {
    let mut s = Store::new(None);
    let rev = s.set(b"foo".to_vec(), Some(Bytes::from_static(b"bar")),
        Some(SetRequired{required_last_revision: Some(0), required_version: None})).unwrap();
    assert_eq!(rev, 1, "unexpected revision");

    let RangeResult { kvs, latest_rev: rev, .. } = s.range(b"foo".to_vec(), b"".to_vec(), 0, None).unwrap();
    assert_eq!(kvs.len(), 1, "unexpected kv {:?}", kvs);
    assert_eq!(kvs[0].key, b"foo".to_vec(), "unexpected key");
    assert_eq!(kvs[0].value, b"bar".to_vec(), "unexpected value");
    assert_eq!(rev, 1, "unexpected revision");

    let rev = s.set(b"foo".to_vec(), Some(Bytes::from_static(b"baz")), None).unwrap();
    assert_eq!(rev, 2, "unexpected revision");

    let RangeResult { kvs, latest_rev: rev, .. } = s.range(b"foo".to_vec(), b"".to_vec(), 0, None).unwrap();
    assert_eq!(kvs.len(), 1, "unexpected kv {:?}", kvs);
    assert_eq!(rev, 2, "unexpected revision");
    assert_eq!(kvs[0].key, b"foo".to_vec(), "unexpected key");
    assert_eq!(kvs[0].value, b"baz".to_vec(), "unexpected value");

    let RangeResult { kvs, latest_rev: rev, .. } = s.range(b"foo".to_vec(), b"".to_vec(), 1, None).unwrap();
    assert_eq!(kvs.len(), 1, "unexpected kv {:?}", kvs);
    assert_eq!(rev, 2, "unexpected revision");
    assert_eq!(kvs[0].key, b"foo".to_vec(), "unexpected key");
    assert_eq!(kvs[0].value, b"bar".to_vec(), "unexpected value");

    let result = s.range(b"foo".to_vec(), b"".to_vec(), 3, None);
    assert!(result.is_err(), "expected error");
}

#[test]
fn test_range() {
    let mut s = Store::new(None);
    put(&mut s, b"foo", b"bar");
    put(&mut s, b"foo1", b"bar1");
    put(&mut s, b"foo2", b"bar2");
    put(&mut s, b"foo3", b"bar3");
    put(&mut s, b"foo4", b"bar4");
    put(&mut s, b"foo", b"baz");

    let RangeResult { kvs, latest_rev: rev, .. } = s.range(b"foo".to_vec(), b"fooz".to_vec(), 0, None).unwrap();
    assert_eq!(kvs.len(), 5, "unexpected kvs: {:?}", kvs);
    assert_eq!(rev, 6, "unexpected revision");
    assert_eq!(kvs[0].key, b"foo".to_vec(), "unexpected key");
    assert_eq!(kvs[0].value, b"baz".to_vec(), "unexpected value");
    assert_eq!(kvs[1].key, b"foo1".to_vec(), "unexpected key");
    assert_eq!(kvs[4].key, b"foo4".to_vec(), "unexpected key");

    let RangeResult { kvs, latest_rev: rev, .. }  = s.range(b"foo".to_vec(), b"fooz".to_vec(), 3, None).unwrap();
    assert_eq!(kvs.len(), 3, "unexpected kvs: {:?}", kvs);
    assert_eq!(rev, 6, "unexpected revision");
    assert_eq!(kvs[0].key, b"foo".to_vec(), "unexpected key");
    assert_eq!(kvs[1].key, b"foo1".to_vec(), "unexpected key");
    assert_eq!(kvs[2].key, b"foo2".to_vec(), "unexpected key");
}

#[test]
fn test_range_slashes() {
    let mut s = Store::new(None);
    let RangeResult { kvs, .. } = s
        .range(b"/a/b/c/".to_vec(), b"/a/b/c0".to_vec(), 0, None)
        .unwrap();
    assert_eq!(kvs.len(), 0, "unexpected kvs: {:?}", kvs);

    put(&mut s, b"/registry/apiextensions.k8s.io/customresourcedefinitions/addons", b"bar");
    let RangeResult { kvs, .. } = s.range(b"/registry/apiextensions.k8s.io/customresourcedefinitions/addons".to_vec(), b"".to_vec(), 0, None).unwrap();
    assert_eq!(kvs.len(), 1, "unexpected kvs: {:?}", kvs);

    put(&mut s, b"/bootstrap/aaa", b"bar");
    let RangeResult { kvs, .. } = s
        .range(b"/bootstrap".to_vec(), b"/bootstraq".to_vec(), 0, None)
        .unwrap();
    assert_eq!(kvs.len(), 1, "unexpected kvs: {:?}", kvs);
}

#[test]
fn test_compaction_one() {
    let mut s = Store::new(None);
    // rev 1
    let rev = s.set(b"foo".to_vec(), Some(Bytes::from_static(b"bar")), None).unwrap();
    assert_eq!(rev, 1, "unexpected revision");

    s.compact(1).unwrap();

    let RangeResult { kvs, latest_rev: rev, .. } = s.range(b"foo".to_vec(), b"".to_vec(), 0, None).unwrap();
    assert_eq!(kvs.len(), 1, "unexpected kvs after compaction");
    assert_eq!(kvs[0].value, b"bar".to_vec(), "unexpected value");
    assert_eq!(rev, 1, "expected revision 1");
}

#[test]
fn store_test_test_compaction() {
    let mut s = Store::new(None);
    put(&mut s, b"foo", b"bar1"); // rev 1
    put(&mut s, b"foo2", b"v2"); // rev 2
    put(&mut s, b"foo", b"bar2"); // rev 3
    put(&mut s, b"foo", b"bar3"); // rev 4
    put(&mut s, b"foo", b"bar4"); // rev 5
    put(&mut s, b"foo", b"bar5"); // rev 6

    let RangeResult { latest_rev: rev, .. } = s.range(b"foo".to_vec(), b"".to_vec(), 0, None).unwrap();
    assert_eq!(rev, 6, "unexpected revision after sets");

    // Compact everything <= 3
    s.compact(3).unwrap();

    // Trying to get revision 2 or 3 for "foo" should fail now
    let should_fail = s.range(b"foo".to_vec(), b"".to_vec(), 2, None);
    assert!(should_fail.is_err(), "expected error after compaction");

    // We can still read at or after 3 for "foo2"
    let RangeResult { kvs, latest_rev: rev, .. } = s.range(b"foo2".to_vec(), b"".to_vec(), 3, None).unwrap();

    assert_eq!(rev, 6, "unexpected revision from range on foo2");
    assert_eq!(kvs.len(), 1, "unexpected kvs for foo2 at rev 3");
    assert_eq!(kvs[0].key, b"foo2".to_vec(), "unexpected key");
    assert_eq!(kvs[0].value, b"v2".to_vec(), "unexpected value");
}

#[test]
fn test_set_txn_revision() {
    let mut s = Store::new(None);
    // revision 1
    let rev = put(&mut s, b"foo", b"r1");
    assert_eq!(rev, 1, "unexpected revision");

    // Set with required revision = 1
    let rev = put(&mut s, b"foo", b"r2");
    assert_eq!(rev, 2, "unexpected revision");

    // Another set
    let rev = put(&mut s, b"foo", b"r3");
    assert_eq!(rev, 3, "unexpected revision");

    let (rev, _val) = s.set(b"foo".to_vec(), Some(Bytes::from_static(b"r4")), Some(SetRequired{required_last_revision: Some(1), required_version: None})).unwrap_err();
    assert_eq!(rev, 3, "unexpected revision");

    let RangeResult { kvs, .. } = s.range(b"foo".to_vec(), b"".to_vec(), 0, None).unwrap();
    assert!(kvs[0].value == b"r3".to_vec())
}

#[test]
fn test_set_txn_version() {
    let mut s = Store::new(None);
    let _ = s.set(b"a".to_vec(), Some(Bytes::from_static(b"r1")), None).unwrap();

    // revision 2, version 1
    s.set(b"foo".to_vec(), Some(Bytes::from_static(b"r2")), None).unwrap();

    // Set with required version == 1
    let rev = put(&mut s, b"foo", b"r3");
    assert_eq!(rev, 3, "unexpected revision");

    // Another set, version 2
    let rev = put(&mut s, b"foo", b"r4");
    assert_eq!(rev, 4, "unexpected revision");

    // Set with required version == 1 should fail
    let (rev, _val) = s.set(b"foo".to_vec(), Some(Bytes::from_static(b"r5")), Some(SetRequired{required_last_revision: None, required_version: Some(1)})).unwrap_err();
    assert_eq!(rev, 4, "unexpected revision");

    // Delete the key, then set with required version 0 should work
    s.delete(b"foo".to_vec(), None).unwrap(); // rev 5
    let rev = put(&mut s, b"foo", b"r6");
    assert_eq!(rev, 6, "unexpected revision");

    // Creating a new key with required version 0 should work
    let rev = put(&mut s, b"bar", b"r7");
    assert_eq!(rev, 7, "unexpected revision");
}

#[test]
fn test_delete() {
    let mut s = Store::new(None);
    put(&mut s, b"a", b"r1");
    put(&mut s, b"a", b"r2");

    // Delete a non-existent key
    let (rev, _) = s.delete(b"b".to_vec(), None).unwrap_err();
    assert_eq!(rev, 2, "unexpected revision"); // negative rev indicates the key does not exist

    let rev = s.delete(b"a".to_vec(), None).unwrap();
    assert_eq!(rev, 3, "unexpected revision");

    let RangeResult { kvs, .. } = s.range(b"a".to_vec(), b"".to_vec(), 0, None).unwrap();
    assert!(kvs.is_empty(), "unexpected kvs: {:?}", kvs);

    // Delete a key that's already deleted
    let (rev, _) = s.delete(b"a".to_vec(), None).unwrap_err();
    assert_eq!(rev, 3, "unexpected revision"); // negative rev indicates the key does not exist

    // Re-create a deleted key
    s.set(b"a".to_vec(), Some(Bytes::from_static(b"r3")), None).unwrap();
    let RangeResult { kvs, .. } = s.range(b"a".to_vec(), b"".to_vec(), 0, None).unwrap();
    assert_eq!(
        kvs[0].create_revision, 4,
        "CreateRevision expected to be 4, was instead {}",
        kvs[0].create_revision
    );
    assert_eq!(
        kvs[0].value,
        b"r3".to_vec(),
        "Expected r3, got {:?}",
        kvs[0].value
    );
}

#[test]
fn test_delete_revision() {
    let mut s = Store::new(None);
    put(&mut s, b"a", b"r1");
    put(&mut s, b"a", b"r2");

    let (rev, v) = s.delete(b"a".to_vec(), Some(SetRequired{required_last_revision: Some(1), required_version: None})).unwrap_err();
    assert_eq!(rev, 2, "unexpected revision");
    assert!(
        v.is_some(),
        "Expected Delete to fail and value to be returned"
    );

    let rev = s.delete(b"a".to_vec(), Some(SetRequired{required_last_revision: Some(2), required_version: None})).unwrap();
    assert_eq!(rev, 3, "unexpected revision");
}

#[test]
fn test_range_of_many_keys() {
    let mut s = Store::new(None);
    for _ in 0..10 {
        for i in 0..1_000 {
            let mut value = Vec::from(format!("value{}", i).as_bytes());
            value.resize(40, 0);
            s.set(format!("key{}", i).as_bytes().to_vec(), Some(Bytes::from(value)), None).unwrap();
        }
    }
    let RangeResult { kvs, count, .. } =
        s.range(b"a".to_vec(), b"z".to_vec(), 5_000, Some(500)).unwrap();
    assert_eq!(kvs.len(), 500, "unexpected kv length: {:?}", kvs.len());
    assert_eq!(count, 1_000, "unexpected count: {:?}", count);
}

#[test]
fn test_bytes_metrics() {
    let mut s = Store::new(None);
    assert_eq!(s.value_bytes(), 0);

    s.set(b"foo".to_vec(), Some(Bytes::from(b"beep".to_vec())), None).unwrap();
    assert_eq!(s.value_bytes(), 4);

    // Overwriting adds to the size
    s.set(b"foo".to_vec(), Some(Bytes::from(b"boop".to_vec())), None).unwrap();
    assert_eq!(s.value_bytes(), 8);

    // Deleting doesn't change the size
    s.set(b"foo".to_vec(), None, None).unwrap();
    assert_eq!(s.value_bytes(), 8);

    // Compacting a delete changes the size
    s.compact(3).unwrap();
    assert_eq!(s.value_bytes(), 0);
}

#[test]
fn test_last_value_outlives_compaction() {
    let mut s = Store::new(None);
    put(&mut s, b"a", b"12345");
    put(&mut s, b"b", b"1");
    put(&mut s, b"b", b"22");
    s.compact(3).unwrap();
    assert_eq!(s.value_bytes(), 7);
    // The compacted last value of a key goes with its next write.
    put(&mut s, b"a", b"123");
    assert_eq!(s.value_bytes(), 5);
}

#[test]
fn test_revisions_and_progress() {
    let mut s = Store::new(None);
    assert_eq!(s.current_revision(), 0);
    put(&mut s, b"a", b"1");
    put(&mut s, b"a", b"2");
    assert_eq!(s.current_revision(), 2);
    assert_eq!(s.compacted_revision(), 0);
    s.compact(2).unwrap();
    assert_eq!(s.compacted_revision(), 1);
    assert_eq!(s.progress_revision(), 0);
    s.set_progress_revision(2);
    assert_eq!(s.progress_revision(), 2);
}

#[test]
fn test_compact_errors() {
    let mut s = Store::new(None);
    put(&mut s, b"a", b"1");
    put(&mut s, b"a", b"2");
    put(&mut s, b"a", b"3");
    for rev in [0, -1, 4] {
        let e = s.compact(rev).unwrap_err();
        assert_eq!(e.message(), "etcdserver: mvcc: required revision has been compacted");
    }
    s.compact(3).unwrap();
    assert_eq!(s.compact(1).unwrap_err().message(), "etcdserver: mvcc: compact failed");
}

#[test]
fn test_range_errors() {
    let mut s = Store::new(None);
    put(&mut s, b"a", b"1");
    put(&mut s, b"a", b"2");
    s.compact(2).unwrap();
    let e = s.range(b"a".to_vec(), vec![], 3, None).unwrap_err();
    assert_eq!(e.message(), "etcdserver: mvcc: required revision is a future revision");
    let e = s.range(b"a".to_vec(), vec![], 1, None).unwrap_err();
    assert_eq!(e.message(), "etcdserver: mvcc: required revision has been compacted");
    assert!(s.can_range(&b"a".to_vec(), &b"b".to_vec(), 0));
    assert!(!s.can_range(&b"b".to_vec(), &b"a".to_vec(), 0));
}

#[test]
fn test_versions_count_writes() {
    let mut s = Store::new(None);
    put(&mut s, b"other", b"x");
    for n in 1..=3 {
        put(&mut s, b"a", b"v");
        let kv = &s.range(b"a".to_vec(), vec![], 0, None).unwrap().kvs[0];
        assert_eq!((kv.create_revision, kv.mod_revision, kv.version), (2, n + 1, n));
    }
    s.delete(b"a".to_vec(), None).unwrap();
    put(&mut s, b"a", b"again");
    let kv = &s.range(b"a".to_vec(), vec![], 0, None).unwrap().kvs[0];
    assert_eq!((kv.create_revision, kv.mod_revision, kv.version), (6, 6, 1));
    // The past is as it was.
    let kv = &s.range(b"a".to_vec(), vec![], 3, None).unwrap().kvs[0];
    assert_eq!((kv.create_revision, kv.mod_revision, kv.version), (2, 3, 2));
}

#[test]
fn test_watch_can_be_refused() {
    let mut s = Store::new(None);
    put(&mut s, b"a", b"1");
    assert!(s.can_watch(&b"a".to_vec(), &b"b".to_vec(), 1));
    assert!(!s.can_watch(&b"b".to_vec(), &b"a".to_vec(), 1));
    assert!(s.can_watch(&b"b".to_vec(), &b"a".to_vec(), 0));
}
