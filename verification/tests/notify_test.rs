use bytes::Bytes;
use mem_etcd::notify::{Notifier, NotifyJob};
use mem_etcd::store::Store;

fn jobs(n: usize) -> Vec<NotifyJob> {
    let mut s = Store::new(None);
    for i in 0..n {
        let value = Bytes::from(format!("v{}", i).into_bytes());
        s.set(b"/registry/pods/a".to_vec(), Some(value), None).unwrap();
    }
    s.take_jobs()
}

#[test]
fn jobs_go_out_in_order() {
    let mut all = jobs(4);
    let mut n = Notifier::new();
    let fourth = all.pop().unwrap();
    let third = all.pop().unwrap();
    let second = all.pop().unwrap();
    let first = all.pop().unwrap();
    assert!(n.offer(third).is_empty());
    assert!(n.offer(second).is_empty());
    let sent: Vec<i64> = n.offer(first).iter().map(|j| j.rev).collect();
    assert_eq!(sent, vec![1, 2, 3]);
    assert_eq!(n.progress(), 3);
    let sent: Vec<i64> = n.offer(fourth).iter().map(|j| j.rev).collect();
    assert_eq!(sent, vec![4]);
    assert_eq!(n.progress(), 4);
}

#[test]
fn jobs_carry_log_records() {
    let mut s = Store::new(None);
    s.set(b"/registry/pods/a".to_vec(), Some(Bytes::from_static(b"12")), None).unwrap();
    s.delete(b"/registry/pods/a".to_vec(), None).unwrap();
    let all = s.take_jobs();
    assert_eq!(all[0].prefix_str, "/registry/pods/");
    assert_eq!(all[0].watch_result_size, 2);
    assert_eq!(all[1].watch_result_size, 2);
    let r = all[0].wal_record();
    assert_eq!(r.prefix, b"/registry/pods/".to_vec());
    assert_eq!(r.rev, 1);
    assert_eq!(r.key, b"/registry/pods/a".to_vec());
    assert_eq!(r.value, Some(b"12".to_vec()));
    assert_eq!(all[1].wal_record().value, None);
}

#[test]
fn empty_values_are_no_deletions_in_the_log() {
    let mut s = Store::new(None);
    s.set(b"a".to_vec(), Some(Bytes::new()), None).unwrap();
    s.delete(b"a".to_vec(), None).unwrap();
    let all = s.take_jobs();
    assert_eq!(all[0].wal_record().value, Some(vec![]));
    assert_eq!(all[1].wal_record().value, None);
    let mut t = Store::new(None);
    t.restore(all[0].wal_record());
    let r = t.range(b"a".to_vec(), vec![], 0, None).unwrap();
    assert_eq!(r.kvs.len(), 1);
    assert_eq!(r.kvs[0].value, Bytes::new());
    t.restore(all[1].wal_record());
    assert!(t.range(b"a".to_vec(), vec![], 0, None).unwrap().kvs.is_empty());
}

#[test]
fn jobs_go_out_after_a_revision() {
    let mut all = jobs(4);
    let fourth = all.pop().unwrap();
    let third = all.pop().unwrap();
    let mut n = Notifier::starting_after(2);
    assert_eq!(n.progress(), 2);
    assert!(n.offer(fourth).is_empty());
    let sent: Vec<i64> = n.offer(third).iter().map(|j| j.rev).collect();
    assert_eq!(sent, vec![3, 4]);
    assert_eq!(n.progress(), 4);
}

#[test]
fn records_restore_a_store() {
    let mut s = Store::new(None);
    s.set(b"a".to_vec(), Some(Bytes::from_static(b"1")), None).unwrap();
    s.set(b"b".to_vec(), Some(Bytes::from_static(b"2")), None).unwrap();
    s.delete(b"a".to_vec(), None).unwrap();
    s.set(b"a".to_vec(), Some(Bytes::from_static(b"3")), None).unwrap();
    let mut t = Store::new(None);
    for job in s.take_jobs() {
        t.restore(job.wal_record());
    }
    assert_eq!(t.current_revision(), 4);
    for rev in 1..=4 {
        let x = s.range(b"a".to_vec(), b"c".to_vec(), rev, None).unwrap();
        let y = t.range(b"a".to_vec(), b"c".to_vec(), rev, None).unwrap();
        assert_eq!(x.kvs.len(), y.kvs.len());
        for (p, q) in x.kvs.iter().zip(y.kvs.iter()) {
            assert_eq!(p.key, q.key);
            assert_eq!(p.value, q.value);
            assert_eq!(p.create_revision, q.create_revision);
            assert_eq!(p.mod_revision, q.mod_revision);
            assert_eq!(p.version, q.version);
        }
    }
}

#[test]
fn prefixes_that_are_no_text() {
    let mut s = Store::new(None);
    s.set(b"/registry/\xff/a".to_vec(), Some(Bytes::new()), None).unwrap();
    let all = s.take_jobs();
    assert_eq!(all[0].prefix_str, "/registry/\u{fffd}/");
}
