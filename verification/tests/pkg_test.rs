use mem_etcd::clock::{nanos_since, now_nanos};
use mem_etcd::pkg::fileutil::{dir_size, files_to_purge, DirEntry, FileEntry};
use mem_etcd::pkg::id::IdGenerator;
use mem_etcd::pkg::netutil::{check_peer_url, parse_peer_urls};
use mem_etcd::pkg::schedule::{Scheduler, SimpleScheduler, TimerEvent};
use mem_etcd::pkg::wait::Wait;
use tokio::sync::oneshot;
use tokio::sync::oneshot::error::TryRecvError;

fn file(name: &str, modified: Option<i128>) -> FileEntry {
    FileEntry { name: name.to_string(), modified }
}

#[test]
fn test_purge_file() {
    let files: Vec<FileEntry> = (0..3).map(|i| file(&format!("other-{}", i), Some(i))).collect();
    // All non-matching files should remain
    assert!(files_to_purge(files, "snap-", 2).is_empty());
}

#[test]
fn newest_files_stay() {
    let files = vec![
        file("snap-a", Some(1)),
        file("snap-b", Some(5)),
        file("wal-x", Some(0)),
        file("snap-c", None),
        file("snap-d", Some(5)),
        file("snap-e", Some(3)),
        file("sna", Some(3)),
    ];
    assert_eq!(files_to_purge(files, "snap-", 2), vec!["snap-e", "snap-a", "snap-c"]);
    let files = vec![file("a", Some(-1)), file("b", None)];
    assert_eq!(files_to_purge(files, "", 1), vec!["a"]);
    assert!(files_to_purge(vec![file("a", None)], "a", 5).is_empty());
}

#[test]
fn directories_add_up() {
    let tree = vec![
        DirEntry::File(3),
        DirEntry::Dir(vec![DirEntry::File(4), DirEntry::Dir(vec![]), DirEntry::Other]),
        DirEntry::File(5),
    ];
    assert_eq!(dir_size(&tree), Some(12));
    assert_eq!(dir_size(&vec![]), Some(0));
    assert_eq!(dir_size(&vec![DirEntry::File(u64::MAX), DirEntry::File(1)]), None);
}

#[test]
fn ids_have_three_parts() {
    let mut g = IdGenerator::new(0xABCDEF);
    assert_eq!(g.next_at(0x1_2345), 0xABCDEF_2345_000000);
    assert_eq!(g.next_at(0x1_2345), 0xABCDEF_2345_000001);
    let mut g = IdGenerator::new(0x1_000002);
    assert_eq!(g.next_at(7), 0x000002_0007_000000);
}

#[test]
fn peer_urls_are_checked() {
    let parsed = parse_peer_urls(&["HTTP://Example.COM:80/x".to_string()]).unwrap();
    assert_eq!(parsed[0].text, "http://example.com/x");
    assert_eq!(parsed[0].scheme(), "http");
    assert!(parsed[0].has_host);
    assert_eq!(
        parse_peer_urls(&["http://ok".to_string(), "not-a-url".to_string()]).unwrap_err(),
        "invalid peer URL 'not-a-url': relative URL without a base"
    );
    assert_eq!(
        parse_peer_urls(&["ftp://host:1234".to_string()]).unwrap_err(),
        "peer URL 'ftp://host:1234' has unsupported scheme 'ftp'"
    );
    assert_eq!(
        parse_peer_urls(&["unix:/tmp/x".to_string()]).unwrap_err(),
        "peer URL 'unix:/tmp/x' has no host"
    );
    assert!(parse_peer_urls(&[]).unwrap().is_empty());
    let read = Ok(("https://h/".to_string(), "https".to_string(), true));
    assert_eq!(check_peer_url("https://h", read).unwrap().text, "https://h/");
}

#[test]
fn test_scheduler_executes_task() {
    let s = SimpleScheduler::new();
    assert!(s.schedule());
    assert!(s.on_event(TimerEvent::Elapsed));
}

#[test]
fn test_scheduler_stop_prevents_execution() {
    let mut s = SimpleScheduler::default();
    assert!(s.schedule());
    s.stop();
    assert!(!s.schedule());
    assert!(!s.on_event(TimerEvent::Elapsed));
    assert!(!s.on_event(TimerEvent::Stopped));
}

/// Sends what a trigger gives to its waiter.
fn trigger(w: &mut Wait<oneshot::Sender<Vec<u8>>>, id: u64, data: &[u8]) -> bool {
    match w.trigger(id, data.to_vec()) {
        Some((tx, data)) => {
            let _ = tx.send(data);
            true
        }
        None => false,
    }
}

#[test]
fn test_wait_register_trigger() {
    let mut w = Wait::new();
    let (tx, mut rx) = oneshot::channel();
    let id = w.register(tx);
    assert!(trigger(&mut w, id, b"hello"));
    assert_eq!(rx.try_recv().unwrap(), b"hello");
}

#[test]
fn test_wait_trigger_not_found() {
    let mut w = Wait::new();
    assert!(!trigger(&mut w, 999, b"data"));
}

#[test]
fn test_wait_is_registered() {
    let mut w = Wait::new();
    let (tx, _rx) = oneshot::channel();
    let id = w.register(tx);
    assert!(w.is_registered(id));
    trigger(&mut w, id, b"data");
    assert!(!w.is_registered(id));
}

#[test]
fn test_wait_multiple_waiters() {
    let mut w = Wait::new();
    let mut waiters = Vec::new();
    for _ in 0..5 {
        let (tx, rx) = oneshot::channel();
        waiters.push((w.register(tx), rx));
    }
    for (id, _) in &waiters {
        assert!(trigger(&mut w, *id, b"data"));
    }
    for (_, mut rx) in waiters {
        assert_eq!(rx.try_recv().unwrap(), b"data");
    }
}

#[test]
fn test_wait_trigger_multiple_times() {
    let mut w = Wait::new();
    let (tx, mut rx) = oneshot::channel();
    let id = w.register(tx);

    // First trigger should succeed
    assert!(trigger(&mut w, id, b"first"));
    assert_eq!(rx.try_recv().unwrap(), b"first");

    // Second trigger should fail (already consumed)
    assert!(!trigger(&mut w, id, b"second"));
    assert_eq!(rx.try_recv(), Err(TryRecvError::Closed));
}

#[test]
fn times_before_the_epoch_count_as_its_start() {
    assert_eq!(nanos_since(None), 0);
    assert_eq!(nanos_since(Some(7)), 7);
    // Any machine that runs this is past the year 2001.
    assert!(now_nanos() > 1_000_000_000 * 1_000_000_000);
}
