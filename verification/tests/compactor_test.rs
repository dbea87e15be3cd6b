use bytes::Bytes;
use mem_etcd::compactor::{
    parse_duration, read_duration, Compaction, Compactor, CompactorMode, Schedule,
};
use mem_etcd::store::Store;

fn filled(n: usize) -> Store {
    let mut s = Store::new(None);
    for _ in 0..n {
        s.set(b"a".to_vec(), Some(Bytes::from_static(b"v")), None).unwrap();
    }
    s
}

#[test]
fn durations_have_errors() {
    assert_eq!(parse_duration("abc").unwrap_err(), "invalid duration string: 'abc'");
    assert_eq!(parse_duration("1x").unwrap_err(), "unknown duration suffix: 'x'");
    assert_eq!(parse_duration("1h30").unwrap_err(), "incomplete duration string: '1h30'");
    assert_eq!(parse_duration("9999999999999999999h").unwrap_err(), "duration overflow");
    assert_eq!(
        parse_duration("99999999999999999999s").unwrap_err(),
        "invalid duration string: '99999999999999999999s'"
    );
    assert_eq!(parse_duration(" 5s ").unwrap(), 5);
    assert_eq!(read_duration("18446744073709551615s1s"), None);
    assert_eq!(read_duration("18446744073709551615s"), Some(Ok(18446744073709551615)));
}

#[test]
fn periodic_compaction() {
    let mut s = filled(3);
    let mut c = Compactor::new(CompactorMode::Periodic, "1h", &s);
    let schedule = c.run(&s);
    assert_eq!(schedule, Schedule::Every(3600));
    assert_eq!(c.run(&s), Schedule::Running);
    c.pause();
    assert!(matches!(c.tick(&mut s, schedule), Compaction::Paused));
    c.resume();
    assert!(matches!(c.tick(&mut s, schedule), Compaction::Done(3)));
    assert_eq!(s.compacted_revision(), 2);
    assert!(c.stop());
    assert!(!c.stop());
}

#[test]
fn compaction_by_revisions() {
    let mut s = filled(3);
    let mut c = Compactor::new(CompactorMode::Revision, "5", &s);
    let schedule = c.run(&s);
    assert_eq!(schedule, Schedule::Revisions(5));
    assert!(matches!(c.tick(&mut s, schedule), Compaction::NotYet));
    for _ in 0..2 {
        s.set(b"a".to_vec(), Some(Bytes::from_static(b"v")), None).unwrap();
    }
    assert!(matches!(c.tick(&mut s, schedule), Compaction::Done(5)));
    assert!(matches!(c.tick(&mut s, schedule), Compaction::NotYet));
}

#[test]
fn compaction_can_be_off() {
    let s = filled(1);
    for (mode, retention) in [
        (CompactorMode::Periodic, "0"),
        (CompactorMode::Periodic, "soon"),
        (CompactorMode::Revision, "0"),
        (CompactorMode::Revision, "many"),
    ] {
        assert_eq!(Compactor::new(mode, retention, &s).run(&s), Schedule::Disabled);
    }
}

#[test]
fn compaction_of_an_empty_store_fails() {
    let mut s = Store::new(None);
    let mut c = Compactor::new(CompactorMode::Periodic, "1s", &s);
    let schedule = c.run(&s);
    assert!(matches!(c.tick(&mut s, schedule), Compaction::Failed(_)));
}
