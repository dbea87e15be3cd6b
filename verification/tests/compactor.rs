use mem_etcd::compactor::{parse_duration, CompactorMode};

#[test]
fn test_parse_duration_zero() {
    assert_eq!(parse_duration("0").unwrap(), 0);
    assert_eq!(parse_duration("").unwrap(), 0);
}

#[test]
fn test_parse_duration_hours() {
    assert_eq!(parse_duration("1h").unwrap(), 3600);
    assert_eq!(parse_duration("2h").unwrap(), 7200);
}

#[test]
fn test_parse_duration_minutes() {
    assert_eq!(parse_duration("30m").unwrap(), 1800);
    assert_eq!(parse_duration("1m").unwrap(), 60);
}

#[test]
fn test_parse_duration_seconds() {
    assert_eq!(parse_duration("45s").unwrap(), 45);
    assert_eq!(parse_duration("0s").unwrap(), 0);
}

#[test]
fn test_parse_duration_combined() {
    assert_eq!(parse_duration("1h30m").unwrap(), 5400);
    assert_eq!(parse_duration("1h30m10s").unwrap(), 5410);
    assert_eq!(parse_duration("2h15m30s").unwrap(), 8130);
}

#[test]
fn test_parse_duration_errors() {
    assert!(parse_duration("abc").is_err());
    assert!(parse_duration("1x").is_err());
    assert!(parse_duration("h").is_err());
    assert!(parse_duration("1h30").is_err()); // trailing number without suffix
}

#[test]
fn test_compactor_mode_equality() {
    assert_eq!(CompactorMode::Periodic, CompactorMode::Periodic);
    assert_eq!(CompactorMode::Revision, CompactorMode::Revision);
    assert_ne!(CompactorMode::Periodic, CompactorMode::Revision);
}
