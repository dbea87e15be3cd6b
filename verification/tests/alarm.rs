use mem_etcd::alarm::{AlarmStore, AlarmType};

#[test]
fn test_activate_and_get_alarms() {
    let mut store = AlarmStore::new();
    assert!(store.get_alarms().is_empty());

    let result = store.activate(1, AlarmType::NoSpace);
    assert_eq!(result.len(), 1);
    assert_eq!(result[0].member_id, 1);
    assert_eq!(result[0].alarm_type, AlarmType::NoSpace);

    let alarms = store.get_alarms();
    assert_eq!(alarms.len(), 1);
}

#[test]
fn test_deactivate() {
    let mut store = AlarmStore::new();
    store.activate(1, AlarmType::NoSpace);
    store.activate(2, AlarmType::NoSpace);
    assert_eq!(store.get_alarms().len(), 2);

    let remaining = store.deactivate(1, AlarmType::NoSpace);
    assert_eq!(remaining.len(), 1);
    assert_eq!(remaining[0].member_id, 2);
}

#[test]
fn test_is_active() {
    let mut store = AlarmStore::new();
    assert!(!store.is_active(AlarmType::NoSpace));
    store.activate(1, AlarmType::NoSpace);
    assert!(store.is_active(AlarmType::NoSpace));
    assert!(!store.is_active(AlarmType::Corrupt));
}

#[test]
fn test_multiple_alarm_types() {
    let mut store = AlarmStore::new();
    store.activate(1, AlarmType::NoSpace);
    store.activate(1, AlarmType::Corrupt);

    let alarms = store.get_alarms();
    assert_eq!(alarms.len(), 2);

    assert!(store.is_active(AlarmType::NoSpace));
    assert!(store.is_active(AlarmType::Corrupt));
}
