use mem_etcd::alarm::{AlarmMember, AlarmStore, AlarmType};

#[test]
fn alarms_are_raised_once() {
    let mut s = AlarmStore::new();
    s.activate(1, AlarmType::NoSpace);
    assert_eq!(s.activate(1, AlarmType::NoSpace).len(), 1);
    assert_eq!(s.get_alarms().len(), 1);
    assert!(s.deactivate(1, AlarmType::NoSpace).is_empty());
    assert!(s.deactivate(1, AlarmType::NoSpace).is_empty());
}

#[test]
fn alarms_of_members() {
    let mut s = AlarmStore::new();
    s.activate(1, AlarmType::NoSpace);
    s.activate(2, AlarmType::Corrupt);
    let restored = AlarmStore::from_members(&s.get_alarms());
    assert_eq!(restored.get_alarms().len(), 2);
    assert!(restored.is_active(AlarmType::Corrupt));
    let twice = vec![AlarmMember { member_id: 1, alarm_type: AlarmType::NoAlarm }; 2];
    assert_eq!(AlarmStore::from_members(&twice).get_alarms().len(), 1);
}
