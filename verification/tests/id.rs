use mem_etcd::pkg::id::IdGenerator;
use std::collections::HashSet;

#[test]
fn test_id_generator_next() {
    let mut gen = IdGenerator::new(1);
    let a = gen.next();
    let b = gen.next();
    assert_ne!(a, b);
}

#[test]
fn test_id_generator_member_id() {
    let mut gen_a = IdGenerator::new(0xA);
    let mut gen_b = IdGenerator::new(0xB);
    let a = gen_a.next();
    let b = gen_b.next();
    // The top 24 bits should differ because member_id differs
    assert_ne!((a >> 40) & 0xFF_FFFF, (b >> 40) & 0xFF_FFFF);
}

#[test]
fn test_id_generator_uniqueness() {
    let mut gen = IdGenerator::new(1);
    let mut ids = HashSet::new();
    for _ in 0..1000 {
        let id = gen.next();
        assert!(ids.insert(id), "ID {} was a duplicate", id);
    }
    assert_eq!(ids.len(), 1000);
}
