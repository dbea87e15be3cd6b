use mem_etcd::block_deque::BlockDeque;
use mem_etcd::order::{bytes_equal, bytes_less};
use mem_etcd::rpc::error::{err_lease_ttl_too_large, err_key_not_found, to_grpc_error};
use mem_etcd::rpc::status::Code;
use mem_etcd::sorted_map::SortedMap;
use mem_etcd::text::{
    chars_of, contains_text, parse_signed, parse_unsigned, push_hexadecimal, split, text_of, trim,
    with_decimal, with_integer, NumberError,
};

#[test]
fn sorted_maps_keep_order() {
    let mut m: SortedMap<u64, &str> = SortedMap::new();
    m.insert(5, "e");
    m.insert(1, "a");
    m.insert(3, "c");
    assert_eq!(m.insert(3, "C"), Some("c"));
    assert_eq!((0..m.len()).map(|i| *m.key(i)).collect::<Vec<u64>>(), vec![1, 3, 5]);
    assert_eq!(m.get(&3), Some(&"C"));
    assert_eq!(m.lower_bound(&4), 2);
    assert_eq!(m.remove(&1), Some("a"));
    assert_eq!(m.remove(&1), None);
    m.drop_front(1);
    assert_eq!(m.len(), 1);
    assert!(m.contains_key(&5));
    m.truncate(0);
    assert_eq!(m.len(), 0);
}

#[test]
fn bytes_are_ordered() {
    assert!(bytes_less(b"a", b"ab"));
    assert!(bytes_less(b"ab", b"b"));
    assert!(!bytes_less(b"b", b"ab"));
    assert!(!bytes_less(b"a", b"a"));
    assert!(bytes_equal(b"a", b"a"));
    assert!(!bytes_equal(b"a", b"ab"));
}

#[test]
fn deques_refuse_what_they_do_not_hold() {
    let mut d = BlockDeque::<i32, 4>::new();
    for i in 0..6 {
        d.push(i);
    }
    d.remove_before(2).unwrap();
    assert_eq!(d.remove_before(1), Err(()));
    assert_eq!(d.remove_before(7), Err(()));
    assert_eq!(d.remove_before(6), Ok(()));
    assert_eq!(d.len(), 0);
    assert_eq!(d.earliest_revision(), 6);
    assert_eq!(d.latest_revision(), 6);
    d.push(9);
    assert_eq!(d.get(6), Ok(9));
    assert_eq!(d.get_with(6, |x| *x), Some(9));
    assert_eq!(d.get_with(5, |x| *x), None);
}

#[test]
fn numbers_are_read_and_written() {
    assert_eq!(parse_unsigned(&chars_of("18446744073709551615")), Ok(u64::MAX));
    assert_eq!(parse_unsigned(&chars_of("18446744073709551616")), Err(NumberError::PosOverflow));
    assert_eq!(parse_unsigned(&chars_of("")), Err(NumberError::Empty));
    assert_eq!(parse_unsigned(&chars_of("1a")), Err(NumberError::InvalidDigit));
    assert_eq!(parse_signed(&chars_of("-9223372036854775808")), Ok(i64::MIN));
    assert_eq!(parse_signed(&chars_of("+7")), Ok(7));
    assert_eq!(parse_signed(&chars_of("-9223372036854775809")), Err(NumberError::NegOverflow));
    assert_eq!(with_integer("n=", i64::MIN), "n=-9223372036854775808");
    assert_eq!(with_decimal("n=", 0), "n=0");
    let mut s = String::new();
    push_hexadecimal(&mut s, 0xabc, 6);
    push_hexadecimal(&mut s, 0xabc, 1);
    assert_eq!(s, "000abcabc");
}

#[test]
fn texts_are_taken_apart() {
    assert_eq!(text_of(&trim(&chars_of(" \t a b\n\u{3000}"))), "a b");
    let parts: Vec<String> =
        split(&chars_of("a,,b"), ',').iter().map(|p| text_of(p)).collect();
    assert_eq!(parts, vec!["a", "", "b"]);
    assert!(contains_text("haystack", "st"));
    assert!(contains_text("haystack", ""));
    assert!(!contains_text("hay", "haystack"));
}

#[test]
fn statuses_have_messages() {
    let s = to_grpc_error("it broke");
    assert_eq!(s.code(), Code::Internal);
    assert_eq!(s.message(), "etcdserver: it broke");
    assert_eq!(err_lease_ttl_too_large().message(), "etcdserver: lease TTL too large");
    assert_eq!(err_key_not_found().message(), "etcdserver: key not found");
}
