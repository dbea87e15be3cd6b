use mem_etcd::block_deque::BlockDeque;

#[test]
fn basic_test() {
    const BLOCK_SIZE: usize = 4;
    let mut deque = BlockDeque::<i32, BLOCK_SIZE>::new();

    // Push values 0..8
    for i in 16..24 {
        deque.push(i);
    }
    assert_eq!(deque.len(), 8);

    // Check gets
    for i in 0..8 {
        assert_eq!(deque.get(i), Ok(i as i32 + 16));
    }
    // No value at index 8
    assert_eq!(deque.get(8), Err(()));

    // Set a new value
    deque.set(3, 999);
    assert_eq!(deque.get(3), Ok(999));
}

#[test]
fn remove_before_test_one_block() {
    const BLOCK_SIZE: usize = 4;
    let mut deque = BlockDeque::<i32, BLOCK_SIZE>::new();

    deque.push(1);
    deque.push(2);
    assert_eq!(deque.remove_before(1), Ok(()));
    assert_eq!(deque.len(), 1);
    assert_eq!(deque.get(0), Err(()));
    assert_eq!(deque.get(1), Ok(2));
}

#[test]
fn remove_before_test_two_blocks() {
    const BLOCK_SIZE: usize = 4;
    let mut deque = BlockDeque::<i32, BLOCK_SIZE>::new();

    for i in 0..11 {
        deque.push(i);
    }
    assert_eq!(deque.len(), 11);
    assert_eq!(deque.remove_before(10), Ok(()));
    assert_eq!(deque.len(), 1);
    assert_eq!(deque.get(10), Ok(10));

    deque.push(11);
    deque.push(12);
    deque.push(13);
    assert_eq!(deque.get(10), Ok(10));
    assert_eq!(deque.get(11), Ok(11));
    assert_eq!(deque.get(12), Ok(12));
    assert_eq!(deque.get(13), Ok(13));

    assert_eq!(deque.remove_before(12), Ok(()));
    assert_eq!(deque.len(), 2);
    assert_eq!(deque.get(12), Ok(12));
    assert_eq!(deque.get(13), Ok(13));
}

#[test]
fn remove_before_test_across_blocks() {
    const BLOCK_SIZE: usize = 10;
    let mut deque = BlockDeque::<i32, BLOCK_SIZE>::new();

    for i in 0..15 {
        deque.push(i);
    }

    deque.remove_before(9).unwrap();
    deque.remove_before(13).unwrap();
}

#[test]
fn deques_can_start_at_an_index() {
    let mut d: BlockDeque<u32, 4> = BlockDeque::starting_at(6);
    assert_eq!(d.len(), 0);
    assert_eq!(d.earliest_revision(), 6);
    assert_eq!(d.latest_revision(), 6);
    for i in 0..5 {
        assert_eq!(d.push(i), 6 + i as usize);
    }
    assert_eq!(d.get(5), Err(()));
    assert_eq!(d.get(6), Ok(0));
    assert_eq!(d.get(10), Ok(4));
    assert_eq!(d.get(11), Err(()));
    let mut e: BlockDeque<u32, 4> = BlockDeque::starting_at(8);
    assert_eq!(e.push(7), 8);
    assert_eq!(e.get(8), Ok(7));
}
