use mem_etcd::sha256::sha256;

fn hex(bytes: &[u8]) -> String {
    bytes.iter().map(|b| format!("{:02x}", b)).collect()
}

#[test]
fn digests_of_short_messages() {
    assert_eq!(hex(&sha256(b"")), "e3b0c44298fc1c149afbf4c8996fb92427ae41e4649b934ca495991b7852b855");
    assert_eq!(hex(&sha256(b"abc")), "ba7816bf8f01cfea414140de5dae2223b00361a396177a9cb410ff61f20015ad");
    assert_eq!(
        hex(&sha256(b"abcdbcdecdefdefgefghfghighijhijkijkljklmklmnlmnomnopnopq")),
        "248d6a61d20638b8e5c026930c3e6039a33ce45964ff2167f6ecedd419db06c1"
    );
}

#[test]
fn digests_of_messages_around_a_block() {
    assert_eq!(hex(&sha256(&[b'c'; 55])), "2c4ba9a9458f454f09628b5cced67608b1bfd00e3a98cf2298308b9975645520");
    assert_eq!(hex(&sha256(&[b'b'; 64])), "a0fab1377f49a759b57f63318262ebe89fabfc990e8e93ceac2984561482b9d4");
    assert_eq!(hex(&sha256(&[b'a'; 200])), "c2a908d98f5df987ade41b5fce213067efbcc21ef2240212a41e54b5e7c28ae5");
}
