use mem_etcd::pkg::netutil::parse_peer_urls;

#[test]
fn test_parse_peer_urls() {
    let urls = vec![
        "http://127.0.0.1:2379".to_string(),
        "https://peer.example.com:2380".to_string(),
    ];
    let parsed = parse_peer_urls(&urls).unwrap();
    assert_eq!(parsed.len(), 2);
    assert_eq!(parsed[0].scheme(), "http");
    assert_eq!(parsed[1].scheme(), "https");
}

#[test]
fn test_parse_peer_urls_invalid() {
    let urls = vec!["not-a-url".to_string()];
    assert!(parse_peer_urls(&urls).is_err());

    let urls = vec!["ftp://host:1234".to_string()];
    assert!(parse_peer_urls(&urls).is_err());
}
