use mem_etcd::snap::{SnapshotEntry, SnapshotMeta, StoreSnapshot};
use serde_json::Value;

fn bytes_value(b: &[u8]) -> Value {
    Value::Array(b.iter().map(|x| Value::from(*x)).collect())
}

fn bytes_of(v: &Value) -> Vec<u8> {
    v.as_array().unwrap().iter().map(|x| x.as_u64().unwrap() as u8).collect()
}

fn to_json(s: &StoreSnapshot) -> Result<Vec<u8>, String> {
    let mut meta = serde_json::Map::new();
    meta.insert("revision".to_string(), Value::from(s.meta.revision));
    meta.insert("timestamp_secs".to_string(), Value::from(s.meta.timestamp_secs));
    meta.insert("kv_count".to_string(), Value::from(s.meta.kv_count));
    let mut entries = Vec::new();
    for e in &s.entries {
        let mut m = serde_json::Map::new();
        m.insert("key".to_string(), bytes_value(&e.key));
        m.insert("value".to_string(), bytes_value(&e.value));
        m.insert("create_revision".to_string(), Value::from(e.create_revision));
        m.insert("mod_revision".to_string(), Value::from(e.mod_revision));
        m.insert("version".to_string(), Value::from(e.version));
        m.insert("lease".to_string(), Value::from(e.lease));
        entries.push(Value::Object(m));
    }
    let mut all = serde_json::Map::new();
    all.insert("meta".to_string(), Value::Object(meta));
    all.insert("entries".to_string(), Value::Array(entries));
    serde_json::to_vec(&Value::Object(all)).map_err(|e| e.to_string())
}

fn from_json(text: &[u8]) -> StoreSnapshot {
    let v: Value = serde_json::from_slice(text).unwrap();
    let meta = SnapshotMeta {
        revision: v["meta"]["revision"].as_i64().unwrap(),
        timestamp_secs: v["meta"]["timestamp_secs"].as_u64().unwrap(),
        kv_count: v["meta"]["kv_count"].as_u64().unwrap() as usize,
    };
    let mut entries = Vec::new();
    for e in v["entries"].as_array().unwrap() {
        entries.push(SnapshotEntry {
            key: bytes_of(&e["key"]),
            value: bytes_of(&e["value"]),
            create_revision: e["create_revision"].as_i64().unwrap(),
            mod_revision: e["mod_revision"].as_i64().unwrap(),
            version: e["version"].as_i64().unwrap(),
            lease: e["lease"].as_i64().unwrap(),
        });
    }
    StoreSnapshot { meta, entries }
}

#[test]
fn test_encode_decode() {
    let snap = StoreSnapshot {
        meta: SnapshotMeta { revision: 42, timestamp_secs: 1000, kv_count: 1 },
        entries: vec![SnapshotEntry {
            key: b"foo".to_vec(),
            value: b"bar".to_vec(),
            create_revision: 1,
            mod_revision: 2,
            version: 1,
            lease: 0,
        }],
    };

    let data = StoreSnapshot::encode(to_json(&snap)).unwrap();
    let decoded = from_json(&StoreSnapshot::decode(&data).unwrap());
    assert_eq!(decoded.meta.revision, 42);
    assert_eq!(decoded.meta.kv_count, 1);
    assert_eq!(decoded.entries[0].key, b"foo");
    assert_eq!(decoded.entries[0].value, b"bar");
}

#[test]
fn test_empty_snapshot() {
    let snap = StoreSnapshot {
        meta: SnapshotMeta { revision: 0, timestamp_secs: 0, kv_count: 0 },
        entries: vec![],
    };
    let data = StoreSnapshot::encode(to_json(&snap)).unwrap();
    let decoded = from_json(&StoreSnapshot::decode(&data).unwrap());
    assert_eq!(decoded.meta.revision, 0);
    assert!(decoded.entries.is_empty());
}

#[test]
fn test_large_snapshot() {
    let entries: Vec<SnapshotEntry> = (0..100)
        .map(|i| SnapshotEntry {
            key: format!("key{}", i).into_bytes(),
            value: format!("value{}", i).into_bytes(),
            create_revision: i,
            mod_revision: i + 1,
            version: 1,
            lease: 0,
        })
        .collect();

    let snap = StoreSnapshot {
        meta: SnapshotMeta { revision: 100, timestamp_secs: 2000, kv_count: entries.len() },
        entries,
    };

    let data = StoreSnapshot::encode(to_json(&snap)).unwrap();
    let decoded = from_json(&StoreSnapshot::decode(&data).unwrap());
    assert_eq!(decoded.entries.len(), 100);
}

#[test]
fn snapshots_are_gzip_members() {
    let text = vec![b'x'; 10_000];
    let data = StoreSnapshot::encode(Ok(text.clone())).unwrap();
    assert_eq!(&data[..3], &[0x1f, 0x8b, 8]);
    assert!(data.len() < 1_000);
    assert_eq!(StoreSnapshot::decode(&data).unwrap(), text);
}

#[test]
fn snapshot_errors() {
    assert_eq!(
        StoreSnapshot::encode(Err("no".to_string())).unwrap_err(),
        "snapshot serialize: no"
    );
    assert_eq!(
        StoreSnapshot::pack(Err((false, "a".to_string()))).unwrap_err(),
        "snapshot compress: a"
    );
    assert_eq!(
        StoreSnapshot::pack(Err((true, "b".to_string()))).unwrap_err(),
        "snapshot finish: b"
    );
    assert!(StoreSnapshot::decode(b"no gzip data")
        .unwrap_err()
        .starts_with("snapshot decompress: "));
    assert_eq!(StoreSnapshot::unpack(Ok(vec![1])), Ok(vec![1]));
}
