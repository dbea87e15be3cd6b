use bytes::Bytes;
use mem_etcd::etcdserverpb::watch_request::RequestUnion;
use mem_etcd::etcdserverpb::{
    WatchCancelRequest, WatchCreateRequest, WatchProgressRequest, WatchRequest, WatchResponse,
};
use mem_etcd::mvccpb::{Event, KeyValueWithPrev};
use mem_etcd::rpc::status::{Code, Status};
use mem_etcd::store::Store;
use mem_etcd::watch_service::{
    ClientMessage, WatchAction, WatchService, WatchSession, WatchStart,
};

fn put(s: &mut Store, key: &[u8], value: &'static [u8]) -> i64 {
    s.set(key.to_vec(), Some(Bytes::from_static(value)), None).unwrap()
}

fn create(request: WatchCreateRequest) -> ClientMessage {
    ClientMessage::Request(WatchRequest {
        request_union: Some(RequestUnion::CreateRequest(request)),
    })
}

fn open(store: &mut Store, request: WatchCreateRequest) -> (WatchSession, Vec<WatchResponse>) {
    match WatchService::new().watch(store, create(request)).unwrap() {
        WatchStart::Opened(session, responses) => (session, responses),
        WatchStart::Refused(r) => panic!("refused: {:?}", r),
    }
}

/// What the writes since the last call tell a watcher.
fn news(store: &mut Store, session: &WatchSession) -> Vec<KeyValueWithPrev> {
    let mut r = Vec::new();
    for job in store.take_jobs() {
        if job.watchers.contains(&session.watcher_id) {
            r.push(job.msg.clone());
        }
    }
    r
}

fn next(store: &mut Store, session: &mut WatchSession) -> WatchResponse {
    let changes = news(store, session);
    match session.on_changes(store, changes) {
        WatchAction::Send(r) => r,
        other => panic!("nothing sent: {:?}", other),
    }
}

fn assert_kv_value(events: &Vec<Event>, index: usize, expected: &'static [u8]) {
    assert_eq!(events[index].kv.as_ref().unwrap().value, Bytes::from_static(expected));
}

#[test]
fn test_watch_create_request_success() {
    let mut store = Store::new(None);
    let (mut session, responses) = open(
        &mut store,
        WatchCreateRequest {
            key: b"foo".to_vec(),
            range_end: vec![],
            start_revision: 0,
            ..Default::default()
        },
    );

    let first_msg = &responses[0];
    assert!(first_msg.created, "Expected 'created' to be true for a new watch");
    let watch_id = first_msg.watch_id;
    assert!(watch_id != 0, "Expected a non-zero watch_id for a newly created watch");
    assert!(first_msg.events.is_empty(), "Expected new watch with no prior events");
    assert_eq!(responses.len(), 1);

    put(&mut store, b"foo", b"bar");

    let second_msg = next(&mut store, &mut session);
    assert_eq!(second_msg.watch_id, watch_id, "Watch ID should match");
    assert_eq!(second_msg.events.len(), 1, "Expected 1 event");
    let event = &second_msg.events[0];
    let kv = event.kv.as_ref().expect("Expected KeyValue in event");
    assert_eq!(kv.key, b"foo");
    assert_eq!(kv.value, Bytes::from_static(b"bar"));
}

#[test]
fn test_watch_invalid_argument() {
    let mut store = Store::new(None);
    let invalid_req = ClientMessage::Request(WatchRequest { request_union: None });
    let result = WatchService::new().watch(&mut store, invalid_req);
    assert!(result.is_err(), "should produce invalid_argument error");
    let status = result.err().unwrap();
    assert_eq!(status.code(), Code::InvalidArgument);
    assert!(
        status.message().contains("Not supported"),
        "expected 'Not supported' error message"
    );
}

#[test]
fn test_watch_compacted_revision() {
    let mut store = Store::new(None);
    put(&mut store, b"foo", b"v1"); // rev 1
    put(&mut store, b"foo", b"v2"); // rev 2
    put(&mut store, b"foo", b"v3"); // rev 3
    store.compact(3).unwrap();

    let start = WatchService::new()
        .watch(
            &mut store,
            create(WatchCreateRequest {
                key: b"foo".to_vec(),
                range_end: Vec::new(),
                start_revision: 1,
                ..Default::default()
            }),
        )
        .unwrap();
    if let WatchStart::Refused(WatchResponse { compact_revision, events, .. }) = start {
        assert!(
            compact_revision != 0,
            "Expected a non-zero compact_revision for a watch request < compaction"
        );
        assert!(
            events.is_empty(),
            "Expected no events when the watch request is below the compacted revision"
        );
    } else {
        panic!("Expected watch stream to return a compact_revision response");
    }
}

#[test]
fn test_watch_past_changes_on_create() {
    let mut store = Store::new(None);
    put(&mut store, b"a", b"a1"); // rev 1
    put(&mut store, b"a", b"a2"); // rev 2
    put(&mut store, b"a", b"a3"); // rev 3
    put(&mut store, b"b", b"b1"); // rev 4
    let _ = store.take_jobs();

    let (mut session, responses) = open(
        &mut store,
        WatchCreateRequest {
            key: b"a".to_vec(),
            range_end: b"z".to_vec(), // get a range so "b" is included
            start_revision: 2,
            ..Default::default()
        },
    );

    let first_msg = &responses[0];
    assert!(first_msg.created, "expected created == true");
    assert!(first_msg.events.is_empty(), "expected no events in the creation response");

    let events = &responses[1].events;
    assert_eq!(events.len(), 3, "expected 3 events for revs 2..4");
    assert_kv_value(events, 0, b"a2");
    assert_kv_value(events, 1, b"a3");
    assert_kv_value(events, 2, b"b1");

    put(&mut store, b"a", b"a4");
    let next_msg = next(&mut store, &mut session);
    assert_eq!(next_msg.events.len(), 1);
    assert_kv_value(&next_msg.events, 0, b"a4");
}

#[test]
fn test_watch_delete_event() {
    let mut store = Store::new(None);
    put(&mut store, b"foo", b"bar"); // rev 1

    let (mut session, responses) = open(
        &mut store,
        WatchCreateRequest {
            key: b"foo".to_vec(),
            range_end: vec![],
            start_revision: 0,
            ..Default::default()
        },
    );
    assert_eq!(responses.len(), 1);

    let rev = store.delete(b"foo".to_vec(), None).unwrap();
    assert_eq!(rev, 2, "unexpected revision after delete");

    let events = next(&mut store, &mut session).events;
    assert_eq!(events.len(), 1);
    let kv = events[0].kv.as_ref().expect("missing KV in event");
    assert_eq!(kv.key, b"foo");
    assert!(kv.value.is_empty(), "delete event should have an empty value field");
}

#[test]
fn test_watch_prev_kv_delete() {
    let mut store = Store::new(None);
    put(&mut store, b"foo", b"bar"); // rev 1

    let (mut session, _) = open(
        &mut store,
        WatchCreateRequest {
            key: b"foo".to_vec(),
            range_end: vec![],
            start_revision: 0,
            prev_kv: true,
            ..Default::default()
        },
    );

    let rev = store.delete(b"foo".to_vec(), None).unwrap();
    assert_eq!(rev, 2, "unexpected revision after delete");

    let events = next(&mut store, &mut session).events;
    assert_eq!(events.len(), 1);
    let kv = events[0].kv.as_ref().expect("missing KV in event");
    assert_eq!(kv.key, b"foo");
    assert!(kv.value.is_empty(), "delete event should have an empty value field");
    assert!(events[0].prev_kv.is_some(), "delete event should have a prev_kv field");
}

#[test]
fn test_watch_prev_kv_put() {
    let mut store = Store::new(None);
    put(&mut store, b"foo", b"bar"); // rev 1

    let (mut session, _) = open(
        &mut store,
        WatchCreateRequest {
            key: b"foo".to_vec(),
            range_end: vec![],
            start_revision: 0,
            prev_kv: true,
            ..Default::default()
        },
    );

    put(&mut store, b"foo", b"baz");

    let events = next(&mut store, &mut session).events;
    assert_eq!(events.len(), 1);
    let kv = events[0].kv.as_ref().expect("missing KV in event");
    assert_eq!(kv.key, b"foo");
    assert_kv_value(&events, 0, b"baz");
    assert_eq!(
        events[0].prev_kv.as_ref().unwrap().value,
        Bytes::from_static(b"bar"),
        "prev_kv should be bar"
    );
}

#[test]
fn test_watch_prev_kv_put_latest_rev() {
    // A watch with prev_kv and a revision still gets a prev_kv from before the revision.
    let mut store = Store::new(None);
    put(&mut store, b"a", b"a1"); // rev 1
    put(&mut store, b"a", b"a2"); // rev 2
    put(&mut store, b"z", b"z3"); // rev 3
    put(&mut store, b"a", b"a4"); // rev 4
    put(&mut store, b"a", b"a5"); // rev 5

    // Try both rev 3 (where key is different) and rev 4 (where key is the same)
    for start_revision in 3..=4 {
        let (_, responses) = open(
            &mut store,
            WatchCreateRequest {
                key: b"a".to_vec(),
                range_end: b"b".to_vec(),
                start_revision,
                prev_kv: true,
                ..Default::default()
            },
        );

        let first_msg = &responses[0];
        assert!(first_msg.created, "expected created == true");
        assert!(first_msg.events.is_empty(), "expected no events in the creation response");

        let events = &responses[1].events;
        assert_eq!(events.len(), 2, "expected 1 events for revs 4&5");
        assert_eq!(events[1].kv.as_ref().unwrap().value, Bytes::from_static(b"a5"));
        assert_eq!(events[1].prev_kv.as_ref().unwrap().mod_revision, 4);
        assert_eq!(events[0].kv.as_ref().unwrap().value, Bytes::from_static(b"a4"));

        // This is the critical part of the test
        assert_eq!(events[0].prev_kv.as_ref().unwrap().mod_revision, 2);
        assert_eq!(events[0].prev_kv.as_ref().unwrap().value, Bytes::from_static(b"a2"));
    }
}

#[test]
fn test_watch_tells_no_change_twice() {
    let mut store = Store::new(None);
    put(&mut store, b"a", b"a1");
    let (mut session, _) = open(
        &mut store,
        WatchCreateRequest { key: b"a".to_vec(), start_revision: 1, ..Default::default() },
    );
    put(&mut store, b"a", b"a2");
    let changes = news(&mut store, &session);
    let again = changes.clone();
    assert!(matches!(session.on_changes(&mut store, changes), WatchAction::Send(_)));
    assert!(matches!(session.on_changes(&mut store, again), WatchAction::Wait));
}

#[test]
fn test_watch_stream_messages() {
    let mut store = Store::new(None);
    put(&mut store, b"a", b"a1");
    let (mut session, _) =
        open(&mut store, WatchCreateRequest { key: b"a".to_vec(), ..Default::default() });
    assert_eq!(store.watcher_count(), 1);

    store.set_progress_revision(1);
    let progress = ClientMessage::Request(WatchRequest {
        request_union: Some(RequestUnion::ProgressRequest(WatchProgressRequest {})),
    });
    match session.on_message(&mut store, progress) {
        WatchAction::Send(r) => assert_eq!(r.header.unwrap().revision, 1),
        other => panic!("nothing sent: {:?}", other),
    }

    let cancel = ClientMessage::Request(WatchRequest {
        request_union: Some(RequestUnion::CancelRequest(WatchCancelRequest {
            watch_id: session.watcher_id,
        })),
    });
    assert!(matches!(session.on_message(&mut store, cancel), WatchAction::Stop));
    assert_eq!(store.watcher_count(), 0);
}

#[test]
fn test_watch_stream_ends() {
    for message in [ClientMessage::Closed, ClientMessage::Failed(Status::internal("gone"))] {
        let mut store = Store::new(None);
        let (mut session, _) =
            open(&mut store, WatchCreateRequest { key: b"a".to_vec(), ..Default::default() });
        assert!(matches!(session.on_message(&mut store, message), WatchAction::Stop));
        assert_eq!(store.watcher_count(), 0);
    }
}

#[test]
fn test_watch_progress_covers_the_past() {
    let mut store = Store::new(None);
    put(&mut store, b"b", b"1"); // rev 1
    put(&mut store, b"a", b"2"); // rev 2
    put(&mut store, b"b", b"3"); // rev 3
    put(&mut store, b"a", b"4"); // rev 4
    let _ = store.take_jobs();
    let (mut session, responses) = open(
        &mut store,
        WatchCreateRequest {
            key: b"a".to_vec(),
            range_end: b"c".to_vec(),
            start_revision: 1,
            ..Default::default()
        },
    );
    // The past comes key by key.
    let revisions: Vec<i64> =
        responses[1].events.iter().map(|e| e.kv.as_ref().unwrap().mod_revision).collect();
    assert_eq!(revisions, vec![2, 4, 1, 3]);
    assert_eq!(session.max_event_stream_rev, 4);
    let progress = ClientMessage::Request(WatchRequest {
        request_union: Some(RequestUnion::ProgressRequest(WatchProgressRequest {})),
    });
    match session.on_message(&mut store, progress) {
        WatchAction::Send(r) => assert_eq!(r.header.unwrap().revision, 4),
        other => panic!("nothing sent: {:?}", other),
    }
    // The writes that follow are told, each once.
    put(&mut store, b"b", b"5");
    put(&mut store, b"a", b"6");
    let changes = news(&mut store, &session);
    assert_eq!(changes.len(), 2);
    let mut told = Vec::new();
    for c in changes.into_iter() {
        match session.on_changes(&mut store, vec![c]) {
            WatchAction::Send(r) => {
                for e in r.events.iter() {
                    told.push(e.kv.as_ref().unwrap().mod_revision);
                }
            }
            other => panic!("nothing sent: {:?}", other),
        }
    }
    assert_eq!(told, vec![5, 6]);
}
