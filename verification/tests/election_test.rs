use mem_etcd::election::{election_key, ElectionService, ObserveAction, ObserveSession};
use mem_etcd::lease::lessor::Lessor;
use mem_etcd::mvccpb::KeyValueWithPrev;
use mem_etcd::rpc::status::Code;
use mem_etcd::store::Store;
use mem_etcd::v3electionpb::{
    CampaignRequest, LeaderRequest, ObserveRequest, ProclaimRequest, ResignRequest,
};

fn campaign(name: &[u8], lease: i64, value: &[u8]) -> CampaignRequest {
    CampaignRequest { name: name.to_vec(), lease, value: value.to_vec() }
}

fn news(store: &mut Store, session: &ObserveSession) -> Vec<KeyValueWithPrev> {
    let mut r = Vec::new();
    for job in store.take_jobs() {
        if job.watchers.contains(&session.watcher_id) {
            r.push(job.msg.clone());
        }
    }
    r
}

#[test]
fn election_keys_stand_apart() {
    assert_eq!(election_key(&b"e".to_vec()), b"\0election\0e".to_vec());
}

#[test]
fn first_candidate_leads() {
    let mut store = Store::new(None);
    let mut lessor = Lessor::new();
    let service = ElectionService::new();
    let a = service.campaign(&mut store, &mut lessor, campaign(b"e", 7, b"alice")).unwrap();
    assert_eq!(a.leader_value, b"alice".to_vec());
    assert_eq!(a.revision, 1);
    assert_eq!(lessor.lookup(7).unwrap().keys, vec![b"\0election\0e".to_vec()]);

    // The second candidate is told the leader, and loses the lease.
    let b = service.campaign(&mut store, &mut lessor, campaign(b"e", 8, b"bob")).unwrap();
    assert_eq!(b.leader_value, b"alice".to_vec());
    assert_eq!(b.revision, 1);
    assert!(lessor.lookup(8).is_none());

    // A lease that is there already is refused.
    let e = service.campaign(&mut store, &mut lessor, campaign(b"e", 7, b"carol")).unwrap_err();
    assert_eq!(e.code(), Code::Internal);

    let l = service.leader(&store, LeaderRequest { name: b"e".to_vec() });
    assert_eq!(l.kv_value, b"alice".to_vec());
    assert_eq!(l.kv_create_revision, 1);
}

#[test]
fn proclaim_and_resign() {
    let mut store = Store::new(None);
    let mut lessor = Lessor::new();
    let service = ElectionService::new();
    service.campaign(&mut store, &mut lessor, campaign(b"e", 0, b"alice")).unwrap();
    let p = service
        .proclaim(&mut store, ProclaimRequest { name: b"e".to_vec(), value: b"v2".to_vec() })
        .unwrap();
    assert_eq!(p.revision, 2);
    let l = service.leader(&store, LeaderRequest { name: b"e".to_vec() });
    assert_eq!(l.kv_value, b"v2".to_vec());
    let r = service.resign(&mut store, ResignRequest { name: b"e".to_vec() }).unwrap();
    assert_eq!(r.revision, 3);
    let l = service.leader(&store, LeaderRequest { name: b"e".to_vec() });
    assert_eq!(l.kv_value, Vec::<u8>::new());
    assert_eq!(l.revision, 3);
    // After that another candidate leads.
    let b = service.campaign(&mut store, &mut lessor, campaign(b"e", 0, b"bob")).unwrap();
    assert_eq!(b.leader_value, b"bob".to_vec());
}

#[test]
fn observers_see_leaders_in_order() {
    let mut store = Store::new(None);
    let mut lessor = Lessor::new();
    let service = ElectionService::new();
    service.campaign(&mut store, &mut lessor, campaign(b"e", 0, b"alice")).unwrap();
    let _ = store.take_jobs();
    let (mut session, first) = service.observe(&mut store, ObserveRequest { name: b"e".to_vec() });
    assert_eq!(first.kv_value, b"alice".to_vec());
    service
        .proclaim(&mut store, ProclaimRequest { name: b"e".to_vec(), value: b"v2".to_vec() })
        .unwrap();
    let changes = news(&mut store, &session);
    let again = changes.clone();
    match session.on_changes(&mut store, changes) {
        ObserveAction::Send(v) => {
            assert_eq!(v.len(), 1);
            assert_eq!(v[0].kv_value, b"v2".to_vec());
        }
        ObserveAction::Stop => panic!("stopped"),
    }
    match session.on_changes(&mut store, again) {
        ObserveAction::Send(v) => assert!(v.is_empty()),
        ObserveAction::Stop => panic!("stopped"),
    }
    assert!(matches!(session.on_changes(&mut store, Vec::new()), ObserveAction::Stop));
    assert_eq!(store.watcher_count(), 0);
}

#[test]
fn nobody_proclaims_without_a_leader() {
    let mut store = Store::new(None);
    let service = ElectionService::new();
    let req = || ProclaimRequest { name: b"e".to_vec(), value: b"v".to_vec() };
    let e = service.proclaim(&mut store, req()).unwrap_err();
    assert_eq!(e.code(), Code::FailedPrecondition);
    assert_eq!(e.message(), "no leader; cannot proclaim");
    assert_eq!(store.current_revision(), 0);
    // Nor after the leader resigned.
    let mut lessor = Lessor::new();
    service.campaign(&mut store, &mut lessor, campaign(b"e", 0, b"alice")).unwrap();
    service.resign(&mut store, ResignRequest { name: b"e".to_vec() }).unwrap();
    assert!(service.proclaim(&mut store, req()).is_err());
    assert_eq!(store.current_revision(), 2);
}
