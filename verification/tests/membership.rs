use mem_etcd::membership::{Cluster, ClusterState, Member, MembershipError};
use std::time::{Duration, Instant};

#[test]
fn test_cluster_new() {
    let cluster = Cluster::new(1);
    assert_eq!(cluster.local_id, 1);
    assert!(cluster.list_members().is_empty());
    assert!(!cluster.is_removed(99));
    assert_ne!(cluster.get_cluster_id(), 0);
}

#[test]
fn test_cluster_member_add() {
    let mut cluster = Cluster::new(1);
    let member = Member {
        id: 10,
        name: "node1".into(),
        peer_urls: vec!["http://127.0.0.1:2380".into()],
        client_urls: vec![],
        is_learner: false,
    };
    assert!(cluster.add_member(member).is_ok());

    let members = cluster.list_members();
    assert_eq!(members.len(), 1);
    assert_eq!(members[0].id, 10);
    assert_eq!(members[0].name, "node1");
}

#[test]
fn test_cluster_member_add_duplicate() {
    let mut cluster = Cluster::new(1);
    let member = Member {
        id: 10,
        name: "node1".into(),
        peer_urls: vec!["http://127.0.0.1:2380".into()],
        client_urls: vec![],
        is_learner: false,
    };
    assert!(cluster.add_member(member).is_ok());

    let duplicate = Member {
        id: 10,
        name: "node1-dup".into(),
        peer_urls: vec!["http://127.0.0.1:2381".into()],
        client_urls: vec![],
        is_learner: false,
    };
    let err = cluster.add_member(duplicate).unwrap_err();
    assert_eq!(err, MembershipError::IdExists);
}

#[test]
fn test_cluster_member_add_removed_id() {
    let mut cluster = Cluster::new(1);
    let member = Member {
        id: 10,
        name: "node1".into(),
        peer_urls: vec!["http://127.0.0.1:2380".into()],
        client_urls: vec![],
        is_learner: false,
    };
    assert!(cluster.add_member(member).is_ok());
    assert!(cluster.remove_member(10).is_ok());

    let re_add = Member {
        id: 10,
        name: "node1-again".into(),
        peer_urls: vec!["http://127.0.0.1:2381".into()],
        client_urls: vec![],
        is_learner: false,
    };
    let err = cluster.add_member(re_add).unwrap_err();
    assert_eq!(err, MembershipError::IdRemoved);
}

#[test]
fn test_cluster_member_add_peer_url_exists() {
    let mut cluster = Cluster::new(1);
    let peer_url = vec!["http://127.0.0.1:2380".into()];
    let member1 = Member {
        id: 10,
        name: "node1".into(),
        peer_urls: peer_url.clone(),
        client_urls: vec![],
        is_learner: false,
    };
    assert!(cluster.add_member(member1).is_ok());

    let member2 = Member {
        id: 20,
        name: "node2".into(),
        peer_urls: peer_url,
        client_urls: vec![],
        is_learner: false,
    };
    let err = cluster.add_member(member2).unwrap_err();
    assert_eq!(err, MembershipError::PeerUrlExists);
}

#[test]
fn test_cluster_member_remove() {
    let mut cluster = Cluster::new(1);
    let member = Member {
        id: 10,
        name: "node1".into(),
        peer_urls: vec!["http://127.0.0.1:2380".into()],
        client_urls: vec![],
        is_learner: false,
    };
    assert!(cluster.add_member(member).is_ok());
    assert!(cluster.remove_member(10).is_ok());

    // Member should be gone from the list
    assert!(cluster.list_members().is_empty());
    // ID should be in the removed set
    assert!(cluster.is_removed(10));
}

#[test]
fn test_cluster_member_remove_not_found() {
    let mut cluster = Cluster::new(1);
    let err = cluster.remove_member(99).unwrap_err();
    assert_eq!(err, MembershipError::IdNotFound);
}

#[test]
fn test_cluster_member_update() {
    let mut cluster = Cluster::new(1);
    let member = Member {
        id: 10,
        name: "node1".into(),
        peer_urls: vec!["http://127.0.0.1:2380".into()],
        client_urls: vec!["http://127.0.0.1:2379".into()],
        is_learner: false,
    };
    assert!(cluster.add_member(member).is_ok());

    let new_peer_urls = vec!["http://127.0.0.1:2381".into()];
    let new_client_urls = vec!["http://127.0.0.1:2382".into()];
    assert!(cluster.update_member(10, new_peer_urls.clone(), new_client_urls.clone()).is_ok());

    let updated = cluster.get_member(10).unwrap();
    assert_eq!(updated.peer_urls, new_peer_urls);
    assert_eq!(updated.client_urls, new_client_urls);
}

#[test]
fn test_cluster_member_update_not_found() {
    let mut cluster = Cluster::new(1);
    let err = cluster.update_member(99, vec![], vec![]).unwrap_err();
    assert_eq!(err, MembershipError::IdNotFound);
}

#[test]
fn test_cluster_member_list() {
    let mut cluster = Cluster::new(1);
    let members = vec![
        Member {
            id: 1,
            name: "alpha".into(),
            peer_urls: vec!["http://10.0.0.1:2380".into()],
            client_urls: vec![],
            is_learner: false,
        },
        Member {
            id: 2,
            name: "beta".into(),
            peer_urls: vec!["http://10.0.0.2:2380".into()],
            client_urls: vec![],
            is_learner: false,
        },
        Member {
            id: 3,
            name: "gamma".into(),
            peer_urls: vec!["http://10.0.0.3:2380".into()],
            client_urls: vec![],
            is_learner: true,
        },
    ];
    for m in members.clone() {
        assert!(cluster.add_member(m).is_ok());
    }

    let listed = cluster.list_members();
    assert_eq!(listed.len(), 3);

    // Verify all IDs are present (order is insertion order)
    let mut ids: Vec<_> = listed.iter().map(|m| m.id).collect();
    ids.sort();
    assert_eq!(ids, vec![1, 2, 3]);

    // Verify the learner flag is preserved
    let gamma = listed.iter().find(|m| m.id == 3).unwrap();
    assert!(gamma.is_learner);
}

#[test]
fn test_cluster_member_promote() {
    let mut cluster = Cluster::new(1);
    let member = Member {
        id: 10,
        name: "learner-node".into(),
        peer_urls: vec!["http://127.0.0.1:2380".into()],
        client_urls: vec![],
        is_learner: true,
    };
    assert!(cluster.add_member(member).is_ok());
    assert!(cluster.promote_member(10).is_ok());

    let promoted = cluster.get_member(10).unwrap();
    assert!(!promoted.is_learner);
}

#[test]
fn test_cluster_member_promote_not_learner() {
    let mut cluster = Cluster::new(1);
    let member = Member {
        id: 10,
        name: "voter-node".into(),
        peer_urls: vec!["http://127.0.0.1:2380".into()],
        client_urls: vec![],
        is_learner: false,
    };
    assert!(cluster.add_member(member).is_ok());
    let err = cluster.promote_member(10).unwrap_err();
    assert_eq!(err, MembershipError::MemberNotLearner);
}

#[test]
fn test_cluster_member_promote_not_found() {
    let mut cluster = Cluster::new(1);
    let err = cluster.promote_member(99).unwrap_err();
    assert_eq!(err, MembershipError::IdNotFound);
}

#[test]
fn test_cluster_is_removed() {
    let mut cluster = Cluster::new(1);
    // Fresh cluster: no IDs removed
    assert!(!cluster.is_removed(10));

    let member = Member {
        id: 10,
        name: "node1".into(),
        peer_urls: vec!["http://127.0.0.1:2380".into()],
        client_urls: vec![],
        is_learner: false,
    };
    assert!(cluster.add_member(member).is_ok());
    assert!(cluster.remove_member(10).is_ok());

    assert!(cluster.is_removed(10));
    assert!(!cluster.is_removed(20));
}

#[test]
fn test_cluster_get_member() {
    let mut cluster = Cluster::new(1);
    // Non-existent member returns None
    assert!(cluster.get_member(99).is_none());

    let member = Member {
        id: 10,
        name: "node1".into(),
        peer_urls: vec!["http://127.0.0.1:2380".into()],
        client_urls: vec![],
        is_learner: false,
    };
    assert!(cluster.add_member(member).is_ok());

    let found = cluster.get_member(10);
    assert!(found.is_some());
    assert_eq!(found.unwrap().name, "node1");

    // Non-existent after add still returns None
    assert!(cluster.get_member(99).is_none());
}

#[test]
fn test_cluster_gen_id() {
    let id1 = Cluster::gen_id();
    let start = Instant::now();
    while start.elapsed() < Duration::from_micros(1) {}
    let id2 = Cluster::gen_id();
    assert_ne!(id1, id2, "consecutive gen_id calls must produce different IDs");
    assert_ne!(id1, 0);
    assert_ne!(id2, 0);
}

#[test]
fn test_cluster_with_state() {
    let state = ClusterState {
        cluster_id: 42,
        members: vec![Member {
            id: 1,
            name: "restored-node".into(),
            peer_urls: vec!["http://127.0.0.1:2380".into()],
            client_urls: vec!["http://127.0.0.1:2379".into()],
            is_learner: false,
        }],
        removed: vec![99],
        version: Some("3.5".into()),
    };
    let cluster = Cluster::with_state(1, state);
    assert_eq!(cluster.get_cluster_id(), 42);
    assert_eq!(cluster.list_members().len(), 1);
    assert_eq!(cluster.list_members()[0].name, "restored-node");
    assert!(cluster.is_removed(99));
    assert!(!cluster.is_removed(1));
    assert_eq!(cluster.get_state().version, Some("3.5".into()));
}

#[test]
fn test_cluster_get_state() {
    let mut cluster = Cluster::new(1);
    let original_id = cluster.get_cluster_id();

    let member = Member {
        id: 10,
        name: "node1".into(),
        peer_urls: vec!["http://127.0.0.1:2380".into()],
        client_urls: vec![],
        is_learner: false,
    };
    assert!(cluster.add_member(member).is_ok());

    let state = cluster.get_state();
    assert_eq!(cluster.state_arc().members.len(), state.members.len());
    assert_eq!(cluster.state_arc().cluster_id, state.cluster_id);
    assert_eq!(state.cluster_id, original_id);
    assert_eq!(state.members.len(), 1);
    assert_eq!(state.members[0].id, 10);
}

#[test]
fn test_cluster_set_state() {
    let mut cluster = Cluster::new(1);
    let new_state = ClusterState {
        cluster_id: 100,
        members: vec![Member {
            id: 7,
            name: "replaced".into(),
            peer_urls: vec!["http://127.0.0.1:2380".into()],
            client_urls: vec![],
            is_learner: false,
        }],
        removed: vec![1, 2, 3],
        version: None,
    };
    cluster.set_state(new_state);

    assert_eq!(cluster.get_cluster_id(), 100);
    assert_eq!(cluster.list_members().len(), 1);
    assert_eq!(cluster.list_members()[0].id, 7);
    assert!(cluster.is_removed(1));
    assert!(cluster.is_removed(3));
}

#[test]
fn test_cluster_validate_config_change() {
    let mut cluster = Cluster::new(1);
    let fresh = Member {
        id: 10,
        name: "new-node".into(),
        peer_urls: vec!["http://127.0.0.1:2380".into()],
        client_urls: vec![],
        is_learner: false,
    };
    // Fresh ID should pass validation
    assert!(cluster.validate_config_change(&fresh).is_ok());

    // Add the member
    assert!(cluster.add_member(fresh).is_ok());

    // Same ID should now fail
    let dup = Member {
        id: 10,
        name: "dup".into(),
        peer_urls: vec!["http://127.0.0.1:2381".into()],
        client_urls: vec![],
        is_learner: false,
    };
    assert_eq!(
        cluster.validate_config_change(&dup).unwrap_err(),
        MembershipError::IdExists
    );

    // Remove and re-validate
    assert!(cluster.remove_member(10).is_ok());
    let removed_id = Member {
        id: 10,
        name: "removed-again".into(),
        peer_urls: vec!["http://127.0.0.1:2382".into()],
        client_urls: vec![],
        is_learner: false,
    };
    assert_eq!(
        cluster.validate_config_change(&removed_id).unwrap_err(),
        MembershipError::IdRemoved
    );
}
