use mem_etcd::etcdserverpb::{
    MemberAddRequest, MemberPromoteRequest, MemberRemoveRequest, MemberUpdateRequest,
};
use mem_etcd::membership::{
    Cluster, ClusterService, MemberOutcome, MemberProposal, MembershipError,
};
use mem_etcd::raft::RaftMetrics;

fn add(url: &str, is_learner: bool) -> MemberAddRequest {
    MemberAddRequest { peer_ur_ls: vec![url.to_string()], is_learner }
}

#[test]
fn members_are_changed_at_once() {
    let mut c = Cluster::new(1);
    let s = ClusterService::new();
    let (outcome, id) = s.member_add_as(&mut c, add("http://a", true), 7).unwrap();
    assert!(matches!(outcome, MemberOutcome::Done));
    assert_eq!(id, 7);
    let r = s.member_add_response(&c, id);
    assert_eq!(r.member.unwrap().id, 7);
    assert_eq!(r.members.len(), 1);
    assert_eq!(r.members[0].peer_ur_ls, vec!["http://a".to_string()]);
    assert!(r.members[0].is_learner);

    s.member_promote(&mut c, MemberPromoteRequest { id: 7 }).unwrap();
    assert_eq!(
        s.member_promote(&mut c, MemberPromoteRequest { id: 7 }).unwrap_err().message(),
        "member promote failed: ".to_string() + MembershipError::MemberNotLearner.text()
    );
    s.member_update(
        &mut c,
        MemberUpdateRequest { id: 7, peer_ur_ls: vec!["http://b".to_string()] },
    )
    .unwrap();
    let list = s.member_list(&c);
    assert_eq!(list.members[0].peer_ur_ls, vec!["http://b".to_string()]);
    assert_eq!(list.header.unwrap().cluster_id, c.get_cluster_id());
    s.member_remove(&mut c, MemberRemoveRequest { id: 7 }).unwrap();
    assert!(c.is_removed(7));
    assert_eq!(
        s.member_remove(&mut c, MemberRemoveRequest { id: 7 }).unwrap_err().message(),
        "member remove failed: ".to_string() + MembershipError::IdNotFound.text()
    );
    assert_eq!(
        s.member_add_as(&mut c, add("http://a", false), 7).unwrap_err().message(),
        "member add failed: ".to_string() + MembershipError::IdRemoved.text()
    );
}

#[test]
fn member_numbers_are_made() {
    let mut c = Cluster::new(1);
    let s = ClusterService::new();
    let (_, id) = s.member_add(&mut c, add("http://a", false)).unwrap();
    assert_eq!(c.get_member(id).unwrap().peer_urls, vec!["http://a".to_string()]);
}

#[test]
fn replicated_changes_are_proposed() {
    let mut c = Cluster::new(1);
    let s = ClusterService::with_raft(RaftMetrics { id: 1, current_leader: Some(1) });
    match s.member_add_as(&mut c, add("http://a", true), 9).unwrap() {
        (MemberOutcome::Propose(MemberProposal::Add { member_id, is_learner, .. }), 9) => {
            assert_eq!(member_id, 9);
            assert!(is_learner);
        }
        other => panic!("not proposed: {:?}", other),
    }
    assert!(c.list_members().is_empty());
    assert_eq!(
        s.member_remove(&mut c, MemberRemoveRequest { id: 1 }).unwrap_err().message(),
        "cannot remove the current leader node"
    );
    assert!(matches!(
        s.member_remove(&mut c, MemberRemoveRequest { id: 2 }).unwrap(),
        MemberOutcome::Propose(MemberProposal::Remove { id: 2 })
    ));
    assert!(matches!(
        s.member_promote(&mut c, MemberPromoteRequest { id: 2 }).unwrap(),
        MemberOutcome::Propose(MemberProposal::Promote { id: 2 })
    ));
    assert!(matches!(
        s.member_update(&mut c, MemberUpdateRequest { id: 2, peer_ur_ls: vec![] }).unwrap(),
        MemberOutcome::Propose(MemberProposal::Update { id: 2, .. })
    ));
}

#[test]
fn followers_change_no_members() {
    let mut c = Cluster::new(1);
    let s = ClusterService::with_raft(RaftMetrics { id: 1, current_leader: Some(2) });
    assert!(s.member_add_as(&mut c, add("http://a", true), 9).is_err());
    assert!(s.member_remove(&mut c, MemberRemoveRequest { id: 2 }).is_err());
    assert_eq!(s.member_list(&c).members.len(), 0);
}
