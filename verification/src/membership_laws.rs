//! What holds of the members of a cluster, and of the requests about them.

use crate::etcdserverpb;
use crate::etcdserverpb::{
    MemberAddRequest, MemberPromoteRequest, MemberRemoveRequest, MemberUpdateRequest,
};
use crate::membership::{
    added, are_members, distinct, has_id, is_member, law_removed_stays_removed, member_updated,
    place, promotion, removal, text_views, ClusterView, MemberOutcome, MemberProposal, MemberView,
    MembershipError,
};
use crate::raft::RaftMetrics;
use crate::rpc::status::{Code, Status};
use vstd::prelude::*;
use vstd::string::*;

verus! {

/// Where a member stands: at the first place with its number, or nowhere.
pub proof fn law_place_of_member(members: Seq<MemberView>, id: u64)
    ensures
        ({
            let n = place(members, id);
            &&& n <= members.len()
            &&& n < members.len() ==> members[n as int].id == id
            &&& forall|i: int| 0 <= i < n ==> (#[trigger] members[i]).id != id
            &&& has_id(members, id) == (n < members.len())
        }),
    decreases members.len(),
{
    if members.len() > 0 {
        if members[0].id != id {
            let rest = members.skip(1);
            law_place_of_member(rest, id);
            let n = place(members, id);
            assert forall|i: int| 0 <= i < n implies (#[trigger] members[i]).id != id by {
                if i > 0 {
                    assert(rest[i - 1] == members[i]);
                }
            }
            if n < members.len() {
                assert(rest[n - 1] == members[n as int]);
            }
            if has_id(members, id) {
                let i = choose|i: int| 0 <= i < members.len() && (#[trigger] members[i]).id == id;
                assert(rest[i - 1].id == id);
            }
        }
    }
}

/// Who may become a member: one whose number was not removed, is that of no member, and
/// whose addresses are those of no member. Which of these comes first decides the error.
pub proof fn law_who_may_join(s: ClusterView, m: MemberView)
    ensures
        ({
            let gone = s.removed.contains(m.id);
            let known = exists|i: int| 0 <= i < s.members.len() && (#[trigger] s.members[i]).id
                == m.id;
            let reached = exists|i: int|
                0 <= i < s.members.len() && (#[trigger] s.members[i]).peer_urls == m.peer_urls;
            &&& gone ==> s.add_error(m) == Some(MembershipError::IdRemoved)
            &&& !gone && known ==> s.add_error(m) == Some(MembershipError::IdExists)
            &&& !gone && !known && reached ==> s.add_error(m) == Some(
                MembershipError::PeerUrlExists,
            )
            &&& !gone && !known && !reached ==> s.add_error(m) is None
            &&& gone ==> s.change_error(m) == Some(MembershipError::IdRemoved)
            &&& !gone && known ==> s.change_error(m) == Some(MembershipError::IdExists)
            &&& !gone && !known ==> s.change_error(m) is None
        }),
{
}

/// Without replication a member that may join is the last member from then on, with the
/// addresses that were asked for, and joins once. One that may not changes nothing.
pub proof fn law_member_joins(
    s: ClusterView,
    t: ClusterView,
    req: MemberAddRequest,
    id: u64,
    r: Result<(MemberOutcome, u64), Status>,
)
    requires
        added(None, s, t, req, id, r),
    ensures
        r is Err ==> t == s && r->Err_0@.code == Code::InvalidArgument,
        r is Err == (s.removed.contains(id) || (exists|i: int|
            0 <= i < s.members.len() && (#[trigger] s.members[i]).id == id) || (exists|i: int|
            0 <= i < s.members.len() && (#[trigger] s.members[i]).peer_urls == text_views(
                req.peer_ur_ls@,
            ))),
        r matches Ok(done) ==> {
            let m = t.members.last();
            &&& done.0 is Done
            &&& done.1 == id
            &&& t.members.len() == s.members.len() + 1
            &&& t.members.drop_last() == s.members
            &&& m.id == id
            &&& m.peer_urls == text_views(req.peer_ur_ls@)
            &&& m.client_urls.len() == 0
            &&& m.name.len() == 0
            &&& m.is_learner == req.is_learner
            &&& t.removed == s.removed
            &&& t.cluster_id == s.cluster_id
            &&& t.version == s.version
            &&& t.add_error(m) == Some(MembershipError::IdExists)
            &&& t.member(id) == m
        },
{
    reveal_strlit("");
    if r is Ok {
        let m = t.members.last();
        assert(t.members.drop_last() =~= s.members);
        assert(t.members[t.members.len() - 1] == m);
        assert(has_id(t.members, id));
        assert(!t.removed.contains(id));
        law_place_of_member(t.members, id);
        let n = place(t.members, id) as int;
        if n < s.members.len() {
            assert(s.members[n].id == id);
        }
    }
}

/// With replication a leader changes nothing at once: what was asked for is proposed as
/// it is.
pub proof fn law_changes_are_proposed(
    m: RaftMetrics,
    s: ClusterView,
    t: ClusterView,
    add: MemberAddRequest,
    id: u64,
    a: Result<(MemberOutcome, u64), Status>,
    remove: MemberRemoveRequest,
    b: Result<MemberOutcome, Status>,
    update: MemberUpdateRequest,
    c: Result<MemberOutcome, Status>,
    promote: MemberPromoteRequest,
    d: Result<MemberOutcome, Status>,
)
    requires
        m.current_leader == Some(m.id),
        added(Some(m), s, t, add, id, a),
        removal(Some(m), s, remove, b, t),
        member_updated(Some(m), s, update, c, t),
        promotion(Some(m), s, promote, d, t),
    ensures
        t == s,
        a matches Ok((
            MemberOutcome::Propose(MemberProposal::Add { peer_urls, is_learner, member_id }),
            n,
        )) && peer_urls@ == add.peer_ur_ls@ && is_learner == add.is_learner && member_id == id && n
            == id,
        remove.id == m.id ==> b is Err && b->Err_0@.code == Code::InvalidArgument,
        remove.id != m.id ==> b == Ok::<MemberOutcome, Status>(
            MemberOutcome::Propose(MemberProposal::Remove { id: remove.id }),
        ),
        c matches Ok(
            MemberOutcome::Propose(MemberProposal::Update { id: n, peer_urls, client_urls }),
        ) && n == update.id && peer_urls@ == update.peer_ur_ls@ && client_urls@.len() == 0,
        d == Ok::<MemberOutcome, Status>(
            MemberOutcome::Propose(MemberProposal::Promote { id: promote.id }),
        ),
{
}

/// A node that does not lead refuses every change, and changes nothing.
pub proof fn law_only_the_leader_changes(
    m: RaftMetrics,
    s: ClusterView,
    t: ClusterView,
    remove: MemberRemoveRequest,
    b: Result<MemberOutcome, Status>,
    update: MemberUpdateRequest,
    c: Result<MemberOutcome, Status>,
    promote: MemberPromoteRequest,
    d: Result<MemberOutcome, Status>,
)
    requires
        m.current_leader != Some(m.id),
        removal(Some(m), s, remove, b, t),
        member_updated(Some(m), s, update, c, t),
        promotion(Some(m), s, promote, d, t),
    ensures
        t == s,
        b is Err,
        c is Err,
        d is Err,
        m.current_leader is None ==> b->Err_0@.code == Code::Unavailable && c->Err_0@.code
            == Code::Unavailable && d->Err_0@.code == Code::Unavailable,
        m.current_leader is Some ==> b->Err_0@.code == Code::FailedPrecondition && c->Err_0@.code
            == Code::FailedPrecondition && d->Err_0@.code == Code::FailedPrecondition,
{
}

/// Without replication a member leaves if it is one. Its number is not given again, and
/// the others stay as they are, in their order.
pub proof fn law_member_leaves(
    s: ClusterView,
    req: MemberRemoveRequest,
    r: Result<MemberOutcome, Status>,
    t: ClusterView,
    m: MemberView,
)
    requires
        removal(None, s, req, r, t),
        distinct(s),
        m.id == req.id,
    ensures
        r is Ok == exists|i: int|
            0 <= i < s.members.len() && (#[trigger] s.members[i]).id == req.id,
        r is Err ==> t == s && r->Err_0@.code == Code::InvalidArgument,
        r is Ok ==> {
            &&& r->Ok_0 is Done
            &&& forall|i: int| 0 <= i < t.members.len() ==> (#[trigger] t.members[i]).id != req.id
            &&& t.members.len() == s.members.len() - 1
            &&& forall|x: MemberView|
                x.id != req.id ==> #[trigger] t.members.contains(x) == s.members.contains(x)
            &&& t.removed.contains(req.id)
            &&& forall|k: u64| #[trigger] s.removed.contains(k) ==> t.removed.contains(k)
            &&& t.add_error(m) == Some(MembershipError::IdRemoved)
            &&& distinct(t)
        },
{
    if r is Ok {
        law_place_of_member(s.members, req.id);
        law_removed_stays_removed(s, req.id, m);
        let p = place(s.members, req.id) as int;
        assert forall|i: int| 0 <= i < t.members.len() implies (#[trigger] t.members[i]).id
            != req.id by {
            if t.members[i].id == req.id {
                assert(has_id(t.members, req.id));
            }
        }
        assert(t.removed[t.removed.len() - 1] == req.id);
        assert forall|k: u64| #[trigger] s.removed.contains(k) implies t.removed.contains(k) by {
            let i = choose|i: int| 0 <= i < s.removed.len() && s.removed[i] == k;
            assert(t.removed[i] == k);
        }
        assert forall|x: MemberView| x.id != req.id implies #[trigger] t.members.contains(x)
            == s.members.contains(x) by {
            if t.members.contains(x) {
                let i = choose|i: int| 0 <= i < t.members.len() && t.members[i] == x;
                assert(s.members[if i < p {
                    i
                } else {
                    i + 1
                }] == x);
            }
            if s.members.contains(x) {
                let i = choose|i: int| 0 <= i < s.members.len() && s.members[i] == x;
                assert(t.members[if i < p {
                    i
                } else {
                    i - 1
                }] == x);
            }
        }
    }
}

/// Without replication a member gets the addresses that were asked for, if it is one.
/// Nothing else of it changes, nor do the other members.
pub proof fn law_member_moves(
    s: ClusterView,
    req: MemberUpdateRequest,
    r: Result<MemberOutcome, Status>,
    t: ClusterView,
    i: int,
)
    requires
        member_updated(None, s, req, r, t),
        distinct(s),
        0 <= i < s.members.len(),
    ensures
        r is Ok == exists|j: int|
            0 <= j < s.members.len() && (#[trigger] s.members[j]).id == req.id,
        r is Err ==> t == s && r->Err_0@.code == Code::InvalidArgument,
        t.members.len() == s.members.len(),
        t.members[i].id == s.members[i].id,
        t.members[i].name == s.members[i].name,
        t.members[i].is_learner == s.members[i].is_learner,
        s.members[i].id == req.id ==> t.members[i].peer_urls == text_views(req.peer_ur_ls@)
            && t.members[i].client_urls.len() == 0,
        s.members[i].id != req.id ==> t.members[i] == s.members[i],
        t.removed == s.removed,
{
    law_place_of_member(s.members, req.id);
    if r is Ok {
        let p = place(s.members, req.id) as int;
        if s.members[i].id == req.id && i != p {
            assert(s.members[i].id != s.members[p].id);
        }
    }
}

/// Without replication a learner becomes a voting member, and only a learner. Nothing
/// else of it changes, nor do the other members.
pub proof fn law_learner_is_promoted(
    s: ClusterView,
    req: MemberPromoteRequest,
    r: Result<MemberOutcome, Status>,
    t: ClusterView,
    i: int,
)
    requires
        promotion(None, s, req, r, t),
        distinct(s),
        0 <= i < s.members.len(),
    ensures
        s.members[i].id == req.id ==> r is Ok == s.members[i].is_learner,
        r is Ok ==> exists|j: int|
            0 <= j < s.members.len() && (#[trigger] s.members[j]).id == req.id
                && s.members[j].is_learner,
        r is Err ==> t == s && r->Err_0@.code == Code::InvalidArgument,
        t.members.len() == s.members.len(),
        t.members[i].id == s.members[i].id,
        t.members[i].name == s.members[i].name,
        t.members[i].peer_urls == s.members[i].peer_urls,
        t.members[i].client_urls == s.members[i].client_urls,
        s.members[i].id == req.id ==> !t.members[i].is_learner,
        s.members[i].id != req.id ==> t.members[i] == s.members[i],
        t.removed == s.removed,
{
    law_place_of_member(s.members, req.id);
    let p = place(s.members, req.id) as int;
    if s.members[i].id == req.id {
        assert(has_id(s.members, req.id));
        if i != p {
            assert(s.members[i].id != s.members[p].id);
        }
    }
    if r is Ok {
        assert(s.members[p].id == req.id && s.members[p].is_learner);
    }
}

/// A list of the members tells each of them, in their order, as it is.
pub proof fn law_members_are_told(
    ps: Seq<etcdserverpb::Member>,
    ms: Seq<MemberView>,
    i: int,
)
    requires
        are_members(ps, ms),
        0 <= i < ms.len(),
    ensures
        ps.len() == ms.len(),
        ps[i].id == ms[i].id,
        ps[i].name@ == ms[i].name,
        text_views(ps[i].peer_ur_ls@) == ms[i].peer_urls,
        text_views(ps[i].client_ur_ls@) == ms[i].client_urls,
        ps[i].is_learner == ms[i].is_learner,
{
    assert(is_member(ps[i], ms[i]));
}

/// Every error is told in words of its own.
pub proof fn law_errors_differ(a: MembershipError, b: MembershipError)
    ensures
        a.spec_text() == b.spec_text() ==> a == b,
{
    reveal_strlit("member ID has been removed");
    assert("member ID has been removed"@.len() == 26);
    reveal_strlit("member ID not found");
    assert("member ID not found"@.len() == 19);
    reveal_strlit("member ID already exists");
    assert("member ID already exists"@.len() == 24);
    reveal_strlit("peer URL already exists");
    assert("peer URL already exists"@.len() == 23);
    reveal_strlit("member is not a learner");
    assert("member is not a learner"@.len() == 23);
    reveal_strlit("too many learners");
    assert("too many learners"@.len() == 17);
    reveal_strlit("not enough started members");
    assert("not enough started members"@.len() == 26);
    assert("peer URL already exists"@[0] == 'p');
    assert("member is not a learner"@[0] == 'm');
    assert("member ID has been removed"@[0] == 'm');
    assert("not enough started members"@[0] == 'n');
}

} // verus!
