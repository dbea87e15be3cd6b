//! The members of the cluster.

use crate::clock::{is_time, now_nanos};
use crate::etcdserverpb;
use crate::etcdserverpb::{
    MemberAddRequest, MemberAddResponse, MemberPromoteRequest, MemberRemoveRequest,
    MemberUpdateRequest, MembersResponse, ResponseHeader,
};
use crate::kv_service::{leader_error, refused, KvService};
use crate::raft::RaftMetrics;
use crate::rpc::status::{Code, Status, StatusView};
use crate::text::{joined, text_equal};
use vstd::prelude::*;
use vstd::string::*;

verus! {

/// A member of the cluster.
#[derive(Debug)]
pub struct Member {
    pub id: u64,
    pub name: String,
    pub peer_urls: Vec<String>,
    pub client_urls: Vec<String>,
    pub is_learner: bool,
}

/// What a [`Member`] says.
#[verifier::ext_equal]
pub struct MemberView {
    pub id: u64,
    pub name: Seq<char>,
    pub peer_urls: Seq<Seq<char>>,
    pub client_urls: Seq<Seq<char>>,
    pub is_learner: bool,
}

/// The views of some texts.
pub open spec fn text_views(s: Seq<String>) -> Seq<Seq<char>> {
    s.map_values(|t: String| t@)
}

/// The views of some members.
pub open spec fn member_views(s: Seq<Member>) -> Seq<MemberView> {
    s.map_values(|m: Member| m@)
}

impl View for Member {
    type V = MemberView;

    open spec fn view(&self) -> MemberView {
        MemberView {
            id: self.id,
            name: self.name@,
            peer_urls: text_views(self.peer_urls@),
            client_urls: text_views(self.client_urls@),
            is_learner: self.is_learner,
        }
    }
}

/// A copy of some texts.
pub fn copy_texts(s: &Vec<String>) -> (r: Vec<String>)
    ensures
        text_views(r@) == text_views(s@),
{
    let ghost all = text_views(s@);
    let mut r: Vec<String> = Vec::new();
    let mut i: usize = 0;
    while i < s.len()
        invariant
            i <= s@.len(),
            all == text_views(s@),
            text_views(r@) == all.take(i as int),
        decreases s@.len() - i,
    {
        let ghost before = text_views(r@);
        r.push(s[i].clone());
        proof {
            assert(text_views(r@) =~= before.push(all[i as int]));
            assert(all.take(i + 1) =~= all.take(i as int).push(all[i as int]));
        }
        i += 1;
    }
    assert(all.take(all.len() as int) =~= all);
    r
}

/// Whether two lists of texts are the same.
fn texts_equal(a: &Vec<String>, b: &Vec<String>) -> (r: bool)
    ensures
        r == (text_views(a@) == text_views(b@)),
{
    if a.len() != b.len() {
        assert(text_views(a@).len() != text_views(b@).len());
        return false;
    }
    let mut i: usize = 0;
    while i < a.len()
        invariant
            i <= a@.len() == b@.len(),
            forall|j: int| 0 <= j < i ==> (#[trigger] a@[j])@ == b@[j]@,
        decreases a@.len() - i,
    {
        if !text_equal(a[i].as_str(), b[i].as_str()) {
            proof {
                assert(text_views(a@)[i as int] != text_views(b@)[i as int]);
            }
            return false;
        }
        i += 1;
    }
    assert(text_views(a@) =~= text_views(b@));
    true
}

impl Clone for Member {
    fn clone(&self) -> (r: Member)
        ensures
            r@ == self@,
    {
        Member {
            id: self.id,
            name: self.name.clone(),
            peer_urls: copy_texts(&self.peer_urls),
            client_urls: copy_texts(&self.client_urls),
            is_learner: self.is_learner,
        }
    }
}

/// A copy of some members.
fn copy_members(s: &Vec<Member>) -> (r: Vec<Member>)
    ensures
        member_views(r@) == member_views(s@),
{
    let ghost all = member_views(s@);
    let mut r: Vec<Member> = Vec::new();
    let mut i: usize = 0;
    while i < s.len()
        invariant
            i <= s@.len(),
            all == member_views(s@),
            member_views(r@) == all.take(i as int),
        decreases s@.len() - i,
    {
        let ghost before = member_views(r@);
        r.push(s[i].clone());
        proof {
            assert(member_views(r@) =~= before.push(all[i as int]));
            assert(all.take(i + 1) =~= all.take(i as int).push(all[i as int]));
        }
        i += 1;
    }
    assert(all.take(all.len() as int) =~= all);
    r
}

/// The members of a cluster, those that left it, and its version.
#[derive(Debug)]
pub struct ClusterState {
    pub cluster_id: u64,
    pub members: Vec<Member>,
    pub removed: Vec<u64>,
    pub version: Option<String>,
}

/// What a [`ClusterState`] says.
#[verifier::ext_equal]
pub struct ClusterView {
    pub cluster_id: u64,
    pub members: Seq<MemberView>,
    pub removed: Seq<u64>,
    pub version: Option<Seq<char>>,
}

impl View for ClusterState {
    type V = ClusterView;

    open spec fn view(&self) -> ClusterView {
        ClusterView {
            cluster_id: self.cluster_id,
            members: member_views(self.members@),
            removed: self.removed@,
            version: match self.version {
                Some(v) => Some(v@),
                None => None,
            },
        }
    }
}

impl Clone for ClusterState {
    fn clone(&self) -> (r: ClusterState)
        ensures
            r@ == self@,
    {
        ClusterState {
            cluster_id: self.cluster_id,
            members: copy_members(&self.members),
            removed: vstd::slice::slice_to_vec(self.removed.as_slice()),
            version: match &self.version {
                Some(v) => Some(v.clone()),
                None => None,
            },
        }
    }
}

/// Why the members are not changed.
#[derive(Clone, Copy, Debug, PartialEq, Eq, Structural)]
pub enum MembershipError {
    IdRemoved,
    IdNotFound,
    IdExists,
    PeerUrlExists,
    MemberNotLearner,
    TooManyLearners,
    NotEnoughStartedMembers,
}

impl MembershipError {
    /// The error in words.
    pub open spec fn spec_text(self) -> Seq<char> {
        match self {
            MembershipError::IdRemoved => "member ID has been removed"@,
            MembershipError::IdNotFound => "member ID not found"@,
            MembershipError::IdExists => "member ID already exists"@,
            MembershipError::PeerUrlExists => "peer URL already exists"@,
            MembershipError::MemberNotLearner => "member is not a learner"@,
            MembershipError::TooManyLearners => "too many learners"@,
            MembershipError::NotEnoughStartedMembers => "not enough started members"@,
        }
    }

    /// The error in words.
    pub fn text(&self) -> (r: &'static str)
        ensures
            r@ == self.spec_text(),
    {
        match self {
            MembershipError::IdRemoved => "member ID has been removed",
            MembershipError::IdNotFound => "member ID not found",
            MembershipError::IdExists => "member ID already exists",
            MembershipError::PeerUrlExists => "peer URL already exists",
            MembershipError::MemberNotLearner => "member is not a learner",
            MembershipError::TooManyLearners => "too many learners",
            MembershipError::NotEnoughStartedMembers => "not enough started members",
        }
    }
}

/// Where the first member with a number stands, or the length without one.
pub open spec fn place(members: Seq<MemberView>, id: u64) -> nat
    decreases members.len(),
{
    if members.len() == 0 || members[0].id == id {
        0
    } else {
        1 + place(members.skip(1), id)
    }
}

/// A member has a number.
pub open spec fn has_id(members: Seq<MemberView>, id: u64) -> bool {
    exists|i: int| 0 <= i < members.len() && (#[trigger] members[i]).id == id
}

/// A member is reached under some addresses.
pub open spec fn has_urls(members: Seq<MemberView>, urls: Seq<Seq<char>>) -> bool {
    exists|i: int| 0 <= i < members.len() && (#[trigger] members[i]).peer_urls == urls
}

proof fn lemma_place(members: Seq<MemberView>, id: u64, i: int)
    requires
        0 <= i <= members.len(),
        forall|j: int| 0 <= j < i ==> (#[trigger] members[j]).id != id,
        i < members.len() ==> members[i].id == id,
    ensures
        place(members, id) == i,
        (i < members.len()) == has_id(members, id),
    decreases members.len(),
{
    if i > 0 {
        let rest = members.skip(1);
        assert(members[0].id != id);
        assert forall|j: int| 0 <= j < i - 1 implies (#[trigger] rest[j]).id != id by {
            assert(rest[j] == members[j + 1]);
        }
        lemma_place(rest, id, i - 1);
    }
}

impl ClusterView {
    /// Why a new member is refused, if it is.
    pub open spec fn change_error(self, m: MemberView) -> Option<MembershipError> {
        if self.removed.contains(m.id) {
            Some(MembershipError::IdRemoved)
        } else if has_id(self.members, m.id) {
            Some(MembershipError::IdExists)
        } else {
            None
        }
    }

    /// Why a new member is not added, if it is not.
    pub open spec fn add_error(self, m: MemberView) -> Option<MembershipError> {
        match self.change_error(m) {
            Some(e) => Some(e),
            None => if has_urls(self.members, m.peer_urls) {
                Some(MembershipError::PeerUrlExists)
            } else {
                None
            },
        }
    }

    /// The cluster with a new member.
    pub open spec fn with_member(self, m: MemberView) -> ClusterView {
        ClusterView { members: self.members.push(m), ..self }
    }

    /// The cluster without a member, whose number stays removed.
    pub open spec fn without_member(self, id: u64) -> ClusterView {
        ClusterView {
            members: self.members.remove(place(self.members, id) as int),
            removed: self.removed.push(id),
            ..self
        }
    }

    /// The cluster with another member in the place of the one with its number.
    pub open spec fn with_changed(self, id: u64, m: MemberView) -> ClusterView {
        ClusterView { members: self.members.update(place(self.members, id) as int, m), ..self }
    }

    /// The member with a number.
    pub open spec fn member(self, id: u64) -> MemberView {
        self.members[place(self.members, id) as int]
    }
}

/// A number made of a time: the time is mixed, and folded.
pub open spec fn mixed_id(nanos: u128) -> u64 {
    let m = (((nanos as u64) * 6364136223846793005 + 1442695040888963407) % 0x1_0000_0000_0000_0000)
        as u64;
    m ^ (m >> 32u64)
}

/// The members of the cluster, as this node knows them.
#[derive(Debug)]
pub struct Cluster {
    state: ClusterState,
    pub local_id: u64,
}

impl View for Cluster {
    type V = ClusterView;

    closed spec fn view(&self) -> ClusterView {
        self.state@
    }
}

impl Cluster {
    /// The number of this node.
    pub closed spec fn local(&self) -> u64 {
        self.local_id
    }

    /// A cluster without members. Its number is made of the time of the machine.
    pub fn new(local_id: u64) -> (r: Cluster)
        ensures
            r.local() == local_id,
            exists|now: u128|
                #![trigger is_time(now as int)]
                is_time(now as int) && r@ == (ClusterView {
                    cluster_id: mixed_id(now),
                    members: Seq::empty(),
                    removed: Seq::empty(),
                    version: None,
                }),
    {
        let state = ClusterState {
            cluster_id: Self::gen_id(),
            members: Vec::new(),
            removed: Vec::new(),
            version: None,
        };
        proof {
            let now = choose|now: u128|
                #![trigger is_time(now as int)]
                is_time(now as int) && state.cluster_id == mixed_id(now);
            assert(is_time(now as int));
            assert(state@.members =~= Seq::empty());
            assert(state@.removed =~= Seq::empty());
        }
        Cluster { state, local_id }
    }

    /// A cluster with a given state.
    pub fn with_state(local_id: u64, state: ClusterState) -> (r: Cluster)
        ensures
            r.local() == local_id,
            r@ == state@,
    {
        Cluster { state, local_id }
    }

    fn position(&self, id: u64) -> (i: usize)
        ensures
            i == place(self@.members, id),
            i <= self.state.members@.len(),
            self@.members.len() == self.state.members@.len(),
            (i < self@.members.len()) == has_id(self@.members, id),
            i < self@.members.len() ==> self@.members[i as int].id == id,
    {
        let mut i: usize = 0;
        while i < self.state.members.len() && self.state.members[i].id != id
            invariant
                i <= self.state.members@.len(),
                forall|j: int| 0 <= j < i ==> (#[trigger] self@.members[j]).id != id,
            decreases self.state.members@.len() - i,
        {
            i += 1;
        }
        proof {
            lemma_place(self@.members, id, i as int);
        }
        i
    }

    /// Refuses a new member whose number is taken or was removed.
    pub fn validate_config_change(&self, member: &Member) -> (r: Result<(), MembershipError>)
        ensures
            r is Err == self@.change_error(member@) is Some,
            r matches Err(e) ==> self@.change_error(member@) == Some(e),
    {
        if self.is_removed(member.id) {
            return Err(MembershipError::IdRemoved);
        }
        if self.position(member.id) < self.state.members.len() {
            return Err(MembershipError::IdExists);
        }
        Ok(())
    }

    /// Adds a member.
    pub fn add_member(&mut self, member: Member) -> (r: Result<(), MembershipError>)
        ensures
            final(self).local() == old(self).local(),
            r is Err == old(self)@.add_error(member@) is Some,
            r matches Err(e) ==> old(self)@.add_error(member@) == Some(e) && final(self)@ == old(
                self,
            )@,
            r is Ok ==> final(self)@ == old(self)@.with_member(member@),
    {
        match self.validate_config_change(&member) {
            Ok(()) => {},
            Err(e) => {
                return Err(e);
            },
        }
        let ghost before = self@;
        let mut i: usize = 0;
        while i < self.state.members.len()
            invariant
                i <= self.state.members@.len(),
                self@ == before,
                *self == *old(self),
                before == old(self)@,
                before.change_error(member@) is None,
                forall|j: int|
                    0 <= j < i ==> (#[trigger] before.members[j]).peer_urls != member@.peer_urls,
            decreases self.state.members@.len() - i,
        {
            if texts_equal(&self.state.members[i].peer_urls, &member.peer_urls) {
                assert(before.members[i as int].peer_urls == member@.peer_urls);
                return Err(MembershipError::PeerUrlExists);
            }
            i += 1;
        }
        let ghost m = member@;
        self.state.members.push(member);
        assert(self@.members =~= before.members.push(m));
        Ok(())
    }

    /// Removes a member. Its number cannot be used again.
    pub fn remove_member(&mut self, id: u64) -> (r: Result<(), MembershipError>)
        ensures
            final(self).local() == old(self).local(),
            r is Ok == has_id(old(self)@.members, id),
            r matches Err(e) ==> e == MembershipError::IdNotFound && final(self)@ == old(self)@,
            r is Ok ==> final(self)@ == old(self)@.without_member(id),
    {
        let ghost before = self@;
        let i = self.position(id);
        if i == self.state.members.len() {
            return Err(MembershipError::IdNotFound);
        }
        let _ = self.state.members.remove(i);
        self.state.removed.push(id);
        proof {
            assert(self@.members =~= before.members.remove(i as int));
        }
        Ok(())
    }

    /// Gives a member other addresses.
    pub fn update_member(
        &mut self,
        id: u64,
        peer_urls: Vec<String>,
        client_urls: Vec<String>,
    ) -> (r: Result<(), MembershipError>)
        ensures
            final(self).local() == old(self).local(),
            r is Ok == has_id(old(self)@.members, id),
            r matches Err(e) ==> e == MembershipError::IdNotFound && final(self)@ == old(self)@,
            r is Ok ==> final(self)@ == old(self)@.with_changed(
                id,
                MemberView {
                    peer_urls: text_views(peer_urls@),
                    client_urls: text_views(client_urls@),
                    ..old(self)@.member(id)
                },
            ),
    {
        let ghost before = self@;
        let ghost peers = text_views(peer_urls@);
        let ghost clients = text_views(client_urls@);
        let i = self.position(id);
        if i == self.state.members.len() {
            return Err(MembershipError::IdNotFound);
        }
        self.state.members[i].peer_urls = peer_urls;
        self.state.members[i].client_urls = client_urls;
        proof {
            let m = MemberView {
                peer_urls: peers,
                client_urls: clients,
                ..before.members[i as int]
            };
            assert(self@.members =~= before.members.update(i as int, m));
        }
        Ok(())
    }

    /// Makes a learner a voting member.
    pub fn promote_member(&mut self, id: u64) -> (r: Result<(), MembershipError>)
        ensures
            final(self).local() == old(self).local(),
            r is Ok == (has_id(old(self)@.members, id) && old(self)@.member(id).is_learner),
            r matches Err(e) ==> {
                &&& e == (if has_id(old(self)@.members, id) {
                    MembershipError::MemberNotLearner
                } else {
                    MembershipError::IdNotFound
                })
                &&& final(self)@ == old(self)@
            },
            r is Ok ==> final(self)@ == old(self)@.with_changed(
                id,
                MemberView { is_learner: false, ..old(self)@.member(id) },
            ),
    {
        let ghost before = self@;
        let i = self.position(id);
        if i == self.state.members.len() {
            return Err(MembershipError::IdNotFound);
        }
        if !self.state.members[i].is_learner {
            return Err(MembershipError::MemberNotLearner);
        }
        self.state.members[i].is_learner = false;
        proof {
            let m = MemberView { is_learner: false, ..before.members[i as int] };
            assert(self@.members =~= before.members.update(i as int, m));
        }
        Ok(())
    }

    /// The members, in the order in which they were added.
    pub fn list_members(&self) -> (r: Vec<Member>)
        ensures
            member_views(r@) == self@.members,
    {
        copy_members(&self.state.members)
    }

    /// Whether the member with a number was removed.
    pub fn is_removed(&self, id: u64) -> (r: bool)
        ensures
            r == self@.removed.contains(id),
    {
        let mut i: usize = 0;
        while i < self.state.removed.len()
            invariant
                i <= self.state.removed@.len(),
                forall|j: int| 0 <= j < i ==> self.state.removed@[j] != id,
            decreases self.state.removed@.len() - i,
        {
            if self.state.removed[i] == id {
                return true;
            }
            i += 1;
        }
        false
    }

    /// The member with a number.
    pub fn get_member(&self, id: u64) -> (r: Option<Member>)
        ensures
            r is Some == has_id(self@.members, id),
            r matches Some(m) ==> m@ == self@.member(id),
    {
        let i = self.position(id);
        if i < self.state.members.len() {
            Some(self.state.members[i].clone())
        } else {
            None
        }
    }

    /// The number of the cluster.
    pub fn get_cluster_id(&self) -> (r: u64)
        ensures
            r == self@.cluster_id,
    {
        self.state.cluster_id
    }

    /// The state of the cluster.
    pub fn get_state(&self) -> (r: ClusterState)
        ensures
            r@ == self@,
    {
        self.state.clone()
    }

    /// The state of the cluster itself, not a copy of it.
    pub fn state_arc(&self) -> (r: &ClusterState)
        ensures
            r@ == self@,
    {
        &self.state
    }

    /// Replaces the state of the cluster.
    pub fn set_state(&mut self, state: ClusterState)
        ensures
            final(self)@ == state@,
            final(self).local() == old(self).local(),
    {
        self.state = state;
    }

    /// A number made of the time of the machine.
    pub fn gen_id() -> (r: u64)
        ensures
            exists|now: u128|
                #![trigger is_time(now as int)]
                is_time(now as int) && r == mixed_id(now),
    {
        let now = now_nanos();
        assert(is_time(now as int));
        Self::id_at(now)
    }

    /// A number made of a time.
    pub fn id_at(nanos: u128) -> (r: u64)
        ensures
            r == mixed_id(nanos),
    {
        let m = (nanos as u64).wrapping_mul(6364136223846793005).wrapping_add(
            1442695040888963407,
        );
        proof {
            lemma_mix(nanos as u64);
        }
        m ^ (m >> 32u64)
    }
}

proof fn lemma_mix(n: u64)
    ensures
        (n * 6364136223846793005 % 0x1_0000_0000_0000_0000 + 1442695040888963407)
            % 0x1_0000_0000_0000_0000 == (n * 6364136223846793005 + 1442695040888963407)
            % 0x1_0000_0000_0000_0000,
{
    vstd::arithmetic::div_mod::lemma_add_mod_noop(
        n * 6364136223846793005,
        1442695040888963407,
        0x1_0000_0000_0000_0000,
    );
}

/// A change of the members that is to be replicated.
#[derive(Debug)]
pub enum MemberProposal {
    Add { peer_urls: Vec<String>, is_learner: bool, member_id: u64 },
    Remove { id: u64 },
    Update { id: u64, peer_urls: Vec<String>, client_urls: Vec<String> },
    Promote { id: u64 },
}

/// What a request comes to: it is done, or a change is to be replicated first.
#[derive(Debug)]
pub enum MemberOutcome {
    Done,
    Propose(MemberProposal),
}

/// The status for a change that was refused.
pub open spec fn change_refused(words: Seq<char>, e: MembershipError) -> StatusView {
    StatusView { code: Code::InvalidArgument, message: words + e.spec_text() }
}

fn refuse(words: &str, e: MembershipError) -> (r: Status)
    ensures
        r@ == change_refused(words@, e),
{
    Status { code: Code::InvalidArgument, message: joined(words, e.text()) }
}

/// A member as a response tells it.
pub open spec fn is_member(p: etcdserverpb::Member, m: MemberView) -> bool {
    &&& p.id == m.id
    &&& p.name@ == m.name
    &&& text_views(p.peer_ur_ls@) == m.peer_urls
    &&& text_views(p.client_ur_ls@) == m.client_urls
    &&& p.is_learner == m.is_learner
}

/// The members as a response tells them.
pub open spec fn are_members(ps: Seq<etcdserverpb::Member>, ms: Seq<MemberView>) -> bool {
    ps.len() == ms.len() && forall|i: int|
        0 <= i < ps.len() ==> is_member(#[trigger] ps[i], ms[i])
}

/// The header of the responses, which names the cluster.
pub open spec fn cluster_header(id: u64) -> ResponseHeader {
    ResponseHeader { cluster_id: id, member_id: 0, revision: 0, raft_term: 0 }
}

/// The requests about members, with replication or without it.
#[derive(Debug)]
pub struct ClusterService {
    raft: Option<RaftMetrics>,
}

impl View for ClusterService {
    type V = Option<RaftMetrics>;

    closed spec fn view(&self) -> Option<RaftMetrics> {
        self.raft
    }
}

/// How the removal of a member ends.
pub open spec fn removal(
    raft: Option<RaftMetrics>,
    s: ClusterView,
    req: MemberRemoveRequest,
    r: Result<MemberOutcome, Status>,
    t: ClusterView,
) -> bool {
    let own = raft matches Some(m) && req.id == m.id;
    let known = has_id(s.members, req.id);
    let refusal = if leader_error(raft) is Some {
        leader_error(raft)
    } else if own {
        Some(refused("cannot remove the current leader node"@))
    } else if raft is None && !known {
        Some(change_refused("member remove failed: "@, MembershipError::IdNotFound))
    } else {
        None
    };
    &&& r is Err == refusal is Some
    &&& r matches Err(e) ==> refusal == Some(e@)
    &&& r is Ok ==> (raft is Some) == (r->Ok_0 is Propose)
    &&& r matches Ok(MemberOutcome::Propose(p)) ==> p == (MemberProposal::Remove {
        id: req.id,
    })
    &&& t == (if r matches Ok(MemberOutcome::Done) {
        s.without_member(req.id)
    } else {
        s
    })
}

/// How a change of the addresses of a member ends.
pub open spec fn member_updated(
    raft: Option<RaftMetrics>,
    s: ClusterView,
    req: MemberUpdateRequest,
    r: Result<MemberOutcome, Status>,
    t: ClusterView,
) -> bool {
    let known = has_id(s.members, req.id);
    let refusal = if leader_error(raft) is Some {
        leader_error(raft)
    } else if raft is None && !known {
        Some(change_refused("member update failed: "@, MembershipError::IdNotFound))
    } else {
        None
    };
    &&& r is Err == refusal is Some
    &&& r matches Err(e) ==> refusal == Some(e@)
    &&& r is Ok ==> (raft is Some) == (r->Ok_0 is Propose)
    &&& r matches Ok(MemberOutcome::Propose(p)) ==> {
        &&& p matches MemberProposal::Update { id, peer_urls, client_urls }
        &&& id == req.id
        &&& peer_urls == req.peer_ur_ls
        &&& client_urls@.len() == 0
    }
    &&& t == (if r matches Ok(MemberOutcome::Done) {
        s.with_changed(
            req.id,
            MemberView {
                peer_urls: text_views(req.peer_ur_ls@),
                client_urls: Seq::empty(),
                ..s.member(req.id)
            },
        )
    } else {
        s
    })
}

/// How the promotion of a member ends.
pub open spec fn promotion(
    raft: Option<RaftMetrics>,
    s: ClusterView,
    req: MemberPromoteRequest,
    r: Result<MemberOutcome, Status>,
    t: ClusterView,
) -> bool {
    let known = has_id(s.members, req.id);
    let refusal = if leader_error(raft) is Some {
        leader_error(raft)
    } else if raft is Some {
        None
    } else if !known {
        Some(change_refused("member promote failed: "@, MembershipError::IdNotFound))
    } else if !s.member(req.id).is_learner {
        Some(
            change_refused(
                "member promote failed: "@,
                MembershipError::MemberNotLearner,
            ),
        )
    } else {
        None
    };
    &&& r is Err == refusal is Some
    &&& r matches Err(e) ==> refusal == Some(e@)
    &&& r is Ok ==> (raft is Some) == (r->Ok_0 is Propose)
    &&& r matches Ok(MemberOutcome::Propose(p)) ==> p == (MemberProposal::Promote {
        id: req.id,
    })
    &&& t == (if r matches Ok(MemberOutcome::Done) {
        s.with_changed(
            req.id,
            MemberView { is_learner: false, ..s.member(req.id) },
        )
    } else {
        s
    })
}

impl ClusterService {
    /// Without replication: changes are made at once.
    pub fn new() -> (r: ClusterService)
        ensures
            r@ is None,
    {
        ClusterService { raft: None }
    }

    /// With replication: changes are proposed by the leader.
    pub fn with_raft(metrics: RaftMetrics) -> (r: ClusterService)
        ensures
            r@ == Some(metrics),
    {
        ClusterService { raft: Some(metrics) }
    }

    /// Refuses where this node is not the leader.
    pub fn ensure_leader(&self) -> (r: Result<(), Status>)
        ensures
            r is Err == leader_error(self@) is Some,
            r matches Err(e) ==> leader_error(self@) == Some(e@),
    {
        match self.raft {
            Some(metrics) => KvService::with_raft(metrics).ensure_leader(),
            None => Ok(()),
        }
    }

    /// A member as a response tells it.
    fn member_to_proto(m: &Member) -> (r: etcdserverpb::Member)
        ensures
            is_member(r, m@),
    {
        etcdserverpb::Member {
            id: m.id,
            name: m.name.clone(),
            peer_ur_ls: copy_texts(&m.peer_urls),
            client_ur_ls: copy_texts(&m.client_urls),
            is_learner: m.is_learner,
        }
    }

    /// The members as a response tells them.
    fn all_members_proto(cluster: &Cluster) -> (r: Vec<etcdserverpb::Member>)
        ensures
            are_members(r@, cluster@.members),
    {
        let members = cluster.list_members();
        let ghost all = cluster@.members;
        assert(member_views(members@).len() == members@.len());
        let mut r: Vec<etcdserverpb::Member> = Vec::new();
        let mut i: usize = 0;
        while i < members.len()
            invariant
                i <= members@.len(),
                all == member_views(members@),
                r@.len() == i,
                forall|j: int| 0 <= j < i ==> is_member(#[trigger] r@[j], all[j]),
            decreases members@.len() - i,
        {
            r.push(Self::member_to_proto(&members[i]));
            i += 1;
        }
        r
    }

    /// Tells the members.
    pub fn member_list(&self, cluster: &Cluster) -> (r: MembersResponse)
        ensures
            r.header == Some(cluster_header(cluster@.cluster_id)),
            are_members(r.members@, cluster@.members),
    {
        MembersResponse {
            header: Some(
                ResponseHeader {
                    cluster_id: cluster.get_cluster_id(),
                    member_id: 0,
                    revision: 0,
                    raft_term: 0,
                },
            ),
            members: Self::all_members_proto(cluster),
        }
    }

    /// Adds a member with a number that is made of the time of the machine, or
    /// proposes it. Returns the number.
    pub fn member_add(&self, cluster: &mut Cluster, req: MemberAddRequest) -> (r: Result<
        (MemberOutcome, u64),
        Status,
    >)
        ensures
            final(cluster).local() == old(cluster).local(),
            leader_error(self@) is Some ==> {
                &&& r matches Err(e) && leader_error(self@) == Some(e@)
                &&& final(cluster)@ == old(cluster)@
            },
            leader_error(self@) is None ==> exists|now: u128|
                #![trigger is_time(now as int)]
                is_time(now as int) && added(
                    self@,
                    old(cluster)@,
                    final(cluster)@,
                    req,
                    mixed_id(now),
                    r,
                ),
    {
        let id = Cluster::gen_id();
        let ghost now = choose|now: u128|
            #![trigger is_time(now as int)]
            is_time(now as int) && id == mixed_id(now);
        assert(is_time(now as int));
        self.member_add_as(cluster, req, id)
    }

    /// Adds a member with a given number, or proposes it.
    pub fn member_add_as(&self, cluster: &mut Cluster, req: MemberAddRequest, member_id: u64) -> (r:
        Result<(MemberOutcome, u64), Status>)
        ensures
            final(cluster).local() == old(cluster).local(),
            leader_error(self@) is Some ==> {
                &&& r matches Err(e) && leader_error(self@) == Some(e@)
                &&& final(cluster)@ == old(cluster)@
            },
            leader_error(self@) is None ==> added(
                self@,
                old(cluster)@,
                final(cluster)@,
                req,
                member_id,
                r,
            ),
    {
        match self.ensure_leader() {
            Ok(()) => {},
            Err(e) => {
                return Err(e);
            },
        }
        if self.raft.is_some() {
            return Ok(
                (
                    MemberOutcome::Propose(
                        MemberProposal::Add {
                            peer_urls: req.peer_ur_ls,
                            is_learner: req.is_learner,
                            member_id,
                        },
                    ),
                    member_id,
                ),
            );
        }
        let client_urls: Vec<String> = Vec::new();
        assert(text_views(client_urls@) =~= Seq::empty());
        let member = Member {
            id: member_id,
            name: "".to_owned(),
            peer_urls: req.peer_ur_ls,
            client_urls,
            is_learner: req.is_learner,
        };
        match cluster.add_member(member) {
            Ok(()) => Ok((MemberOutcome::Done, member_id)),
            Err(e) => Err(refuse("member add failed: ", e)),
        }
    }

    /// The response to the addition of a member with a number.
    pub fn member_add_response(&self, cluster: &Cluster, member_id: u64) -> (r: MemberAddResponse)
        ensures
            r.header == Some(cluster_header(cluster@.cluster_id)),
            r.member matches Some(m) && is_member(
                m,
                MemberView {
                    id: member_id,
                    name: ""@,
                    peer_urls: Seq::empty(),
                    client_urls: Seq::empty(),
                    is_learner: false,
                },
            ),
            are_members(r.members@, cluster@.members),
    {
        let list = self.member_list(cluster);
        let member = etcdserverpb::Member {
            id: member_id,
            name: "".to_owned(),
            peer_ur_ls: Vec::new(),
            client_ur_ls: Vec::new(),
            is_learner: false,
        };
        proof {
            assert(text_views(member.peer_ur_ls@) =~= Seq::empty());
            assert(text_views(member.client_ur_ls@) =~= Seq::empty());
        }
        MemberAddResponse { header: list.header, member: Some(member), members: list.members }
    }

    /// Removes a member, or proposes it. The leader does not remove itself.
    pub fn member_remove(&self, cluster: &mut Cluster, req: MemberRemoveRequest) -> (r: Result<
        MemberOutcome,
        Status,
    >)
        ensures
            final(cluster).local() == old(cluster).local(),
            removal(self@, old(cluster)@, req, r, final(cluster)@),
    {
        match self.ensure_leader() {
            Ok(()) => {},
            Err(e) => {
                return Err(e);
            },
        }
        if let Some(metrics) = self.raft {
            if req.id == metrics.id {
                return Err(Status::invalid_argument("cannot remove the current leader node"));
            }
            return Ok(MemberOutcome::Propose(MemberProposal::Remove { id: req.id }));
        }
        match cluster.remove_member(req.id) {
            Ok(()) => Ok(MemberOutcome::Done),
            Err(e) => Err(refuse("member remove failed: ", e)),
        }
    }

    /// Gives a member other addresses, or proposes it. It has none for clients then.
    pub fn member_update(&self, cluster: &mut Cluster, req: MemberUpdateRequest) -> (r: Result<
        MemberOutcome,
        Status,
    >)
        ensures
            final(cluster).local() == old(cluster).local(),
            member_updated(self@, old(cluster)@, req, r, final(cluster)@),
    {
        match self.ensure_leader() {
            Ok(()) => {},
            Err(e) => {
                return Err(e);
            },
        }
        let client_urls: Vec<String> = Vec::new();
        assert(text_views(client_urls@) =~= Seq::empty());
        if self.raft.is_some() {
            return Ok(
                MemberOutcome::Propose(
                    MemberProposal::Update { id: req.id, peer_urls: req.peer_ur_ls, client_urls },
                ),
            );
        }
        match cluster.update_member(req.id, req.peer_ur_ls, client_urls) {
            Ok(()) => Ok(MemberOutcome::Done),
            Err(e) => Err(refuse("member update failed: ", e)),
        }
    }

    /// Makes a learner a voting member, or proposes it.
    pub fn member_promote(&self, cluster: &mut Cluster, req: MemberPromoteRequest) -> (r: Result<
        MemberOutcome,
        Status,
    >)
        ensures
            final(cluster).local() == old(cluster).local(),
            promotion(self@, old(cluster)@, req, r, final(cluster)@),
    {
        match self.ensure_leader() {
            Ok(()) => {},
            Err(e) => {
                return Err(e);
            },
        }
        if self.raft.is_some() {
            return Ok(MemberOutcome::Propose(MemberProposal::Promote { id: req.id }));
        }
        match cluster.promote_member(req.id) {
            Ok(()) => Ok(MemberOutcome::Done),
            Err(e) => Err(refuse("member promote failed: ", e)),
        }
    }
}

/// The addition of a member with a number: it is made, refused or proposed.
pub open spec fn added(
    raft: Option<RaftMetrics>,
    s: ClusterView,
    t: ClusterView,
    req: MemberAddRequest,
    member_id: u64,
    r: Result<(MemberOutcome, u64), Status>,
) -> bool {
    let m = MemberView {
        id: member_id,
        name: ""@,
        peer_urls: text_views(req.peer_ur_ls@),
        client_urls: Seq::empty(),
        is_learner: req.is_learner,
    };
    if raft is Some {
        &&& r matches Ok((
            MemberOutcome::Propose(MemberProposal::Add { peer_urls, is_learner, member_id: id }),
            n,
        ))
        &&& peer_urls == req.peer_ur_ls
        &&& is_learner == req.is_learner
        &&& id == member_id
        &&& n == member_id
        &&& t == s
    } else {
        match s.add_error(m) {
            Some(e) => {
                &&& r matches Err(status)
                &&& status@ == change_refused("member add failed: "@, e)
                &&& t == s
            },
            None => {
                &&& r matches Ok((MemberOutcome::Done, n))
                &&& n == member_id
                &&& t == s.with_member(m)
            },
        }
    }
}

/// Members keep different numbers, and a removed number does not come back.
pub open spec fn distinct(s: ClusterView) -> bool {
    &&& forall|i: int, j: int|
        #![trigger s.members[i], s.members[j]]
        0 <= i < j < s.members.len() ==> s.members[i].id != s.members[j].id
    &&& forall|i: int|
        0 <= i < s.members.len() ==> !s.removed.contains((#[trigger] s.members[i]).id)
}

/// An addition keeps the numbers of the members different from each other and from
/// those that were removed.
pub proof fn law_add_keeps_distinct(s: ClusterView, m: MemberView)
    requires
        distinct(s),
        s.add_error(m) is None,
    ensures
        distinct(s.with_member(m)),
{
    let t = s.with_member(m);
    assert forall|i: int, j: int|
        #![trigger t.members[i], t.members[j]]
        0 <= i < j < t.members.len() implies t.members[i].id != t.members[j].id by {
        assert(t.members[i] == s.members[i]);
        if j < s.members.len() {
            assert(t.members[j] == s.members[j]);
        } else {
            assert(s.members[i].id != m.id);
        }
    }
    assert forall|i: int| 0 <= i < t.members.len() implies !t.removed.contains(
        (#[trigger] t.members[i]).id,
    ) by {
        if i < s.members.len() {
            assert(t.members[i] == s.members[i]);
        }
    }
}

/// A removed member is gone, its number is refused from then on, and the numbers
/// stay different.
pub proof fn law_removed_stays_removed(s: ClusterView, id: u64, m: MemberView)
    requires
        distinct(s),
        has_id(s.members, id),
        m.id == id,
    ensures
        distinct(s.without_member(id)),
        !has_id(s.without_member(id).members, id),
        s.without_member(id).add_error(m) == Some(MembershipError::IdRemoved),
{
    let t = s.without_member(id);
    let w = choose|i: int| 0 <= i < s.members.len() && (#[trigger] s.members[i]).id == id;
    lemma_place_is(s, id, w);
    let p = place(s.members, id) as int;
    assert(t.removed[t.removed.len() - 1] == id);
    assert forall|i: int| 0 <= i < t.members.len() implies {
        let k = if i < p {
            i
        } else {
            i + 1
        };
        #[trigger] t.members[i] == s.members[k]
    } by {
    }
    assert forall|i: int, j: int|
        #![trigger t.members[i], t.members[j]]
        0 <= i < j < t.members.len() implies t.members[i].id != t.members[j].id by {
        let a = if i < p {
            i
        } else {
            i + 1
        };
        let b = if j < p {
            j
        } else {
            j + 1
        };
        assert(s.members[a].id != s.members[b].id);
    }
    assert forall|i: int| 0 <= i < t.members.len() implies !t.removed.contains(
        (#[trigger] t.members[i]).id,
    ) && t.members[i].id != id by {
        let a = if i < p {
            i
        } else {
            i + 1
        };
        assert(s.members[a].id != s.members[p].id);
        assert(!s.removed.contains(s.members[a].id));
        if t.removed.contains(t.members[i].id) {
            let k = choose|k: int|
                0 <= k < t.removed.len() && t.removed[k] == t.members[i].id;
            if k < s.removed.len() {
                assert(s.removed[k] == t.members[i].id);
            }
        }
    }
}

proof fn lemma_place_is(s: ClusterView, id: u64, w: int)
    requires
        distinct(s),
        0 <= w < s.members.len(),
        s.members[w].id == id,
    ensures
        place(s.members, id) == w,
{
    assert forall|j: int| 0 <= j < w implies (#[trigger] s.members[j]).id != id by {
        assert(s.members[j].id != s.members[w].id);
    }
    lemma_place(s.members, id, w);
}

} // verus!
