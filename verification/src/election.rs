//! Elections: the leader is who holds the key of the election.

use crate::clock::is_time;
use crate::history::{kv_of, History};
use crate::kv_service::current_pair;
use crate::lease::lease::LeaseError;
use crate::lease::lessor::{queued, expiry_after, LeaseItem, Lessor, LessorView};
use crate::mvccpb::{
    change_views, copy_bytes, flat, opt_kv, ChangeView, FlatView, KeyValue, KeyValueWithPrev,
};
use crate::outside::{bytes_from_vec, bytes_to_vec};
use crate::rpc::status::{Code, Status, StatusView};
use crate::store::{SetRequired, Store, StoreView};
use crate::text::joined;
use crate::v3electionpb::{
    CampaignRequest, CampaignResponse, LeaderRequest, LeaderResponse, ObserveRequest,
    ProclaimRequest, ProclaimResponse, ResignRequest, ResignResponse,
};
use vstd::prelude::*;
use vstd::string::*;

verus! {

/// The start of the keys of elections: the word between two zero bytes.
pub open spec fn election_prefix() -> Seq<u8> {
    seq![0u8, 101u8, 108u8, 101u8, 99u8, 116u8, 105u8, 111u8, 110u8, 0u8]
}

/// The key of an election.
pub open spec fn spec_election_key(name: Seq<u8>) -> Seq<u8> {
    election_prefix() + name
}

/// The seconds of the lease of a campaign or a lock.
pub const LEASE_SECONDS: i64 = 60;

/// The key of an election.
pub fn election_key(name: &Vec<u8>) -> (r: Vec<u8>)
    ensures
        r@ == spec_election_key(name@),
{
    let mut k: Vec<u8> = vec![0u8, 101u8, 108u8, 101u8, 99u8, 116u8, 105u8, 111u8, 110u8, 0u8];
    assert(k@ =~= election_prefix());
    k.extend_from_slice(name.as_slice());
    assert(k@ =~= spec_election_key(name@));
    k
}

fn kv_to_leader_response(kv: &KeyValue, revision: i64) -> (r: LeaderResponse)
    ensures
        r@ == flat(Some(kv@), revision as int),
{
    LeaderResponse {
        kv_key: copy_bytes(&kv.key),
        kv_value: bytes_to_vec(&kv.value),
        kv_create_revision: kv.create_revision,
        kv_mod_revision: kv.mod_revision,
        kv_version: kv.version,
        kv_lease: kv.lease,
        revision,
    }
}

fn leader_response(kv: &Option<KeyValue>, revision: i64) -> (r: LeaderResponse)
    ensures
        r@ == flat(opt_kv(*kv), revision as int),
{
    match kv {
        Some(kv) => kv_to_leader_response(kv, revision),
        None => {
            let r = LeaderResponse {
                kv_key: Vec::new(),
                kv_value: Vec::new(),
                kv_create_revision: 0,
                kv_mod_revision: 0,
                kv_version: 0,
                kv_lease: 0,
                revision,
            };
            assert(r@ =~= flat(None, revision as int));
            r
        },
    }
}

fn campaign_response(kv: &Option<KeyValue>, revision: i64) -> (r: CampaignResponse)
    ensures
        r@ == flat(opt_kv(*kv), revision as int),
{
    match kv {
        Some(kv) => CampaignResponse {
            leader_key: copy_bytes(&kv.key),
            leader_value: bytes_to_vec(&kv.value),
            leader_create_revision: kv.create_revision,
            leader_mod_revision: kv.mod_revision,
            leader_version: kv.version,
            leader_lease: kv.lease,
            revision,
        },
        None => {
            let r = CampaignResponse {
                leader_key: Vec::new(),
                leader_value: Vec::new(),
                leader_create_revision: 0,
                leader_mod_revision: 0,
                leader_version: 0,
                leader_lease: 0,
                revision,
            };
            assert(r@ =~= flat(None, revision as int));
            r
        },
    }
}

/// The status for a lease that cannot be granted.
pub open spec fn grant_failed(e: LeaseError) -> StatusView {
    StatusView { code: Code::Internal, message: "lease grant failed: "@ + e.spec_name() }
}

/// The manager after a lease was granted at a time, and a key attached to it.
pub open spec fn leased(s: LessorView, id: i64, key: Seq<u8>, now: int) -> LessorView {
    let t = s.granted(id, id, LEASE_SECONDS, now);
    t.with_keys(id, seq![key])
}

/// The manager after a lease was granted at a time and revoked: its time stays in
/// the queue.
pub open spec fn leased_and_revoked(s: LessorView, id: i64, now: int) -> LessorView {
    LessorView {
        queue: queued(
            s.queue,
            LeaseItem { expiry: expiry_after(now, LEASE_SECONDS as int) as u128, id },
        ),
        told: s.told.remove(id),
        ..s
    }
}

/// Grants a lease that a client asks for, and attaches a key to it. Without a
/// positive number nothing is asked for.
pub fn lease_key(lessor: &mut Lessor, id: i64, key: &Vec<u8>) -> (r: Result<(), Status>)
    requires
        old(lessor).wf(),
    ensures
        final(lessor).wf(),
        r is Err == (id > 0 && old(lessor)@.leases.contains_key(id)),
        r matches Err(e) ==> e@ == grant_failed(LeaseError::Exists(id)) && final(lessor)@ == old(
            lessor,
        )@,
        r is Ok && id <= 0 ==> final(lessor)@ == old(lessor)@,
        r is Ok && id > 0 ==> exists|now: int|
            #![trigger is_time(now)]
            is_time(now) && final(lessor)@ == leased(old(lessor)@, id, key@, now),
{
    if id > 0 {
        let ghost before = lessor@;
        match lessor.grant(id, LEASE_SECONDS) {
            Ok(_) => {},
            Err(e) => {
                return Err(
                    Status {
                        code: Code::Internal,
                        message: joined("lease grant failed: ", e.name().as_str()),
                    },
                );
            },
        }
        let ghost now = choose|now: int|
            #![trigger is_time(now)]
            is_time(now) && lessor@ == before.granted(id, id, LEASE_SECONDS, now);
        let ghost granted = lessor@;
        match lessor.attach(id, key.as_slice()) {
            Ok(()) => {},
            Err(_) => {
                assert(false);
            },
        }
        proof {
            assert(granted.leases[id].keys.push(key@) =~= seq![key@]);
            assert(is_time(now) && lessor@ == leased(before, id, key@, now));
        }
    }
    Ok(())
}

/// Ends the lease of a client that did not get what it asked for.
fn unlease(lessor: &mut Lessor, id: i64)
    requires
        old(lessor).wf(),
    ensures
        final(lessor).wf(),
        id <= 0 ==> final(lessor)@ == old(lessor)@,
        id > 0 ==> final(lessor)@ == old(lessor)@.without_lease(id),
{
    if id > 0 {
        let _ = lessor.revoke(id);
    }
}

/// The elections.
#[derive(Debug)]
pub struct ElectionService {}

/// An observation of the leaders of an election.
#[derive(Debug)]
pub struct ObserveSession {
    pub key: Vec<u8>,
    pub watcher_id: i64,
    /// The last revision that was told.
    pub max_rev: i64,
}

/// What is to be done for an observer.
#[derive(Debug)]
pub enum ObserveAction {
    /// The responses are sent.
    Send(Vec<LeaderResponse>),
    /// The observation ends.
    Stop,
}

/// The views of some responses.
pub open spec fn leader_views(s: Seq<LeaderResponse>) -> Seq<FlatView> {
    s.map_values(|r: LeaderResponse| r@)
}

/// The last revision that was told after some changes.
pub open spec fn observed_upto(changes: Seq<ChangeView>, max: int) -> int
    decreases changes.len(),
{
    if changes.len() == 0 {
        max
    } else {
        let m = observed_upto(changes.drop_last(), max);
        if changes.last().kv.mod_revision > m {
            changes.last().kv.mod_revision
        } else {
            m
        }
    }
}

/// What an observer is told of some changes: each one that is later than all that
/// was told.
pub open spec fn observed(changes: Seq<ChangeView>, max: int) -> Seq<FlatView>
    decreases changes.len(),
{
    if changes.len() == 0 {
        Seq::empty()
    } else {
        let c = changes.last();
        let told = observed(changes.drop_last(), max);
        if c.kv.mod_revision > observed_upto(changes.drop_last(), max) {
            told.push(flat(Some(c.kv), c.kv.mod_revision))
        } else {
            told
        }
    }
}

/// The store and the leases when a campaign starts or is over.
#[verifier::ext_equal]
pub struct Candidacy {
    pub store: StoreView,
    pub lessor: LessorView,
}

/// How a campaign ends.
pub open spec fn campaigned(
    a: Candidacy,
    req: CampaignRequest,
    r: Result<CampaignResponse, Status>,
    b: Candidacy,
) -> bool {
    let h = a.store.history;
    let key = spec_election_key(req.name@);
    let s = a.lessor;
    let wins = !h.live(key);
    &&& r is Err == (req.lease > 0 && s.leases.contains_key(req.lease))
    &&& r matches Err(e) ==> {
        &&& e@ == grant_failed(LeaseError::Exists(req.lease))
        &&& b.store == a.store
        &&& b.lessor == s
    }
    &&& r matches Ok(resp) ==> {
        &&& resp@ == (if wins {
            flat(
                Some(kv_of(key, h.next_value(key, Some(req.value@)))),
                h.current() + 1,
            )
        } else {
            flat(h.conflict(key), h.current())
        })
        &&& b.store == (if wins {
            a.store.after_write(key, Some(req.value@))
        } else {
            a.store
        })
        &&& req.lease <= 0 ==> b.lessor == s
        &&& req.lease > 0 ==> exists|now: int|
            #![trigger is_time(now)]
            is_time(now) && b.lessor == (if wins {
                leased(s, req.lease, key, now)
            } else {
                leased_and_revoked(s, req.lease, now)
            })
    }
}

/// How a proclamation ends.
pub open spec fn proclaimed(
    s: StoreView,
    req: ProclaimRequest,
    r: Result<ProclaimResponse, Status>,
    t: StoreView,
) -> bool {
    let h = s.history;
    let key = spec_election_key(req.name@);
    &&& r is Ok == h.live(key)
    &&& r matches Ok(resp) ==> {
        &&& resp.revision == h.current() + 1
        &&& t == s.after_write(key, Some(req.value@))
    }
    &&& r matches Err(e) ==> {
        &&& e@ == (StatusView {
            code: Code::FailedPrecondition,
            message: "no leader; cannot proclaim"@,
        })
        &&& t == s
    }
}

/// How an observation starts.
pub open spec fn observation(
    s: StoreView,
    req: ObserveRequest,
    r: (ObserveSession, LeaderResponse),
    t: StoreView,
) -> bool {
    let h = s.history;
    let key = spec_election_key(req.name@);
    let leader = h.conflict(key);
    &&& r.0.key@ == key
    &&& r.0.watcher_id == s.watch_counter + 1
    &&& r.0.max_rev == (match leader {
        Some(kv) => kv.mod_revision,
        None => 0,
    })
    &&& r.1@ == flat(
        leader,
        match leader {
            Some(kv) => kv.mod_revision,
            None => h.current(),
        },
    )
    &&& t == s.after_watch(key, Seq::empty(), 0)
}

/// How a resignation ends.
pub open spec fn resigned(
    s: StoreView,
    req: ResignRequest,
    r: Result<ResignResponse, Status>,
    t: StoreView,
) -> bool {
    let h = s.history;
    let key = spec_election_key(req.name@);
    &&& r is Ok == h.live(key)
    &&& r matches Ok(resp) ==> {
        &&& resp.revision == h.current() + 1
        &&& t == s.after_write(key, None)
    }
    &&& r matches Err(e) ==> {
        &&& e@ == (StatusView {
            code: Code::FailedPrecondition,
            message: "no leader to resign"@,
        })
        &&& t == s
    }
}

impl ElectionService {
    /// The elections.
    pub fn new() -> (r: ElectionService) {
        ElectionService {  }
    }

    /// Asks for the leadership. The candidate becomes the leader where there is none.
    /// Otherwise the response tells the leader, and the lease of the candidate is
    /// revoked.
    pub fn campaign(&self, store: &mut Store, lessor: &mut Lessor, req: CampaignRequest) -> (r:
        Result<CampaignResponse, Status>)
        requires
            old(store).wf(),
            old(store)@.has_room(),
            old(lessor).wf(),
        ensures
            final(store).wf(),
            final(lessor).wf(),
            campaigned(
                Candidacy { store: old(store)@, lessor: old(lessor)@ },
                req,
                r,
                Candidacy { store: final(store)@, lessor: final(lessor)@ },
            ),
    {
        let ghost h = store@.history;
        let ghost s = lessor@;
        let lease_id = req.lease;
        let key = election_key(&req.name);
        proof {
            store.lemma_wf();
        }
        match lease_key(lessor, lease_id, &key) {
            Ok(()) => {},
            Err(e) => {
                return Err(e);
            },
        }
        let ghost now = choose|now: int|
            #![trigger is_time(now)]
            is_time(now) && lessor@ == leased(s, lease_id, key@, now);
        let required = SetRequired { required_last_revision: Some(0), required_version: None };
        let value = bytes_from_vec(req.value);
        match store.set(copy_bytes(&key), Some(value), Some(required)) {
            Ok(rev) => {
                let (leader, _) = current_pair(store, &key, None);
                proof {
                    if h.live(key@) {
                        assert(h.latest.contains_key(key@));
                    }
                    if lease_id > 0 {
                        assert(is_time(now));
                    }
                }
                Ok(campaign_response(&leader, rev))
            },
            Err((_, current)) => {
                unlease(lessor, lease_id);
                proof {
                    if lease_id > 0 {
                        assert(is_time(now));
                        assert(lessor@.leases =~= s.leases);
                        assert(lessor@ =~= leased_and_revoked(s, lease_id, now));
                    }
                }
                Ok(campaign_response(&current, store.current_revision()))
            },
        }
    }

    /// Gives the leader a new value. Without a leader there is nothing to proclaim.
    pub fn proclaim(&self, store: &mut Store, req: ProclaimRequest) -> (r: Result<
        ProclaimResponse,
        Status,
    >)
        requires
            old(store).wf(),
            old(store)@.has_room(),
        ensures
            final(store).wf(),
            proclaimed(old(store)@, req, r, final(store)@),
    {
        let key = election_key(&req.name);
        let (leader, _) = current_pair(store, &key, None);
        if leader.is_none() {
            return Err(Status::failed_precondition("no leader; cannot proclaim"));
        }
        match store.set(key, Some(bytes_from_vec(req.value)), None) {
            Ok(rev) => Ok(ProclaimResponse { revision: rev }),
            Err(_) => Err(Status::failed_precondition("no leader; cannot proclaim")),
        }
    }

    /// Tells the leader, if there is one.
    pub fn leader(&self, store: &Store, req: LeaderRequest) -> (r: LeaderResponse)
        requires
            store.wf(),
        ensures
            r@ == flat(
                store@.history.conflict(spec_election_key(req.name@)),
                store@.history.current(),
            ),
    {
        let key = election_key(&req.name);
        let (kv, revision) = current_pair(store, &key, None);
        leader_response(&kv, revision)
    }

    /// Starts to observe the leaders of an election. The first response tells the
    /// leader, if there is one.
    pub fn observe(&self, store: &mut Store, req: ObserveRequest) -> (r: (
        ObserveSession,
        LeaderResponse,
    ))
        requires
            old(store).wf(),
            old(store)@.watch_counter + 1 < i64::MAX,
        ensures
            final(store).wf(),
            observation(old(store)@, req, r, final(store)@),
    {
        let key = election_key(&req.name);
        let (initial, revision) = current_pair(store, &key, None);
        let end: Vec<u8> = Vec::new();
        assert(end@ =~= Seq::empty());
        let watcher_id = match store.watch(copy_bytes(&key), end, 0, true) {
            Ok((_, id)) => id,
            Err(_) => {
                assert(false);
                0
            },
        };
        let (max_rev, told) = match &initial {
            Some(kv) => (kv.mod_revision, kv.mod_revision),
            None => (0, revision),
        };
        (ObserveSession { key, watcher_id, max_rev }, leader_response(&initial, told))
    }

    /// Ends the leadership.
    pub fn resign(&self, store: &mut Store, req: ResignRequest) -> (r: Result<
        ResignResponse,
        Status,
    >)
        requires
            old(store).wf(),
            old(store)@.has_room(),
        ensures
            final(store).wf(),
            resigned(old(store)@, req, r, final(store)@),
    {
        let key = election_key(&req.name);
        match store.set(key, None, None) {
            Ok(rev) => Ok(ResignResponse { revision: rev }),
            Err(_) => Err(Status::failed_precondition("no leader to resign")),
        }
    }
}

/// What an observer does with some changes. Without any the observation ends, and the
/// key is no longer watched.
pub open spec fn changes_observed(
    w: ObserveSession,
    s: StoreView,
    changes: Seq<ChangeView>,
    r: ObserveAction,
    v: ObserveSession,
    t: StoreView,
) -> bool {
    &&& v.key == w.key
    &&& v.watcher_id == w.watcher_id
    &&& r is Stop == (changes.len() == 0)
    &&& r is Stop ==> {
        &&& v.max_rev == w.max_rev
        &&& t == (StoreView { watchers: s.watchers.remove((w.key@, w.watcher_id)), ..s })
    }
    &&& r matches ObserveAction::Send(told) ==> {
        &&& leader_views(told@) == observed(changes, w.max_rev as int)
        &&& v.max_rev == observed_upto(changes, w.max_rev as int)
        &&& t == s
    }
}

impl ObserveSession {
    /// Takes changes from the store and tells those that are later than what was
    /// told. Without any change the channel is closed, and the observation ends.
    pub fn on_changes(&mut self, store: &mut Store, changes: Vec<KeyValueWithPrev>) -> (r:
        ObserveAction)
        requires
            old(store).wf(),
        ensures
            final(store).wf(),
            changes_observed(
                *old(self),
                old(store)@,
                change_views(changes@),
                r,
                *final(self),
                final(store)@,
            ),
    {
        if changes.len() == 0 {
            store.unwatch(copy_bytes(&self.key), self.watcher_id);
            return ObserveAction::Stop;
        }
        let ghost all = change_views(changes@);
        let ghost start = self.max_rev as int;
        let mut told: Vec<LeaderResponse> = Vec::new();
        let mut i: usize = 0;
        proof {
            assert(all.take(0) =~= Seq::empty());
            assert(leader_views(told@) =~= Seq::empty());
        }
        while i < changes.len()
            invariant
                i <= changes@.len(),
                all == change_views(changes@),
                self.key == old(self).key,
                self.watcher_id == old(self).watcher_id,
                self.max_rev == observed_upto(all.take(i as int), start),
                leader_views(told@) == observed(all.take(i as int), start),
            decreases changes@.len() - i,
        {
            let kv = &changes[i].kv;
            let ghost before = told@;
            proof {
                assert(all.take(i + 1).drop_last() =~= all.take(i as int));
                assert(all.take(i + 1).last() == changes@[i as int]@);
            }
            if kv.mod_revision > self.max_rev {
                self.max_rev = kv.mod_revision;
                told.push(kv_to_leader_response(kv, kv.mod_revision));
                assert(leader_views(told@) =~= leader_views(before).push(told@.last()@));
            }
            i += 1;
        }
        assert(all.take(all.len() as int) =~= all);
        ObserveAction::Send(told)
    }
}

/// An election has one leader: while there is one, a campaign leaves the store as
/// it is, and after a resignation the next campaign wins.
pub proof fn law_one_leader(h: History, name: Seq<u8>, value: Seq<u8>)
    requires
        h.valid(),
    ensures
        ({
            let key = spec_election_key(name);
            &&& h.live(key) ==> !h.accepts(key, Some(value), 0, -1)
            &&& h.after_write(key, None).accepts(key, Some(value), 0, -1)
            &&& h.after_write(key, Some(value)).live(key)
        }),
{
    let key = spec_election_key(name);
    if h.live(key) {
        assert(h.latest.contains_key(key));
    }
}

/// What an observer is told comes in the order of its revisions.
pub proof fn law_observed_in_order(changes: Seq<ChangeView>, max: int)
    ensures
        observed_upto(changes, max) >= max,
        forall|i: int|
            0 <= i < observed(changes, max).len() ==> max < (#[trigger] observed(
                changes,
                max,
            )[i]).revision <= observed_upto(changes, max),
        forall|i: int, j: int|
            #![trigger observed(changes, max)[i], observed(changes, max)[j]]
            0 <= i < j < observed(changes, max).len() ==> observed(changes, max)[i].revision
                < observed(changes, max)[j].revision,
    decreases changes.len(),
{
    if changes.len() > 0 {
        law_observed_in_order(changes.drop_last(), max);
        let front = observed(changes.drop_last(), max);
        let all = observed(changes, max);
        assert forall|i: int| 0 <= i < all.len() implies max < (#[trigger] all[i]).revision
            <= observed_upto(changes, max) by {
            if i < front.len() {
                assert(all[i] == front[i]);
            }
        }
        assert forall|i: int, j: int|
            #![trigger all[i], all[j]]
            0 <= i < j < all.len() implies all[i].revision < all[j].revision by {
            assert(all[i] == front[i]);
            if j < front.len() {
                assert(all[j] == front[j]);
            }
        }
    }
}

} // verus!
