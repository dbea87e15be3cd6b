//! What holds of elections and locks.

use crate::election::{
    campaigned, changes_observed, law_observed_in_order, leader_views, observation, observed,
    observed_upto, proclaimed, resigned, spec_election_key, Candidacy, ObserveAction,
    ObserveSession,
};
use crate::history::History;
use crate::lock::{
    attempted, frees, lock_asked, spec_lock_key, unlocked, waited, LockStep, LockWait,
};
use crate::mvccpb::{flat, ChangeView};
use crate::rpc::status::{Code, Status};
use crate::store::StoreView;
use crate::store_laws::{law_job_tells_the_write, law_watcher_is_told};
use crate::v3electionpb::{
    CampaignRequest, CampaignResponse, LeaderResponse, ObserveRequest, ProclaimRequest,
    ProclaimResponse, ResignRequest, ResignResponse,
};
use crate::v3lockpb::{LockRequest, UnlockRequest, UnlockResponse};
use crate::watch_service::{news_of, rising, take_place_after, WriteView};
use vstd::prelude::*;

verus! {

// -------------------------------------------------------------- observers

proof fn lemma_observed_rising(changes: Seq<ChangeView>, max: int)
    requires
        rising(changes, max),
    ensures
        observed(changes, max).len() == changes.len(),
        forall|i: int|
            0 <= i < changes.len() ==> #[trigger] observed(changes, max)[i] == flat(
                Some(changes[i].kv),
                changes[i].kv.mod_revision,
            ),
        observed_upto(changes, max) == (if changes.len() == 0 {
            max
        } else {
            changes.last().kv.mod_revision
        }),
    decreases changes.len(),
{
    if changes.len() > 0 {
        let front = changes.drop_last();
        assert(rising(front, max)) by {
            assert forall|i: int| 0 <= i < front.len() implies (
            #[trigger] front[i]).kv.mod_revision > max by {
                assert(front[i] == changes[i]);
            }
            assert forall|i: int, j: int|
                #![trigger front[i], front[j]]
                0 <= i < j < front.len() implies front[i].kv.mod_revision
                < front[j].kv.mod_revision by {
                assert(front[i] == changes[i] && front[j] == changes[j]);
            }
        }
        lemma_observed_rising(front, max);
        assert(changes[changes.len() - 1] == changes.last());
        if front.len() > 0 {
            assert(changes[front.len() - 1] == front.last());
        }
    }
}

/// Of changes whose revisions ascend, and come after the last one that was told, an
/// observer is told exactly those: one response for each, in their order.
pub proof fn law_observer_is_told_all(
    w: ObserveSession,
    s: StoreView,
    changes: Seq<ChangeView>,
    r: ObserveAction,
    v: ObserveSession,
    t: StoreView,
)
    requires
        changes_observed(w, s, changes, r, v, t),
        changes.len() > 0,
        forall|i: int|
            0 <= i < changes.len() ==> (#[trigger] changes[i]).kv.mod_revision > w.max_rev,
        forall|i: int, j: int|
            #![trigger changes[i], changes[j]]
            0 <= i < j < changes.len() ==> changes[i].kv.mod_revision < changes[j].kv.mod_revision,
    ensures
        r matches ObserveAction::Send(told) && {
            &&& told@.len() == changes.len()
            &&& forall|i: int|
                #![trigger told@[i]]
                #![trigger changes[i]]
                0 <= i < changes.len() ==> {
                    &&& told@[i].kv_key@ == changes[i].kv.key
                    &&& told@[i].kv_value@ == changes[i].kv.value
                    &&& told@[i].kv_create_revision == changes[i].kv.create_revision
                    &&& told@[i].kv_mod_revision == changes[i].kv.mod_revision
                    &&& told@[i].kv_version == changes[i].kv.version
                    &&& told@[i].kv_lease == changes[i].kv.lease
                    &&& told@[i].revision == changes[i].kv.mod_revision
                }
        },
        v.max_rev == changes.last().kv.mod_revision,
        v.key@ == w.key@,
        v.watcher_id == w.watcher_id,
        t == s,
{
    lemma_observed_rising(changes, w.max_rev as int);
    if let ObserveAction::Send(told) = r {
        let views = observed(changes, w.max_rev as int);
        assert forall|i: int|
            #![trigger told@[i]]
            #![trigger changes[i]]
            0 <= i < changes.len() implies told@[i]@ == flat(
            Some(changes[i].kv),
            changes[i].kv.mod_revision,
        ) by {
            assert(leader_views(told@)[i] == views[i]);
        }
        assert(told@.len() == leader_views(told@).len());
    }
}

/// An observer is told of every write of the key, be it a new leader, a proclamation or
/// a resignation: with its value and its revision, in the order of the writes.
pub proof fn law_observer_is_told_the_writes(
    w: ObserveSession,
    s: StoreView,
    writes: Seq<WriteView>,
    r: ObserveAction,
    v: ObserveSession,
    t: StoreView,
)
    requires
        changes_observed(w, s, news_of(writes), r, v, t),
        take_place_after(w.max_rev as int, writes),
        writes.len() > 0,
        forall|i: int| 0 <= i < writes.len() ==> (#[trigger] writes[i]).store.history.valid(),
    ensures
        r matches ObserveAction::Send(told) && {
            &&& told@.len() == writes.len()
            &&& forall|i: int|
                #![trigger told@[i]]
                #![trigger writes[i]]
                0 <= i < writes.len() ==> {
                    let h = writes[i].store.history;
                    &&& told@[i].kv_key@ == writes[i].key
                    &&& told@[i].kv_value@ == (match writes[i].value {
                        Some(value) => value,
                        None => Seq::<u8>::empty(),
                    })
                    &&& told@[i].revision == h.compacted + h.log.len() + 1
                    &&& told@[i].kv_mod_revision == told@[i].revision
                    &&& (told@[i].kv_version == 0) == (writes[i].value is None)
                }
        },
        v.max_rev == writes.last().store.history.compacted + writes.last().store.history.log.len()
            + 1,
        t == s,
{
    let news = news_of(writes);
    assert forall|i: int| 0 <= i < news.len() implies (#[trigger] news[i]).kv.mod_revision
        > w.max_rev by {
        assert(news[i] == writes[i].job().msg);
        law_job_tells_the_write(writes[i].store, writes[i].key, writes[i].value);
    }
    assert forall|i: int, j: int|
        #![trigger news[i], news[j]]
        0 <= i < j < news.len() implies news[i].kv.mod_revision < news[j].kv.mod_revision by {
        assert(news[i] == writes[i].job().msg && news[j] == writes[j].job().msg);
        law_job_tells_the_write(writes[i].store, writes[i].key, writes[i].value);
        law_job_tells_the_write(writes[j].store, writes[j].key, writes[j].value);
    }
    law_observer_is_told_all(w, s, news, r, v, t);
    assert forall|i: int| 0 <= i < writes.len() implies {
        let h = (#[trigger] writes[i]).store.history;
        let kv = news[i].kv;
        &&& kv.key == writes[i].key
        &&& kv.value == (match writes[i].value {
            Some(value) => value,
            None => Seq::<u8>::empty(),
        })
        &&& kv.mod_revision == h.compacted + h.log.len() + 1
        &&& (kv.version == 0) == (writes[i].value is None)
    } by {
        assert(news[i] == writes[i].job().msg);
        law_job_tells_the_write(writes[i].store, writes[i].key, writes[i].value);
    }
    assert(news.last() == news[news.len() - 1]);
    assert(writes.last() == writes[writes.len() - 1]);
    assert forall|i: int|
        #![trigger r->Send_0@[i]]
        0 <= i < writes.len() implies {
        let told = r->Send_0@[i];
        let h = writes[i].store.history;
        &&& told.kv_key@ == writes[i].key
        &&& told.kv_value@ == (match writes[i].value {
            Some(value) => value,
            None => Seq::<u8>::empty(),
        })
        &&& told.revision == h.compacted + h.log.len() + 1
        &&& told.kv_mod_revision == told.revision
        &&& (told.kv_version == 0) == (writes[i].value is None)
    } by {
        assert(writes[i].store.history.valid());
        assert(news[i].kv.key == writes[i].key);
    }
}

proof fn lemma_observed_parts(a: Seq<ChangeView>, b: Seq<ChangeView>, max: int)
    ensures
        observed_upto(a + b, max) == observed_upto(b, observed_upto(a, max)),
        observed(a + b, max) == observed(a, max) + observed(b, observed_upto(a, max)),
    decreases b.len(),
{
    if b.len() == 0 {
        assert(a + b =~= a);
        assert(observed(a, max) + observed(b, observed_upto(a, max)) =~= observed(a, max));
    } else {
        assert((a + b).drop_last() =~= a + b.drop_last());
        assert((a + b).last() == b.last());
        lemma_observed_parts(a, b.drop_last(), max);
        assert(observed(a + b, max) =~= observed(a, max) + observed(b, observed_upto(a, max)));
    }
}

/// It makes no difference in what parts an observer takes the changes.
pub proof fn law_observer_takes_parts(
    w: ObserveSession,
    s: StoreView,
    a: Seq<ChangeView>,
    b: Seq<ChangeView>,
    first: ObserveAction,
    between: ObserveSession,
    second: ObserveAction,
    at_once: ObserveAction,
    v: ObserveSession,
    x: ObserveSession,
)
    requires
        a.len() > 0,
        b.len() > 0,
        changes_observed(w, s, a, first, between, s),
        changes_observed(between, s, b, second, v, s),
        changes_observed(w, s, a + b, at_once, x, s),
    ensures
        first matches ObserveAction::Send(p) && second matches ObserveAction::Send(q)
            && at_once matches ObserveAction::Send(all) && {
            &&& all@.map_values(|m: LeaderResponse| m@) == p@.map_values(|m: LeaderResponse| m@)
                + q@.map_values(|m: LeaderResponse| m@)
            &&& v.max_rev == x.max_rev
        },
{
    lemma_observed_parts(a, b, w.max_rev as int);
}

proof fn lemma_observed_sound(changes: Seq<ChangeView>, max: int, i: int)
    requires
        0 <= i < observed(changes, max).len(),
    ensures
        exists|j: int|
            0 <= j < changes.len() && (#[trigger] changes[j]).kv.mod_revision > max && observed(
                changes,
                max,
            )[i] == flat(Some(changes[j].kv), changes[j].kv.mod_revision),
        observed_upto(changes, max) >= max,
    decreases changes.len(),
{
    law_observed_in_order(changes, max);
    if changes.len() > 0 {
        let front = changes.drop_last();
        law_observed_in_order(front, max);
        if i < observed(front, max).len() {
            lemma_observed_sound(front, max, i);
            let j = choose|j: int|
                0 <= j < front.len() && (#[trigger] front[j]).kv.mod_revision > max && observed(
                    front,
                    max,
                )[i] == flat(Some(front[j].kv), front[j].kv.mod_revision);
            assert(changes[j] == front[j]);
        } else {
            assert(changes[changes.len() - 1] == changes.last());
        }
    }
}

/// An observer is told nothing but changes, and nothing that it was told of before: each
/// response is one of the changes, and comes after what was told.
pub proof fn law_observer_is_told_no_more(
    w: ObserveSession,
    s: StoreView,
    changes: Seq<ChangeView>,
    r: ObserveAction,
    v: ObserveSession,
    t: StoreView,
    i: int,
)
    requires
        changes_observed(w, s, changes, r, v, t),
        r is Send,
        0 <= i < r->Send_0@.len(),
    ensures
        ({
            let told = r->Send_0@[i];
            &&& told.revision > w.max_rev
            &&& told.revision <= v.max_rev
            &&& exists|j: int|
                0 <= j < changes.len() && (#[trigger] changes[j]).kv.key == told.kv_key@
                    && changes[j].kv.value == told.kv_value@ && changes[j].kv.mod_revision
                    == told.revision && changes[j].kv.version == told.kv_version
        }),
{
    let max = w.max_rev as int;
    let views = observed(changes, max);
    assert(leader_views(r->Send_0@)[i] == views[i]);
    assert(r->Send_0@[i]@ == views[i]);
    lemma_observed_sound(changes, max, i);
    law_observed_in_order(changes, max);
    let j = choose|j: int|
        0 <= j < changes.len() && (#[trigger] changes[j]).kv.mod_revision > max && views[i] == flat(
            Some(changes[j].kv),
            changes[j].kv.mod_revision,
        );
    assert(changes[j].kv.key == r->Send_0@[i].kv_key@);
}

/// An observation starts with the leader, as the last write of the key has it, or with
/// nothing where there is no leader. Every later write of the key is for the observer,
/// as long as the key is watched, and comes after what was told.
pub proof fn law_observation_starts(
    s: StoreView,
    req: ObserveRequest,
    r: (ObserveSession, LeaderResponse),
    t: StoreView,
    later: StoreView,
    value: Option<Seq<u8>>,
)
    requires
        observation(s, req, r, t),
        s.history.valid(),
        s.history.compacted + s.history.log.len() <= later.history.compacted
            + later.history.log.len(),
        later.watchers.dom().finite(),
        later.watchers.contains_key((r.0.key@, r.0.watcher_id)),
        later.watchers[(r.0.key@, r.0.watcher_id)] == t.watchers[(r.0.key@, r.0.watcher_id)],
    ensures
        ({
            let key = spec_election_key(req.name@);
            let h = s.history;
            let was = h.latest[key];
            let led = h.latest.contains_key(key) && was.value is Some;
            let j = later.job(key, value);
            &&& r.0.key@ == key
            &&& t.watchers.contains_key((key, r.0.watcher_id))
            &&& t.history == s.history
            &&& led ==> {
                &&& r.1.kv_key@ == key
                &&& Some(r.1.kv_value@) == was.value
                &&& r.1.revision == was.mod_revision
                &&& r.1.kv_mod_revision == was.mod_revision
                &&& r.1.kv_create_revision == was.create_revision
                &&& r.1.kv_version == was.version
                &&& r.0.max_rev == was.mod_revision
            }
            &&& !led ==> {
                &&& r.1.kv_key@.len() == 0
                &&& r.1.kv_value@.len() == 0
                &&& r.1.kv_version == 0
                &&& r.1.revision == h.compacted + h.log.len()
                &&& r.0.max_rev == 0
            }
            &&& j.watchers.contains(r.0.watcher_id)
            &&& j.msg.kv.mod_revision > r.0.max_rev
        }),
{
    let key = spec_election_key(req.name@);
    let h = s.history;
    if h.latest.contains_key(key) {
        assert(h.latest[key].mod_revision <= h.current());
    }
    let id = (key, r.0.watcher_id);
    let w = t.watchers[id];
    assert(w.wants(key, later.job(key, value).rev));
    law_watcher_is_told(later, id, key, value);
}

/// Without any change the observation is over, and the key is no longer watched. With
/// one it goes on.
pub proof fn law_observation_ends(
    w: ObserveSession,
    s: StoreView,
    changes: Seq<ChangeView>,
    r: ObserveAction,
    v: ObserveSession,
    t: StoreView,
)
    requires
        changes_observed(w, s, changes, r, v, t),
    ensures
        (r is Stop) == (changes.len() == 0),
        changes.len() == 0 ==> !t.watchers.contains_key((w.key@, w.watcher_id)),
        changes.len() > 0 ==> t.watchers == s.watchers,
        t.history == s.history,
        forall|k: Seq<u8>, id: i64|
            (k, id) != (w.key@, w.watcher_id) ==> t.watchers.contains_key((k, id))
                == #[trigger] s.watchers.contains_key((k, id)),
{
}

// -------------------------------------------------------------- elections

/// An election has a leader while the last write of its key has a value.
pub open spec fn has_leader(h: History, name: Seq<u8>) -> bool {
    h.latest.contains_key(spec_election_key(name)) && h.latest[spec_election_key(name)].value
        is Some
}

/// A lease can be granted to who asks for one.
pub open spec fn can_lease(a: Candidacy, lease: i64) -> bool {
    lease <= 0 || !a.lessor.leases.contains_key(lease)
}

/// Without a leader a candidate wins. The response tells them as the leader, and their
/// value is the last write of the key from then on.
pub proof fn law_candidate_wins(
    a: Candidacy,
    req: CampaignRequest,
    r: Result<CampaignResponse, Status>,
    b: Candidacy,
)
    requires
        campaigned(a, req, r, b),
        !has_leader(a.store.history, req.name@),
        can_lease(a, req.lease),
    ensures
        ({
            let key = spec_election_key(req.name@);
            let rev = a.store.history.compacted + a.store.history.log.len() + 1;
            let now = b.store.history.latest[key];
            &&& r matches Ok(resp) && {
                &&& resp.leader_key@ == key
                &&& resp.leader_value@ == req.value@
                &&& resp.leader_create_revision == rev
                &&& resp.leader_mod_revision == rev
                &&& resp.leader_version == 1
                &&& resp.revision == rev
            }
            &&& has_leader(b.store.history, req.name@)
            &&& now.value == Some(req.value@)
            &&& now.mod_revision == rev
            &&& now.create_revision == rev
            &&& b.store.history.log.len() == a.store.history.log.len() + 1
            &&& b.store.jobs.len() == a.store.jobs.len() + 1
        }),
{
}

/// With a leader a candidate does not win. The response tells the leader, and no key is
/// written.
pub proof fn law_candidate_does_not_win(
    a: Candidacy,
    req: CampaignRequest,
    r: Result<CampaignResponse, Status>,
    b: Candidacy,
)
    requires
        campaigned(a, req, r, b),
        has_leader(a.store.history, req.name@),
        can_lease(a, req.lease),
    ensures
        ({
            let key = spec_election_key(req.name@);
            let leader = a.store.history.latest[key];
            &&& r matches Ok(resp) && {
                &&& resp.leader_key@ == key
                &&& Some(resp.leader_value@) == leader.value
                &&& resp.leader_create_revision == leader.create_revision
                &&& resp.leader_mod_revision == leader.mod_revision
                &&& resp.leader_version == leader.version
                &&& resp.revision == a.store.history.compacted + a.store.history.log.len()
            }
            &&& b.store == a.store
            &&& b.lessor.leases == a.lessor.leases
        }),
{
}

/// A lease that is in use refuses a campaign, and nothing changes. A winner has a lease of
/// their own with the one key, and a candidate who does not win has none. Other leases
/// stay as they are.
pub proof fn law_lease_of_candidate(
    a: Candidacy,
    req: CampaignRequest,
    r: Result<CampaignResponse, Status>,
    b: Candidacy,
    other: i64,
)
    requires
        campaigned(a, req, r, b),
    ensures
        r is Err == !can_lease(a, req.lease),
        r is Err ==> b == a,
        other != req.lease || req.lease <= 0 ==> {
            &&& b.lessor.leases.contains_key(other) == a.lessor.leases.contains_key(other)
            &&& b.lessor.leases[other] == a.lessor.leases[other]
        },
        r is Ok && req.lease > 0 ==> {
            let wins = !has_leader(a.store.history, req.name@);
            &&& b.lessor.leases.contains_key(req.lease) == wins
            &&& wins ==> {
                &&& b.lessor.leases[req.lease].keys == seq![spec_election_key(req.name@)]
                &&& b.lessor.leases[req.lease].ttl == 60
                &&& b.lessor.leases[req.lease].id == req.lease
            }
        },
        r is Ok && req.lease <= 0 ==> b.lessor == a.lessor,
{
    if r is Ok && req.lease > 0 {
        let key = spec_election_key(req.name@);
        assert(seq![key] =~= seq![spec_election_key(req.name@)]);
    }
}

/// Of two candidates one after the other the first to win stays the leader: the second is
/// told of them, and writes nothing.
pub proof fn law_first_candidate_stays(
    a: Candidacy,
    first: CampaignRequest,
    r: Result<CampaignResponse, Status>,
    b: Candidacy,
    second: CampaignRequest,
    q: Result<CampaignResponse, Status>,
    c: Candidacy,
)
    requires
        campaigned(a, first, r, b),
        campaigned(b, second, q, c),
        r is Ok,
        q is Ok,
        first.name@ == second.name@,
    ensures
        q->Ok_0.leader_value@ == r->Ok_0.leader_value@,
        q->Ok_0.leader_key@ == r->Ok_0.leader_key@,
        q->Ok_0.leader_mod_revision == r->Ok_0.leader_mod_revision,
        q->Ok_0.leader_create_revision == r->Ok_0.leader_create_revision,
        q->Ok_0.revision == r->Ok_0.revision,
        c.store == b.store,
{
}

/// A leader who proclaims a value leads with it: the key is the same, since the same
/// revision, with one more version. Without a leader nothing is proclaimed.
pub proof fn law_proclamation(
    s: StoreView,
    req: ProclaimRequest,
    r: Result<ProclaimResponse, Status>,
    t: StoreView,
)
    requires
        proclaimed(s, req, r, t),
    ensures
        ({
            let key = spec_election_key(req.name@);
            let rev = s.history.compacted + s.history.log.len() + 1;
            let was = s.history.latest[key];
            let now = t.history.latest[key];
            &&& r is Ok == has_leader(s.history, req.name@)
            &&& r is Err ==> t == s && r->Err_0@.code == Code::FailedPrecondition
            &&& r matches Ok(resp) ==> {
                &&& resp.revision == rev
                &&& has_leader(t.history, req.name@)
                &&& now.value == Some(req.value@)
                &&& now.mod_revision == rev
                &&& now.create_revision == was.create_revision
                &&& now.version == was.version + 1
            }
        }),
{
}

/// After a resignation there is no leader. Who is not led cannot resign.
pub proof fn law_resignation(
    s: StoreView,
    req: ResignRequest,
    r: Result<ResignResponse, Status>,
    t: StoreView,
)
    requires
        resigned(s, req, r, t),
    ensures
        r is Ok == has_leader(s.history, req.name@),
        r is Err ==> t == s && r->Err_0@.code == Code::FailedPrecondition,
        r matches Ok(resp) ==> resp.revision == s.history.compacted + s.history.log.len() + 1,
        !has_leader(t.history, req.name@),
{
}

/// After a resignation the next candidate wins, and leads anew.
pub proof fn law_next_candidate_wins(
    a: Candidacy,
    left: ResignRequest,
    gone: Result<ResignResponse, Status>,
    b: Candidacy,
    req: CampaignRequest,
    r: Result<CampaignResponse, Status>,
    c: Candidacy,
)
    requires
        resigned(a.store, left, gone, b.store),
        gone is Ok,
        campaigned(b, req, r, c),
        can_lease(b, req.lease),
        req.name@ == left.name@,
    ensures
        r matches Ok(resp) && {
            &&& resp.leader_value@ == req.value@
            &&& resp.leader_version == 1
            &&& resp.leader_create_revision == gone->Ok_0.revision + 1
            &&& resp.revision == gone->Ok_0.revision + 1
        },
        has_leader(c.store.history, req.name@),
{
    law_resignation(a.store, left, gone, b.store);
    law_candidate_wins(b, req, r, c);
}

/// What is done in one election leaves the others and the locks as they are.
pub proof fn law_elections_are_apart(name: Seq<u8>, other: Seq<u8>, lock: Seq<u8>)
    ensures
        spec_election_key(name) == spec_election_key(other) ==> name == other,
        spec_election_key(name) != spec_lock_key(lock),
        spec_election_key(name).len() == name.len() + 10,
        spec_lock_key(lock).len() == lock.len() + 6,
        spec_election_key(name)[0] == 0,
        spec_lock_key(lock)[0] == 0,
{
    if spec_election_key(name) == spec_election_key(other) {
        assert(spec_election_key(name).skip(10) =~= name);
        assert(spec_election_key(other).skip(10) =~= other);
    }
    assert(spec_election_key(name)[1] != spec_lock_key(lock)[1]);
}

// ------------------------------------------------------------------ locks

/// A lock is held while the last write of its key has a value.
pub open spec fn is_held(h: History, key: Seq<u8>) -> bool {
    h.latest.contains_key(key) && h.latest[key].value is Some
}

/// A lock that is free is taken, and is held from then on. The response tells its key
/// since the revision of the attempt.
pub proof fn law_free_lock_is_taken(s: StoreView, t: StoreView, key: Seq<u8>, step: LockStep)
    requires
        attempted(s, t, key, step),
        !is_held(s.history, key),
    ensures
        ({
            let rev = s.history.compacted + s.history.log.len() + 1;
            &&& step matches LockStep::Acquired(resp) && {
                &&& resp.kv_key@ == key
                &&& resp.kv_value@ == seq![108u8, 111u8, 99u8, 107u8]
                &&& resp.kv_create_revision == rev
                &&& resp.kv_mod_revision == rev
                &&& resp.kv_version == 1
                &&& resp.revision == rev
            }
            &&& is_held(t.history, key)
            &&& t.history.latest[key].mod_revision == rev
            &&& t.watchers == s.watchers
        }),
{
}

/// A lock that is held is not taken: the client waits, its key is watched, and nothing
/// is written. Whatever is written under the key from then on is for who waits.
pub proof fn law_held_lock_is_awaited(
    s: StoreView,
    t: StoreView,
    key: Seq<u8>,
    step: LockStep,
    later: StoreView,
    value: Option<Seq<u8>>,
)
    requires
        attempted(s, t, key, step),
        is_held(s.history, key),
        step matches LockStep::Wait(w) && later.watchers.contains_key((key, w.watcher_id))
            && later.watchers[(key, w.watcher_id)] == t.watchers[(key, w.watcher_id)],
        later.watchers.dom().finite(),
        s.history.compacted + s.history.log.len() <= later.history.compacted
            + later.history.log.len(),
    ensures
        step matches LockStep::Wait(w) && {
            &&& w.key@ == key
            &&& t.watchers.contains_key((key, w.watcher_id))
            &&& t.history == s.history
            &&& later.job(key, value).watchers.contains(w.watcher_id)
        },
{
    if let LockStep::Wait(w) = step {
        let id = (key, w.watcher_id);
        assert(t.watchers[id].wants(key, later.job(key, value).rev));
        law_watcher_is_told(later, id, key, value);
    }
}

/// Of two attempts one after the other at most the first takes the lock.
pub proof fn law_second_attempt_waits(
    s: StoreView,
    t: StoreView,
    u: StoreView,
    key: Seq<u8>,
    first: LockStep,
    second: LockStep,
)
    requires
        attempted(s, t, key, first),
        attempted(t, u, key, second),
    ensures
        second is Wait,
        u.history == t.history,
{
}

/// A lock is given back if and only if it is held, and then the next attempt takes it.
pub proof fn law_lock_after_unlock(
    s: StoreView,
    req: UnlockRequest,
    r: Result<UnlockResponse, Status>,
    t: StoreView,
    u: StoreView,
    step: LockStep,
)
    requires
        unlocked(s, req, r, t),
        attempted(t, u, spec_lock_key(req.name@), step),
    ensures
        r is Ok == is_held(s.history, spec_lock_key(req.name@)),
        r is Err ==> t == s && r->Err_0@.code == Code::NotFound,
        r matches Ok(resp) ==> resp.revision == s.history.compacted + s.history.log.len() + 1,
        step is Acquired,
        step matches LockStep::Acquired(resp) ==> {
            &&& resp.kv_version == 1
            &&& r matches Ok(given) ==> resp.kv_create_revision == given.revision + 1
        },
{
}

/// Who waits tries again when the key of the lock was deleted or emptied, and not for what
/// else is written under it, nor for what is written under another key.
pub proof fn law_waiting(
    w: LockWait,
    s: StoreView,
    writes: Seq<WriteView>,
    retry: bool,
    t: StoreView,
)
    requires
        waited(w, s, news_of(writes), retry, t),
        forall|i: int| 0 <= i < writes.len() ==> (#[trigger] writes[i]).store.history.valid(),
    ensures
        retry == (writes.len() == 0 || exists|i: int|
            0 <= i < writes.len() && (#[trigger] writes[i]).key == w.key@ && (
            writes[i].value matches Some(v) ==> v.len() == 0)),
        retry ==> !t.watchers.contains_key((w.key@, w.watcher_id)),
        !retry ==> t == s,
        t.history == s.history,
{
    let news = news_of(writes);
    assert forall|i: int| 0 <= i < writes.len() implies frees(#[trigger] news[i], w.key@) == ((
    #[trigger] writes[i]).key == w.key@ && (writes[i].value matches Some(v) ==> v.len() == 0)) by {
        assert(news[i] == writes[i].job().msg);
        law_job_tells_the_write(writes[i].store, writes[i].key, writes[i].value);
    }
    if exists|i: int|
        0 <= i < writes.len() && (#[trigger] writes[i]).key == w.key@ && (
        writes[i].value matches Some(v) ==> v.len() == 0) {
        let i = choose|i: int|
            0 <= i < writes.len() && (#[trigger] writes[i]).key == w.key@ && (
            writes[i].value matches Some(v) ==> v.len() == 0);
        assert(frees(news[i], w.key@));
    }
}

/// A lock is asked for with a lease of its own, or without one. A lease that is in use is
/// refused, and nothing changes.
pub proof fn law_lease_of_lock(
    a: Candidacy,
    req: LockRequest,
    r: Result<LockStep, Status>,
    b: Candidacy,
    other: i64,
)
    requires
        lock_asked(a, req, r, b),
    ensures
        r is Err == !can_lease(a, req.lease),
        r is Err ==> b == a,
        r is Ok ==> (r->Ok_0 is Wait) == is_held(a.store.history, spec_lock_key(req.name@)),
        r is Ok ==> is_held(b.store.history, spec_lock_key(req.name@)),
        other != req.lease || req.lease <= 0 ==> {
            &&& b.lessor.leases.contains_key(other) == a.lessor.leases.contains_key(other)
            &&& b.lessor.leases[other] == a.lessor.leases[other]
        },
        r is Ok && req.lease > 0 ==> {
            &&& b.lessor.leases.contains_key(req.lease)
            &&& b.lessor.leases[req.lease].keys == seq![spec_lock_key(req.name@)]
            &&& b.lessor.leases[req.lease].ttl == 60
        },
        r is Ok && req.lease <= 0 ==> b.lessor == a.lessor,
{
}

} // verus!
