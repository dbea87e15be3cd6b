//! Locks: the lock is held by who wrote its key.

use crate::clock::is_time;
use crate::election::{grant_failed, lease_key, leased, Candidacy};
use crate::history::{kv_of, History};
use crate::kv_service::current_pair;
use crate::lease::lease::LeaseError;
use crate::lease::lessor::Lessor;
use crate::mvccpb::{
    change_views, copy_bytes, flat, opt_kv, ChangeView, FlatView, KeyValue, KeyValueWithPrev,
};
use crate::order::bytes_equal;
use crate::outside::{bytes_from_vec, bytes_len, bytes_to_vec};
use crate::rpc::status::{Code, Status, StatusView};
use crate::store::{SetRequired, Store, StoreView};
use crate::v3lockpb::{LockRequest, LockResponse, UnlockRequest, UnlockResponse};
use vstd::prelude::*;
use vstd::string::*;

verus! {

/// The start of the keys of locks: the word between two zero bytes.
pub open spec fn lock_prefix() -> Seq<u8> {
    seq![0u8, 108u8, 111u8, 99u8, 107u8, 0u8]
}

/// The key of a lock.
pub open spec fn spec_lock_key(name: Seq<u8>) -> Seq<u8> {
    lock_prefix() + name
}

/// What is written under the key of a lock: the word.
pub open spec fn lock_value() -> Seq<u8> {
    seq![108u8, 111u8, 99u8, 107u8]
}

/// The key of a lock.
pub fn lock_key(name: &Vec<u8>) -> (r: Vec<u8>)
    ensures
        r@ == spec_lock_key(name@),
{
    let mut k: Vec<u8> = vec![0u8, 108u8, 111u8, 99u8, 107u8, 0u8];
    assert(k@ =~= lock_prefix());
    k.extend_from_slice(name.as_slice());
    assert(k@ =~= spec_lock_key(name@));
    k
}

fn lock_response(kv: &Option<KeyValue>, revision: i64) -> (r: LockResponse)
    ensures
        r@ == flat(opt_kv(*kv), revision as int),
{
    match kv {
        Some(kv) => LockResponse {
            kv_key: copy_bytes(&kv.key),
            kv_value: bytes_to_vec(&kv.value),
            kv_create_revision: kv.create_revision,
            kv_mod_revision: kv.mod_revision,
            kv_version: kv.version,
            kv_lease: kv.lease,
            revision,
        },
        None => {
            let r = LockResponse {
                kv_key: Vec::new(),
                kv_value: Vec::new(),
                kv_create_revision: 0,
                kv_mod_revision: 0,
                kv_version: 0,
                kv_lease: 0,
                revision,
            };
            assert(r@ =~= flat(None, revision as int));
            r
        },
    }
}

/// A client that waits for a lock.
#[derive(Debug)]
pub struct LockWait {
    pub key: Vec<u8>,
    pub watcher_id: i64,
}

/// How an attempt to take a lock ends.
#[derive(Debug)]
pub enum LockStep {
    /// The lock is held by the client.
    Acquired(LockResponse),
    /// The lock is held by another client: the key is watched.
    Wait(LockWait),
}

/// A change that gives a lock back: its key with an empty value.
pub open spec fn frees(c: ChangeView, key: Seq<u8>) -> bool {
    c.kv.key == key && c.kv.value.len() == 0
}

/// The locks.
#[derive(Debug)]
pub struct LockService {}

impl LockService {
    /// The locks.
    pub fn new() -> (r: LockService) {
        LockService {  }
    }

    /// Asks for a lock: the lease that the client asks for is granted, and the first
    /// attempt is made.
    pub fn lock(&self, store: &mut Store, lessor: &mut Lessor, req: LockRequest) -> (r: Result<
        LockStep,
        Status,
    >)
        requires
            old(store).wf(),
            old(store)@.has_room(),
            old(store)@.watch_counter + 1 < i64::MAX,
            old(lessor).wf(),
        ensures
            final(store).wf(),
            final(lessor).wf(),
            lock_asked(
                Candidacy { store: old(store)@, lessor: old(lessor)@ },
                req,
                r,
                Candidacy { store: final(store)@, lessor: final(lessor)@ },
            ),
    {
        let key = lock_key(&req.name);
        match lease_key(lessor, req.lease, &key) {
            Ok(()) => {},
            Err(e) => {
                return Err(e);
            },
        }
        Ok(self.attempt(store, key))
    }

    /// Tries to take a lock. Where it is held, its key is watched.
    pub fn attempt(&self, store: &mut Store, key: Vec<u8>) -> (r: LockStep)
        requires
            old(store).wf(),
            old(store)@.has_room(),
            old(store)@.watch_counter + 1 < i64::MAX,
        ensures
            final(store).wf(),
            attempted(old(store)@, final(store)@, key@, r),
    {
        let ghost h = store@.history;
        proof {
            store.lemma_wf();
        }
        let required = SetRequired { required_last_revision: Some(0), required_version: None };
        let word: Vec<u8> = vec![108u8, 111u8, 99u8, 107u8];
        assert(word@ =~= lock_value());
        let value = bytes_from_vec(word);
        match store.set(copy_bytes(&key), Some(value), Some(required)) {
            Ok(rev) => {
                proof {
                    if h.live(key@) {
                        assert(h.latest.contains_key(key@));
                    }
                }
                let (kv, _) = current_pair(store, &key, None);
                LockStep::Acquired(lock_response(&kv, rev))
            },
            Err(_) => {
                let end: Vec<u8> = Vec::new();
                assert(end@ =~= Seq::empty());
                let watcher_id = match store.watch(copy_bytes(&key), end, 0, false) {
                    Ok((_, id)) => id,
                    Err(_) => {
                        assert(false);
                        0
                    },
                };
                LockStep::Wait(LockWait { key, watcher_id })
            },
        }
    }

    /// Gives a lock back.
    pub fn unlock(&self, store: &mut Store, req: UnlockRequest) -> (r: Result<
        UnlockResponse,
        Status,
    >)
        requires
            old(store).wf(),
            old(store)@.has_room(),
        ensures
            final(store).wf(),
            unlocked(old(store)@, req, r, final(store)@),
    {
        let key = lock_key(&req.name);
        match store.set(key, None, None) {
            Ok(rev) => Ok(UnlockResponse { revision: rev }),
            Err(_) => Err(Status::not_found("lock not held")),
        }
    }
}

/// How a lock is asked for: with the lease that the client asks for, by an attempt.
pub open spec fn lock_asked(
    a: Candidacy,
    req: LockRequest,
    r: Result<LockStep, Status>,
    b: Candidacy,
) -> bool {
    let s = a.lessor;
    let key = spec_lock_key(req.name@);
    &&& r is Err == (req.lease > 0 && s.leases.contains_key(req.lease))
    &&& r matches Err(e) ==> {
        &&& e@ == grant_failed(LeaseError::Exists(req.lease))
        &&& b.store == a.store
        &&& b.lessor == s
    }
    &&& r matches Ok(step) ==> {
        &&& attempted(a.store, b.store, key, step)
        &&& req.lease <= 0 ==> b.lessor == s
        &&& req.lease > 0 ==> exists|now: int|
            #![trigger is_time(now)]
            is_time(now) && b.lessor == leased(s, req.lease, key, now)
    }
}

/// How a lock is given back.
pub open spec fn unlocked(
    s: StoreView,
    req: UnlockRequest,
    r: Result<UnlockResponse, Status>,
    t: StoreView,
) -> bool {
    let h = s.history;
    let key = spec_lock_key(req.name@);
    &&& r is Ok == h.live(key)
    &&& r matches Ok(resp) ==> {
        &&& resp.revision == h.current() + 1
        &&& t == s.after_write(key, None)
    }
    &&& r matches Err(e) ==> {
        &&& e@ == (StatusView { code: Code::NotFound, message: "lock not held"@ })
        &&& t == s
    }
}

/// An attempt to take a lock: where it is free, it is taken, and else it is watched.
pub open spec fn attempted(s: StoreView, t: StoreView, key: Seq<u8>, step: LockStep) -> bool {
    let h = s.history;
    &&& step is Wait == h.live(key)
    &&& step matches LockStep::Acquired(resp) ==> {
        &&& resp@ == flat(
            Some(kv_of(key, h.next_value(key, Some(lock_value())))),
            h.current() + 1,
        )
        &&& t == s.after_write(key, Some(lock_value()))
    }
    &&& step matches LockStep::Wait(w) ==> {
        &&& w.key@ == key
        &&& w.watcher_id == s.watch_counter + 1
        &&& t == s.after_watch(key, Seq::empty(), 0)
    }
}

/// What a client that waits does with some changes: it tries again when the lock was
/// given back, and without any change. The key is then no longer watched.
pub open spec fn waited(
    w: LockWait,
    s: StoreView,
    changes: Seq<ChangeView>,
    retry: bool,
    t: StoreView,
) -> bool {
    &&& retry == (changes.len() == 0 || exists|i: int|
        0 <= i < changes.len() && frees(#[trigger] changes[i], w.key@))
    &&& t == (if retry {
        StoreView { watchers: s.watchers.remove((w.key@, w.watcher_id)), ..s }
    } else {
        s
    })
}

impl LockWait {
    /// Takes changes of the key. Returns whether to try again: when the lock was
    /// given back, and when the channel is closed, which no change tells. The key is
    /// then no longer watched.
    pub fn on_changes(&self, store: &mut Store, changes: &Vec<KeyValueWithPrev>) -> (retry: bool)
        requires
            old(store).wf(),
        ensures
            final(store).wf(),
            waited(*self, old(store)@, change_views(changes@), retry, final(store)@),
    {
        let ghost all = change_views(changes@);
        let mut retry = changes.len() == 0;
        let mut i: usize = 0;
        while i < changes.len()
            invariant
                i <= changes@.len(),
                all == change_views(changes@),
                retry == (changes@.len() == 0 || exists|j: int|
                    0 <= j < i && frees(#[trigger] all[j], self.key@)),
            decreases changes@.len() - i,
        {
            let kv = &changes[i].kv;
            assert(all[i as int] == changes@[i as int]@);
            if bytes_equal(kv.key.as_slice(), self.key.as_slice()) && bytes_len(&kv.value) == 0 {
                assert(frees(all[i as int], self.key@));
                retry = true;
            }
            i += 1;
        }
        if retry {
            store.unwatch(copy_bytes(&self.key), self.watcher_id);
        }
        retry
    }
}

/// A lock has one holder: while it is held, no attempt takes it, and after it was
/// given back the next attempt does.
pub proof fn law_lock_excludes(h: History, name: Seq<u8>)
    requires
        h.valid(),
    ensures
        ({
            let key = spec_lock_key(name);
            let held = h.after_write(key, Some(lock_value()));
            &&& held.live(key)
            &&& !held.accepts(key, Some(lock_value()), 0, -1)
            &&& held.after_write(key, None).accepts(key, Some(lock_value()), 0, -1)
        }),
{
}

/// Different locks have different keys.
pub proof fn law_lock_keys_differ(a: Seq<u8>, b: Seq<u8>)
    requires
        spec_lock_key(a) == spec_lock_key(b),
    ensures
        a == b,
{
    let n = lock_prefix().len() as int;
    assert(spec_lock_key(a).skip(n) =~= a);
    assert(spec_lock_key(b).skip(n) =~= b);
}

} // verus!
