//! The manager of leases: it grants them, renews them and tells which have expired.

use crate::clock::{is_time, now_nanos, NANOS};
use crate::lease::lease::{copy_keys, key_views, Lease, LeaseError, LeaseId, LeaseView, NO_LEASE};
use crate::mvccpb::copy_bytes;
use crate::order::bytes_equal;
use crate::sorted_map::SortedMap;
use vstd::prelude::*;

verus! {

/// A time at which a lease may expire.
#[derive(Clone, Copy, Debug)]
pub struct LeaseItem {
    pub expiry: u128,
    pub id: LeaseId,
}

/// A lease that has expired, with its keys.
#[derive(Debug)]
pub struct Expired {
    pub id: LeaseId,
    pub keys: Vec<Vec<u8>>,
}

/// What an [`Expired`] says.
pub type ExpiredView = (i64, Seq<Seq<u8>>);

impl View for Expired {
    type V = ExpiredView;

    open spec fn view(&self) -> ExpiredView {
        (self.id, key_views(self.keys@))
    }
}

/// The views of some expired leases.
pub open spec fn expired_views(s: Seq<Expired>) -> Seq<ExpiredView> {
    s.map_values(|e: Expired| e@)
}

/// The model of a [`Lessor`].
#[verifier::ext_equal]
pub struct LessorView {
    pub leases: Map<i64, LeaseView>,
    /// The times to look at, the earliest first.
    pub queue: Seq<LeaseItem>,
    pub paused: bool,
    /// The next number to try for a lease.
    pub next_id: int,
    /// The leases that were told to have expired, and are still there.
    pub told: Set<i64>,
}

/// An item is put into the queue, behind those that do not come later.
pub open spec fn queued(queue: Seq<LeaseItem>, item: LeaseItem) -> Seq<LeaseItem>
    decreases queue.len(),
{
    if queue.len() == 0 || queue.last().expiry <= item.expiry {
        queue.push(item)
    } else {
        queued(queue.drop_last(), item).push(queue.last())
    }
}

/// The queue has the earliest times first.
pub open spec fn by_expiry(queue: Seq<LeaseItem>) -> bool {
    forall|i: int, j: int|
        #![trigger queue[i], queue[j]]
        0 <= i < j < queue.len() ==> queue[i].expiry <= queue[j].expiry
}

/// How many items at the front of the queue are due.
pub open spec fn due(queue: Seq<LeaseItem>, now: int) -> nat
    decreases queue.len(),
{
    if queue.len() == 0 || queue[0].expiry > now {
        0
    } else {
        1 + due(queue.skip(1), now)
    }
}

/// Some keys without one.
pub open spec fn without_key(keys: Seq<Seq<u8>>, key: Seq<u8>) -> Seq<Seq<u8>> {
    keys.filter(|k: Seq<u8>| k != key)
}

/// The time of a lease stands in the queue.
pub open spec fn is_queued(queue: Seq<LeaseItem>, id: i64, expiry: int) -> bool {
    queue.contains(LeaseItem { expiry: expiry as u128, id })
}

/// The time of a lease that is granted or renewed at a time.
pub open spec fn expiry_after(now: int, ttl: int) -> int {
    now + ttl * NANOS
}

impl LessorView {
    /// What holds of every manager.
    pub open spec fn valid(self) -> bool {
        &&& by_expiry(self.queue)
        &&& self.leases.dom().finite()
        &&& 1 <= self.next_id <= i64::MAX
        &&& self.told.subset_of(self.leases.dom())
        &&& forall|id: i64| #[trigger]
            self.leases.contains_key(id) ==> {
                &&& self.leases[id].id == id
                &&& self.leases[id].ttl >= 0
                &&& 0 <= self.leases[id].expiry <= u128::MAX
                &&& self.told.contains(id) || is_queued(self.queue, id, self.leases[id].expiry)
            }
    }

    /// There are numbers left for leases.
    pub open spec fn has_ids(self) -> bool {
        self.next_id + self.leases.dom().len() < i64::MAX
    }

    /// A number that a new lease gets: the first one from the next that no lease has.
    pub open spec fn is_next_free(self, id: i64) -> bool {
        &&& self.next_id <= id
        &&& !self.leases.contains_key(id)
        &&& forall|k: i64|
            self.next_id <= k < id ==> #[trigger] self.leases.contains_key(k)
    }

    /// Why a lease is not granted, if it is not.
    pub open spec fn grant_error(self, id: i64, ttl: i64) -> Option<LeaseError> {
        if ttl < 0 {
            Some(LeaseError::TTLTooLarge)
        } else if id != NO_LEASE && self.leases.contains_key(id) {
            Some(LeaseError::Exists(id))
        } else {
            None
        }
    }

    /// The manager after a lease was granted.
    pub open spec fn granted(self, asked: i64, id: i64, ttl: i64, now: int) -> LessorView {
        let expiry = expiry_after(now, ttl as int);
        LessorView {
            leases: self.leases.insert(
                id,
                LeaseView {
                    id,
                    ttl,
                    remaining_ttl: ttl,
                    expiry,
                    keys: Seq::empty(),
                    checkpoint_ttl: None,
                },
            ),
            queue: queued(self.queue, LeaseItem { expiry: expiry as u128, id }),
            next_id: if asked == NO_LEASE {
                id + 1
            } else {
                self.next_id
            },
            told: self.told.remove(id),
            ..self
        }
    }

    /// The manager after a lease was renewed.
    pub open spec fn renewed(self, id: i64, now: int) -> LessorView {
        let l = self.leases[id];
        let expiry = expiry_after(now, l.ttl as int);
        LessorView {
            leases: self.leases.insert(id, LeaseView { expiry, remaining_ttl: l.ttl, ..l }),
            queue: queued(self.queue, LeaseItem { expiry: expiry as u128, id }),
            told: self.told.remove(id),
            ..self
        }
    }

    /// The manager without a lease.
    pub open spec fn without_lease(self, id: i64) -> LessorView {
        LessorView { leases: self.leases.remove(id), told: self.told.remove(id), ..self }
    }

    /// The manager with other keys under a lease.
    pub open spec fn with_keys(self, id: i64, keys: Seq<Seq<u8>>) -> LessorView {
        LessorView {
            leases: self.leases.insert(id, LeaseView { keys, ..self.leases[id] }),
            ..self
        }
    }

    /// The manager with a key under a lease, once.
    pub open spec fn attached(self, id: i64, key: Seq<u8>) -> LessorView {
        if self.leases[id].keys.contains(key) {
            self
        } else {
            self.with_keys(id, self.leases[id].keys.push(key))
        }
    }

    /// The manager without a key under a lease.
    pub open spec fn detached(self, id: i64, key: Seq<u8>) -> LessorView {
        self.with_keys(id, without_key(self.leases[id].keys, key))
    }

    /// The lease of an item that is due has expired: it is there, and was not renewed.
    pub open spec fn lapsed(self, item: LeaseItem) -> bool {
        self.leases.contains_key(item.id) && self.leases[item.id].expiry == item.expiry
    }

    /// The leases that have expired at a time.
    pub open spec fn expired(self, now: int) -> Seq<ExpiredView> {
        if self.paused {
            Seq::empty()
        } else {
            self.queue.take(due(self.queue, now) as int).filter(
                |item: LeaseItem| self.lapsed(item),
            ).map_values(|item: LeaseItem| (item.id, self.leases[item.id].keys))
        }
    }

    /// The numbers of the leases that have expired at a time.
    pub open spec fn expired_ids(self, now: int) -> Set<i64> {
        Set::new(
            |id: i64|
                exists|i: int|
                    0 <= i < self.expired(now).len() && (#[trigger] self.expired(now)[i]).0 == id,
        )
    }

    /// The manager after the items that are due were taken from the queue.
    pub open spec fn after_tick(self, now: int) -> LessorView {
        if self.paused {
            self
        } else {
            LessorView {
                queue: self.queue.skip(due(self.queue, now) as int),
                told: self.told.union(self.expired_ids(now)),
                ..self
            }
        }
    }

    /// The seconds that a lease has left at a time.
    pub open spec fn seconds_left(self, id: i64, now: int) -> int {
        let expiry = self.leases[id].expiry;
        if expiry <= now {
            0
        } else {
            (expiry - now) / (NANOS as int)
        }
    }
}

/// The time of a lease after an extension. It stays where there is no such time.
pub open spec fn extended(expiry: int, by: int) -> int {
    if expiry + by <= u128::MAX {
        expiry + by
    } else {
        expiry
    }
}

/// Every lease is extended, in the order of their numbers: the first `n` of them.
pub open spec fn promoted(s: LessorView, ids: Seq<i64>, by: int) -> LessorView
    decreases ids.len(),
{
    if ids.len() == 0 {
        s
    } else {
        let t = promoted(s, ids.drop_last(), by);
        let id = ids.last();
        let expiry = extended(t.leases[id].expiry, by);
        LessorView {
            leases: t.leases.insert(id, LeaseView { expiry, ..t.leases[id] }),
            queue: queued(t.queue, LeaseItem { expiry: expiry as u128, id }),
            told: t.told.remove(id),
            ..t
        }
    }
}

/// The manager of leases.
pub struct Lessor {
    leases: SortedMap<LeaseId, Lease>,
    expiring_queue: Vec<LeaseItem>,
    paused: bool,
    next_id: i64,
    told: Ghost<Set<i64>>,
}

/// The views of leases.
pub open spec fn lease_views(m: Map<i64, Lease>) -> Map<i64, LeaseView> {
    m.map_values(|l: Lease| l@)
}

impl View for Lessor {
    type V = LessorView;

    closed spec fn view(&self) -> LessorView {
        LessorView {
            leases: lease_views(self.leases@),
            queue: self.expiring_queue@,
            paused: self.paused,
            next_id: self.next_id as int,
            told: self.told@,
        }
    }
}

proof fn lemma_queued(queue: Seq<LeaseItem>, item: LeaseItem, p: int)
    requires
        0 <= p <= queue.len(),
        p > 0 ==> queue[p - 1].expiry <= item.expiry,
        forall|i: int| p <= i < queue.len() ==> (#[trigger] queue[i]).expiry > item.expiry,
    ensures
        queued(queue, item) == queue.insert(p, item),
    decreases queue.len(),
{
    if queue.len() == p {
        assert(queue.insert(p, item) =~= queue.push(item));
    } else {
        lemma_queued(queue.drop_last(), item, p);
        assert(queue.insert(p, item) =~= queue.drop_last().insert(p, item).push(queue.last()));
    }
}

proof fn lemma_queued_sorted(queue: Seq<LeaseItem>, item: LeaseItem)
    requires
        by_expiry(queue),
    ensures
        by_expiry(queued(queue, item)),
        queued(queue, item).contains(item),
        forall|x: LeaseItem| queue.contains(x) ==> #[trigger] queued(queue, item).contains(x),
        forall|x: LeaseItem| #[trigger]
            queued(queue, item).contains(x) ==> x == item || queue.contains(x),
    decreases queue.len(),
{
    let r = queued(queue, item);
    if queue.len() == 0 || queue.last().expiry <= item.expiry {
        assert(r[queue.len() as int] == item);
        assert forall|x: LeaseItem| queue.contains(x) implies #[trigger] r.contains(x) by {
            let i = choose|i: int| 0 <= i < queue.len() && queue[i] == x;
            assert(r[i] == x);
        }
        assert forall|i: int, j: int|
            #![trigger r[i], r[j]]
            0 <= i < j < r.len() implies r[i].expiry <= r[j].expiry by {
            if j == queue.len() && i < queue.len() - 1 {
                assert(queue[i].expiry <= queue[queue.len() - 1].expiry);
            }
        }
    } else {
        let front = queue.drop_last();
        let inner = queued(front, item);
        lemma_queued_sorted(front, item);
        assert forall|x: LeaseItem| queue.contains(x) implies #[trigger] r.contains(x) by {
            let i = choose|i: int| 0 <= i < queue.len() && queue[i] == x;
            if i < front.len() {
                assert(front[i] == x);
                assert(inner.contains(x));
                let k = choose|k: int| 0 <= k < inner.len() && inner[k] == x;
                assert(r[k] == x);
            } else {
                assert(r[inner.len() as int] == x);
            }
        }
        assert(inner.contains(item));
        let k = choose|k: int| 0 <= k < inner.len() && inner[k] == item;
        assert(r[k] == item);
        assert forall|x: LeaseItem| #[trigger] r.contains(x) implies x == item || queue.contains(
            x,
        ) by {
            let i = choose|i: int| 0 <= i < r.len() && r[i] == x;
            if i < inner.len() {
                assert(inner.contains(x));
                if x != item {
                    let m = choose|m: int| 0 <= m < front.len() && front[m] == x;
                    assert(queue[m] == x);
                }
            } else {
                assert(queue[queue.len() - 1] == x);
            }
        }
        assert forall|i: int, j: int|
            #![trigger r[i], r[j]]
            0 <= i < j < r.len() implies r[i].expiry <= r[j].expiry by {
            if j == inner.len() {
                assert(inner.contains(inner[i]));
                if inner[i] != item {
                    let m = choose|m: int| 0 <= m < front.len() && front[m] == inner[i];
                    assert(queue[m].expiry <= queue[queue.len() - 1].expiry);
                }
            } else {
                assert(r[i] == inner[i] && r[j] == inner[j]);
            }
        }
    }
}

/// The items that are due stand in front.
pub proof fn lemma_due(queue: Seq<LeaseItem>, now: int)
    requires
        by_expiry(queue),
    ensures
        due(queue, now) <= queue.len(),
        forall|i: int| 0 <= i < due(queue, now) ==> (#[trigger] queue[i]).expiry <= now,
        forall|i: int|
            due(queue, now) <= i < queue.len() ==> (#[trigger] queue[i]).expiry > now,
    decreases queue.len(),
{
    if queue.len() > 0 {
        if queue[0].expiry <= now {
            let rest = queue.skip(1);
            lemma_due(rest, now);
            assert forall|i: int| 0 <= i < due(queue, now) implies (#[trigger] queue[i]).expiry
                <= now by {
                if i > 0 {
                    assert(rest[i - 1] == queue[i]);
                }
            }
            assert forall|i: int| due(queue, now) <= i < queue.len() implies (
            #[trigger] queue[i]).expiry > now by {
                assert(rest[i - 1] == queue[i]);
            }
        } else {
            assert forall|i: int| 0 <= i < queue.len() implies (#[trigger] queue[i]).expiry
                > now by {
                if i > 0 {
                    assert(queue[0].expiry <= queue[i].expiry);
                }
            }
        }
    }
}

impl Lessor {
    /// What holds of every manager.
    pub closed spec fn wf(&self) -> bool {
        &&& self.leases.wf()
        &&& self@.valid()
    }

    /// What every manager knows of its model.
    pub proof fn lemma_wf(&self)
        requires
            self.wf(),
        ensures
            self@.valid(),
    {
    }

    /// A manager without leases. The numbers of its leases start from the time of
    /// the machine.
    pub fn new() -> (r: Lessor)
        ensures
            r.wf(),
            exists|now: u128|
                #![trigger is_time(now as int)]
                is_time(now as int) && r@ == empty_lessor(now),
    {
        let now = now_nanos();
        assert(is_time(now as int));
        Lessor::seeded(now)
    }

    /// A manager without leases that is made at a time.
    pub fn seeded(now: u128) -> (r: Lessor)
        ensures
            r.wf(),
            r@ == empty_lessor(now),
    {
        let seed = (now / 1000) as i64;
        let r = Lessor {
            leases: SortedMap::new(),
            expiring_queue: Vec::new(),
            paused: false,
            next_id: if seed > 1 {
                seed
            } else {
                1
            },
            told: Ghost(Set::empty()),
        };
        proof {
            assert(r@.leases =~= Map::empty());
            assert(r@.queue =~= Seq::empty());
        }
        r
    }

    fn enqueue(&mut self, item: LeaseItem)
        requires
            by_expiry(old(self).expiring_queue@),
        ensures
            final(self).expiring_queue@ == queued(old(self).expiring_queue@, item),
            by_expiry(final(self).expiring_queue@),
            final(self).expiring_queue@.contains(item),
            forall|x: LeaseItem|
                old(self).expiring_queue@.contains(x)
                    ==> #[trigger] final(self).expiring_queue@.contains(x),
            final(self).told == old(self).told,
            final(self).leases == old(self).leases,
            final(self).paused == old(self).paused,
            final(self).next_id == old(self).next_id,
    {
        let ghost before = self.expiring_queue@;
        let mut p: usize = self.expiring_queue.len();
        while p > 0 && self.expiring_queue[p - 1].expiry > item.expiry
            invariant
                p <= self.expiring_queue@.len(),
                self.expiring_queue@ == before,
                forall|i: int|
                    p <= i < before.len() ==> (#[trigger] before[i]).expiry > item.expiry,
            decreases p,
        {
            p -= 1;
        }
        self.expiring_queue.insert(p, item);
        proof {
            lemma_queued(before, item, p as int);
            lemma_queued_sorted(before, item);
        }
    }

    /// The next number that no lease has.
    fn generate_id(&mut self) -> (id: LeaseId)
        requires
            old(self).wf(),
            old(self)@.has_ids(),
        ensures
            old(self)@.is_next_free(id),
            final(self)@ == (LessorView { next_id: id + 1, ..old(self)@ }),
            final(self).wf(),
    {
        let ghost before = self@;
        let mut id = self.next_id;
        while self.leases.contains_key(&id)
            invariant
                self.leases.wf(),
                self@ == before,
                before.valid(),
                before.has_ids(),
                before.next_id <= id < i64::MAX,
                forall|k: i64| before.next_id <= k < id ==> #[trigger] before.leases.contains_key(k),
            decreases i64::MAX - id,
        {
            proof {
                // As many leases as numbers have been tried.
                let tried = vstd::set_lib::set_int_range(before.next_id, id + 1);
                vstd::set_lib::lemma_int_range(before.next_id, id + 1);
                let ids = before.leases.dom().map(|k: i64| k as int);
                before.leases.dom().lemma_map_finite(|k: i64| k as int);
                assert forall|x: int| tried.contains(x) implies ids.contains(x) by {
                    let k = x as i64;
                    assert(before.leases.contains_key(k));
                    assert(k as int == x);
                }
                vstd::set_lib::lemma_len_subset(tried, ids);
                lemma_map_len(before.leases.dom());
            }
            id += 1;
        }
        self.next_id = id + 1;
        id
    }

    /// Grants a lease for some seconds. For the number zero it gets a number of its
    /// own. A negative time, and a number that a lease has, are refused.
    pub fn grant(&mut self, id: LeaseId, ttl: i64) -> (r: Result<LeaseId, LeaseError>)
        requires
            old(self).wf(),
            id == NO_LEASE ==> old(self)@.has_ids(),
        ensures
            final(self).wf(),
            r is Err == old(self)@.grant_error(id, ttl) is Some,
            r matches Err(e) ==> {
                &&& old(self)@.grant_error(id, ttl) == Some(e)
                &&& final(self)@ == old(self)@
            },
            r matches Ok(new_id) ==> {
                &&& if id == NO_LEASE {
                    old(self)@.is_next_free(new_id)
                } else {
                    new_id == id
                }
                &&& exists|now: int|
                    #![trigger is_time(now)]
                    is_time(now) && final(self)@ == old(self)@.granted(id, new_id, ttl, now)
            },
    {
        let now = now_nanos();
        assert(is_time(now as int));
        self.grant_at(id, ttl, now)
    }

    /// Grants a lease at a time.
    pub fn grant_at(&mut self, id: LeaseId, ttl: i64, now: u128) -> (r: Result<
        LeaseId,
        LeaseError,
    >)
        requires
            old(self).wf(),
            is_time(now as int),
            id == NO_LEASE ==> old(self)@.has_ids(),
        ensures
            final(self).wf(),
            r is Err == old(self)@.grant_error(id, ttl) is Some,
            r matches Err(e) ==> {
                &&& old(self)@.grant_error(id, ttl) == Some(e)
                &&& final(self)@ == old(self)@
            },
            r matches Ok(new_id) ==> {
                &&& if id == NO_LEASE {
                    old(self)@.is_next_free(new_id)
                } else {
                    new_id == id
                }
                &&& final(self)@ == old(self)@.granted(id, new_id, ttl, now as int)
            },
    {
        let ghost before = self@;
        if ttl < 0 {
            return Err(LeaseError::TTLTooLarge);
        }
        let lease_id = if id == NO_LEASE {
            self.generate_id()
        } else {
            if self.leases.contains_key(&id) {
                return Err(LeaseError::Exists(id));
            }
            id
        };
        let expiry = Self::expiry_of(now, ttl);
        let lease = Lease {
            id: lease_id,
            ttl,
            remaining_ttl: ttl,
            expiry,
            keys: Vec::new(),
            checkpoint_ttl: None,
        };
        let ghost l = lease@;
        let _ = self.leases.insert(lease_id, lease);
        self.enqueue(LeaseItem { expiry, id: lease_id });
        proof {
            self.told@ = self.told@.remove(lease_id);
            assert(l.keys =~= Seq::empty());
            assert(self@.leases =~= before.leases.insert(lease_id, l));
            assert(self@ =~= before.granted(id, lease_id, ttl, now as int));
        }
        Ok(lease_id)
    }

    fn expiry_of(now: u128, ttl: i64) -> (r: u128)
        requires
            is_time(now as int),
            ttl >= 0,
        ensures
            r == expiry_after(now as int, ttl as int),
    {
        assert(ttl * 1_000_000_000 <= i64::MAX * 1_000_000_000) by (nonlinear_arith)
            requires
                0 <= ttl <= i64::MAX,
        ;
        now + (ttl as u128) * NANOS
    }

    /// Ends a lease. Returns the keys that were attached to it.
    pub fn revoke(&mut self, id: LeaseId) -> (r: Result<Vec<Vec<u8>>, LeaseError>)
        requires
            old(self).wf(),
        ensures
            final(self).wf(),
            r is Ok == old(self)@.leases.contains_key(id),
            r matches Ok(keys) ==> key_views(keys@) == old(self)@.leases[id].keys,
            r matches Err(e) ==> e == LeaseError::NotFound(id),
            final(self)@ == old(self)@.without_lease(id),
    {
        let r = self.leases.remove(&id);
        proof {
            self.told@ = self.told@.remove(id);
            assert(self@.leases =~= old(self)@.leases.remove(id));
        }
        match r {
            Some(lease) => Ok(lease.keys),
            None => Err(LeaseError::NotFound(id)),
        }
    }

    /// Starts the time of a lease anew. Returns its seconds.
    pub fn renew(&mut self, id: LeaseId) -> (r: Result<i64, LeaseError>)
        requires
            old(self).wf(),
        ensures
            final(self).wf(),
            r is Ok == old(self)@.leases.contains_key(id),
            r matches Ok(ttl) ==> {
                &&& ttl == old(self)@.leases[id].ttl
                &&& exists|now: int|
                    #![trigger is_time(now)]
                    is_time(now) && final(self)@ == old(self)@.renewed(id, now)
            },
            r matches Err(e) ==> e == LeaseError::NotFound(id) && final(self)@ == old(self)@,
    {
        let now = now_nanos();
        assert(is_time(now as int));
        self.renew_at(id, now)
    }

    /// Starts the time of a lease anew at a time.
    pub fn renew_at(&mut self, id: LeaseId, now: u128) -> (r: Result<i64, LeaseError>)
        requires
            old(self).wf(),
            is_time(now as int),
        ensures
            final(self).wf(),
            r is Ok == old(self)@.leases.contains_key(id),
            r matches Ok(ttl) ==> {
                &&& ttl == old(self)@.leases[id].ttl
                &&& final(self)@ == old(self)@.renewed(id, now as int)
            },
            r matches Err(e) ==> e == LeaseError::NotFound(id) && final(self)@ == old(self)@,
    {
        let ghost before = self@;
        match self.leases.position(&id) {
            None => Err(LeaseError::NotFound(id)),
            Some(i) => {
                let mut lease = self.leases.value(i).clone();
                let ttl = lease.ttl;
                assert(self@.leases.contains_key(id));
                let expiry = Self::expiry_of(now, ttl);
                lease.expiry = expiry;
                lease.remaining_ttl = ttl;
                let ghost l = lease@;
                let _ = self.leases.replace(i, lease);
                self.enqueue(LeaseItem { expiry, id });
                proof {
                    self.told@ = self.told@.remove(id);
                    assert(self@.leases =~= before.leases.insert(id, l));
                    assert(self@ =~= before.renewed(id, now as int));
                }
                Ok(ttl)
            },
        }
    }

    /// Attaches a key to a lease, once.
    pub fn attach(&mut self, id: LeaseId, key: &[u8]) -> (r: Result<(), LeaseError>)
        requires
            old(self).wf(),
        ensures
            final(self).wf(),
            r is Ok == old(self)@.leases.contains_key(id),
            r matches Err(e) ==> e == LeaseError::NotFound(id) && final(self)@ == old(self)@,
            r is Ok ==> final(self)@ == old(self)@.attached(id, key@),
    {
        let ghost before = self@;
        match self.leases.position(&id) {
            None => Err(LeaseError::NotFound(id)),
            Some(i) => {
                let lease = self.leases.value(i);
                let ghost keys = lease@.keys;
                if Self::has_key(&lease.keys, key) {
                    return Ok(());
                }
                let mut lease = lease.clone();
                let ghost old_keys = lease.keys@;
                lease.keys.push(vstd::slice::slice_to_vec(key));
                let ghost l = lease@;
                let _ = self.leases.replace(i, lease);
                proof {
                    assert(l.keys =~= keys.push(key@));
                    assert(self@.leases =~= before.leases.insert(id, l));
                }
                Ok(())
            },
        }
    }

    fn has_key(keys: &Vec<Vec<u8>>, key: &[u8]) -> (r: bool)
        ensures
            r == key_views(keys@).contains(key@),
    {
        let mut i: usize = 0;
        while i < keys.len()
            invariant
                i <= keys@.len(),
                forall|j: int| 0 <= j < i ==> (#[trigger] keys@[j])@ != key@,
            decreases keys@.len() - i,
        {
            if bytes_equal(keys[i].as_slice(), key) {
                assert(key_views(keys@)[i as int] == key@);
                return true;
            }
            i += 1;
        }
        proof {
            if key_views(keys@).contains(key@) {
                let j = choose|j: int|
                    0 <= j < key_views(keys@).len() && key_views(keys@)[j] == key@;
                assert(keys@[j]@ == key@);
            }
        }
        false
    }

    /// Detaches a key from a lease.
    pub fn detach(&mut self, id: LeaseId, key: &[u8]) -> (r: Result<(), LeaseError>)
        requires
            old(self).wf(),
        ensures
            final(self).wf(),
            r is Ok == old(self)@.leases.contains_key(id),
            r matches Err(e) ==> e == LeaseError::NotFound(id) && final(self)@ == old(self)@,
            r is Ok ==> final(self)@ == old(self)@.detached(id, key@),
    {
        let ghost before = self@;
        match self.leases.position(&id) {
            None => Err(LeaseError::NotFound(id)),
            Some(i) => {
                let mut lease = self.leases.value(i).clone();
                let ghost keys = lease@.keys;
                let kept = Self::without(&lease.keys, key);
                lease.keys = kept;
                let ghost l = lease@;
                let _ = self.leases.replace(i, lease);
                proof {
                    assert(self@.leases =~= before.leases.insert(id, l));
                }
                Ok(())
            },
        }
    }

    fn without(keys: &Vec<Vec<u8>>, key: &[u8]) -> (r: Vec<Vec<u8>>)
        ensures
            key_views(r@) == key_views(keys@).filter(|k: Seq<u8>| k != key@),
    {
        let ghost all = key_views(keys@);
        let ghost other = |k: Seq<u8>| k != key@;
        let mut r: Vec<Vec<u8>> = Vec::new();
        let mut i: usize = 0;
        proof {
            reveal(Seq::filter);
            assert(all.take(0) =~= Seq::empty());
            assert(all.take(0).filter(other) =~= Seq::empty());
            assert(key_views(r@) =~= Seq::empty());
        }
        while i < keys.len()
            invariant
                i <= keys@.len(),
                all == key_views(keys@),
                other == (|k: Seq<u8>| k != key@),
                key_views(r@) == all.take(i as int).filter(other),
            decreases keys@.len() - i,
        {
            let ghost before = r@;
            proof {
                reveal(Seq::filter);
                assert(all.take(i + 1).drop_last() =~= all.take(i as int));
                assert(all.take(i + 1).last() == keys@[i as int]@);
            }
            if !bytes_equal(keys[i].as_slice(), key) {
                r.push(copy_bytes(&keys[i]));
                assert(key_views(r@) =~= key_views(before).push(keys@[i as int]@));
            }
            i += 1;
        }
        assert(all.take(all.len() as int) =~= all);
        r
    }

    /// The lease with a number.
    pub fn lookup(&self, id: LeaseId) -> (r: Option<&Lease>)
        requires
            self.wf(),
        ensures
            r is Some == self@.leases.contains_key(id),
            r matches Some(l) ==> l@ == self@.leases[id],
    {
        self.leases.get(&id)
    }

    /// The whole seconds that a lease has left.
    pub fn lookup_ttl(&self, id: LeaseId) -> (r: Result<i64, LeaseError>)
        requires
            self.wf(),
        ensures
            r is Ok == self@.leases.contains_key(id),
            r matches Ok(s) ==> exists|now: int|
                #![trigger is_time(now)]
                is_time(now) && s == self@.seconds_left(id, now) as i64,
            r matches Err(e) ==> e == LeaseError::NotFound(id),
    {
        let now = now_nanos();
        assert(is_time(now as int));
        self.lookup_ttl_at(id, now)
    }

    /// The whole seconds that a lease has left at a time.
    pub fn lookup_ttl_at(&self, id: LeaseId, now: u128) -> (r: Result<i64, LeaseError>)
        requires
            self.wf(),
        ensures
            r is Ok == self@.leases.contains_key(id),
            r matches Ok(s) ==> s == self@.seconds_left(id, now as int) as i64,
            r matches Err(e) ==> e == LeaseError::NotFound(id),
    {
        match self.leases.get(&id) {
            None => Err(LeaseError::NotFound(id)),
            Some(lease) => if lease.expiry <= now {
                Ok(0)
            } else {
                Ok(((lease.expiry - now) / NANOS) as i64)
            },
        }
    }

    /// The numbers of all leases, in order.
    pub fn get_leases(&self) -> (r: Vec<LeaseId>)
        requires
            self.wf(),
        ensures
            forall|i: int, j: int|
                #![trigger r@[i], r@[j]]
                0 <= i < j < r@.len() ==> r@[i] < r@[j],
            forall|id: i64| r@.contains(id) <==> #[trigger] self@.leases.contains_key(id),
    {
        let ghost all = self.leases.key_seq();
        let mut r: Vec<LeaseId> = Vec::new();
        let mut i: usize = 0;
        while i < self.leases.len()
            invariant
                self.leases.wf(),
                all == self.leases.key_seq(),
                i <= all.len(),
                r@ == all.take(i as int),
            decreases all.len() - i,
        {
            r.push(*self.leases.key(i));
            assert(r@ =~= all.take(i + 1));
            i += 1;
        }
        proof {
            assert(r@ =~= all);
            assert forall|id: i64| r@.contains(id) <==> #[trigger] self@.leases.contains_key(id) by {
                if r@.contains(id) {
                    let k = choose|k: int| 0 <= k < all.len() && all[k] == id;
                    self.leases.lemma_at(k);
                }
                if self@.leases.contains_key(id) {
                    let k = self.leases.lemma_position(id);
                    assert(r@[k] == id);
                }
            }
        }
        r
    }

    /// When this node becomes the leader: expiration goes on, and every lease is
    /// extended by some nanoseconds.
    pub fn promote(&mut self, extend: u128)
        requires
            old(self).wf(),
        ensures
            final(self).wf(),
            exists|ids: Seq<i64>|
                #![trigger promoted(old(self)@, ids, extend as int)]
                {
                    &&& forall|i: int, j: int|
                        #![trigger ids[i], ids[j]]
                        0 <= i < j < ids.len() ==> ids[i] < ids[j]
                    &&& forall|id: i64| ids.contains(id) <==> old(self)@.leases.contains_key(id)
                    &&& final(self)@ == (LessorView {
                        paused: false,
                        ..promoted(old(self)@, ids, extend as int)
                    })
                },
    {
        let ghost before = self@;
        let ids = self.get_leases();
        self.paused = false;
        let mut i: usize = 0;
        assert(ids@.take(0) =~= Seq::empty());
        while i < ids.len()
            invariant
                self.wf(),
                i <= ids@.len(),
                forall|k: i64| ids@.contains(k) <==> before.leases.contains_key(k),
                self@.leases.dom() == before.leases.dom(),
                self@ == (LessorView {
                    paused: false,
                    ..promoted(before, ids@.take(i as int), extend as int)
                }),
            decreases ids@.len() - i,
        {
            let id = ids[i];
            let ghost now = self@;
            proof {
                assert(ids@.contains(id));
                assert(now.leases.contains_key(id));
                assert(ids@.take(i + 1).drop_last() =~= ids@.take(i as int));
                assert(ids@.take(i + 1).last() == id);
            }
            if let Some(p) = self.leases.position(&id) {
                let mut lease = self.leases.value(p).clone();
                let expiry = match lease.expiry.checked_add(extend) {
                    Some(e) => e,
                    None => lease.expiry,
                };
                lease.expiry = expiry;
                let ghost l = lease@;
                let _ = self.leases.replace(p, lease);
                self.enqueue(LeaseItem { expiry, id });
                proof {
                    self.told@ = self.told@.remove(id);
                    assert(self@.leases =~= now.leases.insert(id, l));
                    assert(self@.leases.dom() =~= before.leases.dom());
                }
            }
            i += 1;
        }
        assert(ids@.take(ids@.len() as int) =~= ids@);
        assert(self@ == (LessorView { paused: false, ..promoted(before, ids@, extend as int) }));
    }

    /// When this node is no longer the leader: nothing expires.
    pub fn demote(&mut self)
        requires
            old(self).wf(),
        ensures
            final(self).wf(),
            final(self)@ == (LessorView { paused: true, ..old(self)@ }),
    {
        self.paused = true;
        assert(self@.leases =~= old(self)@.leases);
    }

    /// The leases that have expired at a time, with their keys, by their expiry.
    /// They stay until they are forgotten.
    pub fn tick(&mut self, now: u128) -> (r: Vec<Expired>)
        requires
            old(self).wf(),
        ensures
            final(self).wf(),
            expired_views(r@) == old(self)@.expired(now as int),
            final(self)@ == old(self)@.after_tick(now as int),
    {
        let ghost before = self@;
        let mut r: Vec<Expired> = Vec::new();
        if self.paused {
            assert(expired_views(r@) =~= Seq::empty());
            return r;
        }
        let ghost queue = self.expiring_queue@;
        let ghost lapsed = |item: LeaseItem| before.lapsed(item);
        let ghost told = |item: LeaseItem| (item.id, before.leases[item.id].keys);
        let mut n: usize = 0;
        proof {
            lemma_due(queue, now as int);
            reveal(Seq::filter);
            assert(queue.take(0) =~= Seq::empty());
            assert(queue.take(0).filter(lapsed) =~= Seq::empty());
            assert(expired_views(r@) =~= queue.take(0).filter(lapsed).map_values(told));
        }
        while n < self.expiring_queue.len() && self.expiring_queue[n].expiry <= now
            invariant
                self.leases.wf(),
                self@ == before,
                queue == self.expiring_queue@,
                queue == before.queue,
                n <= due(queue, now as int) <= queue.len(),
                forall|i: int|
                    due(queue, now as int) <= i < queue.len() ==> (#[trigger] queue[i]).expiry
                        > now,
                lapsed == (|item: LeaseItem| before.lapsed(item)),
                told == (|item: LeaseItem| (item.id, before.leases[item.id].keys)),
                expired_views(r@) == queue.take(n as int).filter(lapsed).map_values(told),
            decreases queue.len() - n,
        {
            let item = self.expiring_queue[n];
            let ghost listed = r@;
            proof {
                assert(n < due(queue, now as int));
                reveal(Seq::filter);
                assert(queue.take(n + 1).drop_last() =~= queue.take(n as int));
                assert(queue.take(n + 1).last() == item);
            }
            if let Some(lease) = self.leases.get(&item.id) {
                if lease.expiry == item.expiry {
                    r.push(Expired { id: item.id, keys: copy_keys(&lease.keys) });
                    proof {
                        assert(lapsed(item));
                        assert(expired_views(r@) =~= expired_views(listed).push(told(item)));
                        assert(queue.take(n + 1).filter(lapsed).map_values(told) =~= queue.take(
                            n as int,
                        ).filter(lapsed).map_values(told).push(told(item)));
                    }
                }
            }
            n += 1;
        }
        assert(n == due(queue, now as int)) by {
            lemma_due(queue, now as int);
        }
        let rest = self.expiring_queue.split_off(n);
        self.expiring_queue = rest;
        proof {
            assert(self.expiring_queue@ =~= queue.skip(n as int));
            assert(self@.leases =~= before.leases);
            assert(by_expiry(self@.queue));
            self.told@ = self.told@.union(before.expired_ids(now as int));
            assert forall|id: i64| before.expired_ids(now as int).contains(id) implies #[trigger]
                before.leases.contains_key(id) by {
                let i = choose|i: int|
                    0 <= i < before.expired(now as int).len() && (#[trigger] before.expired(
                        now as int,
                    )[i]).0 == id;
                law_no_early_expiry(before, now as int, i);
            }
            assert forall|id: i64| #[trigger]
                self@.leases.contains_key(id) && !self@.told.contains(id) implies is_queued(
                self@.queue,
                id,
                self@.leases[id].expiry,
            ) by {
                let item = LeaseItem { expiry: before.leases[id].expiry as u128, id };
                let k = choose|k: int| 0 <= k < queue.len() && queue[k] == item;
                if k < n {
                    law_expires_in_time(before, id, now as int);
                    let i = choose|i: int|
                        0 <= i < before.expired(now as int).len() && before.expired(now as int)[i]
                            == (id, before.leases[id].keys);
                    assert(before.expired(now as int)[i].0 == id);
                } else {
                    assert(self@.queue[k - n] == item);
                }
            }
        }
        r
    }

    /// Forgets a lease that has expired.
    pub fn forget(&mut self, id: LeaseId)
        requires
            old(self).wf(),
        ensures
            final(self).wf(),
            final(self)@ == old(self)@.without_lease(id),
    {
        let _ = self.leases.remove(&id);
        proof {
            self.told@ = self.told@.remove(id);
            assert(self@.leases =~= old(self)@.leases.remove(id));
        }
    }
}

/// A manager without leases that is made at a time.
pub open spec fn empty_lessor(now: u128) -> LessorView {
    let seed = (now / 1000) as i64;
    LessorView {
        leases: Map::empty(),
        queue: Seq::empty(),
        paused: false,
        next_id: if seed > 1 {
            seed as int
        } else {
            1
        },
        told: Set::empty(),
    }
}

proof fn lemma_map_len(s: Set<i64>)
    requires
        s.finite(),
    ensures
        s.map(|k: i64| k as int).len() <= s.len(),
    decreases s.len(),
{
    let f = |k: i64| k as int;
    if s.len() == 0 {
        assert(s.map(f) =~= Set::empty());
    } else {
        let a = s.choose();
        lemma_map_len(s.remove(a));
        assert(s.map(f) =~= s.remove(a).map(f).insert(f(a))) by {
            assert forall|x: int| s.map(f).contains(x) <==> s.remove(a).map(f).insert(
                f(a),
            ).contains(x) by {
                if s.map(f).contains(x) {
                    let k = choose|k: i64| s.contains(k) && x == f(k);
                    if k != a {
                        assert(s.remove(a).contains(k));
                    }
                }
                if s.remove(a).map(f).contains(x) {
                    let k = choose|k: i64| s.remove(a).contains(k) && x == f(k);
                    assert(s.contains(k));
                }
            }
        }
        s.remove(a).lemma_map_finite(f);
    }
}

/// No lease expires before its time.
pub proof fn law_no_early_expiry(s: LessorView, now: int, i: int)
    requires
        s.valid(),
        0 <= i < s.expired(now).len(),
    ensures
        s.leases.contains_key(s.expired(now)[i].0),
        s.leases[s.expired(now)[i].0].expiry <= now,
        s.expired(now)[i].1 == s.leases[s.expired(now)[i].0].keys,
{
    broadcast use vstd::seq_lib::group_filter_ensures;

    lemma_due(s.queue, now);
    let items = s.queue.take(due(s.queue, now) as int);
    let lapsed = |item: LeaseItem| s.lapsed(item);
    let item = items.filter(lapsed)[i];
    assert(lapsed(item));
    assert(items.filter(lapsed).contains(item));
    items.lemma_filter_contains_rev(lapsed, item);
    let k = choose|k: int| 0 <= k < items.len() && items[k] == item;
    assert(s.queue[k].expiry <= now);
}

/// A lease expires when its time has come, unless it was told to have expired before,
/// or expiration is paused.
pub proof fn law_expires_in_time(s: LessorView, id: i64, now: int)
    requires
        s.valid(),
        !s.paused,
        s.leases.contains_key(id),
        s.leases[id].expiry <= now,
    ensures
        s.told.contains(id) || s.expired(now).contains((id, s.leases[id].keys)),
{
    broadcast use vstd::seq_lib::group_filter_ensures;

    if !s.told.contains(id) {
        lemma_due(s.queue, now);
        let item = LeaseItem { expiry: s.leases[id].expiry as u128, id };
        let n = due(s.queue, now) as int;
        let items = s.queue.take(n);
        let lapsed = |item: LeaseItem| s.lapsed(item);
        let k = choose|k: int| 0 <= k < s.queue.len() && s.queue[k] == item;
        assert(k < n);
        assert(items[k] == item);
        assert(lapsed(item));
        assert(items.filter(lapsed).contains(item));
        let j = choose|j: int| 0 <= j < items.filter(lapsed).len() && items.filter(lapsed)[j] == item;
        assert(s.expired(now)[j] == (id, s.leases[id].keys));
    }
}

/// A lease that was granted expires when its seconds are over, and not before.
pub proof fn law_granted_lease_expires(
    s: LessorView,
    asked: i64,
    id: i64,
    ttl: i64,
    granted: int,
    now: int,
)
    requires
        s.valid(),
        !s.paused,
        is_time(granted),
        ttl >= 0,
        !s.leases.contains_key(id),
        id < i64::MAX,
        asked == NO_LEASE ==> 1 <= id,
    ensures
        s.granted(asked, id, ttl, granted).valid(),
        now >= expiry_after(granted, ttl as int) ==> s.granted(asked, id, ttl, granted).expired(
            now,
        ).contains((id, Seq::<Seq<u8>>::empty())),
        now < expiry_after(granted, ttl as int) ==> forall|i: int|
            0 <= i < s.granted(asked, id, ttl, granted).expired(now).len() ==> (
            #[trigger] s.granted(asked, id, ttl, granted).expired(now)[i]).0 != id,
{
    let t = s.granted(asked, id, ttl, granted);
    let expiry = expiry_after(granted, ttl as int);
    assert(0 <= ttl * 1_000_000_000 <= i64::MAX * 1_000_000_000) by (nonlinear_arith)
        requires
            0 <= ttl <= i64::MAX,
    ;
    lemma_queued_sorted(s.queue, LeaseItem { expiry: expiry as u128, id });
    if now >= expiry {
        law_expires_in_time(t, id, now);
    } else {
        assert forall|i: int| 0 <= i < t.expired(now).len() implies (#[trigger] t.expired(
            now,
        )[i]).0 != id by {
            law_no_early_expiry(t, now, i);
        }
    }
}

/// A lease that was renewed does not expire before its time has passed anew.
pub proof fn law_renewed_lease_lives(s: LessorView, id: i64, renewed: int, now: int, i: int)
    requires
        s.valid(),
        is_time(renewed),
        s.leases.contains_key(id),
        now < expiry_after(renewed, s.leases[id].ttl as int),
        0 <= i < s.renewed(id, renewed).expired(now).len(),
    ensures
        s.renewed(id, renewed).expired(now)[i].0 != id,
{
    let t = s.renewed(id, renewed);
    let ttl = s.leases[id].ttl;
    assert(0 <= ttl * 1_000_000_000) by (nonlinear_arith)
        requires
            0 <= ttl,
    ;
    let expiry = expiry_after(renewed, ttl as int);
    lemma_queued_sorted(s.queue, LeaseItem { expiry: expiry as u128, id });
    law_no_early_expiry(t, now, i);
}

/// A promotion extends every lease, and changes nothing else of it.
pub proof fn law_promotion_extends(s: LessorView, ids: Seq<i64>, by: int, id: i64)
    requires
        ids.no_duplicates(),
        s.leases.contains_key(id),
        forall|i: int| 0 <= i < ids.len() ==> s.leases.contains_key(#[trigger] ids[i]),
    ensures
        promoted(s, ids, by).leases.contains_key(id),
        promoted(s, ids, by).leases[id] == (if ids.contains(id) {
            LeaseView { expiry: extended(s.leases[id].expiry, by), ..s.leases[id] }
        } else {
            s.leases[id]
        }),
    decreases ids.len(),
{
    if ids.len() > 0 {
        let front = ids.drop_last();
        law_promotion_extends(s, front, by, id);
        assert(ids.contains(id) == (front.contains(id) || ids.last() == id)) by {
            if ids.contains(id) {
                let i = choose|i: int| 0 <= i < ids.len() && ids[i] == id;
                if i < front.len() {
                    assert(front[i] == id);
                }
            }
            if front.contains(id) {
                let i = choose|i: int| 0 <= i < front.len() && front[i] == id;
                assert(ids[i] == id);
            }
            assert(ids[ids.len() - 1] == ids.last());
        }
        if ids.last() == id {
            assert(!front.contains(id)) by {
                if front.contains(id) {
                    let i = choose|i: int| 0 <= i < front.len() && front[i] == id;
                    assert(ids[i] == ids[ids.len() - 1]);
                }
            }
        } else {
            let last = ids.last();
            assert(ids[ids.len() - 1] == last);
        }
    }
}

} // verus!
