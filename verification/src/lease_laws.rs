//! What holds of leases.

use crate::lease::lease::LeaseError;
use crate::lease::lessor::{
    due, law_promotion_extends, lemma_due, promoted, without_key, LessorView,
};
use vstd::prelude::*;

verus! {

/// A lease that is granted is there with its seconds and without keys, and lasts for its
/// seconds from then on. The other leases stay as they are.
pub proof fn law_granted_lease(
    s: LessorView,
    asked: i64,
    id: i64,
    ttl: i64,
    now: int,
    other: i64,
)
    ensures
        ({
            let t = s.granted(asked, id, ttl, now);
            &&& t.leases.contains_key(id)
            &&& t.leases[id].id == id
            &&& t.leases[id].ttl == ttl
            &&& t.leases[id].remaining_ttl == ttl
            &&& t.leases[id].expiry == now + ttl * 1_000_000_000
            &&& t.leases[id].keys.len() == 0
            &&& t.leases[id].checkpoint_ttl is None
            &&& other != id ==> t.leases.contains_key(other) == s.leases.contains_key(other)
                && t.leases[other] == s.leases[other]
            &&& t.paused == s.paused
            &&& asked != 0 ==> t.next_id == s.next_id
            &&& asked == 0 ==> t.next_id == id + 1
        }),
{
}

/// A lease is refused if and only if its time is negative, or it has the number of
/// another one. No number is asked for by zero.
pub proof fn law_refused_leases(s: LessorView, id: i64, ttl: i64)
    ensures
        ttl < 0 ==> s.grant_error(id, ttl) == Some(LeaseError::TTLTooLarge),
        ttl >= 0 && id != 0 && s.leases.contains_key(id) ==> s.grant_error(id, ttl) == Some(
            LeaseError::Exists(id),
        ),
        ttl >= 0 && (id == 0 || !s.leases.contains_key(id)) ==> s.grant_error(id, ttl) is None,
{
}

/// A number that is given to a lease is that of no other lease, and no earlier one from
/// the next number on is free. Two leases that get numbers one after the other get
/// different ones.
pub proof fn law_given_numbers(s: LessorView, id: i64, ttl: i64, now: int, second: i64, k: i64)
    requires
        s.is_next_free(id),
        s.granted(0, id, ttl, now).is_next_free(second),
    ensures
        !s.leases.contains_key(id),
        s.next_id <= k < id ==> s.leases.contains_key(k),
        id < second,
{
}

/// A lease that is renewed lasts for its seconds anew, and keeps its keys. The other
/// leases stay as they are.
pub proof fn law_renewed_lease(s: LessorView, id: i64, now: int, other: i64)
    requires
        s.leases.contains_key(id),
    ensures
        ({
            let t = s.renewed(id, now);
            &&& t.leases.contains_key(id)
            &&& t.leases[id].expiry == now + s.leases[id].ttl * 1_000_000_000
            &&& t.leases[id].ttl == s.leases[id].ttl
            &&& t.leases[id].remaining_ttl == s.leases[id].ttl
            &&& t.leases[id].keys == s.leases[id].keys
            &&& t.leases[id].id == s.leases[id].id
            &&& other != id ==> t.leases.contains_key(other) == s.leases.contains_key(other)
                && t.leases[other] == s.leases[other]
            &&& t.next_id == s.next_id
            &&& t.paused == s.paused
        }),
{
}

/// A lease that is revoked is gone, and its number can be asked for again. The other
/// leases stay as they are.
pub proof fn law_revoked_lease(s: LessorView, id: i64, ttl: i64, other: i64)
    requires
        ttl >= 0,
    ensures
        ({
            let t = s.without_lease(id);
            &&& !t.leases.contains_key(id)
            &&& t.grant_error(id, ttl) is None
            &&& other != id ==> t.leases.contains_key(other) == s.leases.contains_key(other)
                && t.leases[other] == s.leases[other]
            &&& t.next_id == s.next_id
        }),
{
}

/// The keys of a lease are set without any other change.
pub proof fn law_keys_of_lease(s: LessorView, id: i64, keys: Seq<Seq<u8>>, other: i64)
    requires
        s.leases.contains_key(id),
    ensures
        ({
            let t = s.with_keys(id, keys);
            &&& t.leases[id].keys == keys
            &&& t.leases[id].expiry == s.leases[id].expiry
            &&& t.leases[id].ttl == s.leases[id].ttl
            &&& t.queue == s.queue
            &&& other != id ==> t.leases.contains_key(other) == s.leases.contains_key(other)
                && t.leases[other] == s.leases[other]
        }),
{
}

/// The seconds that a lease has left are the whole ones until it expires, and none after
/// that.
pub proof fn law_seconds_left(s: LessorView, id: i64, now: int)
    ensures
        ({
            let left = s.seconds_left(id, now);
            let expiry = s.leases[id].expiry;
            &&& expiry <= now ==> left == 0
            &&& expiry > now ==> left * 1_000_000_000 <= expiry - now < (left + 1) * 1_000_000_000
        }),
{
}

/// A lease has all its seconds left at the time at which it is granted or renewed, and
/// fewer as time goes by.
pub proof fn law_seconds_go_by(s: LessorView, id: i64, now: int, secs: int)
    requires
        s.leases.contains_key(id),
        0 <= secs <= s.leases[id].ttl,
    ensures
        s.renewed(id, now).seconds_left(id, now + secs * 1_000_000_000) == s.leases[id].ttl - secs,
{
    let t = s.renewed(id, now);
    let ttl = s.leases[id].ttl as int;
    let at = now + secs * 1_000_000_000;
    let left = ttl - secs;
    assert(t.leases[id].expiry - at == left * 1_000_000_000);
    if left > 0 {
        assert((left * 1_000_000_000) / 1_000_000_000 == left);
    }
}

/// What is told to have expired at a time is not told again at that time. While
/// expiration is paused nothing is told, and nothing is forgotten.
pub proof fn law_expiry_is_told(s: LessorView, now: int)
    requires
        s.valid(),
    ensures
        s.after_tick(now).expired(now).len() == 0,
        s.after_tick(now).leases == s.leases,
        s.paused ==> s.expired(now).len() == 0 && s.after_tick(now) == s,
{
    if !s.paused {
        lemma_due(s.queue, now);
        let t = s.after_tick(now);
        let n = due(s.queue, now) as int;
        if t.queue.len() > 0 {
            assert(t.queue[0] == s.queue[n]);
        }
        assert(due(t.queue, now) == 0);
        reveal(Seq::filter);
        assert(t.queue.take(0) =~= Seq::empty());
    }
}

/// A promotion gives every lease more time, where there is such a time, and keeps its
/// keys and its seconds. Where there is none, its time stays.
pub proof fn law_promoted_leases(s: LessorView, ids: Seq<i64>, by: int, id: i64)
    requires
        ids.no_duplicates(),
        ids.contains(id),
        forall|i: int| 0 <= i < ids.len() ==> s.leases.contains_key(#[trigger] ids[i]),
    ensures
        s.leases[id].expiry + by <= u128::MAX ==> promoted(s, ids, by).leases[id].expiry
            == s.leases[id].expiry + by,
        s.leases[id].expiry + by > u128::MAX ==> promoted(s, ids, by).leases[id].expiry
            == s.leases[id].expiry,
        promoted(s, ids, by).leases[id].keys == s.leases[id].keys,
        promoted(s, ids, by).leases[id].ttl == s.leases[id].ttl,
{
    let i = choose|i: int| 0 <= i < ids.len() && ids[i] == id;
    assert(s.leases.contains_key(ids[i]));
    law_promotion_extends(s, ids, by, id);
}

/// A key that is attached to a lease is one of its keys, and those before it stay. To
/// attach it again changes nothing.
pub proof fn law_attached_key(s: LessorView, id: i64, key: Seq<u8>, other: Seq<u8>, lease: i64)
    requires
        s.leases.contains_key(id),
    ensures
        ({
            let t = s.attached(id, key);
            &&& t.leases[id].keys.contains(key)
            &&& other != key ==> t.leases[id].keys.contains(other) == s.leases[id].keys.contains(
                other,
            )
            &&& s.leases[id].keys.no_duplicates() ==> t.leases[id].keys.no_duplicates()
            &&& t.leases[id].expiry == s.leases[id].expiry
            &&& t.attached(id, key) == t
            &&& lease != id ==> t.leases[lease] == s.leases[lease]
        }),
{
    let keys = s.leases[id].keys;
    if !keys.contains(key) {
        let more = keys.push(key);
        assert(more[keys.len() as int] == key);
        if keys.contains(other) {
            let i = choose|i: int| 0 <= i < keys.len() && keys[i] == other;
            assert(more[i] == other);
        }
    }
}

/// A key that is detached from a lease is none of its keys, and the others stay. To detach
/// a key that was attached before undoes that.
pub proof fn law_detached_key(s: LessorView, id: i64, key: Seq<u8>, other: Seq<u8>, lease: i64)
    requires
        s.leases.contains_key(id),
    ensures
        ({
            let t = s.detached(id, key);
            &&& !t.leases[id].keys.contains(key)
            &&& other != key ==> t.leases[id].keys.contains(other) == s.leases[id].keys.contains(
                other,
            )
            &&& t.leases[id].expiry == s.leases[id].expiry
            &&& lease != id ==> t.leases[lease] == s.leases[lease]
            &&& !s.leases[id].keys.contains(key) ==> s.attached(id, key).detached(
                id,
                key,
            ).leases[id].keys == s.leases[id].keys
        }),
{
    let keys = s.leases[id].keys;
    lemma_without_key(keys, key, other);
    lemma_without_pushed(keys, key, key);
}

proof fn lemma_without_pushed(keys: Seq<Seq<u8>>, key: Seq<u8>, k: Seq<u8>)
    ensures
        without_key(keys.push(k), key) == (if k == key {
            without_key(keys, key)
        } else {
            without_key(keys, key).push(k)
        }),
{
    reveal(Seq::filter);
    assert(keys.push(k).drop_last() =~= keys);
}

proof fn lemma_without_key(keys: Seq<Seq<u8>>, key: Seq<u8>, other: Seq<u8>)
    ensures
        !without_key(keys, key).contains(key),
        other != key ==> without_key(keys, key).contains(other) == keys.contains(other),
        !keys.contains(key) ==> without_key(keys, key) == keys,
    decreases keys.len(),
{
    if keys.len() > 0 {
        let front = keys.drop_last();
        let k = keys.last();
        let less = without_key(front, key);
        assert(keys =~= front.push(k));
        assert(keys[keys.len() - 1] == k);
        lemma_without_key(front, key, other);
        lemma_without_pushed(front, key, k);
        assert(keys.contains(other) == (front.contains(other) || k == other)) by {
            if front.contains(other) {
                let i = choose|i: int| 0 <= i < front.len() && front[i] == other;
                assert(keys[i] == other);
            }
        }
        if front.contains(key) {
            let i = choose|i: int| 0 <= i < front.len() && front[i] == key;
            assert(keys[i] == key);
        }
        if k != key {
            let r = less.push(k);
            assert(r.contains(other) == (less.contains(other) || k == other)) by {
                assert(r[less.len() as int] == k);
                if less.contains(other) {
                    let i = choose|i: int| 0 <= i < less.len() && less[i] == other;
                    assert(r[i] == other);
                }
            }
            assert(!r.contains(key));
        }
    } else {
        reveal(Seq::filter);
        assert(without_key(keys, key) =~= keys);
    }
}

/// Which number is given is decided: the next one where no lease has it, and else the
/// first one after it that no lease has.
pub proof fn law_given_number_is_the_first(s: LessorView, id: i64, next: i64, other: i64)
    requires
        s.is_next_free(id),
        s.next_id == next,
    ensures
        next <= id,
        !s.leases.contains_key(next) ==> id == next && s.is_next_free(next),
        s.is_next_free(other) ==> other == id,
        next <= other < id ==> s.leases.contains_key(other),
{
    if !s.leases.contains_key(next) && next < id {
        assert(s.leases.contains_key(next));
    }
    if s.is_next_free(other) {
        if other < id {
            assert(s.leases.contains_key(other));
        } else if id < other {
            assert(s.leases.contains_key(id));
        }
    }
}

} // verus!
