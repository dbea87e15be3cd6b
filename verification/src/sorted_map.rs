//! A map whose entries stand in the order of their keys.

use crate::order::OrderedKey;
use vstd::prelude::*;

verus! {

/// Each key comes before those that follow it.
pub open spec fn ascending<K: OrderedKey>(keys: Seq<K::V>) -> bool {
    forall|i: int, j: int|
        #![trigger keys[i], keys[j]]
        0 <= i < j < keys.len() ==> K::before(keys[i], keys[j])
}

/// The map that leads from each key to the value at the key's position.
pub open spec fn zipped<A, T>(keys: Seq<A>, values: Seq<T>) -> Map<A, T> {
    Map::new(|k: A| keys.contains(k), |k: A| values[keys.index_of(k)])
}

/// In ascending keys a key stands once.
pub proof fn ascending_unique<K: OrderedKey>(keys: Seq<K::V>, i: int, j: int)
    requires
        ascending::<K>(keys),
        0 <= i < keys.len(),
        0 <= j < keys.len(),
        keys[i] == keys[j],
    ensures
        i == j,
{
    K::before_irreflexive(keys[i]);
}

/// Ascending sequences of the same keys are the same sequence.
pub proof fn ascending_same_keys<K: OrderedKey>(a: Seq<K::V>, b: Seq<K::V>)
    requires
        ascending::<K>(a),
        ascending::<K>(b),
        forall|k: K::V| a.contains(k) <==> b.contains(k),
    ensures
        a == b,
    decreases a.len(),
{
    if a.len() == 0 {
        if b.len() > 0 {
            assert(b.contains(b[0]));
            assert(a.contains(b[0]));
        }
        assert(a =~= b);
    } else {
        assert(a.contains(a.last()));
        assert(b.contains(a.last()));
        assert(b.len() > 0);
        assert(b.contains(b.last()));
        assert(a.contains(b.last()));
        let i = choose|i: int| 0 <= i < a.len() && a[i] == b.last();
        let j = choose|j: int| 0 <= j < b.len() && b[j] == a.last();
        if i != a.len() - 1 {
            assert(K::before(a[i], a.last()));
            if j != b.len() - 1 {
                assert(K::before(b[j], b.last()));
                K::before_transitive(a.last(), b.last(), a.last());
            }
            K::before_irreflexive(a.last());
        }
        assert(a.last() == b.last());
        let a1 = a.drop_last();
        let b1 = b.drop_last();
        assert forall|k: K::V| a1.contains(k) <==> b1.contains(k) by {
            if a1.contains(k) {
                let m = choose|m: int| 0 <= m < a1.len() && a1[m] == k;
                assert(a[m] == k);
                assert(a.contains(k));
                let n = choose|n: int| 0 <= n < b.len() && b[n] == k;
                if n == b.len() - 1 {
                    ascending_unique::<K>(a, m, a.len() - 1);
                }
                assert(b1[n] == k);
            }
            if b1.contains(k) {
                let m = choose|m: int| 0 <= m < b1.len() && b1[m] == k;
                assert(b[m] == k);
                assert(b.contains(k));
                let n = choose|n: int| 0 <= n < a.len() && a[n] == k;
                if n == a.len() - 1 {
                    ascending_unique::<K>(b, m, b.len() - 1);
                }
                assert(a1[n] == k);
            }
        }
        ascending_same_keys::<K>(a1, b1);
        assert(a =~= a1.push(a.last()));
        assert(b =~= b1.push(b.last()));
    }
}

/// The keys are those of the set, in order.
pub open spec fn enumerates<K: OrderedKey>(keys: Seq<K::V>, s: Set<K::V>) -> bool {
    &&& ascending::<K>(keys)
    &&& forall|k: K::V| keys.contains(k) <==> #[trigger] s.contains(k)
}

/// The keys of a set, in order.
pub open spec fn in_order<K: OrderedKey>(s: Set<K::V>) -> Seq<K::V> {
    choose|keys: Seq<K::V>| enumerates::<K>(keys, s)
}

/// There is one order of the keys of a set.
pub proof fn lemma_in_order<K: OrderedKey>(keys: Seq<K::V>, s: Set<K::V>)
    requires
        enumerates::<K>(keys, s),
    ensures
        in_order::<K>(s) == keys,
{
    let other = in_order::<K>(s);
    assert(enumerates::<K>(other, s));
    assert forall|k: K::V| other.contains(k) <==> keys.contains(k) by {
        assert(keys.contains(k) <==> s.contains(k));
        assert(other.contains(k) <==> s.contains(k));
    }
    ascending_same_keys::<K>(other, keys);
}

spec fn placed<K: OrderedKey>(keys: Seq<K::V>, k: K::V) -> Seq<K::V>
    decreases keys.len(),
{
    if keys.len() == 0 {
        seq![k]
    } else if K::before(keys.last(), k) {
        keys.push(k)
    } else {
        placed::<K>(keys.drop_last(), k).push(keys.last())
    }
}

proof fn lemma_placed<K: OrderedKey>(keys: Seq<K::V>, k: K::V)
    requires
        ascending::<K>(keys),
        !keys.contains(k),
    ensures
        ascending::<K>(placed::<K>(keys, k)),
        forall|x: K::V| #[trigger]
            placed::<K>(keys, k).contains(x) <==> (x == k || keys.contains(x)),
    decreases keys.len(),
{
    let r = placed::<K>(keys, k);
    if keys.len() == 0 {
        assert(r[0] == k);
    } else if K::before(keys.last(), k) {
        assert forall|i: int, j: int|
            #![trigger r[i], r[j]]
            0 <= i < j < r.len() implies K::before(r[i], r[j]) by {
            if j == keys.len() && i < keys.len() - 1 {
                K::before_transitive(keys[i], keys.last(), k);
            }
        }
        assert forall|x: K::V| #[trigger] r.contains(x) <==> (x == k || keys.contains(x)) by {
            if keys.contains(x) {
                let i = choose|i: int| 0 <= i < keys.len() && keys[i] == x;
                assert(r[i] == x);
            }
            assert(r[keys.len() as int] == k);
        }
    } else {
        let front = keys.drop_last();
        let last = keys.last();
        assert(keys.contains(last));
        K::before_total(last, k);
        assert forall|x: K::V| front.contains(x) implies keys.contains(x) by {
            let i = choose|i: int| 0 <= i < front.len() && front[i] == x;
            assert(keys[i] == x);
        }
        lemma_placed::<K>(front, k);
        let inner = placed::<K>(front, k);
        assert forall|i: int, j: int|
            #![trigger r[i], r[j]]
            0 <= i < j < r.len() implies K::before(r[i], r[j]) by {
            if j == inner.len() {
                assert(inner.contains(inner[i]));
                if inner[i] != k {
                    let m = choose|m: int| 0 <= m < front.len() && front[m] == inner[i];
                    assert(keys[m] == inner[i]);
                }
            } else {
                assert(r[j] == inner[j]);
            }
        }
        assert forall|x: K::V| #[trigger] r.contains(x) <==> (x == k || keys.contains(x)) by {
            if r.contains(x) {
                let i = choose|i: int| 0 <= i < r.len() && r[i] == x;
                if i < inner.len() {
                    assert(inner.contains(inner[i]));
                }
            }
            if x == k {
                assert(inner.contains(k));
                let i = choose|i: int| 0 <= i < inner.len() && inner[i] == k;
                assert(r[i] == k);
            }
            if keys.contains(x) {
                let i = choose|i: int| 0 <= i < keys.len() && keys[i] == x;
                if i < front.len() {
                    assert(front[i] == x);
                    assert(front.contains(x));
                    assert(inner.contains(x));
                    let m = choose|m: int| 0 <= m < inner.len() && inner[m] == x;
                    assert(r[m] == x);
                } else {
                    assert(r[inner.len() as int] == x);
                }
            }
        }
    }
}

/// The keys of a finite set can be put in order.
pub proof fn lemma_enumeration<K: OrderedKey>(s: Set<K::V>)
    requires
        s.finite(),
    ensures
        enumerates::<K>(in_order::<K>(s), s),
    decreases s.len(),
{
    if s.len() == 0 {
        assert(enumerates::<K>(Seq::<K::V>::empty(), s));
    } else {
        let k = s.choose();
        let rest = s.remove(k);
        lemma_enumeration::<K>(rest);
        let keys = in_order::<K>(rest);
        assert(!rest.contains(k));
        lemma_placed::<K>(keys, k);
        let all = placed::<K>(keys, k);
        assert forall|x: K::V| all.contains(x) <==> #[trigger] s.contains(x) by {
            assert(keys.contains(x) <==> rest.contains(x));
        }
        assert(enumerates::<K>(all, s));
    }
}

/// A map with its entries in the order of their keys.
#[derive(Debug)]
pub struct SortedMap<K, T> {
    keys: Vec<K>,
    values: Vec<T>,
}

impl<K: OrderedKey, T> View for SortedMap<K, T> {
    type V = Map<K::V, T>;

    open spec fn view(&self) -> Map<K::V, T> {
        zipped(self.key_seq(), self.value_seq())
    }
}

impl<K: OrderedKey, T> SortedMap<K, T> {
    /// The keys, in order.
    pub closed spec fn key_seq(&self) -> Seq<K::V> {
        self.keys@.map_values(|k: K| k@)
    }

    /// The values, in the order of their keys.
    pub closed spec fn value_seq(&self) -> Seq<T> {
        self.values@
    }

    /// The keys ascend, and each has a value.
    pub open spec fn wf(&self) -> bool {
        &&& ascending::<K>(self.key_seq())
        &&& self.key_seq().len() == self.value_seq().len()
    }

    /// The entry at a position, seen through the map.
    pub proof fn lemma_at(&self, i: int)
        requires
            self.wf(),
            0 <= i < self.key_seq().len(),
        ensures
            self@.contains_key(self.key_seq()[i]),
            self@[self.key_seq()[i]] == self.value_seq()[i],
    {
        let k = self.key_seq()[i];
        assert(self.key_seq().contains(k));
        ascending_unique::<K>(self.key_seq(), i, self.key_seq().index_of(k));
    }

    /// A key of the map stands at some position.
    pub proof fn lemma_position(&self, k: K::V) -> (i: int)
        requires
            self.wf(),
            self@.contains_key(k),
        ensures
            0 <= i < self.key_seq().len(),
            self.key_seq()[i] == k,
            self.value_seq()[i] == self@[k],
    {
        let i = self.key_seq().index_of(k);
        i
    }

    /// An empty map.
    pub fn new() -> (r: Self)
        ensures
            r.wf(),
            r@ == Map::<K::V, T>::empty(),
            r.key_seq() == Seq::<K::V>::empty(),
            r.value_seq() == Seq::<T>::empty(),
    {
        let r = SortedMap { keys: Vec::new(), values: Vec::new() };
        assert(r.key_seq() =~= Seq::empty());
        assert(r@ =~= Map::empty());
        r
    }

    /// The number of entries.
    pub fn len(&self) -> (n: usize)
        requires
            self.wf(),
        ensures
            n == self.key_seq().len(),
    {
        self.keys.len()
    }

    /// The key at a position.
    pub fn key(&self, i: usize) -> (k: &K)
        requires
            self.wf(),
            i < self.key_seq().len(),
        ensures
            k@ == self.key_seq()[i as int],
    {
        &self.keys[i]
    }

    /// The value at a position.
    pub fn value(&self, i: usize) -> (v: &T)
        requires
            self.wf(),
            i < self.key_seq().len(),
        ensures
            *v == self.value_seq()[i as int],
    {
        &self.values[i]
    }

    /// The position of the first entry whose key does not come before `key`.
    pub fn lower_bound(&self, key: &K) -> (p: usize)
        requires
            self.wf(),
        ensures
            p <= self.key_seq().len(),
            forall|i: int| 0 <= i < p ==> K::before(#[trigger] self.key_seq()[i], key@),
            forall|i: int|
                p <= i < self.key_seq().len() ==> !K::before(#[trigger] self.key_seq()[i], key@),
    {
        let mut lo: usize = 0;
        let mut hi: usize = self.keys.len();
        while lo < hi
            invariant
                self.wf(),
                lo <= hi <= self.keys.len(),
                self.keys.len() == self.key_seq().len(),
                forall|i: int| 0 <= i < lo ==> K::before(#[trigger] self.key_seq()[i], key@),
                forall|i: int|
                    hi <= i < self.key_seq().len() ==> !K::before(
                        #[trigger] self.key_seq()[i],
                        key@,
                    ),
            decreases hi - lo,
        {
            let mid: usize = lo + (hi - lo) / 2;
            if self.keys[mid].precedes(key) {
                proof {
                    assert forall|i: int| 0 <= i < mid + 1 implies K::before(
                        #[trigger] self.key_seq()[i],
                        key@,
                    ) by {
                        if i < mid {
                            K::before_transitive(
                                self.key_seq()[i],
                                self.key_seq()[mid as int],
                                key@,
                            );
                        }
                    }
                }
                lo = mid + 1;
            } else {
                proof {
                    assert forall|i: int| mid <= i < self.key_seq().len() implies !K::before(
                        #[trigger] self.key_seq()[i],
                        key@,
                    ) by {
                        if K::before(self.key_seq()[i], key@) && mid < i {
                            K::before_transitive(
                                self.key_seq()[mid as int],
                                self.key_seq()[i],
                                key@,
                            );
                        }
                    }
                }
                hi = mid;
            }
        }
        lo
    }

    /// The position of a key, if the map has it.
    pub fn position(&self, key: &K) -> (r: Option<usize>)
        requires
            self.wf(),
        ensures
            r is Some == self@.contains_key(key@),
            r matches Some(i) ==> {
                &&& i < self.key_seq().len()
                &&& self.key_seq()[i as int] == key@
                &&& self.value_seq()[i as int] == self@[key@]
            },
    {
        let p = self.lower_bound(key);
        if p < self.keys.len() && !key.precedes(&self.keys[p]) {
            proof {
                K::before_total(self.key_seq()[p as int], key@);
                self.lemma_at(p as int);
            }
            Some(p)
        } else {
            proof {
                if self@.contains_key(key@) {
                    let i = self.lemma_position(key@);
                    K::before_irreflexive(key@);
                    assert(p <= i);
                    if p < i {
                        assert(K::before(self.key_seq()[p as int], self.key_seq()[i]));
                    }
                }
            }
            None
        }
    }

    /// Whether the map has a key.
    pub fn contains_key(&self, key: &K) -> (r: bool)
        requires
            self.wf(),
        ensures
            r == self@.contains_key(key@),
    {
        self.position(key).is_some()
    }

    /// The value under a key.
    pub fn get(&self, key: &K) -> (r: Option<&T>)
        requires
            self.wf(),
        ensures
            r is Some == self@.contains_key(key@),
            r matches Some(v) ==> *v == self@[key@],
    {
        match self.position(key) {
            Some(i) => Some(&self.values[i]),
            None => None,
        }
    }

    /// Replaces the value at a position and returns the value that was there.
    pub fn replace(&mut self, i: usize, value: T) -> (former: T)
        requires
            old(self).wf(),
            i < old(self).key_seq().len(),
        ensures
            final(self).wf(),
            former == old(self).value_seq()[i as int],
            final(self).key_seq() == old(self).key_seq(),
            final(self).value_seq() == old(self).value_seq().update(i as int, value),
            final(self)@ == old(self)@.insert(old(self).key_seq()[i as int], value),
    {
        let ghost before = *self;
        let former = {
            self.values.push(value);
            self.values.swap_remove(i)
        };
        proof {
            assert(self.value_seq() =~= before.value_seq().update(i as int, value));
            let k = before.key_seq()[i as int];
            assert(self.key_seq() =~= before.key_seq());
            before.lemma_at(i as int);
            self.lemma_at(i as int);
            assert forall|x: K::V| #![auto] self@.contains_key(x) && x != k implies self@[x]
                == before@[x] by {
                let j = self.lemma_position(x);
                before.lemma_at(j);
            }
            assert(self@ =~= before@.insert(k, value));
        }
        former
    }

    /// Puts a value under a key and returns the value that was there.
    pub fn insert(&mut self, key: K, value: T) -> (former: Option<T>)
        requires
            old(self).wf(),
        ensures
            final(self).wf(),
            final(self)@ == old(self)@.insert(key@, value),
            former is Some == old(self)@.contains_key(key@),
            former matches Some(v) ==> v == old(self)@[key@],
            final(self).key_seq().len() == old(self).key_seq().len() + (if old(
                self,
            )@.contains_key(key@) {
                0int
            } else {
                1int
            }),
    {
        match self.position(&key) {
            Some(i) => Some(self.replace(i, value)),
            None => {
                let ghost before = *self;
                let ghost k = key@;
                let p = self.lower_bound(&key);
                self.keys.insert(p, key);
                self.values.insert(p, value);
                proof {
                    let n = before.key_seq().len() as int;
                    assert(self.key_seq() =~= before.key_seq().insert(p as int, k));
                    assert forall|i: int, j: int|
                        #![trigger self.key_seq()[i], self.key_seq()[j]]
                        0 <= i < j < self.key_seq().len() implies K::before(
                        self.key_seq()[i],
                        self.key_seq()[j],
                    ) by {
                        if j == p {
                            assert(before.key_seq()[i] == self.key_seq()[i]);
                        } else if i == p {
                            assert(before.key_seq()[j - 1] == self.key_seq()[j]);
                            K::before_total(k, before.key_seq()[j - 1]);
                            before.lemma_at(j - 1);
                        } else {
                            let a = if i < p { i } else { i - 1 };
                            let b = if j < p { j } else { j - 1 };
                            assert(before.key_seq()[a] == self.key_seq()[i]);
                            assert(before.key_seq()[b] == self.key_seq()[j]);
                        }
                    }
                    self.lemma_at(p as int);
                    assert forall|x: K::V| self@.contains_key(x) <==> #[trigger] before@.insert(
                        k,
                        value,
                    ).contains_key(x) by {
                        if self@.contains_key(x) {
                            let i = self.lemma_position(x);
                            if i != p {
                                let a = if i < p { i } else { i - 1 };
                                before.lemma_at(a);
                                assert(before.key_seq()[a] == self.key_seq()[i]);
                            }
                        }
                        if before@.contains_key(x) {
                            let a = before.lemma_position(x);
                            let i = if a < p { a } else { a + 1 };
                            assert(before.key_seq()[a] == self.key_seq()[i]);
                            self.lemma_at(i);
                        }
                    }
                    assert forall|x: K::V| before@.insert(k, value).contains_key(x) implies
                        #[trigger] self@[x] == before@.insert(k, value)[x] by {
                        if x != k {
                            let a = before.lemma_position(x);
                            let i = if a < p { a } else { a + 1 };
                            assert(before.key_seq()[a] == self.key_seq()[i]);
                            self.lemma_at(i);
                        }
                    }
                    assert(self@ =~= before@.insert(k, value));
                }
                None
            },
        }
    }

    /// Removes a key and returns the value that was under it.
    pub fn remove(&mut self, key: &K) -> (former: Option<T>)
        requires
            old(self).wf(),
        ensures
            final(self).wf(),
            final(self)@ == old(self)@.remove(key@),
            former is Some == old(self)@.contains_key(key@),
            former matches Some(v) ==> v == old(self)@[key@],
            final(self).key_seq().len() == old(self).key_seq().len() - (if old(
                self,
            )@.contains_key(key@) {
                1int
            } else {
                0int
            }),
    {
        let ghost before = *self;
        match self.position(key) {
            None => {
                assert(self@ =~= before@.remove(key@));
                None
            },
            Some(p) => {
                let _ = self.keys.remove(p);
                let v = self.values.remove(p);
                proof {
                    let k = key@;
                    assert(self.key_seq() =~= before.key_seq().remove(p as int));
                    assert forall|i: int, j: int|
                        #![trigger self.key_seq()[i], self.key_seq()[j]]
                        0 <= i < j < self.key_seq().len() implies K::before(
                        self.key_seq()[i],
                        self.key_seq()[j],
                    ) by {
                        let a = if i < p { i } else { i + 1 };
                        let b = if j < p { j } else { j + 1 };
                        assert(before.key_seq()[a] == self.key_seq()[i]);
                        assert(before.key_seq()[b] == self.key_seq()[j]);
                    }
                    assert forall|x: K::V| self@.contains_key(x) <==> #[trigger] before@.remove(
                        k,
                    ).contains_key(x) by {
                        if self@.contains_key(x) {
                            let i = self.lemma_position(x);
                            let a = if i < p { i } else { i + 1 };
                            assert(before.key_seq()[a] == self.key_seq()[i]);
                            before.lemma_at(a);
                            if x == k {
                                ascending_unique::<K>(before.key_seq(), a, p as int);
                            }
                        }
                        if before@.contains_key(x) && x != k {
                            let a = before.lemma_position(x);
                            let i = if a < p { a } else { a - 1 };
                            assert(before.key_seq()[a] == self.key_seq()[i]);
                            self.lemma_at(i);
                        }
                    }
                    assert forall|x: K::V| before@.remove(k).contains_key(x) implies
                        #[trigger] self@[x] == before@.remove(k)[x] by {
                        let a = before.lemma_position(x);
                        let i = if a < p { a } else { a - 1 };
                        assert(before.key_seq()[a] == self.key_seq()[i]);
                        self.lemma_at(i);
                    }
                    assert(self@ =~= before@.remove(k));
                }
                Some(v)
            },
        }
    }

    /// Keeps the first entries.
    pub fn truncate(&mut self, n: usize)
        requires
            old(self).wf(),
            n <= old(self).key_seq().len(),
        ensures
            final(self).wf(),
            final(self).key_seq() == old(self).key_seq().take(n as int),
            final(self).value_seq() == old(self).value_seq().take(n as int),
            forall|k: K::V| #[trigger]
                final(self)@.contains_key(k) <==> final(self).key_seq().contains(k),
            forall|i: int|
                0 <= i < old(self).key_seq().len() ==> (final(self)@.contains_key(
                    #[trigger] old(self).key_seq()[i],
                ) <==> i < n),
            forall|k: K::V| #[trigger]
                final(self)@.contains_key(k) ==> old(self)@.contains_key(k) && final(self)@[k]
                    == old(self)@[k],
    {
        let ghost before = *self;
        self.keys.truncate(n);
        self.values.truncate(n);
        proof {
            assert(self.key_seq() =~= before.key_seq().take(n as int));
            self.lemma_part(&before, 0);
        }
    }

    /// Drops the first entries.
    pub fn drop_front(&mut self, n: usize)
        requires
            old(self).wf(),
            n <= old(self).key_seq().len(),
        ensures
            final(self).wf(),
            final(self).key_seq() == old(self).key_seq().skip(n as int),
            final(self).value_seq() == old(self).value_seq().skip(n as int),
            forall|k: K::V| #[trigger]
                final(self)@.contains_key(k) <==> final(self).key_seq().contains(k),
            forall|i: int|
                0 <= i < old(self).key_seq().len() ==> (final(self)@.contains_key(
                    #[trigger] old(self).key_seq()[i],
                ) <==> i >= n),
            forall|k: K::V| #[trigger]
                final(self)@.contains_key(k) ==> old(self)@.contains_key(k) && final(self)@[k]
                    == old(self)@[k],
    {
        let ghost before = *self;
        let keys = self.keys.split_off(n);
        let values = self.values.split_off(n);
        self.keys = keys;
        self.values = values;
        proof {
            assert(self.key_seq() =~= before.key_seq().skip(n as int));
            self.lemma_part(&before, n as int);
        }
    }

    /// A run of the entries of a map is a part of the map.
    proof fn lemma_part(&self, whole: &Self, from: int)
        requires
            whole.wf(),
            0 <= from,
            from + self.key_seq().len() <= whole.key_seq().len(),
            self.key_seq() == whole.key_seq().subrange(from, from + self.key_seq().len()),
            self.value_seq() == whole.value_seq().subrange(from, from + self.key_seq().len()),
        ensures
            self.wf(),
            forall|i: int|
                0 <= i < whole.key_seq().len() ==> (self@.contains_key(
                    #[trigger] whole.key_seq()[i],
                ) <==> from <= i < from + self.key_seq().len()),
            forall|k: K::V| #[trigger]
                self@.contains_key(k) ==> whole@.contains_key(k) && self@[k] == whole@[k],
    {
        assert forall|i: int| 0 <= i < whole.key_seq().len() implies (self@.contains_key(
            #[trigger] whole.key_seq()[i],
        ) <==> from <= i < from + self.key_seq().len()) by {
            let k = whole.key_seq()[i];
            if self@.contains_key(k) {
                let j = self.lemma_position(k);
                ascending_unique::<K>(whole.key_seq(), i, from + j);
            }
            if from <= i < from + self.key_seq().len() {
                assert(self.key_seq()[i - from] == k);
                self.lemma_at(i - from);
            }
        }
        assert forall|k: K::V| #[trigger] self@.contains_key(k) implies whole@.contains_key(k)
            && self@[k] == whole@[k] by {
            let j = self.lemma_position(k);
            whole.lemma_at(from + j);
        }
    }
}

} // verus!
