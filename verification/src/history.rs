//! The model of the store: what was written at which revision.

use crate::keyspace::{prefix_of, selected};
use crate::mvccpb::{ChangeView, KeyValueView};
use crate::sorted_map::in_order;
use vstd::prelude::*;

verus! {

/// What a revision wrote under a key. Without a value it is a deletion.
#[verifier::ext_equal]
pub struct ValueView {
    pub create_revision: int,
    pub mod_revision: int,
    pub version: int,
    pub value: Option<Seq<u8>>,
}

/// A write: a key and what was written under it.
#[verifier::ext_equal]
pub struct Write {
    pub key: Seq<u8>,
    pub value: ValueView,
}

/// The writes after the compacted revision, one for each revision, and the last
/// write of every key.
#[verifier::ext_equal]
pub struct History {
    pub compacted: nat,
    pub log: Seq<Write>,
    pub latest: Map<Seq<u8>, ValueView>,
}

/// A written value as clients see it. Of a deletion they see no more than its
/// revision.
pub open spec fn kv_of(key: Seq<u8>, v: ValueView) -> KeyValueView {
    KeyValueView {
        key,
        create_revision: if v.value is Some {
            v.create_revision
        } else {
            0
        },
        mod_revision: v.mod_revision,
        version: if v.value is Some {
            v.version
        } else {
            0
        },
        value: match v.value {
            Some(b) => b,
            None => Seq::empty(),
        },
        lease: 0,
    }
}

/// The bytes of a value.
pub open spec fn value_bytes(v: ValueView) -> nat {
    match v.value {
        Some(b) => b.len(),
        None => 0,
    }
}

/// The bytes of the values of some writes.
pub open spec fn logged_bytes(log: Seq<Write>) -> nat
    decreases log.len(),
{
    if log.len() == 0 {
        0
    } else {
        logged_bytes(log.drop_last()) + value_bytes(log.last().value)
    }
}

/// What a write requires: a negative number requires nothing.
pub open spec fn requirement(r: Option<i64>) -> int {
    match r {
        Some(n) => n as int,
        None => -1,
    }
}

impl History {
    /// The store before the first write.
    pub open spec fn empty() -> History {
        History { compacted: 0, log: Seq::empty(), latest: Map::empty() }
    }

    /// The last revision.
    pub open spec fn current(self) -> int {
        (self.compacted + self.log.len()) as int
    }

    /// A revision that has been written and not compacted.
    pub open spec fn has(self, rev: int) -> bool {
        self.compacted < rev <= self.current()
    }

    /// The write of a revision.
    pub open spec fn at(self, rev: int) -> Write {
        self.log[rev - self.compacted - 1]
    }

    /// A revision is there and wrote the key.
    pub open spec fn wrote(self, key: Seq<u8>, rev: int) -> bool {
        self.has(rev) && self.at(rev).key == key
    }

    /// Every revision wrote a value that carries its number, and what is kept as the
    /// last write of a key is that.
    pub open spec fn valid(self) -> bool {
        &&& forall|rev: int|
            #![trigger self.at(rev)]
            self.has(rev) ==> {
                let w = self.at(rev);
                &&& w.value.mod_revision == rev
                &&& 1 <= w.value.version <= rev
                &&& 1 <= w.value.create_revision <= rev
                &&& self.latest.contains_key(w.key)
                &&& rev <= self.latest[w.key].mod_revision
            }
        &&& forall|k: Seq<u8>|
            #![trigger self.latest.contains_key(k)]
            #![trigger self.latest[k]]
            self.latest.contains_key(k) ==> {
                let v = self.latest[k];
                &&& 1 <= v.mod_revision <= self.current()
                &&& 1 <= v.version <= v.mod_revision
                &&& 1 <= v.create_revision <= v.mod_revision
                &&& self.has(v.mod_revision) ==> self.at(v.mod_revision) == (Write {
                    key: k,
                    value: v,
                })
            }
    }

    /// The last revision up to `rev` that wrote the key and is not compacted, or the
    /// compacted revision.
    pub open spec fn last_write(self, key: Seq<u8>, rev: int) -> int
        decreases rev - self.compacted,
    {
        if rev <= self.compacted {
            self.compacted as int
        } else if self.wrote(key, rev) {
            rev
        } else {
            self.last_write(key, rev - 1)
        }
    }

    /// What stood under a key at a revision: the last write up to then. Where that
    /// write is compacted, it is known only if no later one followed.
    pub open spec fn value_at(self, key: Seq<u8>, rev: int) -> Option<ValueView> {
        if !self.latest.contains_key(key) {
            None
        } else if rev >= self.latest[key].mod_revision {
            Some(self.latest[key])
        } else {
            let r = self.last_write(key, rev);
            if self.has(r) {
                Some(self.at(r).value)
            } else {
                None
            }
        }
    }

    /// The key was there at a revision.
    pub open spec fn live_at(self, key: Seq<u8>, rev: int) -> bool {
        self.value_at(key, rev) matches Some(v) && v.value is Some
    }

    /// The key is there now.
    pub open spec fn live(self, key: Seq<u8>) -> bool {
        self.latest.contains_key(key) && self.latest[key].value is Some
    }

    // ------------------------------------------------------------ writing

    /// A write is accepted: what is there meets the requirements, and what is
    /// deleted is there.
    pub open spec fn accepts(
        self,
        key: Seq<u8>,
        value: Option<Seq<u8>>,
        last_revision: int,
        version: int,
    ) -> bool {
        if self.live(key) {
            &&& last_revision < 0 || last_revision == self.latest[key].mod_revision
            &&& version < 0 || version == self.latest[key].version
        } else {
            last_revision <= 0 && version <= 0 && value is Some
        }
    }

    /// What the next revision writes: it goes on from what is there, and starts
    /// anew where nothing is.
    pub open spec fn next_value(self, key: Seq<u8>, value: Option<Seq<u8>>) -> ValueView {
        let rev = self.current() + 1;
        if self.live(key) {
            ValueView {
                create_revision: self.latest[key].create_revision,
                mod_revision: rev,
                version: self.latest[key].version + 1,
                value,
            }
        } else {
            ValueView { create_revision: rev, mod_revision: rev, version: 1, value }
        }
    }

    /// The history after the next revision wrote a value.
    pub open spec fn after_write(self, key: Seq<u8>, value: Option<Seq<u8>>) -> History {
        let v = self.next_value(key, value);
        History {
            compacted: self.compacted,
            log: self.log.push(Write { key, value: v }),
            latest: self.latest.insert(key, v),
        }
    }

    /// What a refused write is answered: what is there.
    pub open spec fn conflict(self, key: Seq<u8>) -> Option<KeyValueView> {
        if self.live(key) {
            Some(kv_of(key, self.latest[key]))
        } else {
            None
        }
    }

    /// What a write tells the watchers.
    pub open spec fn news(self, key: Seq<u8>, value: Option<Seq<u8>>) -> ChangeView {
        ChangeView {
            kv: kv_of(key, self.next_value(key, value)),
            prev_kv: if self.latest.contains_key(key) {
                Some(kv_of(key, self.latest[key]))
            } else {
                None
            },
        }
    }

    // --------------------------------------------------------- compacting

    /// The history without the revisions before `rev`.
    pub open spec fn after_compaction(self, rev: int) -> History {
        History {
            compacted: (rev - 1) as nat,
            log: self.log.skip(rev - 1 - self.compacted),
            latest: self.latest,
        }
    }

    /// The bytes of the last values of some keys, as far as they are compacted.
    pub open spec fn kept_bytes(self, keys: Seq<Seq<u8>>) -> nat
        decreases keys.len(),
    {
        if keys.len() == 0 {
            0
        } else {
            self.kept_bytes(keys.drop_last()) + self.kept_of(keys.last())
        }
    }

    /// The bytes of the last value of a key, if it is compacted.
    pub open spec fn kept_of(self, key: Seq<u8>) -> nat {
        if self.latest[key].mod_revision <= self.compacted {
            value_bytes(self.latest[key])
        } else {
            0
        }
    }

    /// The bytes of all values that are kept: those of the writes that are not
    /// compacted, and the last ones of the other keys.
    pub open spec fn bytes(self) -> nat {
        logged_bytes(self.log) + self.kept_bytes(in_order::<Vec<u8>>(self.latest.dom()))
    }

    // ------------------------------------------------------------ reading

    /// The keys that a range selects, in order.
    pub open spec fn matching(self, start: Seq<u8>, end: Seq<u8>) -> Seq<Seq<u8>> {
        in_order::<Vec<u8>>(
            Set::new(|k: Seq<u8>| self.latest.contains_key(k) && selected(k, start, end)),
        )
    }

    /// Some key was ever written under a prefix.
    pub open spec fn has_prefix(self, prefix: Seq<u8>) -> bool {
        exists|k: Seq<u8>| #[trigger] self.latest.contains_key(k) && prefix_of(k) == prefix
    }

    /// Of some keys those that were there at a revision.
    pub open spec fn live_keys(self, keys: Seq<Seq<u8>>, rev: int) -> Seq<Seq<u8>> {
        keys.filter(|k: Seq<u8>| self.live_at(k, rev))
    }

    /// The key-value pairs of some keys at a revision.
    pub open spec fn pairs(self, keys: Seq<Seq<u8>>, rev: int) -> Seq<KeyValueView> {
        keys.map_values(|k: Seq<u8>| kv_of(k, self.value_at(k, rev)->0))
    }

    /// The number of keys that a range reports. Up to one more than the limit it
    /// counts the keys that were there; from then on it counts every key.
    pub open spec fn tally(self, keys: Seq<Seq<u8>>, rev: int, limit: int) -> nat
        decreases keys.len(),
    {
        if keys.len() == 0 {
            0
        } else {
            let n = self.tally(keys.drop_last(), rev, limit);
            if n > limit || self.live_at(keys.last(), rev) {
                n + 1
            } else {
                n
            }
        }
    }

    // ----------------------------------------------------------- watching

    /// The revisions from `from` to `upto` that wrote a key.
    pub open spec fn writes(self, key: Seq<u8>, from: int, upto: int) -> Seq<int>
        decreases upto - from + 1,
    {
        if upto < from {
            Seq::empty()
        } else if self.wrote(key, upto) {
            self.writes(key, from, upto - 1).push(upto)
        } else {
            self.writes(key, from, upto - 1)
        }
    }

    /// What a watcher is told of a past write: the pair, and on request the one
    /// before it if that is not compacted.
    pub open spec fn past(self, key: Seq<u8>, rev: int, want_prev: bool) -> ChangeView {
        let p = self.last_write(key, rev - 1);
        ChangeView {
            kv: kv_of(key, self.at(rev).value),
            prev_kv: if want_prev && self.has(p) {
                Some(kv_of(key, self.at(p).value))
            } else {
                None
            },
        }
    }

    /// What a watcher is told of the writes of one key.
    pub open spec fn past_of_key(self, key: Seq<u8>, from: int, want_prev: bool) -> Seq<
        ChangeView,
    > {
        self.writes(key, from, self.current()).map_values(|r: int| self.past(key, r, want_prev))
    }

    /// What a watcher is told of the writes of several keys, key by key.
    pub open spec fn past_of_keys(
        self,
        keys: Seq<Seq<u8>>,
        from: int,
        want_prev: bool,
    ) -> Seq<ChangeView>
        decreases keys.len(),
    {
        if keys.len() == 0 {
            Seq::empty()
        } else {
            self.past_of_keys(keys.drop_last(), from, want_prev) + self.past_of_key(
                keys.last(),
                from,
                want_prev,
            )
        }
    }
}

// ---------------------------------------------------------------- lemmas

/// A revision that wrote a key, with no later one up to `rev`, is the last write.
pub proof fn lemma_last_write_is(h: History, key: Seq<u8>, rev: int, r: int)
    requires
        r <= rev,
        h.wrote(key, r),
        forall|x: int| r < x <= rev ==> !#[trigger] h.wrote(key, x),
    ensures
        h.last_write(key, rev) == r,
    decreases rev - r,
{
    if r < rev {
        assert(!h.wrote(key, rev));
        lemma_last_write_is(h, key, rev - 1, r);
    }
}

/// Without a write up to `rev` there is no last one.
pub proof fn lemma_no_write(h: History, key: Seq<u8>, rev: int)
    requires
        forall|x: int| x <= rev ==> !#[trigger] h.wrote(key, x),
    ensures
        h.last_write(key, rev) <= h.compacted,
    decreases rev - h.compacted,
{
    if rev > h.compacted {
        assert(!h.wrote(key, rev));
        lemma_no_write(h, key, rev - 1);
    }
}

/// The last write wrote the key, and no later revision up to `rev` did.
pub proof fn lemma_last_write(h: History, key: Seq<u8>, rev: int)
    ensures
        h.last_write(key, rev) <= rev || h.last_write(key, rev) == h.compacted,
        h.last_write(key, rev) > h.compacted ==> h.wrote(key, h.last_write(key, rev)),
        forall|x: int| h.last_write(key, rev) < x <= rev ==> !#[trigger] h.wrote(key, x),
    decreases rev - h.compacted,
{
    if rev > h.compacted && !h.wrote(key, rev) {
        lemma_last_write(h, key, rev - 1);
    }
}

/// A write keeps the history valid.
pub proof fn lemma_write_valid(h: History, key: Seq<u8>, value: Option<Seq<u8>>)
    requires
        h.valid(),
    ensures
        h.after_write(key, value).valid(),
        h.after_write(key, value).current() == h.current() + 1,
{
    let g = h.after_write(key, value);
    let v = h.next_value(key, value);
    assert forall|rev: int| #![trigger g.at(rev)] g.has(rev) implies {
        let w = g.at(rev);
        &&& w.value.mod_revision == rev
        &&& 1 <= w.value.version <= rev
        &&& 1 <= w.value.create_revision <= rev
        &&& g.latest.contains_key(w.key)
        &&& rev <= g.latest[w.key].mod_revision
    } by {
        if rev <= h.current() {
            assert(g.at(rev) == h.at(rev));
            assert(h.has(rev));
        } else if h.live(key) {
            assert(h.latest.contains_key(key));
        }
    }
    assert forall|k: Seq<u8>|
        #![trigger g.latest.contains_key(k)]
        #![trigger g.latest[k]]
        g.latest.contains_key(k) implies {
        let v = g.latest[k];
        &&& 1 <= v.mod_revision <= g.current()
        &&& 1 <= v.version <= v.mod_revision
        &&& 1 <= v.create_revision <= v.mod_revision
        &&& g.has(v.mod_revision) ==> g.at(v.mod_revision) == (Write { key: k, value: v })
    } by {
        if k != key {
            assert(h.latest.contains_key(k));
            let r = h.latest[k].mod_revision;
            if g.has(r) {
                assert(h.has(r));
                assert(g.at(r) == h.at(r));
            }
        } else if h.live(key) {
            assert(h.latest.contains_key(key));
        }
    }
}

/// A compaction keeps the history valid.
pub proof fn lemma_compaction_valid(h: History, rev: int)
    requires
        h.valid(),
        h.compacted < rev <= h.current(),
    ensures
        h.after_compaction(rev).valid(),
        h.after_compaction(rev).current() == h.current(),
        forall|r: int|
            #![trigger h.after_compaction(rev).at(r)]
            r >= rev ==> h.after_compaction(rev).at(r) == h.at(r) || !h.has(r),
{
    let g = h.after_compaction(rev);
    assert forall|r: int| #![trigger g.at(r)] r >= rev implies g.at(r) == h.at(r) || !h.has(r) by {
        if h.has(r) {
            assert(g.log[r - rev] == h.log[r - rev + (rev - 1 - h.compacted)]);
        }
    }
    assert forall|r: int| #![trigger g.at(r)] g.has(r) implies {
        let w = g.at(r);
        &&& w.value.mod_revision == r
        &&& 1 <= w.value.version <= r
        &&& 1 <= w.value.create_revision <= r
        &&& g.latest.contains_key(w.key)
        &&& r <= g.latest[w.key].mod_revision
    } by {
        assert(h.has(r));
        assert(g.at(r) == h.at(r));
    }
    assert forall|k: Seq<u8>|
        #![trigger g.latest.contains_key(k)]
        #![trigger g.latest[k]]
        g.latest.contains_key(k) implies {
        let v = g.latest[k];
        &&& 1 <= v.mod_revision <= g.current()
        &&& 1 <= v.version <= v.mod_revision
        &&& 1 <= v.create_revision <= v.mod_revision
        &&& g.has(v.mod_revision) ==> g.at(v.mod_revision) == (Write { key: k, value: v })
    } by {
        assert(h.latest.contains_key(k));
        let r = h.latest[k].mod_revision;
        if g.has(r) {
            assert(h.has(r));
            assert(g.at(r) == h.at(r));
        }
    }
}

/// The writes of a key between two revisions are those that wrote it, in order.
pub proof fn lemma_writes(h: History, key: Seq<u8>, from: int, upto: int)
    ensures
        forall|i: int|
            #![trigger h.writes(key, from, upto)[i]]
            0 <= i < h.writes(key, from, upto).len() ==> {
                &&& from <= h.writes(key, from, upto)[i] <= upto
                &&& h.wrote(key, h.writes(key, from, upto)[i])
            },
        forall|r: int|
            from <= r <= upto && #[trigger] h.wrote(key, r) ==> h.writes(
                key,
                from,
                upto,
            ).contains(r),
        forall|i: int, j: int|
            #![trigger h.writes(key, from, upto)[i], h.writes(key, from, upto)[j]]
            0 <= i < j < h.writes(key, from, upto).len() ==> h.writes(key, from, upto)[i]
                < h.writes(key, from, upto)[j],
    decreases upto - from + 1,
{
    if upto >= from {
        lemma_writes(h, key, from, upto - 1);
        let before = h.writes(key, from, upto - 1);
        let w = h.writes(key, from, upto);
        assert forall|r: int| from <= r <= upto && #[trigger] h.wrote(
            key,
            r,
        ) implies w.contains(r) by {
            if r == upto {
                assert(w[w.len() - 1] == upto);
            } else {
                assert(before.contains(r));
                let i = choose|i: int| 0 <= i < before.len() && before[i] == r;
                assert(w[i] == r);
            }
        }
    }
}

/// Revisions that did not write a key add nothing to its writes.
pub proof fn lemma_writes_gap(h: History, key: Seq<u8>, from: int, a: int, b: int)
    requires
        from - 1 <= a <= b,
        forall|x: int| a < x <= b ==> !#[trigger] h.wrote(key, x),
    ensures
        h.writes(key, from, b) == h.writes(key, from, a),
    decreases b - a,
{
    if a < b {
        assert(!h.wrote(key, b));
        lemma_writes_gap(h, key, from, a, b - 1);
    }
}

proof fn lemma_kept_without(h: History, keys: Seq<Seq<u8>>, i: int)
    requires
        0 <= i < keys.len(),
    ensures
        h.kept_bytes(keys) == h.kept_bytes(keys.remove(i)) + h.kept_of(keys[i]),
    decreases keys.len(),
{
    if i == keys.len() - 1 {
        assert(keys.remove(i) =~= keys.drop_last());
    } else {
        lemma_kept_without(h, keys.drop_last(), i);
        assert(keys.remove(i).drop_last() =~= keys.drop_last().remove(i));
        assert(keys.remove(i).last() == keys.last());
    }
}

/// The bytes of the last values do not depend on the order of the keys.
pub proof fn lemma_kept_bytes(h: History, a: Seq<Seq<u8>>, b: Seq<Seq<u8>>)
    requires
        a.no_duplicates(),
        b.no_duplicates(),
        forall|k: Seq<u8>| a.contains(k) <==> b.contains(k),
    ensures
        h.kept_bytes(a) == h.kept_bytes(b),
    decreases a.len(),
{
    if a.len() == 0 {
        if b.len() > 0 {
            assert(b.contains(b[0]));
            assert(a.contains(b[0]));
        }
    } else {
        let k = a.last();
        assert(a[a.len() - 1] == k);
        assert(a.contains(k));
        let i = choose|i: int| 0 <= i < b.len() && b[i] == k;
        let c = b.remove(i);
        let d = a.drop_last();
        assert forall|x: Seq<u8>| d.contains(x) <==> c.contains(x) by {
            if d.contains(x) {
                let j = choose|j: int| 0 <= j < d.len() && d[j] == x;
                assert(a[j] == x);
                assert(x != k);
                assert(b.contains(x));
                let m = choose|m: int| 0 <= m < b.len() && b[m] == x;
                assert(c[if m < i { m } else { m - 1 }] == x);
            }
            if c.contains(x) {
                let j = choose|j: int| 0 <= j < c.len() && c[j] == x;
                assert(b[if j < i { j } else { j + 1 }] == x);
                assert(b.contains(x));
                assert(a.contains(x));
                let m = choose|m: int| 0 <= m < a.len() && a[m] == x;
                assert(x != k);
                assert(d[m] == x);
            }
        }
        lemma_kept_without(h, b, i);
        lemma_kept_bytes(h, d, c);
    }
}

} // verus!
