//! The pairs of a store as one node hands them to another.

use crate::history::{kv_of, History, ValueView, Write};
use crate::keyspace::selected;
use crate::mvccpb::KeyValueView;
use crate::order::OrderedKey;
use crate::sorted_map::{
    ascending, ascending_unique, enumerates, in_order, lemma_enumeration, lemma_in_order,
};
use vstd::prelude::*;

verus! {

/// A pair: its key, its value, the revision that created it, the revision of its last
/// write, and its version.
pub type KvEntry = (Vec<u8>, Vec<u8>, i64, i64, i64);

/// What an [`KvEntry`] says.
pub open spec fn entry_view(e: KvEntry) -> KeyValueView {
    KeyValueView {
        key: e.0@,
        create_revision: e.2 as int,
        mod_revision: e.3 as int,
        version: e.4 as int,
        value: e.1@,
        lease: 0,
    }
}

/// What some entries say.
pub open spec fn entry_views(entries: Seq<KvEntry>) -> Seq<KeyValueView> {
    entries.map_values(|e: KvEntry| entry_view(e))
}

/// What a pair says was written under its key.
pub open spec fn value_of(kv: KeyValueView) -> ValueView {
    ValueView {
        create_revision: kv.create_revision,
        mod_revision: kv.mod_revision,
        version: kv.version,
        value: Some(kv.value),
    }
}

/// The revisions of a pair can be those of a write.
pub open spec fn sound(kv: KeyValueView) -> bool {
    &&& 1 <= kv.create_revision <= kv.mod_revision <= usize::MAX
    &&& 1 <= kv.version <= kv.mod_revision <= i64::MAX
}

/// A store can take the pairs over.
pub open spec fn importable(kvs: Seq<KeyValueView>) -> bool {
    &&& kvs.len() <= usize::MAX
    &&& kvs.len() <= i64::MAX
    &&& forall|i: int| 0 <= i < kvs.len() ==> sound(#[trigger] kvs[i])
}

/// What some pairs put under their keys. The last one of a key counts.
pub open spec fn listed(kvs: Seq<KeyValueView>) -> Map<Seq<u8>, ValueView>
    decreases kvs.len(),
{
    if kvs.len() == 0 {
        Map::empty()
    } else {
        listed(kvs.drop_last()).insert(kvs.last().key, value_of(kvs.last()))
    }
}

/// The last revision of some pairs, or a later one.
pub open spec fn newest(kvs: Seq<KeyValueView>, rev: int) -> int
    decreases kvs.len(),
{
    if kvs.len() == 0 {
        rev
    } else {
        let n = newest(kvs.drop_last(), rev);
        if kvs.last().mod_revision > n {
            kvs.last().mod_revision
        } else {
            n
        }
    }
}

/// A pair has the key.
pub open spec fn has_key(kvs: Seq<KeyValueView>, key: Seq<u8>) -> bool {
    exists|i: int| 0 <= i < kvs.len() && (#[trigger] kvs[i]).key == key
}

/// No later pair has the key of this one.
pub open spec fn last_of_key(kvs: Seq<KeyValueView>, i: int) -> bool {
    &&& 0 <= i < kvs.len()
    &&& forall|j: int| i < j < kvs.len() ==> (#[trigger] kvs[j]).key != kvs[i].key
}

impl History {
    /// The keys that are there.
    pub open spec fn live_set(self) -> Set<Seq<u8>> {
        Set::new(|k: Seq<u8>| self.live(k))
    }

    /// The pairs that are there, in the order of their keys.
    pub open spec fn live_pairs(self) -> Seq<KeyValueView> {
        in_order::<Vec<u8>>(self.live_set()).map_values(|k: Seq<u8>| kv_of(k, self.latest[k]))
    }

    /// The keys and revisions can be counted.
    pub open spec fn fits(self) -> bool {
        &&& self.current() <= i64::MAX
        &&& self.current() <= usize::MAX
        &&& self.latest.dom().finite()
        &&& self.latest.dom().len() <= self.current()
    }

    /// The history after some pairs took the place of everything that was there. Of
    /// the writes before it nothing is known. No revision is used twice: the next one
    /// comes after all that were here and all that the pairs carry, and there are no
    /// fewer than pairs.
    pub open spec fn after_import(self, kvs: Seq<KeyValueView>) -> History {
        let rev = newest(kvs, self.current());
        History {
            compacted: (if rev < kvs.len() {
                kvs.len() as int
            } else {
                rev
            }) as nat,
            log: Seq::empty(),
            latest: listed(kvs),
        }
    }
}

proof fn lemma_newest(kvs: Seq<KeyValueView>, rev: int)
    ensures
        rev <= newest(kvs, rev),
        forall|i: int| 0 <= i < kvs.len() ==> (#[trigger] kvs[i]).mod_revision <= newest(kvs, rev),
    decreases kvs.len(),
{
    if kvs.len() > 0 {
        let front = kvs.drop_last();
        lemma_newest(front, rev);
        assert forall|i: int| 0 <= i < kvs.len() implies (#[trigger] kvs[i]).mod_revision <= newest(
            kvs,
            rev,
        ) by {
            if i < front.len() {
                assert(front[i] == kvs[i]);
            }
        }
    }
}

proof fn lemma_listed(kvs: Seq<KeyValueView>)
    ensures
        forall|k: Seq<u8>| #[trigger] listed(kvs).contains_key(k) <==> has_key(kvs, k),
        forall|k: Seq<u8>| #[trigger]
            listed(kvs).contains_key(k) ==> exists|i: int|
                0 <= i < kvs.len() && (#[trigger] kvs[i]).key == k && listed(kvs)[k] == value_of(
                    kvs[i],
                ),
        forall|i: int| #[trigger]
            last_of_key(kvs, i) ==> listed(kvs)[kvs[i].key] == value_of(kvs[i]),
    decreases kvs.len(),
{
    if kvs.len() > 0 {
        let front = kvs.drop_last();
        let n = kvs.len() - 1;
        lemma_listed(front);
        assert forall|k: Seq<u8>| #[trigger] listed(kvs).contains_key(k) <==> has_key(kvs, k) by {
            if k == kvs.last().key {
                assert(kvs[n].key == k);
            } else if has_key(kvs, k) {
                let i = choose|i: int| 0 <= i < kvs.len() && (#[trigger] kvs[i]).key == k;
                assert(front[i].key == k);
                assert(listed(front).contains_key(k));
            } else if listed(front).contains_key(k) {
                let i = choose|i: int| 0 <= i < front.len() && (#[trigger] front[i]).key == k;
                assert(kvs[i].key == k);
            }
        }
        assert forall|k: Seq<u8>| #[trigger] listed(kvs).contains_key(k) implies exists|i: int|
            0 <= i < kvs.len() && (#[trigger] kvs[i]).key == k && listed(kvs)[k] == value_of(
                kvs[i],
            ) by {
            if k == kvs.last().key {
                assert(kvs[n].key == k);
            } else {
                assert(listed(front).contains_key(k));
                let i = choose|i: int|
                    0 <= i < front.len() && (#[trigger] front[i]).key == k && listed(front)[k]
                        == value_of(front[i]);
                assert(kvs[i].key == k);
            }
        }
        assert forall|i: int| #[trigger] last_of_key(kvs, i) implies listed(kvs)[kvs[i].key]
            == value_of(kvs[i]) by {
            if i < n {
                assert(kvs[n].key != kvs[i].key);
                assert(last_of_key(front, i)) by {
                    assert forall|j: int| i < j < front.len() implies (#[trigger] front[j]).key
                        != front[i].key by {
                        assert(front[j] == kvs[j]);
                    }
                }
                assert(front[i] == kvs[i]);
            }
        }
    }
}

/// Once pairs were taken over, the last pair of every key is there, and nothing else.
pub proof fn law_import_lists(h: History, kvs: Seq<KeyValueView>)
    requires
        importable(kvs),
    ensures
        h.after_import(kvs).valid(),
        h.current() <= h.after_import(kvs).current(),
        forall|k: Seq<u8>| #[trigger] h.after_import(kvs).live(k) <==> has_key(kvs, k),
        forall|i: int| #[trigger]
            last_of_key(kvs, i) ==> h.after_import(kvs).conflict(kvs[i].key) == Some(
                KeyValueView { lease: 0, ..kvs[i] },
            ),
{
    let g = h.after_import(kvs);
    lemma_newest(kvs, h.current());
    lemma_listed(kvs);
    assert forall|k: Seq<u8>|
        #![trigger g.latest.contains_key(k)]
        #![trigger g.latest[k]]
        g.latest.contains_key(k) implies {
        let v = g.latest[k];
        &&& 1 <= v.mod_revision <= g.current()
        &&& 1 <= v.version <= v.mod_revision
        &&& 1 <= v.create_revision <= v.mod_revision
        &&& g.has(v.mod_revision) ==> g.at(v.mod_revision) == (Write { key: k, value: v })
    } by {
        assert(listed(kvs).contains_key(k));
        let i = choose|i: int|
            0 <= i < kvs.len() && (#[trigger] kvs[i]).key == k && listed(kvs)[k] == value_of(
                kvs[i],
            );
        assert(sound(kvs[i]));
    }
    assert forall|k: Seq<u8>| #[trigger] g.live(k) <==> has_key(kvs, k) by {
        if listed(kvs).contains_key(k) {
            let i = choose|i: int|
                0 <= i < kvs.len() && (#[trigger] kvs[i]).key == k && listed(kvs)[k] == value_of(
                    kvs[i],
                );
        }
    }
    assert forall|i: int| #[trigger] last_of_key(kvs, i) implies g.conflict(kvs[i].key) == Some(
        KeyValueView { lease: 0, ..kvs[i] },
    ) by {
        assert(listed(kvs).contains_key(kvs[i].key)) by {
            assert(has_key(kvs, kvs[i].key));
        }
    }
}

/// The keys of some pairs.
pub open spec fn pair_keys(kvs: Seq<KeyValueView>) -> Seq<Seq<u8>> {
    kvs.map_values(|kv: KeyValueView| kv.key)
}

/// Pairs in the order of their keys are those that are there once they were taken
/// over.
pub proof fn law_import_in_order(h: History, kvs: Seq<KeyValueView>)
    requires
        importable(kvs),
        ascending::<Vec<u8>>(pair_keys(kvs)),
        forall|i: int| 0 <= i < kvs.len() ==> (#[trigger] kvs[i]).lease == 0,
    ensures
        h.after_import(kvs).live_pairs() == kvs,
{
    let g = h.after_import(kvs);
    let keys = pair_keys(kvs);
    law_import_lists(h, kvs);
    assert forall|k: Seq<u8>| keys.contains(k) <==> #[trigger] g.live_set().contains(k) by {
        assert(g.live(k) <==> has_key(kvs, k));
        if keys.contains(k) {
            let i = choose|i: int| 0 <= i < keys.len() && keys[i] == k;
            assert(kvs[i].key == k);
        }
        if has_key(kvs, k) {
            let i = choose|i: int| 0 <= i < kvs.len() && (#[trigger] kvs[i]).key == k;
            assert(keys[i] == k);
        }
    }
    assert(enumerates::<Vec<u8>>(keys, g.live_set()));
    lemma_in_order::<Vec<u8>>(keys, g.live_set());
    assert forall|i: int| 0 <= i < kvs.len() implies #[trigger] g.live_pairs()[i] == kvs[i] by {
        assert(last_of_key(kvs, i)) by {
            assert forall|j: int| i < j < kvs.len() implies (#[trigger] kvs[j]).key
                != kvs[i].key by {
                if kvs[j].key == kvs[i].key {
                    assert(keys[j] == keys[i]);
                    ascending_unique::<Vec<u8>>(keys, i, j);
                }
            }
        }
        assert(g.live(kvs[i].key)) by {
            assert(has_key(kvs, kvs[i].key));
        }
        assert(keys[i] == kvs[i].key);
    }
    assert(g.live_pairs() =~= kvs);
}

/// The pairs that are there are sound, and stand in the order of their keys.
pub proof fn lemma_live_pairs(s: History)
    requires
        s.valid(),
        s.fits(),
    ensures
        importable(s.live_pairs()),
        ascending::<Vec<u8>>(pair_keys(s.live_pairs())),
        pair_keys(s.live_pairs()) == in_order::<Vec<u8>>(s.live_set()),
        forall|k: Seq<u8>| #[trigger] s.live(k) <==> has_key(s.live_pairs(), k),
        forall|i: int|
            0 <= i < s.live_pairs().len() ==> (#[trigger] s.live_pairs()[i]).lease == 0,
{
    let keys = in_order::<Vec<u8>>(s.live_set());
    let kvs = s.live_pairs();
    assert(s.live_set().subset_of(s.latest.dom()));
    vstd::set_lib::lemma_set_subset_finite(s.latest.dom(), s.live_set());
    lemma_enumeration::<Vec<u8>>(s.live_set());
    assert(pair_keys(kvs) =~= keys);
    assert forall|k: Seq<u8>| #[trigger] s.live(k) <==> has_key(kvs, k) by {
        assert(keys.contains(k) <==> s.live_set().contains(k));
        if keys.contains(k) {
            let i = choose|i: int| 0 <= i < keys.len() && keys[i] == k;
            assert(kvs[i].key == k);
        }
        if has_key(kvs, k) {
            let i = choose|i: int| 0 <= i < kvs.len() && (#[trigger] kvs[i]).key == k;
            assert(keys[i] == k);
        }
    }
    assert forall|i: int| 0 <= i < kvs.len() implies sound(#[trigger] kvs[i]) by {
        assert(keys.contains(keys[i]));
        assert(s.live_set().contains(keys[i]));
        assert(s.latest.contains_key(keys[i]));
    }
    assert(keys.no_duplicates()) by {
        assert forall|i: int, j: int|
            0 <= i < keys.len() && 0 <= j < keys.len() && i != j implies keys[i] != keys[j] by {
            if keys[i] == keys[j] {
                ascending_unique::<Vec<u8>>(keys, i, j);
            }
        }
    }
    keys.unique_seq_to_set();
    assert(keys.to_set() =~= s.live_set()) by {
        assert forall|k: Seq<u8>| keys.to_set().contains(k) <==> s.live_set().contains(k) by {
            assert(keys.contains(k) <==> s.live_set().contains(k));
        }
    }
    vstd::set_lib::lemma_len_subset(s.live_set(), s.latest.dom());
}

/// A store that takes over the pairs of another one has the same keys, with the same
/// values, revisions and versions.
pub proof fn law_transfer_restores(s: History, t: History)
    requires
        s.valid(),
        s.fits(),
    ensures
        importable(s.live_pairs()),
        t.after_import(s.live_pairs()).live_pairs() == s.live_pairs(),
        forall|k: Seq<u8>|
            #![trigger t.after_import(s.live_pairs()).conflict(k)]
            t.after_import(s.live_pairs()).conflict(k) == s.conflict(k),
{
    let kvs = s.live_pairs();
    let keys = in_order::<Vec<u8>>(s.live_set());
    let g = t.after_import(kvs);
    lemma_live_pairs(s);
    law_import_in_order(t, kvs);
    law_import_lists(t, kvs);
    assert forall|k: Seq<u8>| #![trigger g.conflict(k)] g.conflict(k) == s.conflict(k) by {
        assert(g.live(k) <==> has_key(kvs, k));
        assert(s.live(k) <==> has_key(kvs, k));
        if has_key(kvs, k) {
            let i = choose|i: int| 0 <= i < kvs.len() && (#[trigger] kvs[i]).key == k;
            assert(pair_keys(kvs)[i] == k);
            assert(last_of_key(kvs, i)) by {
                assert forall|j: int| i < j < kvs.len() implies (#[trigger] kvs[j]).key
                    != kvs[i].key by {
                    if kvs[j].key == kvs[i].key {
                        assert(pair_keys(kvs)[j] == pair_keys(kvs)[i]);
                        ascending_unique::<Vec<u8>>(pair_keys(kvs), i, j);
                    }
                }
            }
        }
    }
}

/// Of ascending keys, those that a condition picks ascend.
pub proof fn lemma_filter_ascending(keys: Seq<Seq<u8>>, p: spec_fn(Seq<u8>) -> bool)
    requires
        ascending::<Vec<u8>>(keys),
    ensures
        ascending::<Vec<u8>>(keys.filter(p)),
        forall|k: Seq<u8>| #[trigger]
            keys.filter(p).contains(k) <==> keys.contains(k) && p(k),
    decreases keys.len(),
{
    broadcast use vstd::seq_lib::group_filter_ensures;

    reveal(Seq::filter);
    let r = keys.filter(p);
    assert forall|k: Seq<u8>| #[trigger] r.contains(k) <==> keys.contains(k) && p(k) by {
        if r.contains(k) {
            keys.lemma_filter_contains_rev(p, k);
            let i = choose|i: int| 0 <= i < r.len() && r[i] == k;
            assert(p(r[i]));
        }
        if keys.contains(k) && p(k) {
            let i = choose|i: int| 0 <= i < keys.len() && keys[i] == k;
            assert(r.contains(keys[i]));
        }
    }
    if keys.len() > 0 {
        let front = keys.drop_last();
        lemma_filter_ascending(front, p);
        let f = front.filter(p);
        if p(keys.last()) {
            assert forall|i: int, j: int|
                #![trigger r[i], r[j]]
                0 <= i < j < r.len() implies <Vec<u8> as OrderedKey>::before(r[i], r[j]) by {
                if j == f.len() {
                    assert(f.contains(f[i]));
                    front.lemma_filter_contains_rev(p, f[i]);
                    let m = choose|m: int| 0 <= m < front.len() && front[m] == f[i];
                    assert(keys[m] == f[i]);
                    assert(keys[keys.len() - 1] == r[j]);
                } else {
                    assert(r[i] == f[i] && r[j] == f[j]);
                }
            }
        }
    }
}

/// The keys of a range that are there, in order.
proof fn lemma_live_in_range(h: History, start: Seq<u8>, end: Seq<u8>)
    requires
        h.valid(),
        h.latest.dom().finite(),
    ensures
        h.live_keys(h.matching(start, end), h.current()) == in_order::<Vec<u8>>(
            Set::new(|k: Seq<u8>| h.live(k) && selected(k, start, end)),
        ),
        forall|k: Seq<u8>| #[trigger]
            h.live(k) ==> h.value_at(k, h.current()) == Some(h.latest[k]),
        forall|i: int|
            #![trigger h.live_keys(h.matching(start, end), h.current())[i]]
            0 <= i < h.live_keys(h.matching(start, end), h.current()).len() ==> h.live(
                h.live_keys(h.matching(start, end), h.current())[i],
            ),
{
    let all = Set::new(|k: Seq<u8>| h.latest.contains_key(k) && selected(k, start, end));
    let wanted = Set::new(|k: Seq<u8>| h.live(k) && selected(k, start, end));
    let p = |k: Seq<u8>| h.live_at(k, h.current());
    let keys = h.matching(start, end);
    vstd::set_lib::lemma_set_subset_finite(h.latest.dom(), all);
    lemma_enumeration::<Vec<u8>>(all);
    lemma_filter_ascending(keys, p);
    let r = keys.filter(p);
    assert forall|k: Seq<u8>| #[trigger] h.live_at(k, h.current()) <==> h.live(k) by {
        if h.latest.contains_key(k) {
            assert(h.latest[k].mod_revision <= h.current());
        }
    }
    assert forall|k: Seq<u8>| r.contains(k) <==> #[trigger] wanted.contains(k) by {
        assert(keys.contains(k) <==> all.contains(k));
        assert(r.contains(k) <==> keys.contains(k) && p(k));
        assert(h.live_at(k, h.current()) <==> h.live(k));
    }
    lemma_in_order::<Vec<u8>>(r, wanted);
    assert forall|i: int| #![trigger r[i]] 0 <= i < r.len() implies h.live(r[i]) by {
        assert(r.contains(r[i]));
        assert(wanted.contains(r[i]));
    }
}

/// A store that takes over the pairs of another one reads the same in every range.
pub proof fn law_transfer_reads(s: History, t: History, start: Seq<u8>, end: Seq<u8>)
    requires
        s.valid(),
        s.fits(),
    ensures
        ({
            let g = t.after_import(s.live_pairs());
            let keys = s.live_keys(s.matching(start, end), s.current());
            &&& g.live_keys(g.matching(start, end), g.current()) == keys
            &&& forall|i: int|
                #![trigger keys[i]]
                0 <= i < keys.len() ==> g.value_at(keys[i], g.current()) == s.value_at(
                    keys[i],
                    s.current(),
                )
        }),
{
    let kvs = s.live_pairs();
    let g = t.after_import(kvs);
    law_transfer_restores(s, t);
    law_import_lists(t, kvs);
    lemma_live_pairs(s);
    lemma_listed_finite(kvs);
    lemma_live_in_range(s, start, end);
    lemma_live_in_range(g, start, end);
    let wanted = Set::new(|k: Seq<u8>| s.live(k) && selected(k, start, end));
    let there = Set::new(|k: Seq<u8>| g.live(k) && selected(k, start, end));
    assert(there =~= wanted) by {
        assert forall|k: Seq<u8>| there.contains(k) <==> wanted.contains(k) by {
            assert(g.live(k) <==> has_key(kvs, k));
            assert(s.live(k) <==> has_key(kvs, k));
        }
    }
    let keys = s.live_keys(s.matching(start, end), s.current());
    assert forall|i: int| #![trigger keys[i]] 0 <= i < keys.len() implies g.value_at(
        keys[i],
        g.current(),
    ) == s.value_at(keys[i], s.current()) by {
        let k = keys[i];
        assert(s.live(k));
        assert(g.live(k));
        assert(g.conflict(k) == s.conflict(k));
        let a = g.latest[k];
        let b = s.latest[k];
        assert(kv_of(k, a) == kv_of(k, b));
        assert(a.value == b.value);
        assert(a =~= b);
    }
}

proof fn lemma_listed_finite(kvs: Seq<KeyValueView>)
    ensures
        listed(kvs).dom().finite(),
    decreases kvs.len(),
{
    if kvs.len() > 0 {
        lemma_listed_finite(kvs.drop_last());
    }
}

proof fn lemma_newest_is(kvs: Seq<KeyValueView>, rev: int)
    ensures
        newest(kvs, rev) == rev || exists|i: int|
            0 <= i < kvs.len() && (#[trigger] kvs[i]).mod_revision == newest(kvs, rev),
    decreases kvs.len(),
{
    if kvs.len() > 0 {
        let front = kvs.drop_last();
        lemma_newest_is(front, rev);
        assert(kvs[kvs.len() - 1] == kvs.last());
        if newest(kvs, rev) == newest(front, rev) && newest(front, rev) != rev {
            let i = choose|i: int|
                0 <= i < front.len() && (#[trigger] front[i]).mod_revision == newest(front, rev);
            assert(kvs[i] == front[i]);
        }
    }
}

/// The last revision after pairs were taken over is the largest one of those that were
/// here and those that the pairs carry, or the number of pairs where that is larger. The
/// writes before it are compacted.
pub proof fn law_revision_after_import(h: History, kvs: Seq<KeyValueView>)
    requires
        importable(kvs),
    ensures
        ({
            let g = h.after_import(kvs);
            let last = g.compacted as int;
            &&& g.log.len() == 0
            &&& last >= h.compacted + h.log.len()
            &&& last >= kvs.len()
            &&& forall|i: int| 0 <= i < kvs.len() ==> (#[trigger] kvs[i]).mod_revision <= last
            &&& last == h.compacted + h.log.len() || last == kvs.len() || exists|i: int|
                0 <= i < kvs.len() && (#[trigger] kvs[i]).mod_revision == last
        }),
{
    lemma_newest(kvs, h.current());
    lemma_newest_is(kvs, h.current());
}

/// Of pairs with one key the last one is there once they were taken over, as it was.
pub proof fn law_last_pair_counts(h: History, kvs: Seq<KeyValueView>, i: int, k: Seq<u8>)
    requires
        importable(kvs),
        0 <= i < kvs.len(),
        forall|j: int| i < j < kvs.len() ==> (#[trigger] kvs[j]).key != kvs[i].key,
    ensures
        ({
            let g = h.after_import(kvs);
            let v = g.latest[kvs[i].key];
            &&& g.latest.contains_key(kvs[i].key)
            &&& v.value == Some(kvs[i].value)
            &&& v.create_revision == kvs[i].create_revision
            &&& v.mod_revision == kvs[i].mod_revision
            &&& v.version == kvs[i].version
            &&& (forall|j: int| 0 <= j < kvs.len() ==> (#[trigger] kvs[j]).key != k)
                ==> !g.latest.contains_key(k)
        }),
{
    lemma_listed(kvs);
    assert(last_of_key(kvs, i));
    assert(has_key(kvs, kvs[i].key));
    assert(listed(kvs).contains_key(k) <==> has_key(kvs, k));
}

} // verus!
