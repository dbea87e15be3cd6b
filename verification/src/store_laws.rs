//! What holds of the store over several calls.

use crate::history::{
    kv_of, lemma_compaction_valid, lemma_kept_bytes, lemma_last_write, lemma_last_write_is,
    lemma_no_write, lemma_writes, logged_bytes, value_bytes, History,
};
use crate::keyspace::{in_range, one_prefix, prefix_of, selected};
use crate::mvccpb::{ChangeView, KeyValueView};
use crate::notify::{logged_value, WalMode};
use crate::order::{lex_asymmetric, lex_irreflexive, lex_lt, lex_total, OrderedKey};
use crate::rpc::status::Code;
use crate::sorted_map::{
    ascending, ascending_unique, enumerates, in_order, lemma_enumeration, lemma_in_order,
};
use crate::store::{
    compacted_error, future_error, is_kept, last_revision_of, version_of, SetRequired, StoreView,
};
use crate::transfer::lemma_filter_ascending;
use vstd::prelude::*;
use vstd::string::*;

verus! {

/// A read at the revision of a write gives back what was written: the key is there
/// with that value, or is not there after a deletion.
pub proof fn law_read_your_write(h: History, key: Seq<u8>, value: Option<Seq<u8>>)
    ensures
        ({
            let g = h.after_write(key, value);
            &&& g.current() == h.current() + 1
            &&& g.value_at(key, g.current()) == Some(h.next_value(key, value))
            &&& g.live_at(key, g.current()) == value is Some
            &&& g.live(key) == value is Some
        }),
{
}

/// A write does not change what is read at earlier revisions. Where the last write
/// of the key itself is compacted, this holds of the revisions before that write.
pub proof fn law_write_keeps_past(
    h: History,
    key: Seq<u8>,
    value: Option<Seq<u8>>,
    k: Seq<u8>,
    rev: int,
)
    requires
        h.valid(),
        rev <= h.current(),
        k == key && h.latest.contains_key(k) ==> h.has(h.latest[k].mod_revision) || rev
            < h.latest[k].mod_revision,
    ensures
        h.after_write(key, value).value_at(k, rev) == h.value_at(k, rev),
{
    let g = h.after_write(key, value);
    assert forall|x: int| x <= h.current() implies #[trigger] g.wrote(k, x) == h.wrote(k, x) by {
        if h.has(x) {
            assert(g.at(x) == h.at(x));
        }
    }
    lemma_same_last_write(h, g, k, rev);
    if g.has(h.last_write(k, rev)) {
        lemma_last_write(h, k, rev);
        assert(g.at(h.last_write(k, rev)) == h.at(h.last_write(k, rev)));
    }
    if k == key {
        if h.latest.contains_key(k) {
            let m = h.latest[k].mod_revision;
            if rev >= m {
                assert(h.at(m).key == k);
                assert(h.wrote(k, m));
                assert forall|x: int| m < x <= rev implies !#[trigger] h.wrote(k, x) by {
                    if h.wrote(k, x) {
                        assert(h.at(x).key == k);
                    }
                }
                lemma_last_write_is(h, k, rev, m);
            }
        } else {
            assert forall|x: int| x <= rev implies !#[trigger] h.wrote(k, x) by {
                if h.wrote(k, x) {
                    assert(h.latest.contains_key(h.at(x).key));
                }
            }
            lemma_no_write(h, k, rev);
        }
    }
}

proof fn lemma_same_last_write(h: History, g: History, k: Seq<u8>, rev: int)
    requires
        g.compacted == h.compacted,
        forall|x: int| x <= rev ==> #[trigger] g.wrote(k, x) == h.wrote(k, x),
    ensures
        g.last_write(k, rev) == h.last_write(k, rev),
    decreases rev - h.compacted,
{
    if rev > h.compacted {
        assert(g.wrote(k, rev) == h.wrote(k, rev));
        if !h.wrote(k, rev) {
            lemma_same_last_write(h, g, k, rev - 1);
        }
    }
}

/// A compaction to a revision does not change what is read from there on, as long
/// as the write that is read is not among those that go, or is the last of its key.
pub proof fn law_compaction_keeps_reads(h: History, rev: int, k: Seq<u8>, at: int)
    requires
        h.valid(),
        h.compacted < rev <= h.current(),
        rev <= at <= h.current(),
        h.latest.contains_key(k) ==> at >= h.latest[k].mod_revision || h.last_write(k, at) >= rev,
    ensures
        h.after_compaction(rev).value_at(k, at) == h.value_at(k, at),
        h.after_compaction(rev).current() == h.current(),
        h.after_compaction(rev).valid(),
{
    let g = h.after_compaction(rev);
    lemma_compaction_valid(h, rev);
    if h.latest.contains_key(k) && at < h.latest[k].mod_revision {
        lemma_last_write(h, k, at);
        let r = h.last_write(k, at);
        assert(g.at(r) == h.at(r));
        assert(g.wrote(k, r));
        assert forall|x: int| r < x <= at implies !#[trigger] g.wrote(k, x) by {
            if g.wrote(k, x) {
                assert(g.at(x) == h.at(x));
                assert(h.wrote(k, x));
            }
        }
        lemma_last_write_is(g, k, at, r);
    }
}

/// Of two writes that require the same last revision of a key, which is positive,
/// only one can take place.
pub proof fn law_one_write_per_required_revision(
    h: History,
    key: Seq<u8>,
    first: Option<Seq<u8>>,
    second: Option<Seq<u8>>,
    required: int,
)
    requires
        h.valid(),
        required > 0,
        h.accepts(key, first, required, -1),
    ensures
        !h.after_write(key, first).accepts(key, second, required, -1),
{
    assert(h.live(key));
    assert(h.latest.contains_key(key));
}

/// A write that requires that the key was never written, or is deleted, takes place
/// once: after it the same write is refused.
pub proof fn law_create_once(h: History, key: Seq<u8>, value: Seq<u8>)
    requires
        h.valid(),
    ensures
        h.accepts(key, Some(value), 0, -1) == !h.live(key),
        !h.after_write(key, Some(value)).accepts(key, Some(value), 0, -1),
{
    if h.live(key) {
        assert(h.latest.contains_key(key));
    }
}

/// A deleted key is not there: deleting it again is refused, and a new write starts
/// with version one at its own revision.
pub proof fn law_delete(h: History, key: Seq<u8>, value: Option<Seq<u8>>)
    ensures
        ({
            let g = h.after_write(key, None);
            &&& !g.accepts(key, None, -1, -1)
            &&& g.conflict(key) is None
            &&& g.next_value(key, value).version == 1
            &&& g.next_value(key, value).create_revision == g.current() + 1
        }),
{
}

/// A write under a key that is there keeps the revision that created it and adds
/// one to its version.
pub proof fn law_versions_count(h: History, key: Seq<u8>, value: Option<Seq<u8>>)
    requires
        h.live(key),
    ensures
        h.next_value(key, value).create_revision == h.latest[key].create_revision,
        h.next_value(key, value).version == h.latest[key].version + 1,
        h.next_value(key, value).mod_revision == h.current() + 1,
{
}

/// A range reports the number of keys that were there, unless these are more than
/// the limit: what it reports is then more than the limit.
pub proof fn law_count_up_to_limit(h: History, keys: Seq<Seq<u8>>, rev: int, limit: int)
    requires
        limit >= 0,
    ensures
        h.live_keys(keys, rev).len() <= limit ==> h.tally(keys, rev, limit) == h.live_keys(
            keys,
            rev,
        ).len(),
        h.live_keys(keys, rev).len() > limit ==> h.tally(keys, rev, limit) > limit,
        h.tally(keys, rev, limit) >= h.live_keys(keys, rev).len(),
        h.tally(keys, rev, limit) <= keys.len(),
    decreases keys.len(),
{
    reveal(Seq::filter);
    if keys.len() > 0 {
        law_count_up_to_limit(h, keys.drop_last(), rev, limit);
    }
}

/// A range has as many pairs as keys were there, up to the limit, in the order of
/// their keys.
pub proof fn law_range_pairs(s: StoreView, start: Seq<u8>, end: Seq<u8>, rev: int, limit: int)
    requires
        limit >= 0,
    ensures
        ({
            let at = s.read_revision(rev);
            let live = s.history.live_keys(s.history.matching(start, end), at);
            let kvs = s.range(start, end, rev, limit).kvs;
            &&& kvs.len() == if live.len() < limit {
                live.len() as int
            } else {
                limit
            }
            &&& forall|i: int| 0 <= i < kvs.len() ==> (#[trigger] kvs[i]).key == live[i]
        }),
{
}

/// A watcher that starts at a revision that is not in the future is told of every
/// later write in its range, until it is forgotten.
pub proof fn law_watcher_is_told(
    s: StoreView,
    id: (Seq<u8>, i64),
    key: Seq<u8>,
    value: Option<Seq<u8>>,
)
    requires
        s.watchers.dom().finite(),
        s.watchers.contains_key(id),
        s.watchers[id].start_revision <= s.history.current() + 1,
        in_range(key, s.watchers[id].start, s.watchers[id].end),
    ensures
        s.job(key, value).watchers.contains(id.1),
{
    let rev = s.history.current() + 1;
    let set = lemma_watchers_for(s, key, rev);
    let told = in_order::<(Vec<u8>, i64)>(set);
    assert(set.contains(id));
    assert(told.contains(id));
    let i = choose|i: int| 0 <= i < told.len() && told[i] == id;
    assert(s.job(key, value).watchers[i] == id.1);
}

/// No watcher is told of a write but those that watch its key.
pub proof fn law_only_watchers_are_told(
    s: StoreView,
    key: Seq<u8>,
    value: Option<Seq<u8>>,
    n: i64,
)
    requires
        s.watchers.dom().finite(),
        s.job(key, value).watchers.contains(n),
    ensures
        exists|id: (Seq<u8>, i64)| #[trigger]
            s.watchers.contains_key(id) && id.1 == n && s.watchers[id].wants(
                key,
                s.history.current() + 1,
            ),
{
    let rev = s.history.current() + 1;
    let set = lemma_watchers_for(s, key, rev);
    let told = in_order::<(Vec<u8>, i64)>(set);
    let w = s.job(key, value).watchers;
    let i = choose|i: int| 0 <= i < w.len() && w[i] == n;
    assert(told.contains(told[i]));
    assert(set.contains(told[i]));
    assert(s.watchers.contains_key(told[i]));
}

proof fn lemma_watchers_for(s: StoreView, key: Seq<u8>, rev: int) -> (set: Set<(Seq<u8>, i64)>)
    requires
        s.watchers.dom().finite(),
    ensures
        set == Set::new(
            |k: (Seq<u8>, i64)| s.watchers.contains_key(k) && s.watchers[k].wants(key, rev),
        ),
        enumerates::<(Vec<u8>, i64)>(in_order::<(Vec<u8>, i64)>(set), set),
{
    let set = Set::new(
        |k: (Seq<u8>, i64)| s.watchers.contains_key(k) && s.watchers[k].wants(key, rev),
    );
    assert(set.subset_of(s.watchers.dom()));
    vstd::set_lib::lemma_set_subset_finite(s.watchers.dom(), set);
    lemma_enumeration::<(Vec<u8>, i64)>(set);
    set
}

/// The past of a watch is complete: every write from its revision on, of a key that
/// it selects, is in it.
pub proof fn law_past_is_complete(
    h: History,
    keys: Seq<Seq<u8>>,
    from: int,
    want_prev: bool,
    key: Seq<u8>,
    rev: int,
)
    requires
        keys.contains(key),
        from <= rev,
        h.wrote(key, rev),
    ensures
        h.past_of_keys(keys, from, want_prev).contains(h.past(key, rev, want_prev)),
    decreases keys.len(),
{
    let all = h.past_of_keys(keys, from, want_prev);
    let front = h.past_of_keys(keys.drop_last(), from, want_prev);
    let c = h.past(key, rev, want_prev);
    if keys.last() == key {
        lemma_writes(h, key, from, h.current());
        let w = h.writes(key, from, h.current());
        assert(w.contains(rev));
        let i = choose|i: int| 0 <= i < w.len() && w[i] == rev;
        assert(h.past_of_key(key, from, want_prev)[i] == c);
        assert(all[front.len() + i] == c);
    } else {
        let i = choose|i: int| 0 <= i < keys.len() && keys[i] == key;
        assert(keys.drop_last()[i] == key);
        law_past_is_complete(h, keys.drop_last(), from, want_prev, key, rev);
        let j = choose|j: int| 0 <= j < front.len() && front[j] == c;
        assert(all[j] == c);
    }
}

/// The past of a watch holds nothing but writes from its revision on.
pub proof fn law_past_is_sound(
    h: History,
    keys: Seq<Seq<u8>>,
    from: int,
    want_prev: bool,
    c: ChangeView,
)
    requires
        h.past_of_keys(keys, from, want_prev).contains(c),
    ensures
        exists|key: Seq<u8>, rev: int|
            keys.contains(key) && from <= rev && #[trigger] h.wrote(key, rev) && c == h.past(
                key,
                rev,
                want_prev,
            ),
    decreases keys.len(),
{
    let all = h.past_of_keys(keys, from, want_prev);
    let i = choose|i: int| 0 <= i < all.len() && all[i] == c;
    let front = h.past_of_keys(keys.drop_last(), from, want_prev);
    if i < front.len() {
        assert(front[i] == c);
        law_past_is_sound(h, keys.drop_last(), from, want_prev, c);
        let (key, rev) = choose|key: Seq<u8>, rev: int|
            keys.drop_last().contains(key) && from <= rev && #[trigger] h.wrote(key, rev) && c
                == h.past(key, rev, want_prev);
        let j = choose|j: int| 0 <= j < keys.drop_last().len() && keys.drop_last()[j] == key;
        assert(keys[j] == key);
        assert(keys.contains(key) && h.wrote(key, rev));
    } else {
        let key = keys.last();
        lemma_writes(h, key, from, h.current());
        let w = h.writes(key, from, h.current());
        let j = i - front.len();
        assert(c == h.past(key, w[j], want_prev));
        assert(h.wrote(key, w[j]));
        assert(keys[keys.len() - 1] == key);
    }
}

/// A watch misses nothing: with a revision that is not in the future, it is told of
/// the writes of a selected key from there on, of the past ones at once and of each
/// later one when it takes place.
pub proof fn law_watch_has_no_gap(
    s: StoreView,
    start: Seq<u8>,
    end: Seq<u8>,
    rev: int,
    want_prev: bool,
    key: Seq<u8>,
    value: Option<Seq<u8>>,
)
    requires
        s.watchers.dom().finite(),
        s.history.latest.dom().finite(),
        s.history.valid(),
        0 <= s.watch_counter < i64::MAX,
        s.history.compacted < rev <= s.history.current() + 1,
        selected(key, start, end),
    ensures
        forall|r: int|
            rev <= r && #[trigger] s.history.wrote(key, r) ==> s.history.past_of_keys(
                s.history.matching(start, end),
                rev,
                want_prev,
            ).contains(s.history.past(key, r, want_prev)),
        s.after_watch(start, end, rev).job(key, value).watchers.contains(
            (s.watch_counter + 1) as i64,
        ),
{
    let h = s.history;
    let set = Set::new(|k: Seq<u8>| h.latest.contains_key(k) && selected(k, start, end));
    assert(set.subset_of(h.latest.dom()));
    vstd::set_lib::lemma_set_subset_finite(h.latest.dom(), set);
    lemma_enumeration::<Vec<u8>>(set);
    let keys = h.matching(start, end);
    assert forall|r: int| rev <= r && #[trigger] h.wrote(key, r) implies h.past_of_keys(
        keys,
        rev,
        want_prev,
    ).contains(h.past(key, r, want_prev)) by {
        assert(h.latest.contains_key(h.at(r).key));
        assert(set.contains(key));
        assert(keys.contains(key));
        law_past_is_complete(h, keys, rev, want_prev, key, r);
    }
    let t = s.after_watch(start, end, rev);
    law_watcher_is_told(t, (start, (s.watch_counter + 1) as i64), key, value);
}

/// The log restores the store: from the same history on, the record that is kept of a
/// write writes the same again.
pub proof fn law_record_restores_write(
    s: StoreView,
    t: StoreView,
    key: Seq<u8>,
    value: Option<Seq<u8>>,
    last_revision: int,
    version: int,
)
    requires
        s.history.accepts(key, value, last_revision, version),
        s.history.valid(),
        t.history == s.history,
    ensures
        ({
            let msg = s.job(key, value).msg;
            t.after_record(msg.kv.key, logged_value(msg)).history == s.after_write(
                key,
                value,
            ).history
        }),
{
    if s.history.live(key) {
        assert(s.history.latest.contains_key(key));
    }
}

proof fn lemma_kept_same(g: History, h: History, keys: Seq<Seq<u8>>)
    requires
        forall|i: int| 0 <= i < keys.len() ==> g.kept_of(#[trigger] keys[i]) == h.kept_of(keys[i]),
    ensures
        g.kept_bytes(keys) == h.kept_bytes(keys),
    decreases keys.len(),
{
    if keys.len() > 0 {
        assert(g.kept_of(keys[keys.len() - 1]) == h.kept_of(keys[keys.len() - 1]));
        assert forall|i: int| 0 <= i < keys.drop_last().len() implies g.kept_of(
            #[trigger] keys.drop_last()[i],
        ) == h.kept_of(keys.drop_last()[i]) by {
            assert(keys[i] == keys.drop_last()[i]);
        }
        lemma_kept_same(g, h, keys.drop_last());
    }
}

proof fn lemma_ordered_once(s: Set<Seq<u8>>)
    requires
        s.finite(),
    ensures
        in_order::<Vec<u8>>(s).no_duplicates(),
        forall|k: Seq<u8>| in_order::<Vec<u8>>(s).contains(k) <==> s.contains(k),
{
    lemma_enumeration::<Vec<u8>>(s);
    let keys = in_order::<Vec<u8>>(s);
    assert forall|i: int, j: int|
        0 <= i < keys.len() && 0 <= j < keys.len() && i != j implies keys[i] != keys[j] by {
        if keys[i] == keys[j] {
            ascending_unique::<Vec<u8>>(keys, i, j);
        }
    }
}

/// A write adds the bytes of its value to the size of the store. Only the write of a
/// key whose last value is compacted drops that value as well.
pub proof fn law_write_adds_bytes(h: History, key: Seq<u8>, value: Option<Seq<u8>>)
    requires
        h.valid(),
        h.latest.dom().finite(),
        h.latest.contains_key(key) ==> h.latest[key].mod_revision > h.compacted,
    ensures
        h.after_write(key, value).bytes() == h.bytes() + (match value {
            Some(v) => v.len(),
            None => 0,
        }),
{
    let g = h.after_write(key, value);
    assert(g.log.drop_last() =~= h.log);
    assert(logged_bytes(g.log) == logged_bytes(h.log) + value_bytes(h.next_value(key, value)));
    let old_keys = in_order::<Vec<u8>>(h.latest.dom());
    let new_keys = in_order::<Vec<u8>>(g.latest.dom());
    lemma_ordered_once(h.latest.dom());
    lemma_ordered_once(g.latest.dom());
    assert(g.kept_of(key) == 0);
    assert forall|i: int| 0 <= i < old_keys.len() implies g.kept_of(#[trigger] old_keys[i])
        == h.kept_of(old_keys[i]) by {
        assert(old_keys.contains(old_keys[i]));
    }
    lemma_kept_same(g, h, old_keys);
    if h.latest.contains_key(key) {
        assert(g.latest.dom() =~= h.latest.dom());
    } else {
        let all = old_keys.push(key);
        assert(!old_keys.contains(key));
        assert forall|k: Seq<u8>| all.contains(k) <==> new_keys.contains(k) by {
            assert(g.latest.dom().contains(k) <==> h.latest.dom().contains(k) || k == key);
            assert(all[old_keys.len() as int] == key);
            if old_keys.contains(k) {
                let i = choose|i: int| 0 <= i < old_keys.len() && old_keys[i] == k;
                assert(all[i] == k);
            }
        }
        assert(all.drop_last() =~= old_keys);
        lemma_kept_bytes(g, all, new_keys);
    }
}

// ------------------------------------------------------- reads and writes

/// Before the first write nothing is there, and no revision.
pub proof fn law_empty_store(k: Seq<u8>, rev: int)
    ensures
        History::empty().current() == 0,
        !History::empty().live(k),
        History::empty().value_at(k, rev) is None,
        History::empty().conflict(k) is None,
        History::empty().bytes() == 0,
        History::empty().valid(),
{
    let h = History::empty();
    assert(h.latest.dom() =~= Set::empty());
    let none = Seq::<Seq<u8>>::empty();
    assert(enumerates::<Vec<u8>>(none, h.latest.dom()));
    lemma_in_order::<Vec<u8>>(none, h.latest.dom());
}

/// A write leaves the other keys as they are.
pub proof fn law_write_leaves_others(
    h: History,
    key: Seq<u8>,
    value: Option<Seq<u8>>,
    k: Seq<u8>,
)
    requires
        h.valid(),
        k != key,
    ensures
        ({
            let g = h.after_write(key, value);
            &&& g.value_at(k, g.current()) == h.value_at(k, h.current())
            &&& g.conflict(k) == h.conflict(k)
            &&& g.live(k) == h.live(k)
        }),
{
    let g = h.after_write(key, value);
    if h.latest.contains_key(k) {
        assert(h.latest[k].mod_revision <= h.current());
        assert(g.latest[k] == h.latest[k]);
    }
}

/// A key that is not there starts with version one, created by the write itself.
pub proof fn law_new_key(h: History, key: Seq<u8>, value: Seq<u8>)
    requires
        !h.latest.contains_key(key) || h.latest[key].value is None,
    ensures
        ({
            let g = h.after_write(key, Some(value));
            g.conflict(key) == Some(
                KeyValueView {
                    key,
                    create_revision: h.current() + 1,
                    mod_revision: h.current() + 1,
                    version: 1,
                    value,
                    lease: 0,
                },
            )
        }),
{
}

/// A write under a key that is there is told with what changes alone: the value, the
/// revision and one more version.
pub proof fn law_overwritten_key(h: History, key: Seq<u8>, value: Seq<u8>)
    requires
        h.latest.contains_key(key),
        h.latest[key].value is Some,
    ensures
        h.conflict(key) is Some,
        h.after_write(key, Some(value)).conflict(key) == Some(
            KeyValueView {
                mod_revision: h.current() + 1,
                version: h.conflict(key)->0.version + 1,
                value,
                ..h.conflict(key)->0
            },
        ),
        h.after_write(key, None).conflict(key) is None,
{
}

/// What a read at a revision gives is the last write up to it: with a write of the key
/// and none of it after that up to the revision, that write is read.
pub proof fn law_read_is_last_write(h: History, k: Seq<u8>, rev: int, r: int)
    requires
        h.valid(),
        r <= rev <= h.current(),
        h.wrote(k, r),
        forall|x: int| r < x <= rev ==> !#[trigger] h.wrote(k, x),
    ensures
        h.value_at(k, rev) == Some(h.at(r).value),
        h.value_at(k, rev)->0.mod_revision == r,
        h.live_at(k, rev) == (h.at(r).value.value is Some),
{
    assert(h.at(r).value.mod_revision == r);
    assert(h.latest.contains_key(k));
    let m = h.latest[k].mod_revision;
    lemma_last_write_is(h, k, rev, r);
    if rev >= m {
        assert(h.has(m));
        assert(h.at(m).key == k);
        assert(h.wrote(k, m));
        assert(r == m);
    }
}

/// Before the first write of a key nothing is read of it.
pub proof fn law_read_before_first_write(h: History, k: Seq<u8>, rev: int)
    requires
        h.valid(),
        h.compacted == 0,
        rev <= h.current(),
        forall|x: int| x <= rev ==> !#[trigger] h.wrote(k, x),
    ensures
        h.value_at(k, rev) is None,
        !h.live_at(k, rev),
{
    lemma_no_write(h, k, rev);
    lemma_last_write(h, k, rev);
    if h.latest.contains_key(k) {
        let m = h.latest[k].mod_revision;
        assert(h.has(m));
        assert(h.at(m).key == k);
        assert(h.wrote(k, m));
    }
}

/// What a write requires has to be there: the last revision and the version of a key
/// that is there have to be those that are required, and for one that is not there only
/// zero can be required. A negative number requires nothing.
pub proof fn law_requirements(
    h: History,
    key: Seq<u8>,
    value: Option<Seq<u8>>,
    last_revision: int,
    version: int,
)
    ensures
        ({
            let here = h.latest.contains_key(key) && h.latest[key].value is Some;
            let v = h.latest[key];
            &&& here && 0 <= last_revision && last_revision != v.mod_revision ==> !h.accepts(
                key,
                value,
                last_revision,
                version,
            )
            &&& here && 0 <= version && version != v.version ==> !h.accepts(
                key,
                value,
                last_revision,
                version,
            )
            &&& here ==> h.accepts(key, value, v.mod_revision, v.version)
            &&& here ==> h.accepts(key, value, v.mod_revision, -1)
            &&& here ==> h.accepts(key, value, -1, v.version)
            &&& here ==> h.accepts(key, value, -1, -1)
            &&& !here ==> (h.accepts(key, value, last_revision, version) <==> last_revision <= 0
                && version <= 0 && value is Some)
        }),
{
}

/// Of two writes that require the same version of a key, which is positive, only one
/// can take place.
pub proof fn law_one_write_per_required_version(
    h: History,
    key: Seq<u8>,
    first: Option<Seq<u8>>,
    second: Option<Seq<u8>>,
    required: int,
)
    requires
        h.valid(),
        required > 0,
        h.accepts(key, first, -1, required),
    ensures
        !h.after_write(key, first).accepts(key, second, -1, required),
{
    assert(h.live(key));
    assert(h.latest.contains_key(key));
}

// ------------------------------------------------------------- compaction

/// After a compaction to a revision, the revisions before it are refused as compacted,
/// those from it on are answered within one prefix, and those after the last one are
/// still to come.
pub proof fn law_compaction_refuses_earlier(
    s: StoreView,
    rev: int,
    start: Seq<u8>,
    end: Seq<u8>,
    at: int,
)
    requires
        s.history.compacted < rev <= s.history.current(),
        at > 0,
        end.len() == 0,
    ensures
        ({
            let t = StoreView { history: s.history.after_compaction(rev), ..s };
            &&& at < rev ==> t.range_error(start, end, at) == Some(compacted_error())
            &&& rev <= at <= s.history.current() ==> t.range_error(start, end, at) is None
            &&& at > s.history.current() ==> t.range_error(start, end, at) == Some(future_error())
            &&& t.range_error(start, end, 0) is None
        }),
{
}

/// Where the write that is read goes with a compaction, and a later one of the key is
/// kept, nothing is read.
pub proof fn law_compaction_drops_reads(h: History, rev: int, k: Seq<u8>, at: int)
    requires
        h.valid(),
        h.compacted < rev <= h.current(),
        rev <= at,
        h.latest.contains_key(k),
        at < h.latest[k].mod_revision,
        forall|x: int| rev <= x <= at ==> !#[trigger] h.wrote(k, x),
    ensures
        h.after_compaction(rev).value_at(k, at) is None,
{
    let g = h.after_compaction(rev);
    lemma_compaction_valid(h, rev);
    assert forall|x: int| x <= at implies !#[trigger] g.wrote(k, x) by {
        if g.wrote(k, x) {
            assert(g.at(x) == h.at(x));
            assert(h.wrote(k, x));
        }
    }
    lemma_no_write(g, k, at);
    lemma_last_write(g, k, at);
}

// ----------------------------------------------------------------- ranges

/// A range holds what was there at its revision, and nothing else: the keys ascend,
/// each lies in the range and under the prefix of its start, and is told as it was
/// then. A key that was there and is not told comes after all that are, and only where
/// the limit is reached.
pub proof fn law_range_is_exact(
    s: StoreView,
    start: Seq<u8>,
    end: Seq<u8>,
    rev: int,
    limit: int,
)
    requires
        s.history.valid(),
        s.history.latest.dom().finite(),
        limit >= 0,
    ensures
        ({
            let h = s.history;
            let at = if rev == 0 {
                (h.compacted + h.log.len()) as int
            } else {
                rev
            };
            let r = s.range(start, end, rev, limit);
            let kvs = r.kvs;
            &&& r.latest_rev == h.compacted + h.log.len()
            &&& kvs.len() <= limit
            &&& forall|i: int, j: int|
                #![trigger kvs[i], kvs[j]]
                0 <= i < j < kvs.len() ==> lex_lt(kvs[i].key, kvs[j].key)
            &&& forall|i: int|
                0 <= i < kvs.len() ==> {
                    let k = (#[trigger] kvs[i]).key;
                    &&& prefix_of(k) == prefix_of(start)
                    &&& end.len() == 0 ==> k == start
                    &&& end.len() > 0 ==> !lex_lt(k, start) && lex_lt(k, end)
                    &&& h.value_at(k, at) matches Some(v)
                    &&& v.value == Some(kvs[i].value)
                    &&& v.mod_revision == kvs[i].mod_revision
                    &&& v.create_revision == kvs[i].create_revision
                    &&& v.version == kvs[i].version
                }
            &&& forall|k: Seq<u8>|
                #![trigger prefix_of(k)]
                h.value_at(k, at) is Some && h.value_at(k, at)->0.value is Some && prefix_of(k)
                    == prefix_of(start) && (if end.len() == 0 {
                    k == start
                } else {
                    !lex_lt(k, start) && lex_lt(k, end)
                }) ==> {
                    ||| exists|i: int| 0 <= i < kvs.len() && (#[trigger] kvs[i]).key == k
                    ||| kvs.len() == limit && forall|i: int|
                        0 <= i < kvs.len() ==> lex_lt((#[trigger] kvs[i]).key, k)
                }
        }),
{
    let h = s.history;
    let at = s.read_revision(rev);
    let set = Set::new(|k: Seq<u8>| h.latest.contains_key(k) && selected(k, start, end));
    assert(set.subset_of(h.latest.dom()));
    vstd::set_lib::lemma_set_subset_finite(h.latest.dom(), set);
    lemma_enumeration::<Vec<u8>>(set);
    let keys = h.matching(start, end);
    let p = |k: Seq<u8>| h.live_at(k, at);
    lemma_filter_ascending(keys, p);
    let live = h.live_keys(keys, at);
    let n = if live.len() < limit {
        live.len() as int
    } else {
        limit
    };
    let kvs = s.range(start, end, rev, limit).kvs;
    assert forall|i: int| 0 <= i < kvs.len() implies (#[trigger] kvs[i]).key == live[i] && kvs[i]
        == kv_of(live[i], h.value_at(live[i], at)->0) by {
        assert(live.take(n)[i] == live[i]);
    }
    assert forall|i: int, j: int|
        #![trigger kvs[i], kvs[j]]
        0 <= i < j < kvs.len() implies lex_lt(kvs[i].key, kvs[j].key) by {
        assert(<Vec<u8> as OrderedKey>::before(live[i], live[j]));
    }
    assert forall|i: int| 0 <= i < kvs.len() implies {
        let k = (#[trigger] kvs[i]).key;
        &&& prefix_of(k) == prefix_of(start)
        &&& end.len() == 0 ==> k == start
        &&& end.len() > 0 ==> !lex_lt(k, start) && lex_lt(k, end)
        &&& h.value_at(k, at) matches Some(v)
        &&& v.value == Some(kvs[i].value)
        &&& v.mod_revision == kvs[i].mod_revision
        &&& v.create_revision == kvs[i].create_revision
        &&& v.version == kvs[i].version
    } by {
        let k = live[i];
        assert(live.contains(k));
        assert(keys.contains(k) && p(k));
        assert(set.contains(k));
        if end.len() > 0 && lex_lt(k, start) {
            if k == start {
                lex_irreflexive(k);
            } else {
                lex_asymmetric(k, start);
            }
        }
    }
    assert forall|k: Seq<u8>|
        #![trigger prefix_of(k)]
        h.value_at(k, at) is Some && h.value_at(k, at)->0.value is Some && prefix_of(k)
            == prefix_of(start) && (if end.len() == 0 {
            k == start
        } else {
            !lex_lt(k, start) && lex_lt(k, end)
        }) implies {
        ||| exists|i: int| 0 <= i < kvs.len() && (#[trigger] kvs[i]).key == k
        ||| kvs.len() == limit && forall|i: int|
            0 <= i < kvs.len() ==> lex_lt((#[trigger] kvs[i]).key, k)
    } by {
        lex_total(k, start);
        assert(set.contains(k));
        assert(keys.contains(k));
        assert(p(k));
        assert(live.contains(k));
        let j = choose|j: int| 0 <= j < live.len() && live[j] == k;
        if j < n {
            assert(kvs[j].key == k);
        } else {
            assert forall|i: int| 0 <= i < kvs.len() implies lex_lt(
                (#[trigger] kvs[i]).key,
                k,
            ) by {
                assert(<Vec<u8> as OrderedKey>::before(live[i], live[j]));
            }
        }
    }
}

/// Beyond the limit a range counts every key that it selects: from the one that goes
/// beyond it on, all the rest.
pub proof fn law_count_beyond_limit(
    h: History,
    keys: Seq<Seq<u8>>,
    rev: int,
    limit: int,
    n: int,
)
    requires
        limit >= 0,
        0 < n <= keys.len(),
        h.live_at(keys[n - 1], rev),
        h.live_keys(keys.take(n - 1), rev).len() == limit,
    ensures
        h.tally(keys, rev, limit) == limit + 1 + (keys.len() - n),
    decreases keys.len(),
{
    if n == keys.len() {
        assert(keys.take(n - 1) =~= keys.drop_last());
        law_count_up_to_limit(h, keys.drop_last(), rev, limit);
    } else {
        assert(keys.drop_last().take(n - 1) =~= keys.take(n - 1));
        law_count_beyond_limit(h, keys.drop_last(), rev, limit, n);
    }
}

// --------------------------------------------------------------- watching

/// What a write tells: its key with the value, or a deletion, at the next revision, and
/// what was there before it.
pub proof fn law_job_tells_the_write(s: StoreView, key: Seq<u8>, value: Option<Seq<u8>>)
    requires
        s.history.valid(),
    ensures
        ({
            let j = s.job(key, value);
            let h = s.history;
            let rev = h.compacted + h.log.len() + 1;
            let was = h.latest[key];
            let known = h.latest.contains_key(key);
            &&& j.rev == rev
            &&& j.msg.kv.mod_revision == rev
            &&& j.msg.kv.key == key
            &&& value matches Some(v) ==> {
                &&& j.msg.kv.value == v
                &&& j.msg.kv.version >= 1
                &&& j.msg.kv.version == (if known && was.value is Some {
                    was.version + 1
                } else {
                    1
                })
            }
            &&& value is None ==> j.msg.kv.value.len() == 0 && j.msg.kv.version == 0
            &&& j.msg.prev_kv is Some == known
            &&& known && was.value is Some ==> {
                &&& j.msg.prev_kv->0.key == key
                &&& Some(j.msg.prev_kv->0.value) == was.value
                &&& j.msg.prev_kv->0.mod_revision == was.mod_revision
                &&& j.msg.prev_kv->0.version == was.version
            }
            &&& known && was.value is None ==> j.msg.prev_kv->0.version == 0
            &&& j.size == (match value {
                Some(v) => v.len() as int,
                None => 0,
            }) + (if known && was.value is Some {
                was.value->0.len() as int
            } else {
                0
            })
            &&& j.wal_sync == s.wal_sync
            &&& s.after_write(key, value).jobs == s.jobs.push(j)
        }),
{
    if s.history.latest.contains_key(key) {
        assert(s.history.latest[key].version >= 1);
    }
}

/// Before a past change stands the write of the key that came last before it, where that
/// was asked for and is not compacted.
pub proof fn law_past_tells_what_was_before(
    h: History,
    key: Seq<u8>,
    rev: int,
    before: int,
    want_prev: bool,
)
    requires
        h.valid(),
        h.wrote(key, rev),
        forall|x: int| before < x < rev ==> !#[trigger] h.wrote(key, x),
    ensures
        !want_prev ==> h.past(key, rev, want_prev).prev_kv is None,
        want_prev && before < rev && h.wrote(key, before) ==> {
            let c = h.past(key, rev, want_prev).prev_kv;
            &&& c is Some
            &&& c->0.key == key
            &&& c->0.mod_revision == before
            &&& (c->0.version == 0) == (h.at(before).value.value is None)
            &&& h.at(before).value.value is Some ==> Some(c->0.value) == h.at(before).value.value
        },
        before <= h.compacted ==> h.past(key, rev, want_prev).prev_kv is None,
{
    if before < rev && h.wrote(key, before) {
        assert(h.at(before).value.mod_revision == before);
        lemma_last_write_is(h, key, rev - 1, before);
    }
    if before <= h.compacted {
        assert forall|x: int| x <= rev - 1 implies !#[trigger] h.wrote(key, x) by {}
        lemma_no_write(h, key, rev - 1);
    }
}

proof fn lemma_comes_before(keys: Seq<Seq<u8>>, i: int, j: int)
    requires
        ascending::<Vec<u8>>(keys),
        0 <= i < j < keys.len(),
    ensures
        lex_lt(keys[i], keys[j]),
{
    assert(<Vec<u8> as OrderedKey>::before(keys[i], keys[j]));
}

/// The past of a watch comes key by key, and of each key in the order of its revisions.
#[verifier::spinoff_prover]
#[verifier::rlimit(40)]
pub proof fn law_past_is_in_order(
    h: History,
    keys: Seq<Seq<u8>>,
    from: int,
    want_prev: bool,
    i: int,
    j: int,
)
    requires
        h.valid(),
        ascending::<Vec<u8>>(keys),
        0 <= i < j < h.past_of_keys(keys, from, want_prev).len(),
    ensures
        ({
            let a = h.past_of_keys(keys, from, want_prev)[i].kv;
            let b = h.past_of_keys(keys, from, want_prev)[j].kv;
            &&& keys.contains(a.key) && keys.contains(b.key)
            &&& lex_lt(a.key, b.key) || (a.key == b.key && a.mod_revision < b.mod_revision)
        }),
    decreases keys.len(),
{
    let all = h.past_of_keys(keys, from, want_prev);
    let front = h.past_of_keys(keys.drop_last(), from, want_prev);
    let key = keys.last();
    let w = h.writes(key, from, h.current());
    lemma_writes(h, key, from, h.current());
    assert(keys[keys.len() - 1] == key);
    if j < front.len() {
        assert(all[i] == front[i] && all[j] == front[j]);
        assert(ascending::<Vec<u8>>(keys.drop_last()));
        law_past_is_in_order(h, keys.drop_last(), from, want_prev, i, j);
        let x = choose|x: int|
            0 <= x < keys.drop_last().len() && keys.drop_last()[x] == all[i].kv.key;
        assert(keys[x] == all[i].kv.key);
        let y = choose|y: int|
            0 <= y < keys.drop_last().len() && keys.drop_last()[y] == all[j].kv.key;
        assert(keys[y] == all[j].kv.key);
    } else {
        let n = j - front.len();
        assert(all[j] == h.past(key, w[n], want_prev));
        assert(h.wrote(key, w[n]));
        if i < front.len() {
            assert(all[i] == front[i]);
            assert(front.contains(front[i]));
            law_past_is_sound(h, keys.drop_last(), from, want_prev, front[i]);
            let (k, r) = choose|k: Seq<u8>, r: int|
                keys.drop_last().contains(k) && from <= r && #[trigger] h.wrote(k, r) && front[i]
                    == h.past(k, r, want_prev);
            let m = choose|m: int| 0 <= m < keys.drop_last().len() && keys.drop_last()[m] == k;
            let last = keys.len() - 1;
            assert(keys[m] == k && 0 <= m < last);
            lemma_comes_before(keys, m, last);
        } else {
            let m = i - front.len();
            assert(all[i] == h.past(key, w[m], want_prev));
            assert(h.wrote(key, w[m]));
        }
    }
}

/// A watch that asks for no revision is told of the writes from then on, and one that
/// asks for a revision of those from there on.
pub proof fn law_watch_starts_at(s: StoreView, start: Seq<u8>, end: Seq<u8>, rev: int, k: Seq<u8>)
    requires
        k == start || (end.len() > 0 && lex_lt(start, k) && lex_lt(k, end)),
        end.len() == 0 || lex_lt(k, end),
        end.len() == 0 ==> k == start,
    ensures
        ({
            let w = s.after_watch(start, end, rev).watchers[(start, (s.watch_counter + 1) as i64)];
            &&& rev <= 0 ==> w.wants(k, (s.history.compacted + s.history.log.len() + 1) as int)
            &&& rev > 0 ==> w.wants(k, rev) && !w.wants(k, rev - 1)
            &&& forall|x: Seq<u8>|
                #![trigger w.wants(x, rev)]
                rev > 0 && end.len() > 0 && (lex_lt(x, start) || !lex_lt(x, end)) ==> !w.wants(
                    x,
                    rev,
                )
            &&& forall|x: Seq<u8>|
                #![trigger w.wants(x, rev)]
                rev > 0 && end.len() == 0 && x != start ==> !w.wants(x, rev)
        }),
{
    let w = s.after_watch(start, end, rev).watchers[(start, (s.watch_counter + 1) as i64)];
    assert forall|x: Seq<u8>|
        #![trigger w.wants(x, rev)]
        rev > 0 && end.len() > 0 && (lex_lt(x, start) || !lex_lt(x, end)) implies !w.wants(
        x,
        rev,
    ) by {
        if lex_lt(x, start) {
            if x == start {
                lex_irreflexive(x);
            } else {
                lex_asymmetric(x, start);
            }
        }
    }
}

/// A record of the log that the store would refuse, the deletion of a key that is not
/// there, changes nothing. Any other is a write of its value.
pub proof fn law_records_are_written(s: StoreView, key: Seq<u8>, value: Option<Seq<u8>>)
    ensures
        value is Some || s.history.live(key) ==> s.after_record(key, value) == s.after_write(
            key,
            value,
        ),
        value is None && !s.history.live(key) ==> s.after_record(key, value) == s,
{
}

// ------------------------------------------------------------------ sizes

/// The bytes of the last values of some keys.
pub open spec fn sum_of_values(h: History, keys: Seq<Seq<u8>>) -> nat
    decreases keys.len(),
{
    if keys.len() == 0 {
        0
    } else {
        sum_of_values(h, keys.drop_last()) + (match h.latest[keys.last()].value {
            Some(v) => v.len(),
            None => 0,
        })
    }
}

proof fn lemma_all_kept(h: History, keys: Seq<Seq<u8>>)
    requires
        forall|i: int|
            0 <= i < keys.len() ==> h.latest[#[trigger] keys[i]].mod_revision <= h.compacted,
    ensures
        h.kept_bytes(keys) == sum_of_values(h, keys),
    decreases keys.len(),
{
    if keys.len() > 0 {
        assert(h.latest[keys[keys.len() - 1]].mod_revision <= h.compacted);
        assert forall|i: int| 0 <= i < keys.drop_last().len() implies h.latest[
        #[trigger] keys.drop_last()[i]].mod_revision <= h.compacted by {
            assert(keys[i] == keys.drop_last()[i]);
        }
        lemma_all_kept(h, keys.drop_last());
    }
}

/// Where all writes are compacted, the size of the store is that of the last values.
pub proof fn law_size_of_last_values(h: History)
    requires
        h.valid(),
        h.latest.dom().finite(),
        h.log.len() == 0,
    ensures
        h.bytes() == sum_of_values(h, in_order::<Vec<u8>>(h.latest.dom())),
{
    let keys = in_order::<Vec<u8>>(h.latest.dom());
    lemma_ordered_once(h.latest.dom());
    assert forall|i: int| 0 <= i < keys.len() implies h.latest[#[trigger] keys[i]].mod_revision
        <= h.compacted by {
        assert(keys.contains(keys[i]));
        assert(h.latest.contains_key(keys[i]));
    }
    lemma_all_kept(h, keys);
}

// --------------------------------------------------------------- refusals

/// Which ranges are refused, and why: a revision that is still to come, one that is
/// compacted, and a range over several prefixes. Zero stands for the last revision.
pub proof fn law_refused_ranges(s: StoreView, start: Seq<u8>, end: Seq<u8>, rev: int)
    ensures
        ({
            let h = s.history;
            let e = s.range_error(start, end, rev);
            let last = h.compacted + h.log.len();
            &&& rev > last ==> e == Some(future_error())
            &&& 0 < rev <= h.compacted ==> e == Some(compacted_error())
            &&& rev <= last && !(0 < rev <= h.compacted) ==> e is Some == !one_prefix(start, end)
            &&& rev <= last && !(0 < rev <= h.compacted) && e is Some ==> e->0.code
                == Code::InvalidArgument
            &&& s.read_revision(0) == last
            &&& rev != 0 ==> s.read_revision(rev) == rev
            &&& future_error().code == Code::OutOfRange
            &&& compacted_error().code == Code::OutOfRange
            &&& future_error().message != compacted_error().message
        }),
{
    reveal_strlit("etcdserver: mvcc: required revision is a future revision");
    reveal_strlit("etcdserver: mvcc: required revision has been compacted");
    assert(future_error().message.len() != compacted_error().message.len());
}

/// A compaction drops the writes before its revision and no others, and no last value of
/// a key.
pub proof fn law_compaction_keeps_writes(h: History, rev: int, x: int)
    requires
        h.compacted < rev <= h.compacted + h.log.len(),
    ensures
        ({
            let g = h.after_compaction(rev);
            &&& g.compacted == rev - 1
            &&& g.compacted + g.log.len() == h.compacted + h.log.len()
            &&& g.latest == h.latest
            &&& rev <= x <= h.compacted + h.log.len() ==> g.has(x) && g.at(x) == h.at(x)
            &&& x < rev ==> !g.has(x)
        }),
{
}

/// A log that is off keeps nothing. Any other keeps the records of all prefixes that it is
/// not told to leave out.
pub proof fn law_what_the_log_keeps(left_out: Set<Seq<u8>>, prefix: Seq<u8>)
    ensures
        !is_kept(WalMode::Off, left_out, prefix),
        is_kept(WalMode::Async, left_out, prefix) == !left_out.contains(prefix),
        is_kept(WalMode::Sync, left_out, prefix) == !left_out.contains(prefix),
{
}

/// Who names no revision or no version requires none, also with a negative number, and
/// else what they name.
pub proof fn law_named_requirements(
    h: History,
    key: Seq<u8>,
    value: Option<Seq<u8>>,
    required: SetRequired,
)
    ensures
        last_revision_of(None) < 0,
        version_of(None) < 0,
        required.required_last_revision is None ==> last_revision_of(Some(required)) < 0,
        required.required_version is None ==> version_of(Some(required)) < 0,
        required.required_last_revision matches Some(n) ==> last_revision_of(Some(required)) == n,
        required.required_version matches Some(n) ==> version_of(Some(required)) == n,
        h.accepts(key, value, last_revision_of(None), version_of(None)) == (value is Some || (
        h.latest.contains_key(key) && h.latest[key].value is Some)),
{
}

/// Which ranges the store can walk over: all whose end does not come before their start,
/// and with a revision that is not negative. Of the others it can those that hold nothing.
pub proof fn law_ranges_that_can_be_walked(s: StoreView, start: Seq<u8>, end: Seq<u8>, rev: int)
    ensures
        rev >= 0 && (end.len() == 0 || !lex_lt(end, start)) ==> s.answers(start, end, rev),
        rev >= 0 && end.len() > 0 && lex_lt(end, start) && prefix_of(start) == prefix_of(end)
            ==> s.answers(start, end, rev) == !exists|k: Seq<u8>| #[trigger]
            s.history.latest.contains_key(k) && prefix_of(k) == prefix_of(start),
        rev >= 0 && prefix_of(start) != prefix_of(end) ==> s.answers(start, end, rev),
        rev < 0 && one_prefix(start, end) && s.answers(start, end, rev)
            ==> s.history.matching(start, end).len() == 0,
{
}

} // verus!
