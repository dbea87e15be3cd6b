//! The store: keys with their values at every revision, and watchers.

use crate::block_deque::BlockDeque;
use crate::history::{
    kv_of, lemma_compaction_valid, lemma_kept_bytes, lemma_last_write_is, lemma_no_write,
    lemma_write_valid, lemma_writes_gap, logged_bytes, requirement, value_bytes, History,
    ValueView, Write,
};
use crate::keyspace;
use crate::keyspace::{
    in_range, inverted, lemma_selected, lemma_split_point, one_prefix, prefix_of, selected,
    span_error, suffix_of, Bound, BoundView,
};
use crate::mvccpb::{
    change_views, copy_bytes, kv_views, opt_kv, KeyValue, KeyValueView, KeyValueWithPrev,
};
use crate::notify::{job_views, opt_vec, JobView, NotifyJob, WalMode, WalRecord};
use crate::order::{bytes_equal, bytes_less, lex_le, lex_lt, OrderedKey};
use crate::outside::{
    byte_set_contains, byte_set_contents, bytes_clone, bytes_contents, bytes_empty, bytes_from_vec, bytes_len, bytes_to_vec,
    index_contents, index_get, index_insert, index_new, utf8_lossy, utf8_lossy_text,
};
use crate::rpc::status::{Code, Status, StatusView};
use crate::sorted_map::{ascending, enumerates, in_order, lemma_enumeration, lemma_in_order, SortedMap};
use crate::transfer::{
    entry_view, entry_views, has_key, importable, last_of_key, law_import_lists, listed, newest,
    sound, value_of, KvEntry,
};
use bytes::Bytes;
use dashmap::{DashMap, DashSet};
use vstd::prelude::*;

verus! {

/// What a revision wrote under a key. Without a value it is a deletion.
#[derive(Debug)]
pub struct Value {
    pub create_revision: i64,
    pub mod_revision: i64,
    pub version: i64,
    pub value: Option<Bytes>,
}

/// The bytes of a value that may be absent.
pub open spec fn opt_bytes(b: Option<Bytes>) -> Option<Seq<u8>> {
    match b {
        Some(b) => Some(bytes_contents(b)),
        None => None,
    }
}

impl View for Value {
    type V = ValueView;

    open spec fn view(&self) -> ValueView {
        ValueView {
            create_revision: self.create_revision as int,
            mod_revision: self.mod_revision as int,
            version: self.version as int,
            value: opt_bytes(self.value),
        }
    }
}

impl Clone for Value {
    fn clone(&self) -> (r: Value)
        ensures
            r@ == self@,
    {
        Value {
            create_revision: self.create_revision,
            mod_revision: self.mod_revision,
            version: self.version,
            value: match &self.value {
                Some(b) => Some(bytes_clone(b)),
                None => None,
            },
        }
    }
}

/// The writes of a single key.
struct TreeItem {
    key: Vec<u8>,
    /// The revisions that wrote the key, but for some that are compacted.
    revisions: Vec<i64>,
    latest_value: Value,
}

/// The keys of one prefix: what follows the prefix leads to the item.
struct PrefixMapItem {
    prefix: Ghost<Seq<u8>>,
    btree: SortedMap<Vec<u8>, usize>,
}

/// A client that watches a range.
#[derive(Debug)]
pub struct Watcher {
    pub start_revision: i64,
    pub key_range_start: Vec<u8>,
    pub key_range_end: Vec<u8>,
}

/// What a [`Watcher`] says.
#[verifier::ext_equal]
pub struct WatcherView {
    pub start_revision: int,
    pub start: Seq<u8>,
    pub end: Seq<u8>,
}

impl View for Watcher {
    type V = WatcherView;

    open spec fn view(&self) -> WatcherView {
        WatcherView {
            start_revision: self.start_revision as int,
            start: self.key_range_start@,
            end: self.key_range_end@,
        }
    }
}

impl WatcherView {
    /// The watcher is to be told of a write.
    pub open spec fn wants(self, key: Seq<u8>, rev: int) -> bool {
        self.start_revision <= rev && in_range(key, self.start, self.end)
    }
}

/// What must be there for a write to take place.
#[derive(Debug)]
pub struct SetRequired {
    pub required_last_revision: Option<i64>,
    pub required_version: Option<i64>,
}

impl Default for SetRequired {
    fn default() -> (r: SetRequired)
        ensures
            r.required_last_revision is None,
            r.required_version is None,
    {
        SetRequired { required_last_revision: None, required_version: None }
    }
}

/// The required last revision, where a negative number requires nothing.
pub open spec fn last_revision_of(required: Option<SetRequired>) -> int {
    match required {
        Some(r) => requirement(r.required_last_revision),
        None => -1,
    }
}

/// The required version, where a negative number requires nothing.
pub open spec fn version_of(required: Option<SetRequired>) -> int {
    match required {
        Some(r) => requirement(r.required_version),
        None => -1,
    }
}

/// What a range holds.
#[derive(Debug)]
pub struct RangeResult {
    pub kvs: Vec<KeyValue>,
    pub latest_rev: i64,
    pub count: i64,
}

/// What a [`RangeResult`] says.
#[verifier::ext_equal]
pub struct RangeView {
    pub kvs: Seq<KeyValueView>,
    pub latest_rev: int,
    pub count: int,
}

impl View for RangeResult {
    type V = RangeView;

    open spec fn view(&self) -> RangeView {
        RangeView {
            kvs: kv_views(self.kvs@),
            latest_rev: self.latest_rev as int,
            count: self.count as int,
        }
    }
}

/// The settings of the write-ahead log.
#[derive(Debug)]
pub struct WalSettings {
    pub wal_dir: String,
    pub default_mode: WalMode,
    pub load_wal_dir: bool,
    pub prefix_modes_no_persist: DashSet<Vec<u8>>,
}

/// The log keeps the records of a prefix.
pub open spec fn is_kept(mode: WalMode, left_out: Set<Seq<u8>>, prefix: Seq<u8>) -> bool {
    mode != WalMode::Off && !left_out.contains(prefix)
}

impl WalSettings {
    /// Whether a record is written: the log is not off, and keeps the prefix.
    pub fn keeps(&self, record: &WalRecord) -> (r: bool)
        ensures
            r == is_kept(
                self.default_mode,
                byte_set_contents(self.prefix_modes_no_persist),
                record.prefix@,
            ),
    {
        self.default_mode != WalMode::Off && !byte_set_contains(
            &self.prefix_modes_no_persist,
            record.prefix.as_slice(),
        )
    }
}

/// In-memory store that tracks revisions and watchers.
pub struct Store {
    prefix_map: DashMap<Vec<u8>, usize>,
    prefixes: Vec<PrefixMapItem>,
    tree_map: DashMap<Vec<u8>, usize>,
    items: Vec<TreeItem>,
    values_by_revision: BlockDeque<Value, 1048576>,
    log_keys: Ghost<Seq<Seq<u8>>>,
    watchers: SortedMap<(Vec<u8>, i64), Watcher>,
    watch_counter: i64,
    wal_sync: bool,
    jobs: Vec<NotifyJob>,
    progress_rev: i64,
}

/// The model of a [`Store`].
#[verifier::ext_equal]
pub struct StoreView {
    pub history: History,
    pub watchers: Map<(Seq<u8>, i64), WatcherView>,
    /// How many watchers there have been.
    pub watch_counter: int,
    /// The jobs that have not been taken.
    pub jobs: Seq<JobView>,
    /// The last revision that watchers have been told of.
    pub progress: int,
    /// Writes wait for the log.
    pub wal_sync: bool,
}

/// The status for a revision that is yet to come.
pub open spec fn future_error() -> StatusView {
    StatusView {
        code: Code::OutOfRange,
        message: "etcdserver: mvcc: required revision is a future revision"@,
    }
}

/// The status for a revision that is no longer there.
pub open spec fn compacted_error() -> StatusView {
    StatusView {
        code: Code::OutOfRange,
        message: "etcdserver: mvcc: required revision has been compacted"@,
    }
}

/// The status for a compaction to a revision that was compacted before.
pub open spec fn compact_failed_error() -> StatusView {
    StatusView { code: Code::Internal, message: "etcdserver: mvcc: compact failed"@ }
}

impl StoreView {
    /// The job that a write sets off.
    pub open spec fn job(self, key: Seq<u8>, value: Option<Seq<u8>>) -> JobView {
        let rev = self.history.current() + 1;
        let msg = self.history.news(key, value);
        JobView {
            rev,
            watchers: watchers_for(self.watchers, key, rev),
            msg,
            prefix: utf8_lossy_text(prefix_of(key)),
            size: msg.kv.value.len() + (match msg.prev_kv {
                Some(kv) => kv.value.len() as int,
                None => 0,
            }),
            wal_sync: self.wal_sync,
        }
    }

    /// The store after a write.
    pub open spec fn after_write(self, key: Seq<u8>, value: Option<Seq<u8>>) -> StoreView {
        StoreView {
            history: self.history.after_write(key, value),
            jobs: self.jobs.push(self.job(key, value)),
            ..self
        }
    }

    /// The store after a watcher was registered for a range: from a positive
    /// revision on, or from the last one.
    pub open spec fn after_watch(self, start: Seq<u8>, end: Seq<u8>, rev: int) -> StoreView {
        StoreView {
            watchers: self.watchers.insert(
                (start, (self.watch_counter + 1) as i64),
                WatcherView {
                    start_revision: if rev <= 0 {
                        self.history.current()
                    } else {
                        rev
                    },
                    start,
                    end,
                },
            ),
            watch_counter: self.watch_counter + 1,
            ..self
        }
    }

    /// The store after the pairs of another one took the place of its own.
    pub open spec fn after_import(self, kvs: Seq<KeyValueView>) -> StoreView {
        StoreView { history: self.history.after_import(kvs), ..self }
    }

    /// The store after a record of the log was written into it.
    pub open spec fn after_record(self, key: Seq<u8>, value: Option<Seq<u8>>) -> StoreView {
        if self.history.accepts(key, value, -1, -1) {
            self.after_write(key, value)
        } else {
            self
        }
    }

    /// A revision can follow the last one.
    pub open spec fn has_room(self) -> bool {
        self.history.current() < i64::MAX && self.history.current() < usize::MAX
    }

    /// The revision that a read asks for, which is the last one for zero.
    pub open spec fn read_revision(self, rev: int) -> int {
        if rev == 0 {
            self.history.current()
        } else {
            rev
        }
    }

    /// A range that the store can walk over: its end does not come before its start
    /// in a prefix that has keys, and its revision is not negative unless it selects
    /// nothing.
    pub open spec fn answers(self, start: Seq<u8>, end: Seq<u8>, rev: int) -> bool {
        &&& inverted(start, end) ==> !self.history.has_prefix(prefix_of(start))
        &&& rev < 0 && one_prefix(start, end) ==> self.history.matching(start, end).len() == 0
    }

    /// Why a range is refused, if it is.
    pub open spec fn range_error(self, start: Seq<u8>, end: Seq<u8>, rev: int) -> Option<
        StatusView,
    > {
        if rev > self.history.current() {
            Some(future_error())
        } else if 0 < rev <= self.history.compacted {
            Some(compacted_error())
        } else if !one_prefix(start, end) {
            Some(span_error(start, end))
        } else {
            None
        }
    }

    /// What a range holds: of the selected keys, in order, the pairs that were there
    /// at the revision, up to the limit.
    pub open spec fn range(self, start: Seq<u8>, end: Seq<u8>, rev: int, limit: int) -> RangeView {
        let h = self.history;
        let at = self.read_revision(rev);
        let live = h.live_keys(h.matching(start, end), at);
        RangeView {
            kvs: h.pairs(
                live.take(
                    if live.len() < limit {
                        live.len() as int
                    } else {
                        limit
                    },
                ),
                at,
            ),
            latest_rev: h.current(),
            count: h.tally(h.matching(start, end), at, limit) as int,
        }
    }
}

/// The watchers to tell of a write, in the order of what they watch.
pub open spec fn watchers_for(
    watchers: Map<(Seq<u8>, i64), WatcherView>,
    key: Seq<u8>,
    rev: int,
) -> Seq<i64> {
    in_order::<(Vec<u8>, i64)>(
        Set::new(
            |k: (Seq<u8>, i64)| watchers.contains_key(k) && watchers[k].wants(key, rev),
        ),
    ).map_values(|k: (Seq<u8>, i64)| k.1)
}

/// The views of watchers.
pub open spec fn watcher_views(m: Map<(Seq<u8>, i64), Watcher>) -> Map<
    (Seq<u8>, i64),
    WatcherView,
> {
    m.map_values(|w: Watcher| w@)
}

/// The keys of some items.
closed spec fn item_keys(items: Seq<TreeItem>) -> Seq<Seq<u8>> {
    items.map_values(|i: TreeItem| i.key@)
}

/// Every key leads to its item.
closed spec fn index_ok(tree: Map<Seq<u8>, usize>, keys: Seq<Seq<u8>>) -> bool {
    &&& forall|k: Seq<u8>| #[trigger]
        tree.contains_key(k) ==> tree[k] < keys.len() && keys[tree[k] as int] == k
    &&& forall|i: int|
        0 <= i < keys.len() ==> tree.contains_key(#[trigger] keys[i]) && tree[keys[i]] == i
}

/// What the keys of a prefix lead to.
closed spec fn prefix_ok(p: PrefixMapItem, keys: Seq<Seq<u8>>) -> bool {
    &&& p.btree.wf()
    &&& forall|s: Seq<u8>| #[trigger]
        p.btree@.contains_key(s) ==> {
            &&& p.btree@[s] < keys.len()
            &&& prefix_of(keys[p.btree@[s] as int]) == p.prefix@
            &&& suffix_of(keys[p.btree@[s] as int]) == s
        }
    &&& p.btree.key_seq().len() > 0
}

/// Every prefix leads to its keys, and every key stands under its prefix.
closed spec fn tree_ok(
    map: Map<Seq<u8>, usize>,
    prefixes: Seq<PrefixMapItem>,
    keys: Seq<Seq<u8>>,
) -> bool {
    &&& forall|p: Seq<u8>| #[trigger]
        map.contains_key(p) ==> map[p] < prefixes.len() && prefixes[map[p] as int].prefix@ == p
    &&& forall|i: int|
        0 <= i < prefixes.len() ==> {
            &&& prefix_ok(#[trigger] prefixes[i], keys)
            &&& map.contains_key(prefixes[i].prefix@)
            &&& map[prefixes[i].prefix@] == i
        }
    &&& forall|j: int|
        0 <= j < keys.len() ==> {
            let k = #[trigger] keys[j];
            &&& map.contains_key(prefix_of(k))
            &&& prefixes[map[prefix_of(k)] as int].btree@.contains_key(suffix_of(k))
            &&& prefixes[map[prefix_of(k)] as int].btree@[suffix_of(k)] == j
        }
}

/// Ascending numbers.
closed spec fn increasing(s: Seq<i64>) -> bool {
    forall|i: int, j: int| #![trigger s[i], s[j]] 0 <= i < j < s.len() ==> s[i] < s[j]
}

/// An item has the revisions that wrote its key.
closed spec fn item_ok(item: TreeItem, h: History) -> bool {
    &&& increasing(item.revisions@)
    &&& forall|i: int|
        0 <= i < item.revisions@.len() ==> 1 <= #[trigger] item.revisions@[i] <= h.current()
    &&& forall|i: int|
        0 <= i < item.revisions@.len() && #[trigger] item.revisions@[i] > h.compacted ==> h.wrote(
            item.key@,
            item.revisions@[i] as int,
        )
    &&& forall|r: int| #[trigger]
        h.wrote(item.key@, r) ==> exists|i: int|
            0 <= i < item.revisions@.len() && item.revisions@[i] == r
}

/// The number of revisions up to `rev`.
fn position_after(revs: &Vec<i64>, rev: i64) -> (p: usize)
    requires
        increasing(revs@),
    ensures
        p <= revs@.len(),
        forall|i: int| 0 <= i < p ==> #[trigger] revs@[i] <= rev,
        forall|i: int| p <= i < revs@.len() ==> #[trigger] revs@[i] > rev,
{
    let mut lo: usize = 0;
    let mut hi: usize = revs.len();
    while lo < hi
        invariant
            increasing(revs@),
            lo <= hi <= revs@.len(),
            forall|i: int| 0 <= i < lo ==> #[trigger] revs@[i] <= rev,
            forall|i: int| hi <= i < revs@.len() ==> #[trigger] revs@[i] > rev,
        decreases hi - lo,
    {
        let mid: usize = lo + (hi - lo) / 2;
        if revs[mid] <= rev {
            lo = mid + 1;
        } else {
            hi = mid;
        }
    }
    lo
}

impl View for Store {
    type V = StoreView;

    closed spec fn view(&self) -> StoreView {
        StoreView {
            history: self.history(),
            watchers: watcher_views(self.watchers@),
            watch_counter: self.watch_counter as int,
            jobs: job_views(self.jobs@),
            progress: self.progress_rev as int,
            wal_sync: self.wal_sync,
        }
    }
}

impl Store {
    closed spec fn tree(&self) -> Map<Seq<u8>, usize> {
        index_contents(self.tree_map)
    }

    closed spec fn history(&self) -> History {
        History {
            compacted: self.values_by_revision@.start,
            log: Seq::new(
                self.values_by_revision@.items.len(),
                |i: int|
                    Write {
                        key: self.log_keys@[i],
                        value: self.values_by_revision@.items[i]@,
                    },
            ),
            latest: Map::new(
                |k: Seq<u8>| self.tree().contains_key(k),
                |k: Seq<u8>| self.items@[self.tree()[k] as int].latest_value@,
            ),
        }
    }

    closed spec fn watchers_ok(&self) -> bool {
        &&& self.watchers.wf()
        &&& 0 <= self.watch_counter < i64::MAX
        &&& self.watchers.key_seq().len() <= self.watch_counter
        &&& forall|k: (Seq<u8>, i64)| #[trigger]
            self.watchers@.contains_key(k) ==> {
                &&& 1 <= k.1 <= self.watch_counter
                &&& self.watchers@[k].key_range_start@ == k.0
            }
    }

    /// What holds of every store.
    pub closed spec fn wf(&self) -> bool {
        &&& self.values_by_revision.wf()
        &&& self.log_keys@.len() == self.values_by_revision@.items.len()
        &&& index_ok(self.tree(), item_keys(self.items@))
        &&& tree_ok(
            index_contents(self.prefix_map),
            self.prefixes@,
            item_keys(self.items@),
        )
        &&& forall|i: int|
            0 <= i < self.items@.len() ==> item_ok(#[trigger] self.items@[i], self.history())
        &&& self.history().valid()
        &&& self.items@.len() <= self.history().current() <= i64::MAX
        &&& self.history().current() <= usize::MAX
        &&& self.watchers_ok()
    }

    /// What every store knows of its model.
    pub proof fn lemma_wf(&self)
        requires
            self.wf(),
        ensures
            self@.history.valid(),
            self@.history.current() <= i64::MAX,
            self@.history.current() <= usize::MAX,
            0 <= self@.watch_counter < i64::MAX,
            forall|k: (Seq<u8>, i64)| #[trigger]
                self@.watchers.contains_key(k) ==> {
                    &&& 1 <= k.1 <= self@.watch_counter
                    &&& self@.watchers[k].start == k.0
                },
            self@.watchers.dom().finite(),
            self@.history.latest.dom().finite(),
            self@.history.fits(),
    {
        let ids = self.watchers.key_seq();
        assert(self@.watchers.dom() =~= ids.to_set());
        let keys = item_keys(self.items@);
        assert(self.history().latest.dom() =~= keys.to_set()) by {
            assert forall|k: Seq<u8>| self.tree().contains_key(k) <==> keys.contains(k) by {
                if self.tree().contains_key(k) {
                    assert(keys[self.tree()[k] as int] == k);
                }
                if keys.contains(k) {
                    let i = choose|i: int| 0 <= i < keys.len() && keys[i] == k;
                    assert(self.tree().contains_key(keys[i]));
                }
            }
        }
        vstd::seq_lib::seq_to_set_is_finite(ids);
        vstd::seq_lib::seq_to_set_is_finite(keys);
        keys.lemma_cardinality_of_set();
    }

    /// A new store without keys.
    pub fn new(wal_settings: Option<WalSettings>) -> (r: Store)
        ensures
            r.wf(),
            r@ == (StoreView {
                history: History::empty(),
                watchers: Map::<(Seq<u8>, i64), WatcherView>::empty(),
                watch_counter: 0,
                jobs: Seq::<JobView>::empty(),
                progress: 0,
                wal_sync: wal_settings matches Some(w) && w.default_mode == WalMode::Sync,
            }),
    {
        let wal_sync = match &wal_settings {
            Some(w) => w.default_mode == WalMode::Sync,
            None => false,
        };
        let r = Store {
            prefix_map: index_new(),
            prefixes: Vec::new(),
            tree_map: index_new(),
            items: Vec::new(),
            values_by_revision: BlockDeque::new(),
            log_keys: Ghost(Seq::empty()),
            watchers: SortedMap::new(),
            watch_counter: 0,
            wal_sync,
            jobs: Vec::new(),
            progress_rev: 0,
        };
        proof {
            assert(r.history() =~= History::empty());
            assert(r@.watchers =~= Map::empty());
            assert(r@.jobs =~= Seq::empty());
        }
        r
    }

    /// The last revision.
    pub fn current_revision(&self) -> (r: i64)
        requires
            self.wf(),
        ensures
            r == self@.history.current(),
    {
        self.values_by_revision.latest_revision() as i64
    }

    /// The revision up to which the writes are compacted.
    pub fn compacted_revision(&self) -> (r: i64)
        requires
            self.wf(),
        ensures
            r == self@.history.compacted,
    {
        self.values_by_revision.earliest_revision() as i64
    }

    /// The bytes of all values that are kept.
    pub fn value_bytes(&self) -> (n: u128)
        requires
            self.wf(),
        ensures
            n == self@.history.bytes(),
    {
        let ghost h = self.history();
        let start = self.values_by_revision.earliest_revision();
        let end = self.values_by_revision.latest_revision();
        let mut n: u128 = 0;
        let mut i: usize = start;
        assert(h.log.take(0) =~= Seq::empty());
        while i < end
            invariant
                self.wf(),
                h == self.history(),
                start == self.values_by_revision@.start,
                end == self.values_by_revision@.end(),
                start <= i <= end,
                n == logged_bytes(h.log.take(i - start)),
                n <= (i - start) * 0x7fff_ffff_ffff_ffff,
            decreases end - i,
        {
            let ghost next = h.log.take(i + 1 - start);
            proof {
                assert(next.drop_last() =~= h.log.take(i - start));
                assert(next.last() == h.log[i - start]);
                assert(self.values_by_revision@.has(i as int));
            }
            if let Some(v) = self.values_by_revision.at(i) {
                n = n + Self::size_of_value(v);
            }
            i += 1;
        }
        let ghost logged = n;
        let ghost keys = item_keys(self.items@);
        let mut j: usize = 0;
        assert(h.log.take(h.log.len() as int) =~= h.log);
        assert(keys.take(0) =~= Seq::empty());
        while j < self.items.len()
            invariant
                self.wf(),
                h == self.history(),
                start == h.compacted,
                keys == item_keys(self.items@),
                j <= keys.len() == self.items@.len(),
                n == logged + h.kept_bytes(keys.take(j as int)),
                logged <= 0x7fff_ffff_ffff_ffff * 0x7fff_ffff_ffff_ffff,
                n <= logged + j * 0x7fff_ffff_ffff_ffff,
            decreases keys.len() - j,
        {
            let item = &self.items[j];
            proof {
                let next = keys.take(j + 1);
                assert(next.drop_last() =~= keys.take(j as int));
                assert(next.last() == keys[j as int]);
                assert(self.tree()[keys[j as int]] == j);
                assert(h.latest[keys[j as int]] == item.latest_value@);
                assert(j * 0x7fff_ffff_ffff_ffff <= 0x7fff_ffff_ffff_ffff * 0x7fff_ffff_ffff_ffff);
            }
            if item.latest_value.mod_revision as i128 <= start as i128 {
                n = n + Self::size_of_value(&item.latest_value);
            }
            j += 1;
        }
        proof {
            assert(keys.take(keys.len() as int) =~= keys);
            self.lemma_wf();
            lemma_enumeration::<Vec<u8>>(h.latest.dom());
            let ordered = in_order::<Vec<u8>>(h.latest.dom());
            assert forall|a: int, b: int|
                0 <= a < ordered.len() && 0 <= b < ordered.len() && a != b implies ordered[a]
                != ordered[b] by {
                if ordered[a] == ordered[b] {
                    crate::sorted_map::ascending_unique::<Vec<u8>>(ordered, a, b);
                }
            }
            assert forall|k: Seq<u8>| keys.contains(k) <==> ordered.contains(k) by {
                if keys.contains(k) {
                    let a = choose|a: int| 0 <= a < keys.len() && keys[a] == k;
                    assert(self.tree().contains_key(keys[a]));
                    assert(h.latest.dom().contains(k));
                }
                if ordered.contains(k) {
                    assert(h.latest.dom().contains(k));
                    assert(keys[self.tree()[k] as int] == k);
                }
            }
            lemma_kept_bytes(h, keys, ordered);
        }
        n
    }

    fn size_of_value(v: &Value) -> (n: u128)
        ensures
            n == value_bytes(v@),
            n <= 0x7fff_ffff_ffff_ffff,
    {
        match &v.value {
            Some(b) => bytes_len(b) as u128,
            None => 0,
        }
    }

    /// The last revision that watchers have been told of.
    pub fn progress_revision(&self) -> (r: i64)
        ensures
            r == self@.progress,
    {
        self.progress_rev
    }

    /// Records that watchers have been told of a revision.
    pub fn set_progress_revision(&mut self, rev: i64)
        requires
            old(self).wf(),
        ensures
            final(self).wf(),
            final(self)@ == (StoreView { progress: rev as int, ..old(self)@ }),
    {
        self.progress_rev = rev;
        assert(self.history() =~= old(self).history());
    }

    /// Takes the jobs that writes have set off.
    pub fn take_jobs(&mut self) -> (r: Vec<NotifyJob>)
        requires
            old(self).wf(),
        ensures
            final(self).wf(),
            job_views(r@) == old(self)@.jobs,
            final(self)@ == (StoreView { jobs: Seq::<JobView>::empty(), ..old(self)@ }),
    {
        let mut r: Vec<NotifyJob> = Vec::new();
        r.append(&mut self.jobs);
        proof {
            assert(r@ =~= old(self).jobs@);
            assert(self.history() =~= old(self).history());
            assert(self@.jobs =~= Seq::empty());
        }
        r
    }

    /// A written value as clients see it.
    fn as_mvcc_key_value(v: &Value, key: &Vec<u8>) -> (r: KeyValue)
        ensures
            r@ == kv_of(key@, v@),
    {
        let is_deleted = v.value.is_none();
        KeyValue {
            key: copy_bytes(key),
            create_revision: if is_deleted {
                0
            } else {
                v.create_revision
            },
            mod_revision: v.mod_revision,
            version: if is_deleted {
                0
            } else {
                v.version
            },
            value: match &v.value {
                Some(b) => bytes_clone(b),
                None => bytes_empty(),
            },
            lease: 0,
        }
    }

    /// Whether a watcher is to be told of a write.
    fn wants(w: &Watcher, key: &Vec<u8>, rev: i64) -> (r: bool)
        ensures
            r == w@.wants(key@, rev as int),
    {
        if w.start_revision > rev {
            return false;
        }
        if w.key_range_end.len() == 0 {
            bytes_equal(key.as_slice(), w.key_range_start.as_slice())
        } else {
            proof {
                crate::order::lex_total(key@, w.key_range_start@);
                if lex_lt(key@, w.key_range_start@) {
                    crate::order::lex_asymmetric(key@, w.key_range_start@);
                }
            }
            bytes_less(key.as_slice(), w.key_range_end.as_slice()) && !bytes_less(
                key.as_slice(),
                w.key_range_start.as_slice(),
            )
        }
    }

    /// The watchers to tell of a write.
    fn watchers_to_notify(&self, key: &Vec<u8>, rev: i64) -> (ids: Vec<i64>)
        requires
            self.watchers_ok(),
        ensures
            ids@ == watchers_for(watcher_views(self.watchers@), key@, rev as int),
    {
        let ghost views = watcher_views(self.watchers@);
        let ghost all = self.watchers.key_seq();
        let ghost mut told: Seq<(Seq<u8>, i64)> = Seq::empty();
        let limit = (copy_bytes(key), i64::MAX);
        let hi = self.watchers.lower_bound(&limit);
        let mut ids: Vec<i64> = Vec::new();
        let mut i: usize = 0;
        while i < hi
            invariant
                self.watchers_ok(),
                all == self.watchers.key_seq(),
                views == watcher_views(self.watchers@),
                i <= hi <= all.len(),
                ascending::<(Vec<u8>, i64)>(told),
                forall|j: int|
                    0 <= j < told.len() ==> {
                        &&& views.contains_key(#[trigger] told[j])
                        &&& views[told[j]].wants(key@, rev as int)
                        &&& exists|m: int| 0 <= m < i && all[m] == told[j]
                    },
                forall|m: int|
                    0 <= m < i && views[#[trigger] all[m]].wants(key@, rev as int)
                        ==> told.contains(all[m]),
                ids@ == told.map_values(|k: (Seq<u8>, i64)| k.1),
            decreases hi - i,
        {
            proof {
                self.watchers.lemma_at(i as int);
            }
            let ghost before = told;
            if Self::wants(self.watchers.value(i), key, rev) {
                let k = self.watchers.key(i);
                ids.push(k.1);
                proof {
                    told = told.push(all[i as int]);
                    assert forall|a: int, b: int|
                        #![trigger told[a], told[b]]
                        0 <= a < b < told.len() implies <(
                        Vec<u8>,
                        i64,
                    ) as OrderedKey>::before(told[a], told[b]) by {
                        assert(told[a] == before[a]);
                        let m = choose|m: int| 0 <= m < i && all[m] == before[a];
                        if b == told.len() - 1 {
                            assert(told[b] == all[i as int]);
                        } else {
                            assert(told[b] == before[b]);
                        }
                    }
                    assert forall|j: int| 0 <= j < told.len() implies {
                        &&& views.contains_key(#[trigger] told[j])
                        &&& views[told[j]].wants(key@, rev as int)
                        &&& exists|m: int| 0 <= m < i + 1 && all[m] == told[j]
                    } by {
                        if j < before.len() {
                            assert(told[j] == before[j]);
                            let m = choose|m: int| 0 <= m < i && all[m] == before[j];
                            assert(all[m] == told[j]);
                        } else {
                            assert(told[j] == all[i as int]);
                        }
                    }
                    assert forall|m: int|
                        0 <= m < i + 1 && views[#[trigger] all[m]].wants(
                            key@,
                            rev as int,
                        ) implies told.contains(all[m]) by {
                        if m < i {
                            assert(before.contains(all[m]));
                            let j = choose|j: int| 0 <= j < before.len() && before[j] == all[m];
                            assert(told[j] == all[m]);
                        } else {
                            assert(told[told.len() - 1] == all[m]);
                        }
                    }
                    assert(ids@ =~= told.map_values(|k: (Seq<u8>, i64)| k.1));
                }
            } else {
                proof {
                    assert forall|j: int| 0 <= j < told.len() implies {
                        &&& views.contains_key(#[trigger] told[j])
                        &&& views[told[j]].wants(key@, rev as int)
                        &&& exists|m: int| 0 <= m < i + 1 && all[m] == told[j]
                    } by {
                        let m = choose|m: int| 0 <= m < i && all[m] == told[j];
                        assert(all[m] == told[j]);
                    }
                }
            }
            i += 1;
        }
        proof {
            let s = Set::new(
                |k: (Seq<u8>, i64)| views.contains_key(k) && views[k].wants(key@, rev as int),
            );
            assert forall|k: (Seq<u8>, i64)| told.contains(k) <==> #[trigger] s.contains(k) by {
                if s.contains(k) {
                    let m = self.watchers.lemma_position(k);
                    if m >= hi {
                        assert(!<(Vec<u8>, i64) as OrderedKey>::before(all[m], limit@));
                        assert(lex_le(k.0, key@));
                    }
                    assert(told.contains(all[m]));
                }
            }
            lemma_in_order::<(Vec<u8>, i64)>(told, s);
        }
        ids
    }

    /// The job for the notification of a write.
    fn notify_watchers(
        &self,
        key: &Vec<u8>,
        value: &Value,
        prev_value: &Option<Value>,
        prefix: &[u8],
    ) -> (job: NotifyJob)
        requires
            self.watchers_ok(),
        ensures
            ({
                let prev = match *prev_value {
                    Some(v) => Some(kv_of(key@, v@)),
                    None => None,
                };
                let kv = kv_of(key@, value@);
                job@ == JobView {
                    rev: value@.mod_revision,
                    watchers: watchers_for(
                        watcher_views(self.watchers@),
                        key@,
                        value@.mod_revision,
                    ),
                    msg: crate::mvccpb::ChangeView { kv, prev_kv: prev },
                    prefix: utf8_lossy_text(prefix@),
                    size: kv.value.len() + (match prev {
                        Some(p) => p.value.len() as int,
                        None => 0,
                    }),
                    wal_sync: self.wal_sync,
                }
            }),
    {
        let watchers = self.watchers_to_notify(key, value.mod_revision);
        let kv = Self::as_mvcc_key_value(value, key);
        let prev_kv = match prev_value {
            Some(v) => Some(Self::as_mvcc_key_value(v, key)),
            None => None,
        };
        let prev_len: u64 = match &prev_kv {
            Some(p) => bytes_len(&p.value) as u64,
            None => 0,
        };
        let kv_len: u64 = bytes_len(&kv.value) as u64;
        NotifyJob {
            rev: value.mod_revision,
            watchers,
            watch_result_size: kv_len + prev_len,
            msg: KeyValueWithPrev { prev_kv, kv },
            prefix_str: utf8_lossy(prefix),
            wal_sync: self.wal_sync,
        }
    }

    /// Nothing but the keys and their values has changed.
    closed spec fn same_rest(&self, before: &Store) -> bool {
        &&& self.watchers == before.watchers
        &&& self.watch_counter == before.watch_counter
        &&& self.wal_sync == before.wal_sync
        &&& self.jobs == before.jobs
        &&& self.progress_rev == before.progress_rev
    }

    /// Writes a value under a key that has an item. Returns the revision, and what
    /// was there.
    fn write_existing(&mut self, id: usize, value: Option<Bytes>) -> (r: (i64, Value))
        requires
            old(self).wf(),
            old(self)@.has_room(),
            id < old(self).items@.len(),
        ensures
            final(self).wf(),
            final(self).same_rest(old(self)),
            final(self).items@.len() == old(self).items@.len(),
            ({
                let key = old(self).items@[id as int].key@;
                &&& final(self).history() == old(self).history().after_write(key, opt_bytes(value))
                &&& final(self).items@[id as int].latest_value@ == old(self).history().next_value(
                    key,
                    opt_bytes(value),
                )
                &&& r.0 == old(self).history().current() + 1
                &&& r.1@ == old(self).history().latest[key]
            }),
    {
        let ghost before = *self;
        let ghost h = self.history();
        let ghost key = self.items@[id as int].key@;
        let ghost bytes = opt_bytes(value);
        proof {
            assert(item_keys(self.items@)[id as int] == key);
            assert(self.tree().contains_key(key) && self.tree()[key] == id);
            assert(h.latest.contains_key(key));
            assert(h.latest[key] == self.items@[id as int].latest_value@);
            assert(item_ok(self.items@[id as int], h));
            lemma_write_valid(h, key, bytes);
        }
        let earliest = self.values_by_revision.earliest_revision() as i64;
        let old_value = self.items[id].latest_value.clone();
        if self.items[id].revisions.len() > 0 && self.items[id].revisions[0] < earliest {
            let p = position_after(&self.items[id].revisions, earliest - 1);
            let kept = self.items[id].revisions.split_off(p);
            self.items[id].revisions = kept;
        }
        let ghost pruned = self.items@[id as int].revisions@;
        let new_rev = self.values_by_revision.latest_revision() as i64 + 1;
        let new_value = if old_value.value.is_some() {
            Value {
                create_revision: old_value.create_revision,
                mod_revision: new_rev,
                version: old_value.version + 1,
                value,
            }
        } else {
            Value { create_revision: new_rev, mod_revision: new_rev, version: 1, value }
        };
        let _ = self.values_by_revision.push(new_value.clone());
        self.items[id].revisions.push(new_rev);
        self.items[id].latest_value = new_value;
        proof {
            self.log_keys@ = self.log_keys@.push(key);
            let g = h.after_write(key, bytes);
            let old_revs = before.items@[id as int].revisions@;
            let revs = self.items@[id as int].revisions@;
            assert(revs == pruned.push(new_rev));
            assert(item_keys(self.items@) =~= item_keys(before.items@));
            assert(self.history().log =~= g.log);
            assert(self.history().latest =~= g.latest) by {
                assert forall|k: Seq<u8>| #[trigger] self.history().latest.contains_key(
                    k,
                ) implies self.history().latest[k] == g.latest[k] by {
                    if k != key {
                        assert(item_keys(before.items@)[before.tree()[k] as int] == k);
                        assert(before.items@[before.tree()[k] as int].key@ == k);
                        assert(self.items@[before.tree()[k] as int]
                            == before.items@[before.tree()[k] as int]);
                    }
                }
            }
            assert(self.history() == g);
            assert forall|i: int| 0 <= i < self.items@.len() implies item_ok(
                #[trigger] self.items@[i],
                g,
            ) by {
                assert(item_ok(before.items@[i], h));
                let item = self.items@[i];
                assert forall|r: int| #[trigger] g.wrote(item.key@, r) implies (h.wrote(
                    item.key@,
                    r,
                ) || (r == new_rev && i == id)) by {
                    if r == new_rev {
                        assert(item_keys(self.items@)[i] == item.key@);
                        assert(g.at(r).key == key);
                    } else {
                        assert(g.at(r) == h.at(r));
                    }
                }
                assert forall|r: int| #[trigger] h.wrote(item.key@, r) implies g.wrote(
                    item.key@,
                    r,
                ) by {
                    assert(g.at(r) == h.at(r));
                }
                if i != id {
                    assert(item == before.items@[i]);
                    assert forall|j: int|
                        0 <= j < item.revisions@.len() && #[trigger] item.revisions@[j]
                            > g.compacted implies g.wrote(item.key@, item.revisions@[j] as int) by {
                        assert(h.wrote(item.key@, item.revisions@[j] as int));
                    }
                    assert forall|r: int| #[trigger] g.wrote(item.key@, r) implies exists|j: int|
                        0 <= j < item.revisions@.len() && item.revisions@[j] == r by {
                        assert(h.wrote(item.key@, r));
                    }
                } else {
                    let n = old_revs.len() - pruned.len();
                    assert(pruned =~= old_revs.skip(n));
                    assert(g.wrote(key, new_rev as int));
                    assert forall|j: int|
                        0 <= j < revs.len() && #[trigger] revs[j] > g.compacted implies g.wrote(
                        key,
                        revs[j] as int,
                    ) by {
                        if j < pruned.len() {
                            assert(revs[j] == old_revs[j + n]);
                            assert(h.wrote(key, old_revs[j + n] as int));
                        }
                    }
                    assert forall|r: int| #[trigger] g.wrote(key, r) implies exists|j: int|
                        0 <= j < revs.len() && revs[j] == r by {
                        if r == new_rev {
                            assert(revs[revs.len() - 1] == r);
                        } else {
                            assert(h.wrote(key, r));
                            let j = choose|j: int| 0 <= j < old_revs.len() && old_revs[j] == r;
                            assert(j >= n);
                            assert(revs[j - n] == r);
                        }
                    }
                    assert(increasing(revs)) by {
                        assert forall|a: int, b: int|
                            #![trigger revs[a], revs[b]]
                            0 <= a < b < revs.len() implies revs[a] < revs[b] by {
                            assert(revs[a] == old_revs[a + n]);
                            if b < pruned.len() {
                                assert(revs[b] == old_revs[b + n]);
                            }
                        }
                    }
                    assert forall|j: int| 0 <= j < revs.len() implies 1 <= #[trigger] revs[j]
                        <= g.current() by {
                        if j < pruned.len() {
                            assert(revs[j] == old_revs[j + n]);
                        }
                    }
                }
            }
        }
        (new_rev, old_value)
    }

    /// Puts a key that has no item yet under its prefix.
    fn enter_key(&mut self, key: &Vec<u8>, id: usize)
        requires
            tree_ok(
                index_contents(old(self).prefix_map),
                old(self).prefixes@,
                item_keys(old(self).items@),
            ),
            index_ok(old(self).tree(), item_keys(old(self).items@)),
            !old(self).tree().contains_key(key@),
            id == old(self).items@.len(),
        ensures
            tree_ok(
                index_contents(final(self).prefix_map),
                final(self).prefixes@,
                item_keys(old(self).items@).push(key@),
            ),
            final(self).same_rest(old(self)),
            final(self).tree_map == old(self).tree_map,
            final(self).items == old(self).items,
            final(self).values_by_revision == old(self).values_by_revision,
            final(self).log_keys == old(self).log_keys,
    {
        let ghost before = *self;
        let ghost keys = item_keys(self.items@);
        let ghost k = key@;
        let ghost grown = keys.push(k);
        let (prefix, suffix) = keyspace::prefix_split(key);
        let suffix = vstd::slice::slice_to_vec(suffix);
        let ghost sfx = suffix@;
        proof {
            lemma_split_point(k);
            // No key of the prefix has the same rest.
            assert forall|q: int| 0 <= q < self.prefixes@.len() && (#[trigger] self.prefixes@[q]).prefix@
                == prefix_of(k) implies !self.prefixes@[q].btree@.contains_key(sfx) by {
                let pm = self.prefixes@[q];
                assert(prefix_ok(pm, keys));
                if pm.btree@.contains_key(sfx) {
                    let j = pm.btree@[sfx] as int;
                    lemma_split_point(keys[j]);
                    assert(keys[j] == k);
                    assert(self.tree().contains_key(keys[j]));
                }
            }
        }
        match index_get(&self.prefix_map, prefix) {
            Some(p) => {
                let _ = self.prefixes[p].btree.insert(suffix, id);
                proof {
                    let pm = self.prefixes@[p as int];
                    assert(prefix_ok(before.prefixes@[p as int], keys));
                    assert(pm.btree@ == before.prefixes@[p as int].btree@.insert(sfx, id));
                    assert forall|q: int| 0 <= q < self.prefixes@.len() implies {
                        &&& prefix_ok(#[trigger] self.prefixes@[q], grown)
                        &&& index_contents(self.prefix_map).contains_key(
                            self.prefixes@[q].prefix@,
                        )
                        &&& index_contents(self.prefix_map)[self.prefixes@[q].prefix@] == q
                    } by {
                        assert(prefix_ok(before.prefixes@[q], keys));
                        let b = before.prefixes@[q].btree@;
                        assert forall|s: Seq<u8>| #[trigger]
                            self.prefixes@[q].btree@.contains_key(s) implies {
                            let m = self.prefixes@[q].btree@;
                            &&& m[s] < grown.len()
                            &&& prefix_of(grown[m[s] as int]) == self.prefixes@[q].prefix@
                            &&& suffix_of(grown[m[s] as int]) == s
                        } by {
                            if q == p && s == sfx {
                            } else {
                                assert(b.contains_key(s));
                                assert(grown[b[s] as int] == keys[b[s] as int]);
                            }
                        }
                    }
                    assert forall|j: int| 0 <= j < grown.len() implies {
                        let k = #[trigger] grown[j];
                        let map = index_contents(self.prefix_map);
                        &&& map.contains_key(prefix_of(k))
                        &&& self.prefixes@[map[prefix_of(k)] as int].btree@.contains_key(
                            suffix_of(k),
                        )
                        &&& self.prefixes@[map[prefix_of(k)] as int].btree@[suffix_of(k)] == j
                    } by {
                        if j < keys.len() {
                            assert(grown[j] == keys[j]);
                        }
                    }
                }
            },
            None => {
                let p = self.prefixes.len();
                let mut btree: SortedMap<Vec<u8>, usize> = SortedMap::new();
                let _ = btree.insert(suffix, id);
                self.prefixes.push(PrefixMapItem { prefix: Ghost(prefix_of(k)), btree });
                index_insert(&mut self.prefix_map, vstd::slice::slice_to_vec(prefix), p);
                proof {
                    let map = index_contents(self.prefix_map);
                    let old_map = index_contents(before.prefix_map);
                    assert forall|q: int| 0 <= q < self.prefixes@.len() implies {
                        &&& prefix_ok(#[trigger] self.prefixes@[q], grown)
                        &&& map.contains_key(self.prefixes@[q].prefix@)
                        &&& map[self.prefixes@[q].prefix@] == q
                    } by {
                        if q < before.prefixes@.len() {
                            assert(self.prefixes@[q] == before.prefixes@[q]);
                            assert(prefix_ok(before.prefixes@[q], keys));
                            let b = before.prefixes@[q].btree@;
                            assert forall|s: Seq<u8>| #[trigger] b.contains_key(s) implies {
                                &&& b[s] < grown.len()
                                &&& prefix_of(grown[b[s] as int]) == self.prefixes@[q].prefix@
                                &&& suffix_of(grown[b[s] as int]) == s
                            } by {
                                assert(grown[b[s] as int] == keys[b[s] as int]);
                            }
                        }
                    }
                    assert forall|j: int| 0 <= j < grown.len() implies {
                        let k = #[trigger] grown[j];
                        &&& map.contains_key(prefix_of(k))
                        &&& self.prefixes@[map[prefix_of(k)] as int].btree@.contains_key(
                            suffix_of(k),
                        )
                        &&& self.prefixes@[map[prefix_of(k)] as int].btree@[suffix_of(k)] == j
                    } by {
                        if j < keys.len() {
                            assert(grown[j] == keys[j]);
                        }
                    }
                }
            },
        }
    }

    /// Writes a value under a key that has no item yet. Returns the revision, and
    /// what was written.
    fn write_new(&mut self, key: &Vec<u8>, value: Option<Bytes>) -> (r: (i64, Value))
        requires
            old(self).wf(),
            old(self)@.has_room(),
            !old(self).tree().contains_key(key@),
        ensures
            final(self).wf(),
            final(self).same_rest(old(self)),
            final(self).history() == old(self).history().after_write(key@, opt_bytes(value)),
            r.0 == old(self).history().current() + 1,
            r.1@ == old(self).history().next_value(key@, opt_bytes(value)),
    {
        let ghost before = *self;
        let ghost h = self.history();
        let ghost k = key@;
        let ghost bytes = opt_bytes(value);
        proof {
            assert(!h.latest.contains_key(k));
            lemma_write_valid(h, k, bytes);
        }
        let new_rev = self.values_by_revision.latest_revision() as i64 + 1;
        let new_value = Value {
            create_revision: new_rev,
            mod_revision: new_rev,
            version: 1,
            value,
        };
        let told = new_value.clone();
        let id = self.items.len();
        self.enter_key(key, id);
        let _ = self.values_by_revision.push(new_value.clone());
        let mut revisions: Vec<i64> = Vec::new();
        revisions.push(new_rev);
        self.items.push(TreeItem { key: copy_bytes(key), revisions, latest_value: new_value });
        index_insert(&mut self.tree_map, copy_bytes(key), id);
        proof {
            self.log_keys@ = self.log_keys@.push(k);
            let g = h.after_write(k, bytes);
            let keys = item_keys(before.items@);
            assert(item_keys(self.items@) =~= keys.push(k));
            assert(index_ok(self.tree(), item_keys(self.items@))) by {
                assert forall|i: int| 0 <= i < keys.push(k).len() implies self.tree().contains_key(
                    #[trigger] keys.push(k)[i],
                ) && self.tree()[keys.push(k)[i]] == i by {
                    if i < keys.len() {
                        assert(keys.push(k)[i] == keys[i]);
                        assert(before.tree().contains_key(keys[i]));
                    }
                }
                assert forall|x: Seq<u8>| #[trigger] self.tree().contains_key(
                    x,
                ) implies self.tree()[x] < keys.push(k).len() && keys.push(k)[self.tree()[x] as int]
                    == x by {
                    if x != k {
                        assert(before.tree().contains_key(x));
                    }
                }
            }
            assert(self.history().log =~= g.log);
            assert(self.history().latest =~= g.latest) by {
                assert forall|x: Seq<u8>| #[trigger] self.history().latest.contains_key(
                    x,
                ) implies self.history().latest[x] == g.latest[x] by {
                    if x != k {
                        assert(before.tree().contains_key(x));
                        assert(self.items@[before.tree()[x] as int]
                            == before.items@[before.tree()[x] as int]);
                    }
                }
            }
            assert(self.history() == g);
            assert forall|i: int| 0 <= i < self.items@.len() implies item_ok(
                #[trigger] self.items@[i],
                g,
            ) by {
                let item = self.items@[i];
                if i < before.items@.len() {
                    assert(item == before.items@[i]);
                    assert(item_ok(before.items@[i], h));
                    assert(keys[i] == item.key@);
                    assert(before.tree().contains_key(keys[i]));
                    assert forall|r: int| #[trigger] g.wrote(item.key@, r) implies h.wrote(
                        item.key@,
                        r,
                    ) by {
                        if r == new_rev {
                            assert(g.at(r).key == k);
                        } else {
                            assert(g.at(r) == h.at(r));
                        }
                    }
                    assert forall|j: int|
                        0 <= j < item.revisions@.len() && #[trigger] item.revisions@[j]
                            > g.compacted implies g.wrote(item.key@, item.revisions@[j] as int) by {
                        assert(h.wrote(item.key@, item.revisions@[j] as int));
                        assert(g.at(item.revisions@[j] as int) == h.at(
                            item.revisions@[j] as int,
                        ));
                    }
                    assert forall|r: int| #[trigger] g.wrote(item.key@, r) implies exists|j: int|
                        0 <= j < item.revisions@.len() && item.revisions@[j] == r by {
                        assert(h.wrote(item.key@, r));
                    }
                } else {
                    assert(item.revisions@ =~= seq![new_rev]);
                    assert forall|r: int| #[trigger] g.wrote(k, r) implies exists|j: int|
                        0 <= j < item.revisions@.len() && item.revisions@[j] == r by {
                        if r != new_rev {
                            assert(g.at(r) == h.at(r));
                            assert(h.has(r));
                            assert(h.latest.contains_key(h.at(r).key));
                        }
                        assert(item.revisions@[0] == r);
                    }
                }
            }
        }
        (new_rev, told)
    }

    /// Writes a value under a key, or deletes the key where there is no value. The
    /// write takes place only if what is there meets the requirements: a last
    /// revision or version of zero requires that nothing is there, and a negative
    /// one requires nothing. A key that is not there cannot be deleted. A refused
    /// write is answered with the last revision and what is there.
    pub fn set(
        &mut self,
        key: Vec<u8>,
        value: Option<Bytes>,
        required: Option<SetRequired>,
    ) -> (r: Result<i64, (i64, Option<KeyValue>)>)
        requires
            old(self).wf(),
            old(self)@.has_room(),
        ensures
            final(self).wf(),
            r is Ok == old(self)@.history.accepts(
                key@,
                opt_bytes(value),
                last_revision_of(required),
                version_of(required),
            ),
            r matches Ok(rev) ==> {
                &&& rev == old(self)@.history.current() + 1
                &&& final(self)@ == old(self)@.after_write(key@, opt_bytes(value))
            },
            r matches Err((rev, kv)) ==> {
                &&& rev == old(self)@.history.current()
                &&& opt_kv(kv) == old(self)@.history.conflict(key@)
                &&& final(self)@ == old(self)@
            },
    {
        let ghost before = *self;
        let ghost h = self.history();
        let ghost bytes = opt_bytes(value);
        let latest_rev = self.current_revision();
        let (last_revision, version): (i64, i64) = match &required {
            Some(r) => (
                match r.required_last_revision {
                    Some(n) => n,
                    None => -1,
                },
                match r.required_version {
                    Some(n) => n,
                    None => -1,
                },
            ),
            None => (-1, -1),
        };
        let job = match index_get(&self.tree_map, key.as_slice()) {
            Some(id) => {
                proof {
                    assert(self.tree().contains_key(key@));
                    assert(item_keys(self.items@)[id as int] == self.items@[id as int].key@);
                    assert(h.latest[key@] == self.items@[id as int].latest_value@);
                }
                let latest = &self.items[id].latest_value;
                if latest.value.is_some() {
                    if (last_revision >= 0 && last_revision != latest.mod_revision) || (version >= 0
                        && version != latest.version) {
                        return Err((latest_rev, Some(Self::as_mvcc_key_value(latest, &key))));
                    }
                } else if last_revision > 0 || version > 0 || value.is_none() {
                    return Err((latest_rev, None));
                }
                let (new_rev, old_value) = self.write_existing(id, value);
                let (prefix, _) = keyspace::prefix_split(&key);
                self.notify_watchers(
                    &key,
                    &self.items[id].latest_value,
                    &Some(old_value),
                    prefix,
                )
            },
            None => {
                assert(!h.latest.contains_key(key@));
                if last_revision > 0 || version > 0 || value.is_none() {
                    return Err((latest_rev, None));
                }
                let (new_rev, told) = self.write_new(&key, value);
                let (prefix, _) = keyspace::prefix_split(&key);
                self.notify_watchers(&key, &told, &None, prefix)
            },
        };
        let new_rev = job.rev;
        let ghost j = job@;
        let ghost written = *self;
        self.jobs.push(job);
        proof {
            assert(j == before@.job(key@, bytes));
            assert(self@.jobs =~= before@.jobs.push(j));
            assert(self.history() =~= written.history());
        }
        Ok(new_rev)
    }

    /// Deletes a key, if what is there meets the requirements.
    pub fn delete(&mut self, key: Vec<u8>, required: Option<SetRequired>) -> (r: Result<
        i64,
        (i64, Option<KeyValue>),
    >)
        requires
            old(self).wf(),
            old(self)@.has_room(),
        ensures
            final(self).wf(),
            r is Ok == old(self)@.history.accepts(
                key@,
                None,
                last_revision_of(required),
                version_of(required),
            ),
            r matches Ok(rev) ==> {
                &&& rev == old(self)@.history.current() + 1
                &&& final(self)@ == old(self)@.after_write(key@, None)
            },
            r matches Err((rev, kv)) ==> {
                &&& rev == old(self)@.history.current()
                &&& opt_kv(kv) == old(self)@.history.conflict(key@)
                &&& final(self)@ == old(self)@
            },
    {
        self.set(key, None, required)
    }

    /// The keys that stand from one position to another under a prefix.
    closed spec fn keys_between(&self, p: int, lo: int, hi: int) -> Seq<Seq<u8>> {
        Seq::new(
            (hi - lo) as nat,
            |i: int| self.items@[self.prefixes@[p].btree.value_seq()[lo + i] as int].key@,
        )
    }

    /// The position of a prefix with keys.
    proof fn lemma_has_prefix(&self, prefix: Seq<u8>)
        requires
            self.wf(),
        ensures
            self.history().has_prefix(prefix) == index_contents(self.prefix_map).contains_key(
                prefix,
            ),
    {
        let keys = item_keys(self.items@);
        let map = index_contents(self.prefix_map);
        if map.contains_key(prefix) {
            let pm = self.prefixes@[map[prefix] as int];
            assert(prefix_ok(pm, keys));
            pm.btree.lemma_at(0);
            let s = pm.btree.key_seq()[0];
            let k = keys[pm.btree@[s] as int];
            assert(self.tree().contains_key(k));
            assert(self.history().latest.contains_key(k) && prefix_of(k) == prefix);
        }
        if self.history().has_prefix(prefix) {
            let k = choose|k: Seq<u8>| #[trigger]
                self.history().latest.contains_key(k) && prefix_of(k) == prefix;
            assert(self.tree().contains_key(k));
            assert(keys[self.tree()[k] as int] == k);
        }
    }

    /// What stands between the limits of a range is what the range selects.
    proof fn lemma_between(&self, p: int, lo: int, hi: int, start: Seq<u8>, end: Seq<u8>)
        requires
            self.wf(),
            one_prefix(start, end),
            0 <= p < self.prefixes@.len(),
            self.prefixes@[p].prefix@ == prefix_of(start),
            0 <= lo <= hi <= self.prefixes@[p].btree.key_seq().len(),
            forall|i: int|
                #![trigger self.prefixes@[p].btree.key_seq()[i]]
                0 <= i < self.prefixes@[p].btree.key_seq().len() ==> ({
                    let sfx = self.prefixes@[p].btree.key_seq()[i];
                    (lo <= i < hi) == (if end.len() == 0 {
                        sfx == suffix_of(start)
                    } else {
                        lex_le(suffix_of(start), sfx) && (prefix_of(start) == prefix_of(end)
                            ==> lex_lt(sfx, suffix_of(end)))
                    })
                }),
        ensures
            self.history().matching(start, end) == self.keys_between(p, lo, hi),
            forall|i: int|
                lo <= i < hi ==> #[trigger] self.prefixes@[p].btree.value_seq()[i]
                    < self.items@.len(),
    {
        let pm = self.prefixes@[p];
        let keys = item_keys(self.items@);
        let h = self.history();
        let all = pm.btree.key_seq();
        let ids = pm.btree.value_seq();
        let ks = self.keys_between(p, lo, hi);
        assert(prefix_ok(pm, keys));
        assert forall|i: int| 0 <= i < all.len() implies {
            &&& (#[trigger] ids[i]) < keys.len()
            &&& prefix_of(keys[ids[i] as int]) == pm.prefix@
            &&& suffix_of(keys[ids[i] as int]) == all[i]
        } by {
            pm.btree.lemma_at(i);
        }
        assert forall|i: int| 0 <= i < ks.len() implies {
            &&& #[trigger] ks[i] == keys[ids[lo + i] as int]
            &&& ks[i] == prefix_of(start) + all[lo + i]
        } by {
            assert(ids[lo + i] < keys.len());
            lemma_split_point(ks[i]);
        }
        let set = Set::new(|k: Seq<u8>| h.latest.contains_key(k) && selected(k, start, end));
        assert(ascending::<Vec<u8>>(ks)) by {
            assert forall|i: int, j: int|
                #![trigger ks[i], ks[j]]
                0 <= i < j < ks.len() implies <Vec<u8> as OrderedKey>::before(ks[i], ks[j]) by {
                assert(<Vec<u8> as OrderedKey>::before(all[lo + i], all[lo + j]));
                crate::order::lex_prefix(prefix_of(start), all[lo + i], all[lo + j]);
            }
        }
        assert forall|k: Seq<u8>| ks.contains(k) <==> #[trigger] set.contains(k) by {
            if ks.contains(k) {
                let i = choose|i: int| 0 <= i < ks.len() && ks[i] == k;
                assert(ks[i] == keys[ids[lo + i] as int]);
                assert(self.tree().contains_key(keys[ids[lo + i] as int]));
                assert(suffix_of(k) == all[lo + i]);
                lemma_selected(k, start, end);
            }
            if set.contains(k) {
                lemma_selected(k, start, end);
                assert(self.tree().contains_key(k));
                let j = self.tree()[k] as int;
                assert(keys[j] == k);
                let map = index_contents(self.prefix_map);
                assert(map[prefix_of(k)] == p);
                let i = pm.btree.lemma_position(suffix_of(k));
                assert(all[i] == suffix_of(k));
                assert(lo <= i < hi);
                assert(ks[i - lo] == keys[ids[i] as int]);
            }
        }
        lemma_in_order::<Vec<u8>>(ks, set);
    }

    /// The positions under a prefix that a range takes in.
    fn span(&self, start: &Vec<u8>, end: &Vec<u8>) -> (r: Result<
        Option<(usize, usize, usize)>,
        Status,
    >)
        requires
            self.wf(),
            inverted(start@, end@) ==> !self@.history.has_prefix(prefix_of(start@)),
        ensures
            r is Ok == one_prefix(start@, end@),
            r matches Err(e) ==> e@ == span_error(start@, end@),
            r matches Ok(None) ==> self@.history.matching(start@, end@) == Seq::<Seq<u8>>::empty(),
            r matches Ok(Some((p, lo, hi))) ==> {
                &&& p < self.prefixes@.len()
                &&& lo <= hi <= self.prefixes@[p as int].btree.key_seq().len()
                &&& self.prefixes@[p as int].btree.wf()
                &&& self@.history.matching(start@, end@) == self.keys_between(
                    p as int,
                    lo as int,
                    hi as int,
                )
                &&& forall|i: int|
                    lo <= i < hi ==> #[trigger] self.prefixes@[p as int].btree.value_seq()[i]
                        < self.items@.len()
            },
    {
        proof {
            self.lemma_has_prefix(prefix_of(start@));
        }
        let (prefix, (_, upper)) = match keyspace::prefix_and_range_of_key(start, end) {
            Ok(r) => r,
            Err(e) => {
                return Err(e);
            },
        };
        let p = match index_get(&self.prefix_map, prefix) {
            Some(p) => p,
            None => {
                proof {
                    let h = self.history();
                    let set = Set::new(
                        |k: Seq<u8>| h.latest.contains_key(k) && selected(k, start@, end@),
                    );
                    let none = Seq::<Seq<u8>>::empty();
                    assert forall|k: Seq<u8>| none.contains(k) <==> #[trigger] set.contains(k) by {
                        if set.contains(k) {
                            assert(h.has_prefix(prefix_of(start@)));
                        }
                    }
                    lemma_in_order::<Vec<u8>>(none, set);
                }
                return Ok(None);
            },
        };
        let btree = &self.prefixes[p].btree;
        assert(prefix_ok(self.prefixes@[p as int], item_keys(self.items@)));
        let (_, start_suffix) = keyspace::prefix_split(start);
        let first = vstd::slice::slice_to_vec(start_suffix);
        let len = btree.len();
        let (lo, hi) = match upper {
            Bound::Included(_) => match btree.position(&first) {
                Some(i) => {
                    proof {
                        assert forall|j: int|
                            #![trigger btree.key_seq()[j]]
                            0 <= j < btree.key_seq().len() implies (i <= j < i + 1) == (
                        btree.key_seq()[j] == first@) by {
                            if btree.key_seq()[j] == first@ {
                                crate::sorted_map::ascending_unique::<Vec<u8>>(
                                    btree.key_seq(),
                                    i as int,
                                    j,
                                );
                            }
                        }
                    }
                    (i, i + 1)
                },
                None => {
                    proof {
                        assert forall|j: int|
                            #![trigger btree.key_seq()[j]]
                            0 <= j < btree.key_seq().len() implies btree.key_seq()[j] != first@ by {
                            btree.lemma_at(j);
                        }
                    }
                    (0, 0)
                },
            },
            Bound::Excluded(last) => {
                let lo = btree.lower_bound(&first);
                let hi = btree.lower_bound(&last);
                proof {
                    let all = btree.key_seq();
                    lemma_split_point(start@);
                    lemma_split_point(end@);
                    crate::order::lex_prefix(prefix_of(start@), last@, first@);
                    assert(!lex_lt(last@, first@));
                    if hi < lo {
                        crate::order::lex_total(all[hi as int], last@);
                        if lex_lt(last@, all[hi as int]) {
                            crate::order::lex_transitive(last@, all[hi as int], first@);
                        }
                    }
                    assert forall|j: int| #![trigger all[j]] 0 <= j < all.len() implies (lo <= j
                        < hi) == (lex_le(first@, all[j]) && lex_lt(all[j], last@)) by {
                        crate::order::lex_total(first@, all[j]);
                        if lex_lt(all[j], first@) {
                            crate::order::lex_asymmetric(all[j], first@);
                        }
                    }
                }
                (lo, hi)
            },
            Bound::Unbounded => {
                let lo = btree.lower_bound(&first);
                proof {
                    let all = btree.key_seq();
                    assert forall|j: int| #![trigger all[j]] 0 <= j < all.len() implies (lo <= j)
                        == lex_le(first@, all[j]) by {
                        crate::order::lex_total(first@, all[j]);
                        if lex_lt(all[j], first@) {
                            crate::order::lex_asymmetric(all[j], first@);
                        }
                    }
                }
                (lo, len)
            },
        };
        proof {
            self.lemma_between(p as int, lo as int, hi as int, start@, end@);
        }
        Ok(Some((p, lo, hi)))
    }

    /// What stood under a key at a revision.
    fn find_value_for_revision(&self, id: usize, rev: i64) -> (r: Option<&Value>)
        requires
            self.wf(),
            id < self.items@.len(),
            rev > 0,
        ensures
            ({
                let v = self@.history.value_at(self.items@[id as int].key@, rev as int);
                &&& r is Some == v is Some
                &&& r matches Some(x) ==> v == Some(x@)
            }),
    {
        let item = &self.items[id];
        let ghost h = self.history();
        let ghost key = item.key@;
        proof {
            assert(item_keys(self.items@)[id as int] == key);
            assert(self.tree().contains_key(key));
            assert(h.latest[key] == item.latest_value@);
            assert(item_ok(*item, h));
        }
        if rev >= item.latest_value.mod_revision {
            return Some(&item.latest_value);
        }
        let p = position_after(&item.revisions, rev);
        let ghost revs = item.revisions@;
        if p == 0 {
            proof {
                assert forall|x: int| x <= rev implies !#[trigger] h.wrote(key, x) by {
                    if h.wrote(key, x) {
                        let i = choose|i: int| 0 <= i < revs.len() && revs[i] == x;
                    }
                }
                lemma_no_write(h, key, rev as int);
            }
            return None;
        }
        let found = item.revisions[p - 1];
        proof {
            if found > h.compacted {
                assert(h.wrote(key, found as int));
                assert forall|x: int| found < x <= rev implies !#[trigger] h.wrote(key, x) by {
                    if h.wrote(key, x) {
                        let i = choose|i: int| 0 <= i < revs.len() && revs[i] == x;
                    }
                }
                lemma_last_write_is(h, key, rev as int, found as int);
            } else {
                assert forall|x: int| x <= rev implies !#[trigger] h.wrote(key, x) by {
                    if h.wrote(key, x) {
                        let i = choose|i: int| 0 <= i < revs.len() && revs[i] == x;
                        assert(i <= p - 1);
                    }
                }
                lemma_no_write(h, key, rev as int);
            }
        }
        self.values_by_revision.at(found as usize - 1)
    }

    /// Whether a key was there at a revision.
    fn has_value_for_revision(&self, id: usize, rev: i64) -> (r: bool)
        requires
            self.wf(),
            id < self.items@.len(),
            rev > 0,
        ensures
            r == self@.history.live_at(self.items@[id as int].key@, rev as int),
    {
        match self.find_value_for_revision(id, rev) {
            Some(v) => v.value.is_some(),
            None => false,
        }
    }

    /// Whether the store can walk over a range at a revision. It cannot where the
    /// range ends before it starts, in a prefix that has keys, nor at a negative
    /// revision, unless the range selects nothing.
    pub fn can_range(&self, start: &Vec<u8>, end: &Vec<u8>, rev: i64) -> (r: bool)
        requires
            self.wf(),
        ensures
            r == self@.answers(start@, end@, rev as int),
    {
        proof {
            self.lemma_has_prefix(prefix_of(start@));
        }
        let (start_prefix, _) = keyspace::prefix_split(start);
        let (end_prefix, _) = keyspace::prefix_split(end);
        if end.len() > 0 && bytes_equal(start_prefix, end_prefix) && bytes_less(
            end.as_slice(),
            start.as_slice(),
        ) && index_get(&self.prefix_map, start_prefix).is_some() {
            return false;
        }
        if rev >= 0 {
            return true;
        }
        match self.span(start, end) {
            Ok(Some((_, lo, hi))) => lo == hi,
            _ => true,
        }
    }

    /// Whether a watcher can be registered for a range from a revision on. It cannot
    /// where the store would have to walk over a range that ends before it starts, nor
    /// when the numbers of watchers are used up.
    pub fn can_watch(&self, start: &Vec<u8>, end: &Vec<u8>, rev: i64) -> (r: bool)
        requires
            self.wf(),
        ensures
            r == {
                &&& self@.watch_counter + 1 < i64::MAX
                &&& rev > self@.history.compacted && inverted(start@, end@)
                    ==> !self@.history.has_prefix(prefix_of(start@))
            },
    {
        if self.watch_counter >= i64::MAX - 1 {
            return false;
        }
        rev <= self.compacted_revision() || self.can_range(start, end, 0)
    }

    /// Collects what a range holds between two positions.
    fn collect(&self, p: usize, lo: usize, hi: usize, rev: i64, limit: usize) -> (r: (
        Vec<KeyValue>,
        usize,
    ))
        requires
            self.wf(),
            rev > 0 || lo == hi,
            p < self.prefixes@.len(),
            lo <= hi <= self.prefixes@[p as int].btree.key_seq().len(),
            self.prefixes@[p as int].btree.wf(),
            forall|i: int|
                lo <= i < hi ==> #[trigger] self.prefixes@[p as int].btree.value_seq()[i]
                    < self.items@.len(),
        ensures
            ({
                let h = self@.history;
                let keys = self.keys_between(p as int, lo as int, hi as int);
                let live = h.live_keys(keys, rev as int);
                &&& kv_views(r.0@) == h.pairs(
                    live.take(
                        if live.len() < limit {
                            live.len() as int
                        } else {
                            limit as int
                        },
                    ),
                    rev as int,
                )
                &&& r.1 == h.tally(keys, rev as int, limit as int)
                &&& r.1 <= hi - lo
            }),
    {
        let ghost h = self.history();
        let ghost keys = self.keys_between(p as int, lo as int, hi as int);
        let btree = &self.prefixes[p].btree;
        let mut count: usize = 0;
        let mut results: Vec<KeyValue> = Vec::new();
        let mut i: usize = lo;
        proof {
            let live = h.live_keys(keys.take(0), rev as int);
            assert(keys.take(0) =~= Seq::empty());
            reveal(Seq::filter);
            assert(live =~= Seq::empty());
            assert(kv_views(results@) =~= h.pairs(live.take(0), rev as int));
        }
        while i < hi
            invariant
                self.wf(),
                rev > 0 || lo == hi,
                p < self.prefixes@.len(),
                *btree == self.prefixes@[p as int].btree,
                lo <= i <= hi <= btree.key_seq().len(),
                btree.wf(),
                forall|i: int|
                    lo <= i < hi ==> #[trigger] self.prefixes@[p as int].btree.value_seq()[i]
                        < self.items@.len(),
                h == self.history(),
                keys == self.keys_between(p as int, lo as int, hi as int),
                count <= i - lo,
                count == h.tally(keys.take(i - lo), rev as int, limit as int),
                ({
                    let live = h.live_keys(keys.take(i - lo), rev as int);
                    &&& count <= limit ==> live.len() == count
                    &&& count > limit ==> live.len() > limit
                    &&& kv_views(results@) == h.pairs(
                        live.take(
                            if live.len() < limit {
                                live.len() as int
                            } else {
                                limit as int
                            },
                        ),
                        rev as int,
                    )
                }),
            decreases hi - i,
        {
            let ghost n = i - lo;
            let ghost done = keys.take(n);
            let ghost more = keys.take(n + 1);
            let ghost live = h.live_keys(done, rev as int);
            let ghost live_more = h.live_keys(more, rev as int);
            let ghost key = keys[n];
            proof {
                assert(more =~= done.push(key));
                assert(more.drop_last() =~= done);
                reveal(Seq::filter);
                assert(live_more == if h.live_at(key, rev as int) {
                    live.push(key)
                } else {
                    live
                });
            }
            let id = *btree.value(i);
            assert(self.items@[id as int].key@ == key);
            if count > limit {
                proof {
                    assert(live_more.take(limit as int) =~= live.take(limit as int));
                }
                count += 1;
            } else if count == limit {
                proof {
                    assert(live_more.take(limit as int) =~= live.take(limit as int));
                }
                if self.has_value_for_revision(id, rev) {
                    count += 1;
                }
            } else {
                if let Some(v) = self.find_value_for_revision(id, rev) {
                    if v.value.is_some() {
                        let ghost before = results@;
                        results.push(Self::as_mvcc_key_value(v, &self.items[id].key));
                        proof {
                            assert(live_more.take(live_more.len() as int) =~= live_more);
                            assert(live.take(live.len() as int) =~= live);
                            assert(h.pairs(live_more, rev as int) =~= h.pairs(
                                live,
                                rev as int,
                            ).push(kv_of(key, v@)));
                            assert(kv_views(results@) =~= kv_views(before).push(kv_of(key, v@)));
                            assert(live_more.take(limit as int).len() == limit || live_more.len()
                                < limit);
                            if live_more.len() == limit {
                                assert(live_more.take(limit as int) =~= live_more);
                            }
                        }
                        count += 1;
                    }
                }
            }
            i += 1;
        }
        assert(keys.take(hi - lo) =~= keys);
        (results, count)
    }

    /// The pairs of a range at a revision, in the order of their keys, and how many
    /// keys there are. For the revision zero it is the last one.
    pub fn range(&self, start: Vec<u8>, end: Vec<u8>, rev: i64, limit: Option<usize>) -> (r: Result<
        RangeResult,
        Status,
    >)
        requires
            self.wf(),
            self@.answers(start@, end@, rev as int),
        ensures
            ({
                let error = self@.range_error(start@, end@, rev as int);
                &&& r is Err == error is Some
                &&& r matches Err(e) ==> error == Some(e@)
                &&& r matches Ok(x) ==> x@ == self@.range(
                    start@,
                    end@,
                    rev as int,
                    match limit {
                        Some(n) => n as int,
                        None => usize::MAX as int,
                    },
                )
            }),
    {
        let limit = match limit {
            Some(n) => n,
            None => usize::MAX,
        };
        let latest_rev = self.current_revision();
        if rev > latest_rev {
            return Err(
                Status::new(
                    Code::OutOfRange,
                    "etcdserver: mvcc: required revision is a future revision",
                ),
            );
        }
        if rev > 0 && rev <= self.compacted_revision() {
            return Err(
                Status::new(
                    Code::OutOfRange,
                    "etcdserver: mvcc: required revision has been compacted",
                ),
            );
        }
        let at = if rev == 0 {
            latest_rev
        } else {
            rev
        };
        let ghost h = self.history();
        let ghost keys = h.matching(start@, end@);
        match self.span(&start, &end) {
            Err(e) => Err(e),
            Ok(None) => {
                let kvs: Vec<KeyValue> = Vec::new();
                proof {
                    reveal(Seq::filter);
                    let live = h.live_keys(keys, at as int);
                    assert(live =~= Seq::empty());
                    assert(kv_views(kvs@) =~= h.pairs(live.take(0), at as int));
                }
                Ok(RangeResult { kvs, latest_rev, count: 0 })
            },
            Ok(Some((p, lo, hi))) => {
                proof {
                    if at <= 0 && lo < hi {
                        assert(self.keys_between(p as int, lo as int, hi as int).len() > 0);
                        let id = self.prefixes@[p as int].btree.value_seq()[lo as int];
                        assert(id < self.items@.len());
                    }
                    self.lemma_few_keys(p as int, lo as int, hi as int);
                }
                let (kvs, count) = self.collect(p, lo, hi, at, limit);
                Ok(RangeResult { kvs, latest_rev, count: count as i64 })
            },
        }
    }

    /// There are no more keys than revisions.
    proof fn lemma_few_keys(&self, p: int, lo: int, hi: int)
        requires
            self.wf(),
            0 <= p < self.prefixes@.len(),
            0 <= lo <= hi <= self.prefixes@[p].btree.key_seq().len(),
        ensures
            hi - lo <= self.history().current(),
    {
        let pm = self.prefixes@[p];
        let keys = item_keys(self.items@);
        assert(prefix_ok(pm, keys));
        let ids = pm.btree.value_seq().map_values(|i: usize| i as int);
        assert forall|a: int, b: int|
            0 <= a < ids.len() && 0 <= b < ids.len() && a != b implies ids[a] != ids[b] by {
            pm.btree.lemma_at(a);
            pm.btree.lemma_at(b);
            if ids[a] == ids[b] {
                crate::sorted_map::ascending_unique::<Vec<u8>>(pm.btree.key_seq(), a, b);
            }
        }
        assert forall|x: int| ids.to_set().contains(x) implies vstd::set_lib::set_int_range(
            0,
            keys.len() as int,
        ).contains(x) by {
            let a = choose|a: int| 0 <= a < ids.len() && ids[a] == x;
            pm.btree.lemma_at(a);
        }
        ids.unique_seq_to_set();
        vstd::set_lib::lemma_int_range(0, keys.len() as int);
        vstd::set_lib::lemma_len_subset(
            ids.to_set(),
            vstd::set_lib::set_int_range(0, keys.len() as int),
        );
    }

    /// Adds what a watcher is told of the past writes of one key.
    fn past_changes(
        &self,
        id: usize,
        start_rev: i64,
        want_prev_kv: bool,
        changes: &mut Vec<KeyValueWithPrev>,
    )
        requires
            self.wf(),
            id < self.items@.len(),
            start_rev > self@.history.compacted,
        ensures
            change_views(final(changes)@) == change_views(old(changes)@)
                + self@.history.past_of_key(
                self.items@[id as int].key@,
                start_rev as int,
                want_prev_kv,
            ),
    {
        let item = &self.items[id];
        let ghost h = self.history();
        let ghost key = item.key@;
        let ghost revs = item.revisions@;
        let ghost from = start_rev as int;
        let ghost told = change_views(changes@);
        let ghost f = |r: int| h.past(key, r, want_prev_kv);
        assert(item_ok(*item, h));
        let first = position_after(&item.revisions, start_rev - 1);
        let mut j: usize = first;
        let ghost mut upto: int = from - 1;
        assert(change_views(changes@) =~= told + h.writes(key, from, upto).map_values(f));
        while j < item.revisions.len()
            invariant
                self.wf(),
                h == self.history(),
                item_ok(*item, h),
                key == item.key@,
                revs == item.revisions@,
                from == start_rev,
                from > h.compacted,
                first <= j <= revs.len(),
                forall|i: int| 0 <= i < first ==> #[trigger] revs[i] < from,
                forall|i: int| first <= i < revs.len() ==> #[trigger] revs[i] >= from,
                upto == if j > first {
                    revs[j - 1] as int
                } else {
                    from - 1
                },
                f == (|r: int| h.past(key, r, want_prev_kv)),
                change_views(changes@) == told + h.writes(key, from, upto).map_values(f),
            decreases revs.len() - j,
        {
            let rev = item.revisions[j];
            let ghost before = changes@;
            proof {
                assert(h.wrote(key, rev as int));
                assert forall|x: int| upto < x <= rev - 1 implies !#[trigger] h.wrote(key, x) by {
                    if h.wrote(key, x) {
                        let i = choose|i: int| 0 <= i < revs.len() && revs[i] == x;
                    }
                }
                lemma_writes_gap(h, key, from, upto, rev - 1);
                assert(h.writes(key, from, rev as int) == h.writes(key, from, upto).push(
                    rev as int,
                ));
            }
            let prev_kv = if want_prev_kv && j > 0 {
                let prev = item.revisions[j - 1];
                proof {
                    if prev > h.compacted {
                        assert(h.wrote(key, prev as int));
                        assert forall|x: int| prev < x <= rev - 1 implies !#[trigger] h.wrote(
                            key,
                            x,
                        ) by {
                            if h.wrote(key, x) {
                                let i = choose|i: int| 0 <= i < revs.len() && revs[i] == x;
                            }
                        }
                        lemma_last_write_is(h, key, rev - 1, prev as int);
                    } else {
                        assert forall|x: int| x <= rev - 1 implies !#[trigger] h.wrote(key, x) by {
                            if h.wrote(key, x) {
                                let i = choose|i: int| 0 <= i < revs.len() && revs[i] == x;
                                assert(i <= j - 1);
                            }
                        }
                        lemma_no_write(h, key, rev - 1);
                    }
                }
                match self.values_by_revision.at(prev as usize - 1) {
                    Some(v) => Some(Self::as_mvcc_key_value(v, &item.key)),
                    None => None,
                }
            } else {
                proof {
                    if j == 0 {
                        assert forall|x: int| x <= rev - 1 implies !#[trigger] h.wrote(key, x) by {
                            if h.wrote(key, x) {
                                let i = choose|i: int| 0 <= i < revs.len() && revs[i] == x;
                            }
                        }
                        lemma_no_write(h, key, rev - 1);
                    }
                }
                None
            };
            if let Some(v) = self.values_by_revision.at(rev as usize - 1) {
                assert(v@ == h.at(rev as int).value);
                changes.push(
                    KeyValueWithPrev { prev_kv, kv: Self::as_mvcc_key_value(v, &item.key) },
                );
                proof {
                    assert(changes@.last()@ == f(rev as int));
                    assert(change_views(changes@) =~= change_views(before).push(f(rev as int)));
                    assert(h.writes(key, from, rev as int).map_values(f) =~= h.writes(
                        key,
                        from,
                        upto,
                    ).map_values(f).push(f(rev as int)));
                }
            } else {
                assert(false);
            }
            proof {
                upto = rev as int;
            }
            j += 1;
        }
        proof {
            if upto <= h.current() {
                assert forall|x: int| upto < x <= h.current() implies !#[trigger] h.wrote(
                    key,
                    x,
                ) by {
                    if h.wrote(key, x) {
                        let i = choose|i: int| 0 <= i < revs.len() && revs[i] == x;
                    }
                }
                lemma_writes_gap(h, key, from, upto, h.current());
            } else {
                assert(first == revs.len());
                assert(h.writes(key, from, upto) =~= h.writes(key, from, h.current()));
            }
        }
    }

    /// Registers a watcher for a range. From a positive revision on, it is also told
    /// of the past writes from there, key by key. It gets a number of its own. A
    /// compacted revision, and past writes of a range that spans prefixes, are
    /// refused with the compacted revision.
    pub fn watch(&mut self, start: Vec<u8>, end: Vec<u8>, rev: i64, want_prev_kv: bool) -> (r:
        Result<(Vec<KeyValueWithPrev>, i64), i64>)
        requires
            old(self).wf(),
            old(self)@.watch_counter + 1 < i64::MAX,
            rev > old(self)@.history.compacted && inverted(start@, end@) ==> !old(
                self,
            )@.history.has_prefix(prefix_of(start@)),
        ensures
            final(self).wf(),
            ({
                let h = old(self)@.history;
                let gone = 0 < rev <= h.compacted;
                &&& r is Err == (gone || (rev > 0 && !one_prefix(start@, end@)))
                &&& r matches Err(c) ==> c == h.compacted
                &&& r matches Ok((past, id)) ==> {
                    &&& id == old(self)@.watch_counter + 1
                    &&& change_views(past@) == (if rev > 0 {
                        h.past_of_keys(h.matching(start@, end@), rev as int, want_prev_kv)
                    } else {
                        Seq::empty()
                    })
                }
                &&& final(self)@ == (if gone {
                    old(self)@
                } else {
                    old(self)@.after_watch(start@, end@, rev as int)
                })
            }),
    {
        let ghost before = *self;
        let ghost h = self.history();
        let compact_revision = self.compacted_revision();
        if rev > 0 && rev <= compact_revision {
            return Err(compact_revision);
        }
        let start_rev = if rev <= 0 {
            self.current_revision()
        } else {
            rev
        };
        let watcher_id = self.watch_counter + 1;
        self.watch_counter = watcher_id;
        let watcher = Watcher {
            start_revision: start_rev,
            key_range_start: copy_bytes(&start),
            key_range_end: copy_bytes(&end),
        };
        let ghost w = watcher@;
        let _ = self.watchers.insert((copy_bytes(&start), watcher_id), watcher);
        proof {
            assert(self.history() =~= h);
            assert(self@.watchers =~= before@.watchers.insert((start@, watcher_id), w));
            assert(self@ == before@.after_watch(start@, end@, rev as int));
        }
        let mut past: Vec<KeyValueWithPrev> = Vec::new();
        assert(change_views(past@) =~= Seq::empty());
        if rev > 0 {
            let ghost keys = h.matching(start@, end@);
            match self.span(&start, &end) {
                Err(_) => {
                    return Err(compact_revision);
                },
                Ok(None) => {},
                Ok(Some((p, lo, hi))) => {
                    let btree = &self.prefixes[p].btree;
                    let mut i: usize = lo;
                    assert(keys.take(0) =~= Seq::empty());
                    while i < hi
                        invariant
                            self.wf(),
                            h == self.history(),
                            rev > h.compacted,
                            start_rev == rev,
                            p < self.prefixes@.len(),
                            *btree == self.prefixes@[p as int].btree,
                            lo <= i <= hi <= btree.key_seq().len(),
                            btree.wf(),
                            keys == self.keys_between(p as int, lo as int, hi as int),
                            forall|i: int|
                                lo <= i < hi
                                    ==> #[trigger] self.prefixes@[p as int].btree.value_seq()[i]
                                    < self.items@.len(),
                            change_views(past@) == h.past_of_keys(
                                keys.take(i - lo),
                                rev as int,
                                want_prev_kv,
                            ),
                        decreases hi - i,
                    {
                        let id = *btree.value(i);
                        proof {
                            let more = keys.take(i - lo + 1);
                            assert(more.drop_last() =~= keys.take(i - lo));
                            assert(more.last() == self.items@[id as int].key@);
                        }
                        self.past_changes(id, start_rev, want_prev_kv, &mut past);
                        i += 1;
                    }
                    assert(keys.take(hi - lo) =~= keys);
                },
            }
        }
        Ok((past, watcher_id))
    }

    /// Forgets a watcher.
    pub fn unwatch(&mut self, start: Vec<u8>, watcher_id: i64)
        requires
            old(self).wf(),
        ensures
            final(self).wf(),
            final(self)@ == (StoreView {
                watchers: old(self)@.watchers.remove((start@, watcher_id)),
                ..old(self)@
            }),
    {
        let ghost k = (start@, watcher_id);
        let key = (start, watcher_id);
        let _ = self.watchers.remove(&key);
        proof {
            assert(key@ == k);
            assert(self.history() =~= old(self).history());
            assert(self@.watchers =~= old(self)@.watchers.remove(k));
        }
    }

    // ------------------------------------------------------- handing over

    /// The pairs that are there, in the order of their keys.
    pub fn export_snapshot_data(&self) -> (r: Vec<KvEntry>)
        requires
            self.wf(),
        ensures
            entry_views(r@) == self@.history.live_pairs(),
    {
        let ghost h = self.history();
        let mut order: SortedMap<Vec<u8>, usize> = SortedMap::new();
        let mut j: usize = 0;
        while j < self.items.len()
            invariant
                self.wf(),
                h == self.history(),
                j <= self.items@.len(),
                order.wf(),
                forall|k: Seq<u8>| #[trigger]
                    order@.contains_key(k) <==> self.tree().contains_key(k) && self.tree()[k] < j
                        && h.live(k),
                forall|k: Seq<u8>| #[trigger]
                    order@.contains_key(k) ==> order@[k] == self.tree()[k],
            decreases self.items@.len() - j,
        {
            let item = &self.items[j];
            proof {
                assert(item_keys(self.items@)[j as int] == item.key@);
                assert(self.tree().contains_key(item.key@) && self.tree()[item.key@] == j);
                assert(h.latest[item.key@] == item.latest_value@);
            }
            let ghost before = order@;
            if item.latest_value.value.is_some() {
                let _ = order.insert(copy_bytes(&item.key), j);
            }
            proof {
                assert forall|k: Seq<u8>| #[trigger] order@.contains_key(k) <==> self.tree().contains_key(
                    k,
                ) && self.tree()[k] < j + 1 && h.live(k) by {
                    assert(before.contains_key(k) <==> self.tree().contains_key(k)
                        && self.tree()[k] < j && h.live(k));
                    if self.tree().contains_key(k) && self.tree()[k] == j {
                        assert(item_keys(self.items@)[j as int] == k);
                    }
                }
            }
            j += 1;
        }
        let ghost keys = order.key_seq();
        let ghost pair = |k: Seq<u8>| kv_of(k, h.latest[k]);
        let mut r: Vec<KvEntry> = Vec::new();
        let mut i: usize = 0;
        assert(entry_views(r@) =~= keys.take(0).map_values(pair));
        while i < order.len()
            invariant
                self.wf(),
                h == self.history(),
                order.wf(),
                keys == order.key_seq(),
                pair == (|k: Seq<u8>| kv_of(k, h.latest[k])),
                i <= keys.len(),
                forall|k: Seq<u8>| #[trigger]
                    order@.contains_key(k) ==> self.tree().contains_key(k) && h.live(k),
                forall|k: Seq<u8>| #[trigger]
                    order@.contains_key(k) ==> order@[k] == self.tree()[k],
                entry_views(r@) == keys.take(i as int).map_values(pair),
            decreases keys.len() - i,
        {
            let ghost before = r@;
            let ghost k = keys[i as int];
            proof {
                order.lemma_at(i as int);
                assert(order@.contains_key(k));
                assert(item_keys(self.items@)[self.tree()[k] as int] == k);
            }
            let item = &self.items[*order.value(i)];
            let v = &item.latest_value;
            assert(h.latest[k] == v@);
            if let Some(bytes) = &v.value {
                r.push(
                    (
                        copy_bytes(&item.key),
                        bytes_to_vec(bytes),
                        v.create_revision,
                        v.mod_revision,
                        v.version,
                    ),
                );
                proof {
                    assert(entry_view(r@.last()) == pair(k));
                    assert(entry_views(r@) =~= entry_views(before).push(pair(k)));
                    assert(keys.take(i + 1).map_values(pair) =~= keys.take(i as int).map_values(
                        pair,
                    ).push(pair(k)));
                }
            }
            i += 1;
        }
        proof {
            assert(keys.take(keys.len() as int) =~= keys);
            assert forall|k: Seq<u8>| keys.contains(k) <==> #[trigger] h.live_set().contains(k) by {
                if keys.contains(k) {
                    let n = choose|n: int| 0 <= n < keys.len() && keys[n] == k;
                    order.lemma_at(n);
                }
                if h.live(k) {
                    assert(self.tree().contains_key(k));
                    assert(order@.contains_key(k));
                    let n = order.lemma_position(k);
                    assert(keys[n] == k);
                }
            }
            assert(enumerates::<Vec<u8>>(keys, h.live_set()));
            lemma_in_order::<Vec<u8>>(keys, h.live_set());
        }
        r
    }

    /// The pairs can be taken over: their revisions can be those of writes.
    pub fn can_import_snapshot(entries: &Vec<KvEntry>) -> (r: bool)
        ensures
            r == importable(entry_views(entries@)),
    {
        let ghost kvs = entry_views(entries@);
        let n = entries.len();
        if n as u128 > i64::MAX as u128 {
            return false;
        }
        let mut i: usize = 0;
        while i < n
            invariant
                n == entries@.len(),
                n <= i64::MAX,
                kvs == entry_views(entries@),
                i <= n,
                forall|j: int| 0 <= j < i ==> sound(#[trigger] kvs[j]),
            decreases n - i,
        {
            let e = &entries[i];
            let ok = 1 <= e.2 && e.2 <= e.3 && 1 <= e.4 && e.4 <= e.3 && e.3 as u128
                <= usize::MAX as u128;
            assert(kvs[i as int] == entry_view(*e));
            if !ok {
                return false;
            }
            i += 1;
        }
        true
    }

    /// Nothing was written since the pairs that are here were taken over.
    closed spec fn freshly_loaded(&self) -> bool {
        &&& index_ok(self.tree(), item_keys(self.items@))
        &&& tree_ok(index_contents(self.prefix_map), self.prefixes@, item_keys(self.items@))
        &&& forall|i: int|
            0 <= i < self.items@.len() ==> (#[trigger] self.items@[i]).revisions@.len() == 0
    }

    /// Takes over a pair.
    fn load_entry(&mut self, entry: &KvEntry)
        requires
            old(self).freshly_loaded(),
        ensures
            final(self).freshly_loaded(),
            final(self).same_rest(old(self)),
            final(self).values_by_revision == old(self).values_by_revision,
            final(self).log_keys == old(self).log_keys,
            final(self).history().latest == old(self).history().latest.insert(
                entry_view(*entry).key,
                value_of(entry_view(*entry)),
            ),
            final(self).items@.len() <= old(self).items@.len() + 1,
    {
        let ghost before = *self;
        let key = &entry.0;
        let ghost k = key@;
        let ghost keys = item_keys(self.items@);
        let value = Value {
            create_revision: entry.2,
            mod_revision: entry.3,
            version: entry.4,
            value: Some(bytes_from_vec(copy_bytes(&entry.1))),
        };
        let ghost v = value@;
        assert(v == value_of(entry_view(*entry)));
        match index_get(&self.tree_map, key.as_slice()) {
            Some(id) => {
                self.items[id].latest_value = value;
                proof {
                    assert(item_keys(self.items@) =~= keys);
                    assert forall|i: int| 0 <= i < self.items@.len() implies (
                    #[trigger] self.items@[i]).revisions@.len() == 0 by {
                        assert(before.items@[i].revisions@.len() == 0);
                    }
                    assert(self.history().latest =~= before.history().latest.insert(k, v)) by {
                        assert forall|x: Seq<u8>| #[trigger] self.history().latest.contains_key(
                            x,
                        ) implies self.history().latest[x] == before.history().latest.insert(
                            k,
                            v,
                        )[x] by {
                            assert(keys[before.tree()[x] as int] == x);
                        }
                    }
                }
            },
            None => {
                let id = self.items.len();
                self.enter_key(key, id);
                self.items.push(
                    TreeItem { key: copy_bytes(key), revisions: Vec::new(), latest_value: value },
                );
                index_insert(&mut self.tree_map, copy_bytes(key), id);
                proof {
                    assert(item_keys(self.items@) =~= keys.push(k));
                    assert(index_ok(self.tree(), item_keys(self.items@))) by {
                        assert forall|i: int|
                            0 <= i < keys.push(k).len() implies self.tree().contains_key(
                            #[trigger] keys.push(k)[i],
                        ) && self.tree()[keys.push(k)[i]] == i by {
                            if i < keys.len() {
                                assert(keys.push(k)[i] == keys[i]);
                                assert(before.tree().contains_key(keys[i]));
                            }
                        }
                        assert forall|x: Seq<u8>| #[trigger] self.tree().contains_key(
                            x,
                        ) implies self.tree()[x] < keys.push(k).len() && keys.push(
                            k,
                        )[self.tree()[x] as int] == x by {
                            if x != k {
                                assert(before.tree().contains_key(x));
                            }
                        }
                    }
                    assert forall|i: int| 0 <= i < self.items@.len() implies (
                    #[trigger] self.items@[i]).revisions@.len() == 0 by {
                        if i < before.items@.len() {
                            assert(self.items@[i] == before.items@[i]);
                        }
                    }
                    assert(self.history().latest =~= before.history().latest.insert(k, v)) by {
                        assert forall|x: Seq<u8>| #[trigger] self.history().latest.contains_key(
                            x,
                        ) implies self.history().latest[x] == before.history().latest.insert(
                            k,
                            v,
                        )[x] by {
                            if x != k {
                                assert(before.tree().contains_key(x));
                                assert(self.items@[before.tree()[x] as int]
                                    == before.items@[before.tree()[x] as int]);
                            }
                        }
                    }
                }
            },
        }
    }

    /// Takes over pairs of another store in place of everything that is here: the last
    /// pair of every key is there from then on, and nothing else. No watcher is told. The
    /// revisions up to the last one are compacted.
    pub fn import_snapshot_data(&mut self, entries: Vec<KvEntry>)
        requires
            old(self).wf(),
            importable(entry_views(entries@)),
        ensures
            final(self).wf(),
            final(self)@ == old(self)@.after_import(entry_views(entries@)),
            forall|k: Seq<u8>| #[trigger]
                final(self)@.history.live(k) <==> has_key(entry_views(entries@), k),
            forall|i: int| #[trigger]
                last_of_key(entry_views(entries@), i) ==> final(self)@.history.conflict(
                    entry_views(entries@)[i].key,
                ) == Some(entry_views(entries@)[i]),
    {
        let ghost before = *self;
        let ghost kvs = entry_views(entries@);
        let ghost was = self.history().current();
        let n = entries.len();
        let mut rev: usize = self.values_by_revision.latest_revision();
        let mut i: usize = 0;
        assert(kvs.take(0) =~= Seq::empty());
        while i < n
            invariant
                n == entries@.len(),
                kvs == entry_views(entries@),
                importable(kvs),
                i <= n,
                rev <= i64::MAX,
                rev == newest(kvs.take(i as int), was),
            decreases n - i,
        {
            proof {
                assert(kvs.take(i + 1).drop_last() =~= kvs.take(i as int));
                assert(kvs.take(i + 1).last() == kvs[i as int]);
                assert(sound(kvs[i as int]));
            }
            let m = entries[i].3 as usize;
            if m > rev {
                rev = m;
            }
            i += 1;
        }
        assert(kvs.take(n as int) =~= kvs);
        if rev < n {
            rev = n;
        }
        self.prefix_map = index_new();
        self.prefixes = Vec::new();
        self.tree_map = index_new();
        self.items = Vec::new();
        self.values_by_revision = BlockDeque::starting_at(rev);
        self.log_keys = Ghost(Seq::empty());
        let mut j: usize = 0;
        proof {
            assert(item_keys(self.items@) =~= Seq::empty());
            assert(self.history().latest =~= listed(kvs.take(0)));
        }
        while j < n
            invariant
                n == entries@.len(),
                kvs == entry_views(entries@),
                j <= n,
                self.freshly_loaded(),
                self.same_rest(&before),
                self.values_by_revision.wf(),
                self.values_by_revision@.start == rev,
                self.values_by_revision@.items.len() == 0,
                self.log_keys@.len() == 0,
                self.items@.len() <= j,
                self.history().latest == listed(kvs.take(j as int)),
            decreases n - j,
        {
            proof {
                assert(kvs.take(j + 1).drop_last() =~= kvs.take(j as int));
                assert(kvs.take(j + 1).last() == kvs[j as int]);
                assert(kvs[j as int] == entry_view(entries@[j as int]));
            }
            self.load_entry(&entries[j]);
            j += 1;
        }
        proof {
            let h = before.history();
            let g = h.after_import(kvs);
            assert(self.history().log =~= g.log);
            assert(self.history() == g);
            law_import_lists(h, kvs);
            assert forall|i: int| 0 <= i < self.items@.len() implies item_ok(
                #[trigger] self.items@[i],
                g,
            ) by {
                assert(self.items@[i].revisions@.len() == 0);
            }
            assert forall|i: int| #[trigger] last_of_key(kvs, i) implies g.conflict(kvs[i].key)
                == Some(kvs[i]) by {
                assert(kvs[i].lease == 0);
            }
        }
    }

    /// How many watchers there are.
    pub fn watcher_count(&self) -> (n: i64)
        requires
            self.wf(),
        ensures
            n == self@.watchers.dom().len(),
    {
        proof {
            let keys = self.watchers.key_seq();
            assert forall|i: int, j: int|
                0 <= i < keys.len() && 0 <= j < keys.len() && i != j implies keys[i] != keys[j] by {
                if keys[i] == keys[j] {
                    crate::sorted_map::ascending_unique::<(Vec<u8>, i64)>(keys, i, j);
                }
            }
            keys.unique_seq_to_set();
            assert(keys.to_set() =~= self@.watchers.dom()) by {
                assert forall|k: (Seq<u8>, i64)| keys.to_set().contains(
                    k,
                ) <==> self@.watchers.dom().contains(k) by {
                    if keys.contains(k) {
                        let i = choose|i: int| 0 <= i < keys.len() && keys[i] == k;
                        self.watchers.lemma_at(i);
                    }
                    if self@.watchers.dom().contains(k) {
                        let i = self.watchers.lemma_position(k);
                    }
                }
            }
        }
        self.watchers.len() as i64
    }

    /// Drops the writes before a revision. The last write of every key stays.
    pub fn compact(&mut self, rev: i64) -> (r: Result<(), Status>)
        requires
            old(self).wf(),
        ensures
            final(self).wf(),
            ({
                let h = old(self)@.history;
                &&& r is Ok == (h.compacted < rev <= h.current())
                &&& r matches Err(e) ==> e@ == (if rev < 1 || rev > h.current() {
                    compacted_error()
                } else {
                    compact_failed_error()
                })
                &&& final(self)@ == (if r is Ok {
                    StoreView { history: h.after_compaction(rev as int), ..old(self)@ }
                } else {
                    old(self)@
                })
            }),
    {
        let ghost before = *self;
        let ghost h = self.history();
        if rev < 1 || rev > self.current_revision() {
            return Err(
                Status::new(
                    Code::OutOfRange,
                    "etcdserver: mvcc: required revision has been compacted",
                ),
            );
        }
        match self.values_by_revision.remove_before((rev - 1) as usize) {
            Ok(()) => {
                proof {
                    let n = rev - 1 - h.compacted;
                    self.log_keys@ = self.log_keys@.skip(n);
                    let g = h.after_compaction(rev as int);
                    lemma_compaction_valid(h, rev as int);
                    assert(self.history() =~= g);
                    assert forall|i: int| 0 <= i < self.items@.len() implies item_ok(
                        #[trigger] self.items@[i],
                        g,
                    ) by {
                        let item = self.items@[i];
                        assert(item_ok(item, h));
                        assert forall|r: int| #[trigger] g.wrote(item.key@, r) implies h.wrote(
                            item.key@,
                            r,
                        ) by {
                            assert(g.at(r) == h.at(r));
                        }
                        assert forall|j: int|
                            0 <= j < item.revisions@.len() && #[trigger] item.revisions@[j]
                                > g.compacted implies g.wrote(
                            item.key@,
                            item.revisions@[j] as int,
                        ) by {
                            assert(h.wrote(item.key@, item.revisions@[j] as int));
                            assert(g.at(item.revisions@[j] as int) == h.at(
                                item.revisions@[j] as int,
                            ));
                        }
                        assert forall|r: int| #[trigger] g.wrote(item.key@, r) implies exists|
                            j: int,
                        | 0 <= j < item.revisions@.len() && item.revisions@[j] == r by {
                            assert(h.wrote(item.key@, r));
                        }
                    }
                }
                Ok(())
            },
            Err(()) => {
                proof {
                    assert(self.history() =~= h);
                }
                Err(Status::new(Code::Internal, "etcdserver: mvcc: compact failed"))
            },
        }
    }

    /// Splits a key into its prefix and the rest.
    pub fn prefix_split(key: &Vec<u8>) -> (r: (&[u8], &[u8]))
        ensures
            r.0@ == prefix_of(key@),
            r.1@ == suffix_of(key@),
    {
        keyspace::prefix_split(key)
    }

    /// The prefix that a range stays within, and the limits for the rest of the keys.
    pub fn prefix_and_range_of_key<'a>(start: &'a Vec<u8>, end: &'a Vec<u8>) -> (r: Result<
        (&'a [u8], (Bound, Bound)),
        Status,
    >)
        ensures
            r is Ok == one_prefix(start@, end@),
            r matches Ok((p, (lo, hi))) ==> {
                &&& p@ == prefix_of(start@)
                &&& lo@ == BoundView::Included(suffix_of(start@))
                &&& hi@ == keyspace::upper_bound(start@, end@)
            },
            r matches Err(e) ==> e@ == span_error(start@, end@),
    {
        keyspace::prefix_and_range_of_key(start, end)
    }

    /// Writes a record of the log into the store. One that cannot be written, the
    /// deletion of a key that is not there, is passed over.
    pub fn restore(&mut self, rec: WalRecord)
        requires
            old(self).wf(),
            old(self)@.has_room(),
        ensures
            final(self).wf(),
            final(self)@ == old(self)@.after_record(rec.key@, opt_vec(rec.value)),
    {
        let value = match rec.value {
            Some(v) => Some(bytes_from_vec(v)),
            None => None,
        };
        let _ = self.set(rec.key, value, None);
    }
}

} // verus!
