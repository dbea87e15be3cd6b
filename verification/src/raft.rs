//! Replication: what is replicated, and how it is applied.

use crate::mvccpb::copy_bytes;
use crate::outside::{bytes_clone, bytes_contents, leader_id_text};
use crate::order::OrderedKey;
use crate::sorted_map::{ascending, in_order, lemma_in_order, SortedMap};
use crate::store::{Store, StoreView};
use crate::text::{
    chars_of, decimal, find_from, first_at, joined, parse_unsigned, part, pieces, push_decimal, split,
    text_equal, text_of, trim, trimmed, unsigned_value, views, with_decimal, NumberError,
};
use crate::transfer::{
    entry_views, has_key, importable, last_of_key, law_transfer_reads, law_transfer_restores,
    KvEntry,
};
use bytes::Bytes;
use vstd::prelude::*;
use vstd::string::*;

verus! {

/// The number of a node.
pub type NodeId = u64;

/// A write that is replicated.
#[derive(Debug)]
pub enum RaftRequest {
    Put { key: Vec<u8>, value: Bytes },
    Delete { key: Vec<u8> },
}

/// What a [`RaftRequest`] says: a key, and a value unless it is a deletion.
#[verifier::ext_equal]
pub struct ProposalView {
    pub key: Seq<u8>,
    pub value: Option<Seq<u8>>,
}

impl View for RaftRequest {
    type V = ProposalView;

    open spec fn view(&self) -> ProposalView {
        match self {
            RaftRequest::Put { key, value } => ProposalView {
                key: key@,
                value: Some(bytes_contents(*value)),
            },
            RaftRequest::Delete { key } => ProposalView { key: key@, value: None },
        }
    }
}

impl Clone for RaftRequest {
    fn clone(&self) -> (r: RaftRequest)
        ensures
            r@ == self@,
    {
        match self {
            RaftRequest::Put { key, value } => RaftRequest::Put {
                key: copy_bytes(key),
                value: bytes_clone(value),
            },
            RaftRequest::Delete { key } => RaftRequest::Delete { key: copy_bytes(key) },
        }
    }
}

/// What applying a write did.
#[derive(Clone, Copy, Debug, PartialEq, Eq, Structural)]
pub struct RaftResponse {
    pub revision: i64,
}

/// Who a node is and whom it takes for the leader.
#[derive(Clone, Copy, Debug)]
pub struct RaftMetrics {
    pub id: NodeId,
    pub current_leader: Option<NodeId>,
}

// ------------------------------------------------------------------ log

/// The place of an entry in the replicated log, with the leader that made it.
#[derive(Clone, Copy, Debug, PartialEq, Eq, Structural)]
pub struct LogId {
    pub term: u64,
    pub node_id: NodeId,
    pub index: u64,
}

/// A vote of a node.
#[derive(Clone, Copy, Debug, PartialEq, Eq, Structural)]
pub struct Vote {
    pub term: u64,
    pub node_id: NodeId,
    pub committed: bool,
}

/// An entry of the log as the log holds it.
#[derive(Debug)]
pub struct LogEntry<E> {
    pub log_id: LogId,
    pub entry: E,
}

/// The ends of a log.
#[derive(Clone, Copy, Debug, PartialEq, Eq, Structural)]
pub struct LogState {
    pub last_purged_log_id: Option<LogId>,
    pub last_log_id: Option<LogId>,
}

/// The model of a [`MemLogStore`].
#[verifier::ext_equal]
pub struct LogView<E> {
    pub last_purged: Option<LogId>,
    /// The entries by their index.
    pub log: Map<u64, LogEntry<E>>,
    pub committed: Option<LogId>,
    pub vote: Option<Vote>,
}

impl<E> LogView<E> {
    /// The log without the entries from an index on.
    pub open spec fn truncated(self, index: u64) -> LogView<E> {
        LogView { log: self.log.restrict(Set::new(|i: u64| i < index)), ..self }
    }

    /// The log without the entries up to one, which is recorded.
    pub open spec fn purged(self, log_id: LogId) -> LogView<E> {
        LogView {
            last_purged: Some(log_id),
            log: self.log.restrict(Set::new(|i: u64| i > log_id.index)),
            ..self
        }
    }
}

/// What a wait for a leader comes to.
pub open spec fn wait_result(leader: Option<NodeId>, time_is_over: bool) -> LeaderWait {
    match leader {
        Some(leader) => LeaderWait::Leader(leader),
        None => if time_is_over {
            LeaderWait::TimedOut
        } else {
            LeaderWait::Sleep
        },
    }
}

/// The replicated log of a node, in memory.
#[derive(Debug)]
pub struct MemLogStore<E> {
    last_purged_log_id: Option<LogId>,
    log: SortedMap<u64, LogEntry<E>>,
    committed: Option<LogId>,
    vote: Option<Vote>,
}

impl<E> View for MemLogStore<E> {
    type V = LogView<E>;

    closed spec fn view(&self) -> LogView<E> {
        LogView {
            last_purged: self.last_purged_log_id,
            log: self.log@,
            committed: self.committed,
            vote: self.vote,
        }
    }
}

/// The entries after others were put into a log, each in the place of its index.
pub open spec fn appended<E>(log: Map<u64, LogEntry<E>>, entries: Seq<LogEntry<E>>) -> Map<
    u64,
    LogEntry<E>,
>
    decreases entries.len(),
{
    if entries.len() == 0 {
        log
    } else {
        appended(log, entries.drop_last()).insert(entries.last().log_id.index, entries.last())
    }
}

/// The entry with the highest index.
pub open spec fn is_last<E>(log: Map<u64, LogEntry<E>>, index: u64) -> bool {
    log.contains_key(index) && forall|i: u64| #[trigger] log.contains_key(i) ==> i <= index
}

impl<E> MemLogStore<E> {
    /// The entries stand in order.
    pub closed spec fn wf(&self) -> bool {
        self.log.wf()
    }

    /// An empty log.
    pub fn new() -> (r: MemLogStore<E>)
        ensures
            r.wf(),
            r@ == (LogView::<E> {
                last_purged: None,
                log: Map::empty(),
                committed: None,
                vote: None,
            }),
    {
        MemLogStore {
            last_purged_log_id: None,
            log: SortedMap::new(),
            committed: None,
            vote: None,
        }
    }

    /// The entries whose index lies in a range, in order. Without an end the range
    /// is open.
    pub fn try_get_log_entries(&self, from: u64, to: Option<u64>) -> (r: Vec<&LogEntry<E>>)
        requires
            self.wf(),
        ensures
            ({
                let indices = in_order::<u64>(indices_between(self@.log, from, to));
                &&& r@.len() == indices.len()
                &&& forall|i: int|
                    0 <= i < r@.len() ==> {
                        &&& self@.log.contains_key(indices[i])
                        &&& *(#[trigger] r@[i]) == self@.log[indices[i]]
                    }
            }),
    {
        let ghost keys = self.log.key_seq();
        let ghost values = self.log.value_seq();
        let lo = self.log.lower_bound(&from);
        let mut r: Vec<&LogEntry<E>> = Vec::new();
        let mut i: usize = lo;
        while i < self.log.len() && before_end(*self.log.key(i), to)
            invariant
                self.log.wf(),
                keys == self.log.key_seq(),
                values == self.log.value_seq(),
                lo <= i <= keys.len(),
                r@.len() == i - lo,
                forall|j: int| 0 <= j < lo ==> (#[trigger] keys[j]) < from,
                forall|j: int| lo <= j < keys.len() ==> (#[trigger] keys[j]) >= from,
                forall|j: int| lo <= j < i ==> in_bounds(#[trigger] keys[j], from, to),
                forall|j: int| 0 <= j < r@.len() ==> *(#[trigger] r@[j]) == values[lo + j],
            decreases keys.len() - i,
        {
            r.push(self.log.value(i));
            i += 1;
        }
        proof {
            let found = keys.subrange(lo as int, i as int);
            let set = indices_between(self@.log, from, to);
            assert forall|x: u64| found.contains(x) <==> #[trigger] set.contains(x) by {
                if found.contains(x) {
                    let j = choose|j: int| 0 <= j < found.len() && found[j] == x;
                    self.log.lemma_at(lo + j);
                }
                if set.contains(x) {
                    let p = self.log.lemma_position(x);
                    assert(lo <= p);
                    if p >= i {
                        assert(keys[i as int] <= keys[p]);
                    }
                    assert(found[p - lo] == x);
                }
            }
            assert(ascending::<u64>(found)) by {
                assert forall|a: int, b: int|
                    #![trigger found[a], found[b]]
                    0 <= a < b < found.len() implies <u64 as OrderedKey>::before(
                    found[a],
                    found[b],
                ) by {
                    assert(found[a] == keys[lo + a] && found[b] == keys[lo + b]);
                    assert(<u64 as OrderedKey>::before(keys[lo + a], keys[lo + b]));
                }
            }
            lemma_in_order::<u64>(found, set);
            assert forall|j: int| 0 <= j < r@.len() implies {
                &&& self@.log.contains_key(found[j])
                &&& *(#[trigger] r@[j]) == self@.log[found[j]]
            } by {
                self.log.lemma_at(lo + j);
            }
        }
        r
    }

    /// The last entry that was purged, and the last one of the log, which is the
    /// purged one where the log is empty.
    pub fn get_log_state(&self) -> (r: LogState)
        requires
            self.wf(),
        ensures
            r.last_purged_log_id == self@.last_purged,
            (forall|i: u64| !self@.log.contains_key(i)) ==> r.last_log_id == self@.last_purged,
            forall|i: u64|
                #![trigger is_last(self@.log, i)]
                is_last(self@.log, i) ==> r.last_log_id == Some(self@.log[i].log_id),
            (exists|i: u64| self@.log.contains_key(i)) ==> exists|i: u64| is_last(self@.log, i),
    {
        let n = self.log.len();
        if n == 0 {
            proof {
                assert forall|i: u64| !self@.log.contains_key(i) by {
                    if self@.log.contains_key(i) {
                        let p = self.log.lemma_position(i);
                    }
                }
            }
            LogState {
                last_purged_log_id: self.last_purged_log_id,
                last_log_id: self.last_purged_log_id,
            }
        } else {
            proof {
                self.log.lemma_at(n - 1);
                let k = self.log.key_seq()[n - 1];
                assert forall|i: u64| #[trigger] self@.log.contains_key(i) implies i <= k by {
                    let p = self.log.lemma_position(i);
                }
                assert(is_last(self@.log, k));
                assert(self@.log.contains_key(k));
            }
            LogState {
                last_purged_log_id: self.last_purged_log_id,
                last_log_id: Some(self.log.value(n - 1).log_id),
            }
        }
    }

    /// Records a vote.
    pub fn save_vote(&mut self, vote: Vote)
        requires
            old(self).wf(),
        ensures
            final(self).wf(),
            final(self)@ == (LogView { vote: Some(vote), ..old(self)@ }),
    {
        self.vote = Some(vote);
    }

    /// The vote that was recorded last.
    pub fn read_vote(&self) -> (r: Option<Vote>)
        ensures
            r == self@.vote,
    {
        self.vote
    }

    /// Records what is committed.
    pub fn save_committed(&mut self, committed: Option<LogId>)
        requires
            old(self).wf(),
        ensures
            final(self).wf(),
            final(self)@ == (LogView { committed, ..old(self)@ }),
    {
        self.committed = committed;
    }

    /// What is committed.
    pub fn read_committed(&self) -> (r: Option<LogId>)
        ensures
            r == self@.committed,
    {
        self.committed
    }

    /// Puts entries into the log, each in the place of its index.
    pub fn append(&mut self, entries: Vec<LogEntry<E>>)
        requires
            old(self).wf(),
        ensures
            final(self).wf(),
            final(self)@ == (LogView {
                log: appended(old(self)@.log, entries@),
                ..old(self)@
            }),
    {
        let ghost before = self@;
        let ghost all = entries@;
        assert(all.take(0) =~= Seq::empty());
        for entry in it: entries
            invariant
                self.wf(),
                it.seq() == all,
                self@ == (LogView { log: appended(before.log, all.take(it.index())), ..before }),
        {
            proof {
                let n = it.index();
                assert(all.take(n + 1).drop_last() =~= all.take(n));
                assert(all.take(n + 1).last() == entry);
            }
            let _ = self.log.insert(entry.log_id.index, entry);
        }
        assert(all.take(all.len() as int) =~= all);
    }

    /// Removes the entries from an index on.
    pub fn truncate(&mut self, log_id: LogId)
        requires
            old(self).wf(),
        ensures
            final(self).wf(),
            final(self)@ == old(self)@.truncated(log_id.index),
    {
        let ghost before = self@;
        let keep = self.log.lower_bound(&log_id.index);
        self.log.truncate(keep);
        proof {
            let kept = before.log.restrict(Set::new(|i: u64| i < log_id.index));
            assert(self@.log =~= kept);
        }
    }

    /// Removes the entries up to an index, and records the last of them.
    pub fn purge(&mut self, log_id: LogId)
        requires
            old(self).wf(),
        ensures
            final(self).wf(),
            final(self)@ == old(self)@.purged(log_id),
    {
        let ghost before = self@;
        self.last_purged_log_id = Some(log_id);
        let mut gone = self.log.lower_bound(&log_id.index);
        if gone < self.log.len() && *self.log.key(gone) == log_id.index {
            gone = gone + 1;
        }
        self.log.drop_front(gone);
        proof {
            let kept = before.log.restrict(Set::new(|i: u64| i > log_id.index));
            assert(self@.log =~= kept);
        }
    }
}

/// The indices of a log that lie in a range.
pub open spec fn indices_between<E>(
    log: Map<u64, LogEntry<E>>,
    from: u64,
    to: Option<u64>,
) -> Set<u64> {
    Set::new(|i: u64| log.contains_key(i) && in_bounds(i, from, to))
}

fn before_end(i: u64, to: Option<u64>) -> (r: bool)
    ensures
        r == (to matches Some(end) ==> i < end),
{
    match to {
        Some(end) => i < end,
        None => true,
    }
}

/// An index lies in a range.
pub open spec fn in_bounds(i: u64, from: u64, to: Option<u64>) -> bool {
    from <= i && (to matches Some(end) ==> i < end)
}

// -------------------------------------------------------- state machine

/// What an entry of the log holds.
#[derive(Debug)]
pub enum EntryPayload<M> {
    Blank,
    Normal(RaftRequest),
    Membership(M),
}

/// An entry of the log.
#[derive(Debug)]
pub struct Entry<M> {
    pub log_id: LogId,
    pub payload: EntryPayload<M>,
}

/// A membership, with the entry that set it.
#[derive(Debug)]
pub struct StoredMembership<M> {
    pub log_id: Option<LogId>,
    pub membership: M,
}

/// What is said of a snapshot of the state machine.
#[derive(Debug)]
pub struct SnapshotMeta<M> {
    pub last_log_id: Option<LogId>,
    pub last_membership: StoredMembership<M>,
    pub snapshot_id: String,
}

/// The contents of a snapshot: what was applied, the membership, and the pairs of the
/// store.
#[derive(Debug)]
pub struct FullSnapshotData<M> {
    pub last_applied_log: Option<LogId>,
    pub last_membership: StoredMembership<M>,
    pub kv_entries: Vec<KvEntry>,
}

/// A snapshot of the state machine, with its contents as they are sent.
#[derive(Debug)]
pub struct StoredSnapshot<M> {
    pub meta: SnapshotMeta<M>,
    pub data: Vec<u8>,
}

/// What a [`StoredSnapshot`] says.
#[verifier::ext_equal]
pub struct SnapshotView<M> {
    pub last_log_id: Option<LogId>,
    pub last_membership: StoredMembership<M>,
    pub snapshot_id: Seq<char>,
    pub data: Seq<u8>,
}

impl<M> View for StoredSnapshot<M> {
    type V = SnapshotView<M>;

    open spec fn view(&self) -> SnapshotView<M> {
        SnapshotView {
            last_log_id: self.meta.last_log_id,
            last_membership: self.meta.last_membership,
            snapshot_id: self.meta.snapshot_id@,
            data: self.data@,
        }
    }
}

/// What the state machine keeps beside the store: the last entry that was applied,
/// the membership, how many snapshots were made, and the last one that was made or
/// taken over.
#[derive(Debug)]
pub struct StateMachineStore<M> {
    last_applied_log: Option<LogId>,
    last_membership: StoredMembership<M>,
    snapshot_idx: u64,
    current_snapshot: Option<StoredSnapshot<M>>,
}

/// The model of a [`StateMachineStore`].
#[verifier::ext_equal]
pub struct MachineView<M> {
    pub last_applied: Option<LogId>,
    pub last_membership: StoredMembership<M>,
    pub snapshots: int,
    pub current_snapshot: Option<SnapshotView<M>>,
}

impl<M> View for StateMachineStore<M> {
    type V = MachineView<M>;

    closed spec fn view(&self) -> MachineView<M> {
        MachineView {
            last_applied: self.last_applied_log,
            last_membership: self.last_membership,
            snapshots: self.snapshot_idx as int,
            current_snapshot: match self.current_snapshot {
                Some(s) => Some(s@),
                None => None,
            },
        }
    }
}

/// The store after an entry was applied: a write takes place unless it is refused.
pub open spec fn applied<M>(s: StoreView, payload: EntryPayload<M>) -> StoreView {
    match payload {
        EntryPayload::Normal(req) => s.after_record(req@.key, req@.value),
        _ => s,
    }
}

/// The store after some entries were applied.
pub open spec fn applied_all<M>(s: StoreView, entries: Seq<Entry<M>>) -> StoreView
    decreases entries.len(),
{
    if entries.len() == 0 {
        s
    } else {
        applied(applied_all(s, entries.drop_last()), entries.last().payload)
    }
}

/// The state machine after an entry was applied.
pub open spec fn machine_after<M>(m: MachineView<M>, entry: Entry<M>) -> MachineView<M> {
    MachineView {
        last_applied: Some(entry.log_id),
        last_membership: match entry.payload {
            EntryPayload::Membership(x) => StoredMembership {
                log_id: Some(entry.log_id),
                membership: x,
            },
            _ => m.last_membership,
        },
        ..m
    }
}

/// The state machine after some entries were applied.
pub open spec fn machine_after_all<M>(m: MachineView<M>, entries: Seq<Entry<M>>) -> MachineView<M>
    decreases entries.len(),
{
    if entries.len() == 0 {
        m
    } else {
        machine_after(machine_after_all(m, entries.drop_last()), entries.last())
    }
}

/// The name of a snapshot: the last entry that was applied, and the number of the
/// snapshot.
pub open spec fn snapshot_name(last: Option<LogId>, n: nat) -> Seq<char> {
    match last {
        Some(id) => "T"@ + decimal(id.term as nat) + "-N"@ + decimal(id.node_id as nat) + "-"@
            + decimal(id.index as nat) + "-"@ + decimal(n),
        None => "--"@ + decimal(n),
    }
}

impl<M> StateMachineStore<M> {
    /// Nothing was applied yet, and the membership is a given one.
    pub fn new(membership: M) -> (r: StateMachineStore<M>)
        ensures
            r@ == (MachineView {
                last_applied: None,
                last_membership: StoredMembership { log_id: None, membership },
                snapshots: 0,
                current_snapshot: None,
            }),
    {
        StateMachineStore {
            last_applied_log: None,
            last_membership: StoredMembership { log_id: None, membership },
            snapshot_idx: 0,
            current_snapshot: None,
        }
    }

    /// The last entry that was applied, and the membership.
    pub fn applied_state(&self) -> (r: (Option<LogId>, &StoredMembership<M>))
        ensures
            r.0 == self@.last_applied,
            *r.1 == self@.last_membership,
    {
        (self.last_applied_log, &self.last_membership)
    }

    /// Applies an entry. The response names the revision of a write, and the last
    /// revision where nothing was written.
    pub fn apply_entry(&mut self, store: &mut Store, entry: Entry<M>) -> (r: RaftResponse)
        requires
            old(store).wf(),
            old(store)@.has_room(),
        ensures
            final(store).wf(),
            final(store)@ == applied(old(store)@, entry.payload),
            final(self)@ == machine_after(old(self)@, entry),
            r.revision == final(store)@.history.current(),
    {
        self.last_applied_log = Some(entry.log_id);
        match entry.payload {
            EntryPayload::Blank => RaftResponse { revision: store.current_revision() },
            EntryPayload::Normal(RaftRequest::Put { key, value }) => {
                let revision = match store.set(key, Some(value), None) {
                    Ok(rev) => rev,
                    Err((rev, _)) => rev,
                };
                RaftResponse { revision }
            },
            EntryPayload::Normal(RaftRequest::Delete { key }) => {
                let revision = match store.delete(key, None) {
                    Ok(rev) => rev,
                    Err((rev, _)) => rev,
                };
                RaftResponse { revision }
            },
            EntryPayload::Membership(membership) => {
                self.last_membership = StoredMembership {
                    log_id: Some(entry.log_id),
                    membership,
                };
                RaftResponse { revision: store.current_revision() }
            },
        }
    }

    /// Applies entries in their order. There is a response to each.
    pub fn apply(&mut self, store: &mut Store, entries: Vec<Entry<M>>) -> (r: Vec<RaftResponse>)
        requires
            old(store).wf(),
            old(store)@.history.current() + entries@.len() <= i64::MAX,
            old(store)@.history.current() + entries@.len() <= usize::MAX,
        ensures
            final(store).wf(),
            final(store)@ == applied_all(old(store)@, entries@),
            final(self)@ == machine_after_all(old(self)@, entries@),
            r@.len() == entries@.len(),
            forall|i: int|
                0 <= i < r@.len() ==> (#[trigger] r@[i]).revision == applied_all(
                    old(store)@,
                    entries@.take(i + 1),
                ).history.current(),
    {
        let ghost s = store@;
        let ghost m = self@;
        let ghost all = entries@;
        let mut results: Vec<RaftResponse> = Vec::new();
        assert(all.take(0) =~= Seq::empty());
        for entry in it: entries
            invariant
                store.wf(),
                it.seq() == all,
                s.history.current() + all.len() <= i64::MAX,
                s.history.current() + all.len() <= usize::MAX,
                store@ == applied_all(s, all.take(it.index())),
                store@.history.current() <= s.history.current() + it.index(),
                self@ == machine_after_all(m, all.take(it.index())),
                results@.len() == it.index(),
                forall|i: int|
                    0 <= i < results@.len() ==> (#[trigger] results@[i]).revision == applied_all(
                        s,
                        all.take(i + 1),
                    ).history.current(),
        {
            proof {
                let n = it.index();
                assert(all.take(n + 1).drop_last() =~= all.take(n));
                assert(all.take(n + 1).last() == entry);
            }
            let response = self.apply_entry(store, entry);
            results.push(response);
        }
        assert(all.take(all.len() as int) =~= all);
        results
    }

    /// The name of a snapshot of what was applied.
    fn snapshot_id(&self, n: u64) -> (r: String)
        ensures
            r@ == snapshot_name(self@.last_applied, n as nat),
    {
        match self.last_applied_log {
            Some(last) => {
                let mut name = leader_id_text(last.term, last.node_id);
                name.append("-");
                push_decimal(&mut name, last.index);
                name.append("-");
                push_decimal(&mut name, n);
                name
            },
            None => with_decimal("--", n),
        }
    }

    /// Takes a snapshot over: what was applied, and the pairs of the store, are what its
    /// contents say.
    pub fn install_snapshot(
        &mut self,
        store: &mut Store,
        snapshot: StoredSnapshot<M>,
        contents: FullSnapshotData<M>,
    )
        requires
            old(store).wf(),
            importable(entry_views(contents.kv_entries@)),
        ensures
            final(store).wf(),
            final(store)@ == old(store)@.after_import(entry_views(contents.kv_entries@)),
            forall|k: Seq<u8>| #[trigger]
                final(store)@.history.live(k) <==> has_key(entry_views(contents.kv_entries@), k),
            forall|i: int| #[trigger]
                last_of_key(entry_views(contents.kv_entries@), i)
                    ==> final(store)@.history.conflict(entry_views(contents.kv_entries@)[i].key)
                    == Some(entry_views(contents.kv_entries@)[i]),
            final(self)@ == (MachineView {
                last_applied: contents.last_applied_log,
                last_membership: contents.last_membership,
                current_snapshot: Some(snapshot@),
                ..old(self)@
            }),
    {
        store.import_snapshot_data(contents.kv_entries);
        self.last_applied_log = contents.last_applied_log;
        self.last_membership = contents.last_membership;
        self.current_snapshot = Some(snapshot);
    }

    /// The last snapshot that was made or taken over.
    pub fn get_current_snapshot(&self) -> (r: Option<&StoredSnapshot<M>>)
        ensures
            r is Some == self@.current_snapshot is Some,
            r matches Some(s) ==> self@.current_snapshot == Some(s@),
    {
        match &self.current_snapshot {
            Some(s) => Some(s),
            None => None,
        }
    }
}

impl<M: Clone> StateMachineStore<M> {
    /// The contents of a snapshot of what was applied.
    pub fn snapshot_data(&self, store: &Store) -> (r: FullSnapshotData<M>)
        requires
            store.wf(),
        ensures
            r.last_applied_log == self@.last_applied,
            r.last_membership.log_id == self@.last_membership.log_id,
            cloned(self@.last_membership.membership, r.last_membership.membership),
            entry_views(r.kv_entries@) == store@.history.live_pairs(),
            importable(entry_views(r.kv_entries@)),
    {
        proof {
            store.lemma_wf();
            law_transfer_restores(store@.history, store@.history);
        }
        FullSnapshotData {
            last_applied_log: self.last_applied_log,
            last_membership: StoredMembership {
                log_id: self.last_membership.log_id,
                membership: self.last_membership.membership.clone(),
            },
            kv_entries: store.export_snapshot_data(),
        }
    }

    /// Makes a snapshot of what was applied, given its contents.
    pub fn build_snapshot(&mut self, data: Vec<u8>)
        requires
            old(self)@.snapshots < u64::MAX,
        ensures
            ({
                let m = old(self)@;
                let t = final(self)@;
                &&& t.last_applied == m.last_applied
                &&& t.last_membership == m.last_membership
                &&& t.snapshots == m.snapshots + 1
                &&& t.current_snapshot matches Some(s)
                &&& s.last_log_id == m.last_applied
                &&& s.last_membership.log_id == m.last_membership.log_id
                &&& cloned(m.last_membership.membership, s.last_membership.membership)
                &&& s.snapshot_id == snapshot_name(m.last_applied, (m.snapshots + 1) as nat)
                &&& s.data == data@
            }),
    {
        self.snapshot_idx = self.snapshot_idx + 1;
        let meta = SnapshotMeta {
            last_log_id: self.last_applied_log,
            last_membership: StoredMembership {
                log_id: self.last_membership.log_id,
                membership: self.last_membership.membership.clone(),
            },
            snapshot_id: self.snapshot_id(self.snapshot_idx),
        };
        self.current_snapshot = Some(StoredSnapshot { meta, data });
    }
}

/// Replicas agree: the same entries, applied to stores with the same history, give
/// the same history.
pub proof fn law_replicas_agree<M>(a: StoreView, b: StoreView, entries: Seq<Entry<M>>)
    requires
        a.history == b.history,
    ensures
        applied_all(a, entries).history == applied_all(b, entries).history,
    decreases entries.len(),
{
    if entries.len() > 0 {
        law_replicas_agree(a, b, entries.drop_last());
    }
}

/// A snapshot carries the store: a node that takes over the pairs that another one put
/// into a snapshot has the same pairs, and reads the same in every range.
pub proof fn law_snapshot_carries_store(
    s: StoreView,
    t: StoreView,
    start: Seq<u8>,
    end: Seq<u8>,
    limit: int,
)
    requires
        s.history.valid(),
        s.history.fits(),
        limit >= 0,
    ensures
        ({
            let r = t.after_import(s.history.live_pairs());
            &&& r.history.live_pairs() == s.history.live_pairs()
            &&& forall|k: Seq<u8>|
                #![trigger r.history.conflict(k)]
                r.history.conflict(k) == s.history.conflict(k)
            &&& r.range(start, end, 0, limit).kvs == s.range(start, end, 0, limit).kvs
        }),
{
    law_transfer_restores(s.history, t.history);
    law_transfer_reads(s.history, t.history, start, end);
    let r = t.after_import(s.history.live_pairs());
    let keys = s.history.live_keys(s.history.matching(start, end), s.history.current());
    let n = if keys.len() < limit {
        keys.len() as int
    } else {
        limit
    };
    assert(r.range(start, end, 0, limit).kvs =~= s.range(start, end, 0, limit).kvs) by {
        assert forall|i: int| 0 <= i < n implies #[trigger] r.range(start, end, 0, limit).kvs[i]
            == s.range(start, end, 0, limit).kvs[i] by {
            assert(keys.take(n)[i] == keys[i]);
        }
    }
}

/// Entries can be applied in parts.
pub proof fn law_apply_in_parts<M>(s: StoreView, first: Seq<Entry<M>>, second: Seq<Entry<M>>)
    ensures
        applied_all(s, first + second) == applied_all(applied_all(s, first), second),
    decreases second.len(),
{
    if second.len() == 0 {
        assert(first + second =~= first);
    } else {
        law_apply_in_parts(s, first, second.drop_last());
        assert((first + second).drop_last() =~= first + second.drop_last());
    }
}

// ---------------------------------------------------------------- peers

/// Why a list of peers cannot be read.
#[derive(Debug)]
pub enum PeerError {
    /// There is no at sign in an entry.
    InvalidEntry(String),
    /// What stands before the at sign is not the number of a node.
    InvalidId(NumberError),
}

/// What a [`PeerError`] says.
pub enum PeerErrorView {
    InvalidEntry(Seq<char>),
    InvalidId(NumberError),
}

impl View for PeerError {
    type V = PeerErrorView;

    open spec fn view(&self) -> PeerErrorView {
        match self {
            PeerError::InvalidEntry(s) => PeerErrorView::InvalidEntry(s@),
            PeerError::InvalidId(e) => PeerErrorView::InvalidId(*e),
        }
    }
}

/// Why a text is not a number, in words.
pub open spec fn number_error_text(e: NumberError) -> Seq<char> {
    match e {
        NumberError::Empty => "cannot parse integer from empty string"@,
        NumberError::InvalidDigit => "invalid digit found in string"@,
        NumberError::PosOverflow => "number too large to fit in target type"@,
        NumberError::NegOverflow => "number too small to fit in target type"@,
    }
}

impl PeerErrorView {
    /// The error in words.
    pub open spec fn text(self) -> Seq<char> {
        match self {
            PeerErrorView::InvalidEntry(s) => "invalid peer entry: "@ + s,
            PeerErrorView::InvalidId(e) => number_error_text(e),
        }
    }
}

impl PeerError {
    /// The error in words.
    pub fn text(&self) -> (r: String)
        ensures
            r@ == self@.text(),
    {
        match self {
            PeerError::InvalidEntry(s) => joined("invalid peer entry: ", s.as_str()),
            PeerError::InvalidId(NumberError::Empty) => "cannot parse integer from empty string".to_owned(),
            PeerError::InvalidId(NumberError::InvalidDigit) => "invalid digit found in string".to_owned(),
            PeerError::InvalidId(NumberError::PosOverflow) => "number too large to fit in target type".to_owned(),
            PeerError::InvalidId(NumberError::NegOverflow) => "number too small to fit in target type".to_owned(),
        }
    }
}

/// What an entry of a list of peers says: nothing where it is blank, and else the
/// number before the first at sign, and the address behind it.
pub open spec fn peer_of(piece: Seq<char>) -> Result<Option<(nat, Seq<char>)>, PeerErrorView> {
    let entry = trimmed(piece);
    let i = first_at(entry, '@') as int;
    if entry.len() == 0 {
        Ok(None)
    } else if i >= entry.len() {
        Err(PeerErrorView::InvalidEntry(entry))
    } else {
        match unsigned_value(trimmed(entry.take(i))) {
            Err(e) => Err(PeerErrorView::InvalidId(e)),
            Ok(id) => Ok(Some((id, trimmed(entry.skip(i + 1))))),
        }
    }
}

/// The peers of a list, in their order. The first entry that cannot be read decides
/// the error.
pub open spec fn peers_of(entries: Seq<Seq<char>>) -> Result<
    Seq<(nat, Seq<char>)>,
    PeerErrorView,
>
    decreases entries.len(),
{
    if entries.len() == 0 {
        Ok(Seq::empty())
    } else {
        match peers_of(entries.drop_last()) {
            Err(e) => Err(e),
            Ok(peers) => match peer_of(entries.last()) {
                Err(e) => Err(e),
                Ok(None) => Ok(peers),
                Ok(Some(p)) => Ok(peers.push(p)),
            },
        }
    }
}

/// The views of some peers.
pub open spec fn peer_views(peers: Seq<(NodeId, String)>) -> Seq<(nat, Seq<char>)> {
    peers.map_values(|p: (NodeId, String)| (p.0 as nat, p.1@))
}

/// Reads an entry of a list of peers.
pub fn read_peer(piece: &Vec<char>) -> (r: Result<Option<(NodeId, String)>, PeerError>)
    ensures
        match peer_of(piece@) {
            Err(e) => r matches Err(x) && x@ == e,
            Ok(None) => r matches Ok(None),
            Ok(Some((id, addr))) => r matches Ok(Some((n, a))) && n == id && a@ == addr,
        },
{
    let entry = trim(piece);
    if entry.len() == 0 {
        return Ok(None);
    }
    assert(entry@.skip(0) =~= entry@);
    let i = find_from(&entry, 0, '@');
    if i >= entry.len() {
        return Err(PeerError::InvalidEntry(text_of(&entry)));
    }
    let head = part(&entry, 0, i);
    let tail = part(&entry, i + 1, entry.len());
    proof {
        assert(head@ =~= entry@.take(i as int));
        assert(tail@ =~= entry@.skip(i + 1));
    }
    match parse_unsigned(&trim(&head)) {
        Err(e) => Err(PeerError::InvalidId(e)),
        Ok(id) => Ok(Some((id, text_of(&trim(&tail))))),
    }
}

/// An error among the first entries stays the error of all of them.
proof fn lemma_peers_stop(entries: Seq<Seq<char>>, n: int)
    requires
        0 <= n <= entries.len(),
        peers_of(entries.take(n)) is Err,
    ensures
        peers_of(entries) == peers_of(entries.take(n)),
    decreases entries.len(),
{
    if n == entries.len() {
        assert(entries.take(n) =~= entries);
    } else {
        assert(entries.drop_last().take(n) =~= entries.take(n));
        lemma_peers_stop(entries.drop_last(), n);
    }
}

/// Reads a list of peers such as `1@host:port,2@host:port`.
pub fn parse_peers(peers_str: &str) -> (r: Result<Vec<(NodeId, String)>, PeerError>)
    ensures
        match peers_of(pieces(peers_str@, ',')) {
            Err(e) => r matches Err(x) && x@ == e,
            Ok(peers) => r matches Ok(x) && peer_views(x@) == peers,
        },
{
    let chars = chars_of(peers_str);
    let list = split(&chars, ',');
    let ghost all = views(list@);
    let mut peers: Vec<(NodeId, String)> = Vec::new();
    let mut i: usize = 0;
    proof {
        assert(all.take(0) =~= Seq::empty());
        assert(peer_views(peers@) =~= Seq::empty());
    }
    while i < list.len()
        invariant
            i <= list@.len(),
            all == views(list@),
            all == pieces(peers_str@, ','),
            peers_of(all.take(i as int)) == Ok::<_, PeerErrorView>(peer_views(peers@)),
        decreases list@.len() - i,
    {
        let ghost before = peers@;
        proof {
            assert(all.take(i + 1).drop_last() =~= all.take(i as int));
            assert(all.take(i + 1).last() == list@[i as int]@);
        }
        match read_peer(&list[i]) {
            Err(e) => {
                proof {
                    lemma_peers_stop(all, i + 1);
                }
                return Err(e);
            },
            Ok(None) => {},
            Ok(Some(p)) => {
                let ghost v = (p.0 as nat, p.1@);
                peers.push(p);
                assert(peer_views(peers@) =~= peer_views(before).push(v));
            },
        }
        i += 1;
    }
    assert(all.take(all.len() as int) =~= all);
    Ok(peers)
}

/// The addresses of the peers by their numbers: of two entries with one number the
/// later one counts.
pub open spec fn addresses(peers: Seq<(nat, Seq<char>)>) -> Map<nat, Seq<char>>
    decreases peers.len(),
{
    if peers.len() == 0 {
        Map::empty()
    } else {
        addresses(peers.drop_last()).insert(peers.last().0, peers.last().1)
    }
}

/// The addresses of the peers.
#[derive(Debug)]
pub struct PeerMap {
    peers: SortedMap<u64, String>,
}

impl View for PeerMap {
    type V = Map<nat, Seq<char>>;

    closed spec fn view(&self) -> Map<nat, Seq<char>> {
        Map::new(
            |id: nat| id <= u64::MAX && self.peers@.contains_key(id as u64),
            |id: nat| self.peers@[id as u64]@,
        )
    }
}

impl PeerMap {
    /// The entries stand in order.
    pub closed spec fn wf(&self) -> bool {
        self.peers.wf()
    }

    /// The addresses of a list of peers.
    pub fn new(peers: Vec<(NodeId, String)>) -> (r: PeerMap)
        ensures
            r.wf(),
            r@ == addresses(peer_views(peers@)),
    {
        let ghost all = peer_views(peers@);
        let mut r = PeerMap { peers: SortedMap::new() };
        proof {
            assert(all.take(0) =~= Seq::empty());
            assert(r@ =~= Map::empty());
        }
        for peer in it: peers
            invariant
                r.wf(),
                all == peer_views(it.seq()),
                r@ == addresses(all.take(it.index())),
        {
            let ghost before = r@;
            let ghost v = (peer.0 as nat, peer.1@);
            let (id, addr) = peer;
            let _ = r.peers.insert(id, addr);
            proof {
                let n = it.index();
                assert(all.take(n + 1).drop_last() =~= all.take(n));
                assert(all.take(n + 1).last() == v);
                assert(r@ =~= before.insert(v.0, v.1));
            }
        }
        assert(all.take(all.len() as int) =~= all);
        r
    }

    /// Where a peer is reached.
    pub fn endpoint(&self, target: NodeId) -> (r: Result<String, String>)
        requires
            self.wf(),
        ensures
            r is Ok == self@.contains_key(target as nat),
            r matches Ok(url) ==> url@ == "http://"@ + self@[target as nat],
            r matches Err(e) ==> e@ == "node "@ + decimal(target as nat) + " address not found"@,
    {
        match self.peers.get(&target) {
            Some(addr) => Ok(joined("http://", addr.as_str())),
            None => Err(node_error(target, " address not found")),
        }
    }
}

/// The nodes of this process, and how they are reached.
#[derive(Debug)]
pub struct Router<T> {
    targets: SortedMap<u64, T>,
}

impl<T> View for Router<T> {
    type V = Map<u64, T>;

    closed spec fn view(&self) -> Map<u64, T> {
        self.targets@
    }
}

impl<T> Router<T> {
    /// The nodes stand in order.
    pub closed spec fn wf(&self) -> bool {
        self.targets.wf()
    }

    /// No node is reached.
    pub fn new() -> (r: Router<T>)
        ensures
            r.wf(),
            r@ == Map::<u64, T>::empty(),
    {
        Router { targets: SortedMap::new() }
    }

    /// Tells how a node is reached.
    pub fn register(&mut self, id: NodeId, target: T)
        requires
            old(self).wf(),
        ensures
            final(self).wf(),
            final(self)@ == old(self)@.insert(id, target),
    {
        let _ = self.targets.insert(id, target);
    }

    /// A node is not reached any more.
    pub fn unregister(&mut self, id: NodeId)
        requires
            old(self).wf(),
        ensures
            final(self).wf(),
            final(self)@ == old(self)@.remove(id),
    {
        let _ = self.targets.remove(&id);
    }

    /// How a node is reached.
    pub fn target(&self, id: NodeId) -> (r: Result<&T, String>)
        requires
            self.wf(),
        ensures
            r is Ok == self@.contains_key(id),
            r matches Ok(t) ==> *t == self@[id],
            r matches Err(e) ==> e@ == "node "@ + decimal(id as nat) + " not found"@,
    {
        match self.targets.get(&id) {
            Some(t) => Ok(t),
            None => Err(node_error(id, " not found")),
        }
    }
}

/// What is wrong with a node, in words.
pub fn node_error(id: NodeId, what: &str) -> (r: String)
    ensures
        r@ == "node "@ + decimal(id as nat) + what@,
{
    let mut e = with_decimal("node ", id);
    e.append(what);
    e
}

/// The address of a node that lives in this process.
pub fn in_memory_address(id: NodeId) -> (r: String)
    ensures
        r@ == "in-memory-"@ + decimal(id as nat),
{
    with_decimal("in-memory-", id)
}

// ----------------------------------------------------------------- calls

/// A call from one node to another.
#[derive(Clone, Copy, Debug, PartialEq, Eq, Structural)]
pub enum RaftRpc {
    Append,
    Vote,
    Snapshot,
}

/// The path of a call.
pub open spec fn rpc_path(rpc: RaftRpc) -> Seq<char> {
    match rpc {
        RaftRpc::Append => "/raft/append"@,
        RaftRpc::Vote => "/raft/vote"@,
        RaftRpc::Snapshot => "/raft/snapshot"@,
    }
}

impl RaftRpc {
    /// The path of a call.
    pub fn path(self) -> (r: &'static str)
        ensures
            r@ == rpc_path(self),
    {
        match self {
            RaftRpc::Append => "/raft/append",
            RaftRpc::Vote => "/raft/vote",
            RaftRpc::Snapshot => "/raft/snapshot",
        }
    }

    /// The call of a path.
    pub fn of_path(path: &str) -> (r: Option<RaftRpc>)
        ensures
            forall|rpc: RaftRpc| #[trigger] rpc_path(rpc) == path@ ==> r == Some(rpc),
            r matches Some(rpc) ==> rpc_path(rpc) == path@,
    {
        proof {
            reveal_strlit("/raft/append");
            reveal_strlit("/raft/vote");
            reveal_strlit("/raft/snapshot");
            assert("/raft/append"@[6] == 'a');
            assert("/raft/vote"@[6] == 'v');
            assert("/raft/snapshot"@[6] == 's');
        }
        if text_equal(path, "/raft/append") {
            Some(RaftRpc::Append)
        } else if text_equal(path, "/raft/vote") {
            Some(RaftRpc::Vote)
        } else if text_equal(path, "/raft/snapshot") {
            Some(RaftRpc::Snapshot)
        } else {
            None
        }
    }
}

/// What to do while a leader is waited for.
#[derive(Clone, Copy, Debug, PartialEq, Eq, Structural)]
pub enum LeaderWait {
    Leader(NodeId),
    TimedOut,
    Sleep,
}

/// A leader ends the wait, also when the time is over.
pub fn leader_wait(metrics: &RaftMetrics, time_is_over: bool) -> (r: LeaderWait)
    ensures
        r == wait_result(metrics.current_leader, time_is_over),
{
    match metrics.current_leader {
        Some(leader) => LeaderWait::Leader(leader),
        None => if time_is_over {
            LeaderWait::TimedOut
        } else {
            LeaderWait::Sleep
        },
    }
}

} // verus!
