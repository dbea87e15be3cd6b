//! What holds of the replicated log, of what is applied from it, and of lists of peers.

use crate::raft::{
    addresses, appended, applied, applied_all, indices_between, is_last, machine_after,
    machine_after_all, number_error_text, peer_of, peers_of, rpc_path, snapshot_name, wait_result,
    Entry, EntryPayload, LeaderWait, LogEntry, LogId, LogView, MachineView, PeerErrorView, RaftRpc,
};
use crate::store::StoreView;
use crate::text::{
    decimal, first_at, is_digit, is_space, law_decimal_digits, law_decimals_differ,
    law_numbers_read_back, law_trimmed_fixed, lemma_first_at, trimmed, unsigned_value,
    NumberError,
};
use vstd::prelude::*;
use vstd::string::*;

verus! {

// -------------------------------------------------------------------- log

/// Entries that are put into a log are found under their indices: of two with one index
/// the later one. What stood under other indices stays.
pub proof fn law_appended_entries<E>(
    log: Map<u64, LogEntry<E>>,
    entries: Seq<LogEntry<E>>,
    k: int,
    other: u64,
)
    requires
        0 <= k < entries.len(),
        forall|j: int|
            k < j < entries.len() ==> (#[trigger] entries[j]).log_id.index
                != entries[k].log_id.index,
    ensures
        appended(log, entries).contains_key(entries[k].log_id.index),
        appended(log, entries)[entries[k].log_id.index] == entries[k],
        (forall|j: int| 0 <= j < entries.len() ==> (#[trigger] entries[j]).log_id.index != other)
            ==> {
            &&& appended(log, entries).contains_key(other) == log.contains_key(other)
            &&& log.contains_key(other) ==> appended(log, entries)[other] == log[other]
        },
    decreases entries.len(),
{
    lemma_other_entries(log, entries, other);
    let front = entries.drop_last();
    if k < front.len() {
        assert forall|j: int| k < j < front.len() implies (#[trigger] front[j]).log_id.index
            != front[k].log_id.index by {
            assert(front[j] == entries[j]);
        }
        assert(entries[entries.len() - 1] == entries.last());
        law_appended_entries(log, front, k, other);
    }
}

proof fn lemma_other_entries<E>(
    log: Map<u64, LogEntry<E>>,
    entries: Seq<LogEntry<E>>,
    other: u64,
)
    ensures
        (forall|j: int| 0 <= j < entries.len() ==> (#[trigger] entries[j]).log_id.index != other)
            ==> {
            &&& appended(log, entries).contains_key(other) == log.contains_key(other)
            &&& log.contains_key(other) ==> appended(log, entries)[other] == log[other]
        },
    decreases entries.len(),
{
    if entries.len() > 0 && (forall|j: int|
        0 <= j < entries.len() ==> (#[trigger] entries[j]).log_id.index != other) {
        let front = entries.drop_last();
        assert forall|j: int| 0 <= j < front.len() implies (#[trigger] front[j]).log_id.index
            != other by {
            assert(front[j] == entries[j]);
        }
        assert(entries[entries.len() - 1] == entries.last());
        lemma_other_entries(log, front, other);
    }
}

/// The indices that a range of the log takes in: those from its start on that are before
/// its end, where it has one.
pub proof fn law_range_of_log<E>(log: Map<u64, LogEntry<E>>, from: u64, end: u64, i: u64)
    ensures
        indices_between(log, from, Some(end)).contains(i) == (log.contains_key(i) && from <= i
            < end),
        indices_between(log, from, None).contains(i) == (log.contains_key(i) && from <= i),
{
}

/// What is truncated goes, from its index on, and what is purged goes, up to its index.
/// The rest stays, and so do the vote and what is committed.
pub proof fn law_what_leaves_the_log<E>(l: LogView<E>, log_id: LogId, i: u64)
    ensures
        ({
            let t = l.truncated(log_id.index);
            let p = l.purged(log_id);
            &&& t.log.contains_key(i) == (l.log.contains_key(i) && i < log_id.index)
            &&& t.log.contains_key(i) ==> t.log[i] == l.log[i]
            &&& t.last_purged == l.last_purged
            &&& p.log.contains_key(i) == (l.log.contains_key(i) && i > log_id.index)
            &&& p.log.contains_key(i) ==> p.log[i] == l.log[i]
            &&& p.last_purged == Some(log_id)
            &&& t.vote == l.vote && p.vote == l.vote
            &&& t.committed == l.committed && p.committed == l.committed
        }),
{
}

/// A wait for a leader ends with the leader, whenever there is one, and without one when
/// the time is over, and not before.
pub proof fn law_wait_for_leader(leader: Option<u64>, time_is_over: bool)
    ensures
        leader matches Some(id) ==> wait_result(leader, time_is_over) == LeaderWait::Leader(id),
        leader is None ==> (wait_result(leader, time_is_over) is TimedOut) == time_is_over,
        leader is None ==> (wait_result(leader, time_is_over) is Sleep) == !time_is_over,
{
}

/// Different calls have different paths.
pub proof fn law_paths_differ(a: RaftRpc, b: RaftRpc)
    ensures
        rpc_path(a) == rpc_path(b) ==> a == b,
{
    reveal_strlit("/raft/append");
    reveal_strlit("/raft/vote");
    reveal_strlit("/raft/snapshot");
    assert("/raft/append"@[6] == 'a');
    assert("/raft/vote"@[6] == 'v');
    assert("/raft/snapshot"@[6] == 's');
}

// ---------------------------------------------------------------- applying

/// What applying an entry writes: a put its value, a deletion the end of a key that is
/// there, and anything else nothing.
pub proof fn law_applied_entry<M>(s: StoreView, entry: Entry<M>)
    ensures
        ({
            let t = applied(s, entry.payload);
            &&& entry.payload matches EntryPayload::Normal(req) ==> {
                let key = req@.key;
                let h = s.history;
                let there = h.latest.contains_key(key) && h.latest[key].value is Some;
                &&& req@.value is Some || there ==> {
                    &&& t.history.log.len() == h.log.len() + 1
                    &&& t.history.latest.contains_key(key)
                    &&& t.history.latest[key].value == req@.value
                    &&& t.history.latest[key].mod_revision == h.compacted + h.log.len() + 1
                    &&& t.jobs.len() == s.jobs.len() + 1
                }
                &&& req@.value is None && !there ==> t == s
            }
            &&& !(entry.payload is Normal) ==> t == s
        }),
{
}

/// What is kept of an entry that was applied: that it was the last one, and the membership
/// that it sets, if it does.
pub proof fn law_machine_after_entry<M>(m: MachineView<M>, entry: Entry<M>)
    ensures
        ({
            let t = machine_after(m, entry);
            &&& t.last_applied == Some(entry.log_id)
            &&& entry.payload matches EntryPayload::Membership(x) ==> {
                &&& t.last_membership.membership == x
                &&& t.last_membership.log_id == Some(entry.log_id)
            }
            &&& !(entry.payload is Membership) ==> t.last_membership == m.last_membership
            &&& t.snapshots == m.snapshots
            &&& t.current_snapshot == m.current_snapshot
        }),
{
}

/// After some entries were applied, the last of them is the last one, and the membership
/// is that of the last entry among them that sets one.
pub proof fn law_machine_after_entries<M>(m: MachineView<M>, entries: Seq<Entry<M>>, k: int)
    requires
        0 <= k < entries.len(),
        forall|j: int|
            k < j < entries.len() ==> !((#[trigger] entries[j]).payload is Membership),
    ensures
        machine_after_all(m, entries).last_applied == Some(entries.last().log_id),
        entries[k].payload matches EntryPayload::Membership(x) ==> {
            let last = machine_after_all(m, entries).last_membership;
            last.membership == x && last.log_id == Some(entries[k].log_id)
        },
        machine_after_all(m, entries).current_snapshot == m.current_snapshot,
        machine_after_all(m, entries).snapshots == m.snapshots,
    decreases entries.len(),
{
    let front = entries.drop_last();
    lemma_machine_keeps(m, front);
    if k < front.len() {
        assert forall|j: int| k < j < front.len() implies !((
        #[trigger] front[j]).payload is Membership) by {
            assert(front[j] == entries[j]);
        }
        assert(entries[entries.len() - 1] == entries.last());
        law_machine_after_entries(m, front, k);
    }
}

proof fn lemma_machine_keeps<M>(m: MachineView<M>, entries: Seq<Entry<M>>)
    ensures
        machine_after_all(m, entries).current_snapshot == m.current_snapshot,
        machine_after_all(m, entries).snapshots == m.snapshots,
    decreases entries.len(),
{
    if entries.len() > 0 {
        lemma_machine_keeps(m, entries.drop_last());
    }
}

/// After some entries were applied, a key has the value of the last put among them.
pub proof fn law_last_put_counts<M>(s: StoreView, entries: Seq<Entry<M>>, k: int)
    requires
        0 <= k < entries.len(),
        entries[k].payload is Normal,
        entries[k].payload->Normal_0@.value is Some,
        forall|j: int|
            k < j < entries.len() ==> ((#[trigger] entries[j]).payload matches EntryPayload::Normal(
                req,
            ) ==> req@.key != entries[k].payload->Normal_0@.key),
    ensures
        ({
            let req = entries[k].payload->Normal_0@;
            let h = applied_all(s, entries).history;
            h.latest.contains_key(req.key) && h.latest[req.key].value == req.value
        }),
    decreases entries.len(),
{
    let front = entries.drop_last();
    assert(entries[entries.len() - 1] == entries.last());
    if k < front.len() {
        assert forall|j: int| k < j < front.len() implies ((
        #[trigger] front[j]).payload matches EntryPayload::Normal(req) ==> req@.key
            != front[k].payload->Normal_0@.key) by {
            assert(front[j] == entries[j]);
        }
        law_last_put_counts(s, front, k);
    }
}

/// Two snapshots of one state have different names.
pub proof fn law_snapshot_names_differ(last: Option<LogId>, a: u64, b: u64)
    requires
        a != b,
    ensures
        snapshot_name(last, a as nat) != snapshot_name(last, b as nat),
{
    law_decimals_differ(a, b);
    let x = snapshot_name(last, a as nat);
    let y = snapshot_name(last, b as nat);
    if x == y {
        let head = match last {
            Some(id) => "T"@ + decimal(id.term as nat) + "-N"@ + decimal(id.node_id as nat) + "-"@
                + decimal(id.index as nat) + "-"@,
            None => "--"@,
        };
        assert(x == head + decimal(a as nat));
        assert(y == head + decimal(b as nat));
        assert(x.skip(head.len() as int) =~= decimal(a as nat));
        assert(y.skip(head.len() as int) =~= decimal(b as nat));
    }
}

// ------------------------------------------------------------------- peers

/// A peer as it is written in a list: its number, an at sign and its address.
pub open spec fn written_peer(id: u64, addr: Seq<char>) -> Seq<char> {
    decimal(id as nat) + seq!['@'] + addr
}

/// A peer that is written down reads as its number and its address, whatever the address
/// holds, but for white space at its ends.
pub proof fn law_written_peer_reads(id: u64, addr: Seq<char>)
    requires
        addr.len() > 0,
        !is_space(addr[0]),
        !is_space(addr.last()),
    ensures
        peer_of(written_peer(id, addr)) == Ok::<Option<(nat, Seq<char>)>, PeerErrorView>(
            Some((id as nat, addr)),
        ),
{
    let digits = decimal(id as nat);
    let s = written_peer(id, addr);
    let n = digits.len() as int;
    law_decimal_digits(id as nat);
    assert forall|j: int| 0 <= j < n implies is_digit(#[trigger] s[j]) by {
        assert(s[j] == digits[j]);
    }
    assert(is_digit(digits[0]) && is_digit(digits.last()));
    assert(s.last() == addr.last());
    assert(s[0] == digits[0]);
    law_trimmed_fixed(s);
    assert forall|j: int| 0 <= j < n implies s[j] != '@' by {
        assert(is_digit(s[j]));
    }
    assert(s[n] == '@');
    lemma_first_at(s, '@', n);
    assert(s.take(n) =~= digits);
    assert(s.skip(n + 1) =~= addr);
    law_trimmed_fixed(digits);
    law_trimmed_fixed(addr);
    law_numbers_read_back(id);
}

/// An entry without an at sign is no peer, unless it is blank, which says nothing. What
/// stands before the at sign has to be a number.
pub proof fn law_entries_that_are_no_peers(piece: Seq<char>)
    ensures
        trimmed(piece).len() == 0 ==> peer_of(piece) == Ok::<
            Option<(nat, Seq<char>)>,
            PeerErrorView,
        >(None),
        trimmed(piece).len() > 0 && !trimmed(piece).contains('@') ==> peer_of(piece) == Err::<
            Option<(nat, Seq<char>)>,
            PeerErrorView,
        >(PeerErrorView::InvalidEntry(trimmed(piece))),
        peer_of(piece) matches Ok(Some(p)) ==> p.0 <= u64::MAX,
{
    let entry = trimmed(piece);
    if entry.len() > 0 && !entry.contains('@') {
        assert forall|j: int| 0 <= j < entry.len() implies entry[j] != '@' by {
            assert(entry.contains(entry[j]));
        }
        lemma_first_at(entry, '@', entry.len() as int);
    }
    if let Ok(Some(p)) = peer_of(piece) {
        let i = first_at(entry, '@') as int;
        lemma_fits(trimmed(entry.take(i)));
    }
}

proof fn lemma_fits(s: Seq<char>)
    ensures
        unsigned_value(s) matches Ok(n) ==> n <= u64::MAX,
{
}

/// A list whose entries are all peers reads as those peers, in their order.
pub proof fn law_list_of_peers(entries: Seq<Seq<char>>, peers: Seq<(nat, Seq<char>)>)
    requires
        entries.len() == peers.len(),
        forall|i: int|
            0 <= i < entries.len() ==> peer_of(#[trigger] entries[i]) == Ok::<
                Option<(nat, Seq<char>)>,
                PeerErrorView,
            >(Some(peers[i])),
    ensures
        peers_of(entries) == Ok::<Seq<(nat, Seq<char>)>, PeerErrorView>(peers),
    decreases entries.len(),
{
    if entries.len() > 0 {
        let front = entries.drop_last();
        assert forall|i: int| 0 <= i < front.len() implies peer_of(#[trigger] front[i]) == Ok::<
            Option<(nat, Seq<char>)>,
            PeerErrorView,
        >(Some(peers.drop_last()[i])) by {
            assert(front[i] == entries[i]);
        }
        law_list_of_peers(front, peers.drop_last());
        assert(entries[entries.len() - 1] == entries.last());
        assert(peers.drop_last().push(peers.last()) =~= peers);
    } else {
        assert(peers =~= Seq::empty());
    }
}

/// A blank entry behind a list counts for nothing, and one that cannot be read decides
/// the error unless an earlier one does.
pub proof fn law_list_goes_on(entries: Seq<Seq<char>>, entry: Seq<char>)
    ensures
        peers_of(entries) is Err ==> peers_of(entries.push(entry)) == peers_of(entries),
        trimmed(entry).len() == 0 ==> peers_of(entries.push(entry)) == peers_of(entries),
        peers_of(entries) is Ok ==> (peers_of(entries.push(entry)) is Err == peer_of(entry) is Err),
        peers_of(entries) is Ok && peer_of(entry) is Err ==> peers_of(entries.push(entry))->Err_0
            == peer_of(entry)->Err_0,
{
    assert(entries.push(entry).drop_last() =~= entries);
}

/// Of two peers with one number the later one counts.
pub proof fn law_later_address_counts(peers: Seq<(nat, Seq<char>)>, k: int, other: nat)
    requires
        0 <= k < peers.len(),
        forall|j: int| k < j < peers.len() ==> (#[trigger] peers[j]).0 != peers[k].0,
    ensures
        addresses(peers).contains_key(peers[k].0),
        addresses(peers)[peers[k].0] == peers[k].1,
        (forall|j: int| 0 <= j < peers.len() ==> (#[trigger] peers[j]).0 != other)
            ==> !addresses(peers).contains_key(other),
    decreases peers.len(),
{
    lemma_no_address(peers, other);
    let front = peers.drop_last();
    if k < front.len() {
        assert forall|j: int| k < j < front.len() implies (#[trigger] front[j]).0
            != front[k].0 by {
            assert(front[j] == peers[j]);
        }
        assert(peers[peers.len() - 1] == peers.last());
        law_later_address_counts(front, k, other);
    }
}

proof fn lemma_no_address(peers: Seq<(nat, Seq<char>)>, other: nat)
    ensures
        (forall|j: int| 0 <= j < peers.len() ==> (#[trigger] peers[j]).0 != other)
            ==> !addresses(peers).contains_key(other),
    decreases peers.len(),
{
    if peers.len() > 0 && (forall|j: int|
        0 <= j < peers.len() ==> (#[trigger] peers[j]).0 != other) {
        let front = peers.drop_last();
        assert forall|j: int| 0 <= j < front.len() implies (#[trigger] front[j]).0 != other by {
            assert(front[j] == peers[j]);
        }
        assert(peers[peers.len() - 1] == peers.last());
        lemma_no_address(front, other);
    }
}

/// At most one entry is the last one, and no entry comes after it.
pub proof fn law_one_last_entry<E>(log: Map<u64, LogEntry<E>>, a: u64, b: u64)
    requires
        is_last(log, a),
    ensures
        log.contains_key(a),
        log.contains_key(b) ==> b <= a,
        is_last(log, b) ==> a == b,
{
}

/// What is wrong with a number is said in different words for each error.
pub proof fn law_number_errors_differ(a: NumberError, b: NumberError)
    ensures
        number_error_text(a) == number_error_text(b) ==> a == b,
{
    reveal_strlit("cannot parse integer from empty string");
    reveal_strlit("invalid digit found in string");
    reveal_strlit("number too large to fit in target type");
    reveal_strlit("number too small to fit in target type");
    assert("number too large to fit in target type"@[11] == 'l');
    assert("number too small to fit in target type"@[11] == 's');
    assert("cannot parse integer from empty string"@[0] == 'c');
    assert("invalid digit found in string"@[0] == 'i');
}

} // verus!
