//! What holds of configurations, and of the store that a server starts with.

use crate::config::{
    boot_error, config_error, first_key, is_raft_of, is_wal_of, new_store, peer_address,
    prefix_bytes, restored, wal_mode_of, ClusterState, RaftPlan, ServerConfig,
};
use crate::notify::{opt_vec, WalMode, WalRecord};
use crate::outside::byte_set_contents;
use crate::raft::{peer_of, peers_of, PeerErrorView};
use crate::store::{StoreView, WalSettings};
use crate::text::pieces;
use vstd::prelude::*;
use vstd::string::*;
use vstd::utf8::*;

verus! {

/// The three words for the mode of the log, and that there is no other.
pub proof fn law_wal_modes(word: Seq<char>)
    ensures
        wal_mode_of("none"@) == Some(WalMode::Off),
        wal_mode_of("async"@) == Some(WalMode::Async),
        wal_mode_of("sync"@) == Some(WalMode::Sync),
        wal_mode_of(word) is Some ==> word == "none"@ || word == "async"@ || word == "sync"@,
{
    reveal_strlit("none");
    reveal_strlit("async");
    reveal_strlit("sync");
    assert("none"@[0] == 'n' && "async"@[0] == 'a' && "sync"@[0] == 's');
}

/// A configuration makes sense if and only if it has a name and an address for clients,
/// one of the modes for its log, and is a member of the cluster that it starts, where
/// members are listed.
pub proof fn law_sensible_configuration(c: ServerConfig)
    ensures
        config_error(c) is None == {
            &&& c.name@.len() > 0
            &&& c.listen_client_addr@.len() > 0
            &&& c.wal_mode@ == "none"@ || c.wal_mode@ == "async"@ || c.wal_mode@ == "sync"@
            &&& c.initial_cluster_state == ClusterState::New && c.initial_cluster@.len() > 0
                ==> exists|i: int|
                0 <= i < c.initial_cluster@.len() && (#[trigger] c.initial_cluster@[i]).0@
                    == c.name@
        },
{
    law_wal_modes(c.wal_mode@);
}

/// A server can start if and only if its configuration makes sense, and with replication
/// it has the number of its node and a list of peers that can be read.
pub proof fn law_server_can_start(c: ServerConfig)
    ensures
        boot_error(c) is None == {
            &&& config_error(c) is None
            &&& c.enable_raft ==> {
                &&& c.raft_node_id is Some
                &&& c.raft_peers is Some
                &&& peers_of(pieces(c.raft_peers->0@, ',')) is Ok
            }
        },
{
}

/// The settings of the log are those of the configuration: none without a directory, and
/// else its directory and mode. It is read at the start unless writes are replicated.
pub proof fn law_settings_of_log(w: Option<WalSettings>, c: ServerConfig)
    requires
        is_wal_of(w, c),
    ensures
        w is Some == (c.wal_dir@.len() > 0),
        w matches Some(s) ==> {
            &&& s.wal_dir@ == c.wal_dir@
            &&& s.load_wal_dir == !c.enable_raft
            &&& c.wal_mode@ == "none"@ ==> s.default_mode == WalMode::Off
            &&& c.wal_mode@ == "async"@ ==> s.default_mode == WalMode::Async
            &&& c.wal_mode@ == "sync"@ ==> s.default_mode == WalMode::Sync
        },
{
    law_wal_modes(c.wal_mode@);
}

/// A node takes part in replication if and only if that is asked for, and then with the
/// number that it was given.
pub proof fn law_part_in_replication(r: Option<RaftPlan>, c: ServerConfig)
    requires
        is_raft_of(r, c),
    ensures
        r is Some == c.enable_raft,
        r matches Some(p) ==> c.raft_node_id == Some(p.node_id) && p.init == c.raft_init,
{
}

/// The address of a node is that of the first entry with its number, and without such an
/// entry it has none.
pub proof fn law_address_of_node(entries: Seq<Seq<char>>, node_id: nat, k: int, addr: Seq<char>)
    requires
        0 <= k <= entries.len(),
        k < entries.len() ==> peer_of(entries[k]) == Ok::<
            Option<(nat, Seq<char>)>,
            PeerErrorView,
        >(Some((node_id, addr))),
        forall|j: int|
            0 <= j < k ==> (peer_of(#[trigger] entries[j]) matches Ok(Some(p)) ==> p.0 != node_id),
    ensures
        k < entries.len() ==> peer_address(entries, node_id) == Some(addr),
        k == entries.len() ==> peer_address(entries, node_id) is None,
    decreases entries.len(),
{
    if entries.len() > 0 {
        let front = entries.drop_last();
        assert(entries[entries.len() - 1] == entries.last());
        assert forall|j: int| 0 <= j < k && j < front.len() implies (peer_of(
            #[trigger] front[j],
        ) matches Ok(Some(p)) ==> p.0 != node_id) by {
            assert(front[j] == entries[j]);
        }
        if k < front.len() {
            law_address_of_node(front, node_id, k, addr);
        } else {
            law_address_of_node(front, node_id, front.len() as int, addr);
        }
    }
}

/// After the records of a log, a key has the value of its last record, and is not there
/// where that was a deletion. A key without a record is as before.
pub proof fn law_last_record_counts(
    s: StoreView,
    records: Seq<WalRecord>,
    k: int,
    other: Seq<u8>,
)
    requires
        0 <= k < records.len(),
        forall|j: int| k < j < records.len() ==> (#[trigger] records[j]).key@ != records[k].key@,
    ensures
        ({
            let h = restored(s, records).history;
            let key = records[k].key@;
            &&& records[k].value matches Some(v) ==> h.latest.contains_key(key)
                && h.latest[key].value == Some(v@)
            &&& records[k].value is None ==> !(h.latest.contains_key(key) && h.latest[key].value
                is Some)
            &&& (forall|j: int|
                0 <= j < records.len() ==> (#[trigger] records[j]).key@ != other) ==> {
                &&& h.latest.contains_key(other) == s.history.latest.contains_key(other)
                &&& h.latest[other] == s.history.latest[other]
            }
        }),
    decreases records.len(),
{
    lemma_other_records(s, records, other);
    let front = records.drop_last();
    assert(records[records.len() - 1] == records.last());
    if k < front.len() {
        assert forall|j: int| k < j < front.len() implies (#[trigger] front[j]).key@
            != front[k].key@ by {
            assert(front[j] == records[j]);
        }
        law_last_record_counts(s, front, k, other);
    }
}

proof fn lemma_other_records(s: StoreView, records: Seq<WalRecord>, other: Seq<u8>)
    ensures
        (forall|j: int| 0 <= j < records.len() ==> (#[trigger] records[j]).key@ != other) ==> {
            let h = restored(s, records).history;
            &&& h.latest.contains_key(other) == s.history.latest.contains_key(other)
            &&& h.latest[other] == s.history.latest[other]
        },
    decreases records.len(),
{
    if records.len() > 0 && (forall|j: int|
        0 <= j < records.len() ==> (#[trigger] records[j]).key@ != other) {
        let front = records.drop_last();
        assert forall|j: int| 0 <= j < front.len() implies (#[trigger] front[j]).key@ != other by {
            assert(front[j] == records[j]);
        }
        assert(records[records.len() - 1] == records.last());
        lemma_other_records(s, front, other);
    }
}

/// The store after some writes took place one after the other.
pub open spec fn written(s: StoreView, writes: Seq<(Seq<u8>, Option<Seq<u8>>)>) -> StoreView
    decreases writes.len(),
{
    if writes.len() == 0 {
        s
    } else {
        written(s, writes.drop_last()).after_write(writes.last().0, writes.last().1)
    }
}

/// A log restores what was written: the records of writes that all took place give the
/// same history again, with the same revisions.
pub proof fn law_log_restores_writes(
    s: StoreView,
    t: StoreView,
    writes: Seq<(Seq<u8>, Option<Seq<u8>>)>,
    records: Seq<WalRecord>,
)
    requires
        s.history == t.history,
        writes.len() == records.len(),
        forall|i: int|
            0 <= i < writes.len() ==> (#[trigger] writes[i]).0 == records[i].key@ && writes[i].1
                == opt_vec(records[i].value),
        forall|i: int|
            0 <= i < writes.len() ==> ((#[trigger] writes[i]).1 is Some || written(
                s,
                writes.take(i),
            ).history.live(writes[i].0)),
    ensures
        restored(t, records).history == written(s, writes).history,
    decreases writes.len(),
{
    if writes.len() > 0 {
        let w = writes.drop_last();
        let r = records.drop_last();
        assert forall|i: int| 0 <= i < w.len() implies (#[trigger] w[i]).0 == r[i].key@ && w[i].1
            == opt_vec(r[i].value) by {
            assert(w[i] == writes[i]);
        }
        assert forall|i: int| 0 <= i < w.len() implies ((#[trigger] w[i]).1 is Some || written(
            s,
            w.take(i),
        ).history.live(w[i].0)) by {
            assert(w[i] == writes[i]);
            assert(w.take(i) =~= writes.take(i));
        }
        law_log_restores_writes(s, t, w, r);
        let n = writes.len() - 1;
        assert(writes[n] == writes.last());
        assert(writes.take(n) =~= w);
    }
}

/// A server starts with a store in which the first revision is taken by a key of its own,
/// and with the keys that its log has left.
pub proof fn law_first_store(wal_sync: bool, records: Seq<WalRecord>, k: Seq<u8>)
    ensures
        ({
            let before = restored(new_store(wal_sync), records);
            let s = before.after_write(first_key(), Some(Seq::empty()));
            &&& first_key() == seq![126u8]
            &&& s.history.log.len() >= 1
            &&& s.history.latest.contains_key(seq![126u8])
            &&& s.history.latest[seq![126u8]].value == Some(Seq::<u8>::empty())
            &&& k != seq![126u8] ==> {
                &&& s.history.latest.contains_key(k) == before.history.latest.contains_key(k)
                &&& s.history.latest[k] == before.history.latest[k]
            }
            &&& records.len() == 0 ==> {
                &&& s.history.compacted == 0
                &&& s.history.log.len() == 1
                &&& s.watchers.dom() == Set::<(Seq<u8>, i64)>::empty()
                &&& k != seq![126u8] ==> !s.history.latest.contains_key(k)
            }
        }),
{
}

/// The log leaves out the prefixes that the configuration names, and no others.
pub proof fn law_prefixes_left_out(w: Option<WalSettings>, c: ServerConfig, prefix: Seq<u8>)
    requires
        is_wal_of(w, c),
        w is Some,
    ensures
        byte_set_contents(w->0.prefix_modes_no_persist).contains(prefix) == exists|i: int|
            0 <= i < c.wal_no_write_prefixes@.len() && encode_utf8(
                (#[trigger] c.wal_no_write_prefixes@[i])@,
            ) == prefix,
{
    let names = c.wal_no_write_prefixes@;
    let all = prefix_bytes(names);
    assert(all.to_set().contains(prefix) == all.contains(prefix));
    if all.contains(prefix) {
        let i = choose|i: int| 0 <= i < all.len() && all[i] == prefix;
        assert(encode_utf8(names[i]@) == prefix);
    }
    if exists|i: int| 0 <= i < names.len() && encode_utf8((#[trigger] names[i])@) == prefix {
        let i = choose|i: int|
            0 <= i < names.len() && encode_utf8((#[trigger] names[i])@) == prefix;
        assert(all[i] == prefix);
    }
}

} // verus!
