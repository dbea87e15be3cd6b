//! What holds of the events that a watch tells.

use crate::etcdserverpb::watch_request::RequestUnion;
use crate::etcdserverpb::WatchRequest;
use crate::history::History;
use crate::keyspace::{in_range, one_prefix, prefix_of, selected};
use crate::mvccpb::ChangeView;
use crate::rpc::status::{Code, Status};
use crate::sorted_map::lemma_enumeration;
use crate::store::StoreView;
use crate::store_laws::{
    law_job_tells_the_write, law_past_is_complete, law_past_is_sound,
    law_past_tells_what_was_before,
};
use crate::watch_service::{
    changes_taken, creation, event_of, events_of, fresh, largest_revision, lemma_fresh_keeps,
    message_taken, news_of, past_changes, take_place_after, watch_started, ClientMessage,
    SessionView, WatchAction, WatchStart, WriteView,
};
use vstd::prelude::*;

verus! {

/// The number by which a put is told.
pub const PUT: i32 = 0;

/// The number by which a deletion is told.
pub const DELETE: i32 = 1;

/// A write is told as what it is: as a put with its value if and only if it has one,
/// and as a deletion if and only if it has none. What was there before is told on
/// request.
pub proof fn law_event_tells_the_write(
    s: StoreView,
    key: Seq<u8>,
    value: Option<Seq<u8>>,
    prev_kv: bool,
)
    requires
        s.history.valid(),
    ensures
        ({
            let e = event_of(s.job(key, value).msg, prev_kv);
            let h = s.history;
            let was = h.latest[key];
            &&& (e.event_type == PUT) == (value is Some)
            &&& (e.event_type == DELETE) == (value is None)
            &&& e.kv is Some
            &&& e.kv->0.key == key
            &&& e.kv->0.mod_revision == h.compacted + h.log.len() + 1
            &&& value is Some ==> Some(e.kv->0.value) == value
            &&& value is None ==> e.kv->0.value.len() == 0
            &&& !prev_kv ==> e.prev_kv is None
            &&& prev_kv && h.latest.contains_key(key) && was.value is Some ==> {
                &&& e.prev_kv is Some
                &&& e.prev_kv->0.key == key
                &&& Some(e.prev_kv->0.value) == was.value
                &&& e.prev_kv->0.mod_revision == was.mod_revision
            }
            &&& !h.latest.contains_key(key) ==> e.prev_kv is None
        }),
{
    law_job_tells_the_write(s, key, value);
}

/// A past write is told as what it is: as a put with its value if and only if it had
/// one, and as a deletion if and only if it had none.
pub proof fn law_event_tells_the_past(h: History, rev: int, want_prev: bool, prev_kv: bool)
    requires
        h.valid(),
        h.has(rev),
    ensures
        ({
            let w = h.at(rev);
            let e = event_of(h.past(w.key, rev, want_prev), prev_kv);
            &&& (e.event_type == PUT) == (w.value.value is Some)
            &&& (e.event_type == DELETE) == (w.value.value is None)
            &&& e.kv is Some
            &&& e.kv->0.key == w.key
            &&& e.kv->0.mod_revision == rev
            &&& w.value.value is Some ==> {
                &&& Some(e.kv->0.value) == w.value.value
                &&& e.kv->0.version == w.value.version
                &&& e.kv->0.create_revision == w.value.create_revision
            }
            &&& w.value.value is None ==> e.kv->0.value.len() == 0
            &&& !prev_kv ==> e.prev_kv is None
        }),
{
    assert(h.at(rev).value.mod_revision == rev);
}

/// What is told as having been there before a past change is the write of the key that
/// came last before it.
pub proof fn law_event_tells_what_was_before(h: History, key: Seq<u8>, rev: int, before: int)
    requires
        h.valid(),
        h.wrote(key, rev),
        h.wrote(key, before),
        before < rev,
        forall|x: int| before < x < rev ==> !#[trigger] h.wrote(key, x),
    ensures
        ({
            let e = event_of(h.past(key, rev, true), true);
            &&& e.prev_kv is Some
            &&& e.prev_kv->0.key == key
            &&& e.prev_kv->0.mod_revision == before
            &&& h.at(before).value.value is Some ==> Some(e.prev_kv->0.value) == h.at(
                before,
            ).value.value
        }),
{
    law_past_tells_what_was_before(h, key, rev, before, true);
}

proof fn lemma_largest_is(changes: Seq<ChangeView>)
    ensures
        0 <= largest_revision(changes),
        forall|i: int|
            0 <= i < changes.len() ==> (#[trigger] changes[i]).kv.mod_revision <= largest_revision(
                changes,
            ),
        (exists|i: int| 0 <= i < changes.len() && (#[trigger] changes[i]).kv.mod_revision > 0)
            ==> exists|i: int|
            0 <= i < changes.len() && (#[trigger] changes[i]).kv.mod_revision == largest_revision(
                changes,
            ),
        largest_revision(changes) > 0 ==> exists|i: int|
            0 <= i < changes.len() && (#[trigger] changes[i]).kv.mod_revision == largest_revision(
                changes,
            ),
    decreases changes.len(),
{
    if changes.len() > 0 {
        let front = changes.drop_last();
        lemma_largest_is(front);
        let n = changes.len() - 1;
        assert(changes[n] == changes.last());
        assert forall|i: int| 0 <= i < changes.len() implies (
        #[trigger] changes[i]).kv.mod_revision <= largest_revision(changes) by {
            if i < n {
                assert(front[i] == changes[i]);
            }
        }
        if largest_revision(changes) > 0 {
            if largest_revision(front) == largest_revision(changes) {
                let i = choose|i: int|
                    0 <= i < front.len() && (#[trigger] front[i]).kv.mod_revision
                        == largest_revision(front);
                assert(changes[i] == front[i]);
            } else {
                assert(changes[n].kv.mod_revision == largest_revision(changes));
            }
        }
    }
}

/// A watch starts with the past of its keys from its revision on: every event of it is
/// a write of a key in the range, told as what it is, and every such write is told.
pub proof fn law_watch_starts_with_the_past(
    s: StoreView,
    first: ClientMessage,
    r: Result<WatchStart, Status>,
    t: StoreView,
    key: Seq<u8>,
    rev: int,
)
    requires
        watch_started(s, first, r, t),
        creation(first) is Some,
        creation(first)->0.start_revision > s.history.compacted,
        one_prefix(creation(first)->0.key@, creation(first)->0.range_end@),
        s.history.valid(),
        s.history.latest.dom().finite(),
        s.history.current() <= i64::MAX,
    ensures
        ({
            let c = creation(first)->0;
            let h = s.history;
            let from = c.start_revision as int;
            &&& r matches Ok(WatchStart::Opened(w, responses))
            &&& w@.key == c.key@
            &&& w@.prev_kv == c.prev_kv
            &&& t.watchers.contains_key((c.key@, w@.watcher_id))
            &&& 1 <= responses@.len() <= 2
            &&& responses@[0]@.created
            &&& responses@[0]@.events.len() == 0
            &&& responses@[0]@.watch_id == w@.watcher_id
            &&& responses@[0]@.header->0.revision == h.compacted + h.log.len()
            &&& responses@.len() == 1 ==> w@.told == 0
            &&& responses@.len() == 2 ==> {
                let told = responses@[1]@.events;
                &&& !responses@[1]@.created
                &&& responses@[1]@.header->0.revision == h.compacted + h.log.len()
                &&& exists|i: int|
                    0 <= i < told.len() && (#[trigger] told[i]).kv->0.mod_revision == w@.told
                &&& responses@[1]@.watch_id == responses@[0]@.watch_id
                &&& told.len() > 0
                &&& forall|i: int|
                    0 <= i < told.len() ==> {
                        let e = #[trigger] told[i];
                        let at = e.kv->0.mod_revision;
                        &&& e.kv is Some
                        &&& from <= at <= w@.told
                        &&& h.wrote(e.kv->0.key, at)
                        &&& in_range(e.kv->0.key, c.key@, c.range_end@)
                        &&& (e.event_type == PUT) == (h.at(at).value.value is Some)
                        &&& (e.event_type == DELETE) == (h.at(at).value.value is None)
                        &&& h.at(at).value.value is Some ==> Some(e.kv->0.value) == h.at(
                            at,
                        ).value.value
                        &&& !c.prev_kv ==> e.prev_kv is None
                    }
            }
            &&& h.wrote(key, rev) && from <= rev && prefix_of(key) == prefix_of(c.key@)
                && in_range(key, c.key@, c.range_end@) ==> responses@.len() == 2 && exists|i: int|
                0 <= i < responses@[1]@.events.len() && (
                #[trigger] responses@[1]@.events[i]).kv->0.mod_revision == rev
        }),
{
    let c = creation(first)->0;
    let h = s.history;
    let from = c.start_revision as int;
    let keys = h.matching(c.key@, c.range_end@);
    let past = past_changes(h, c.key@, c.range_end@, from, c.prev_kv);
    let told = events_of(past, c.prev_kv);
    let set = Set::new(|k: Seq<u8>| h.latest.contains_key(k) && selected(k, c.key@, c.range_end@));
    assert(set.subset_of(h.latest.dom()));
    vstd::set_lib::lemma_set_subset_finite(h.latest.dom(), set);
    lemma_enumeration::<Vec<u8>>(set);
    let last = largest_revision(past);
    lemma_largest_is(past);
    if past.len() > 0 {
        assert(past.contains(past[0]));
        law_past_is_sound(h, keys, from, c.prev_kv, past[0]);
        let m = choose|m: int|
            0 <= m < past.len() && (#[trigger] past[m]).kv.mod_revision == last;
        assert(told[m].kv->0.mod_revision == last);
    }
    assert forall|i: int| 0 <= i < told.len() implies {
        let e = #[trigger] told[i];
        let at = e.kv->0.mod_revision;
        &&& e.kv is Some
        &&& from <= at <= last
        &&& h.wrote(e.kv->0.key, at)
        &&& in_range(e.kv->0.key, c.key@, c.range_end@)
        &&& (e.event_type == PUT) == (h.at(at).value.value is Some)
        &&& (e.event_type == DELETE) == (h.at(at).value.value is None)
        &&& h.at(at).value.value is Some ==> Some(e.kv->0.value) == h.at(at).value.value
        &&& !c.prev_kv ==> e.prev_kv is None
    } by {
        assert(past.contains(past[i]));
        law_past_is_sound(h, keys, from, c.prev_kv, past[i]);
        let (k, x) = choose|k: Seq<u8>, x: int|
            keys.contains(k) && from <= x && #[trigger] h.wrote(k, x) && past[i] == h.past(
                k,
                x,
                c.prev_kv,
            );
        assert(set.contains(k));
        law_event_tells_the_past(h, x, c.prev_kv, c.prev_kv);
    }
    if h.wrote(key, rev) && from <= rev && prefix_of(key) == prefix_of(c.key@) && in_range(
        key,
        c.key@,
        c.range_end@,
    ) {
        assert(h.latest.contains_key(h.at(rev).key));
        assert(set.contains(key));
        assert(keys.contains(key));
        law_past_is_complete(h, keys, from, c.prev_kv, key, rev);
        let i = choose|i: int| 0 <= i < past.len() && past[i] == h.past(key, rev, c.prev_kv);
        law_event_tells_the_past(h, rev, c.prev_kv, c.prev_kv);
        assert(told[i].kv->0.mod_revision == rev);
    }
}

/// Writes that follow what a session has told are told by it, each by one event, in
/// their order, as what they are. The last of them is what it has told from then on.
pub proof fn law_session_tells_the_writes(
    w: SessionView,
    s: StoreView,
    writes: Seq<WriteView>,
    r: WatchAction,
    v: SessionView,
    t: StoreView,
)
    requires
        changes_taken(w, s, news_of(writes), r, v, t),
        take_place_after(w.told, writes),
        writes.len() > 0,
        forall|i: int| 0 <= i < writes.len() ==> (#[trigger] writes[i]).store.history.valid(),
        writes.last().store.history.current() < i64::MAX,
    ensures
        r matches WatchAction::Send(resp) && {
            let told = resp@.events;
            let last = writes.last().store.history.current() + 1;
            &&& resp@.watch_id == w.watcher_id
            &&& resp@.header->0.revision == last
            &&& !resp@.created
            &&& !resp@.canceled
            &&& told.len() == writes.len()
            &&& forall|i: int|
                #![trigger told[i]]
                #![trigger writes[i]]
                0 <= i < told.len() ==> {
                    let e = told[i];
                    &&& (e.event_type == PUT) == (writes[i].value is Some)
                    &&& (e.event_type == DELETE) == (writes[i].value is None)
                    &&& e.kv is Some
                    &&& e.kv->0.key == writes[i].key
                    &&& e.kv->0.mod_revision == writes[i].store.history.current() + 1
                    &&& writes[i].value is Some ==> Some(e.kv->0.value) == writes[i].value
                    &&& !w.prev_kv ==> e.prev_kv is None
                }
            &&& v == (SessionView { told: last, ..w })
            &&& t == s
        },
{
    let news = news_of(writes);
    assert forall|i: int| 0 <= i < news.len() implies (#[trigger] news[i]).kv.mod_revision
        > w.told by {
        assert(news[i] == writes[i].job().msg);
        law_job_tells_the_write(writes[i].store, writes[i].key, writes[i].value);
    }
    lemma_fresh_keeps(news, w.told);
    assert(news.last() == writes.last().job().msg);
    assert(writes[writes.len() - 1] == writes.last());
    law_job_tells_the_write(writes.last().store, writes.last().key, writes.last().value);
    let told = events_of(news, w.prev_kv);
    assert forall|i: int| 0 <= i < told.len() implies {
        let e = #[trigger] told[i];
        &&& (e.event_type == PUT) == (writes[i].value is Some)
        &&& (e.event_type == DELETE) == (writes[i].value is None)
        &&& e.kv is Some
        &&& e.kv->0.key == writes[i].key
        &&& e.kv->0.mod_revision == writes[i].store.history.current() + 1
        &&& writes[i].value is Some ==> Some(e.kv->0.value) == writes[i].value
        &&& !w.prev_kv ==> e.prev_kv is None
    } by {
        assert(news[i] == writes[i].job().msg);
        law_event_tells_the_write(
            writes[i].store,
            writes[i].key,
            writes[i].value,
            w.prev_kv,
        );
    }
}

/// Changes that were all told before are not told again. Without any change at all the
/// watch ends, and is no longer registered.
pub proof fn law_session_repeats_nothing(
    w: SessionView,
    s: StoreView,
    changes: Seq<ChangeView>,
    r: WatchAction,
    v: SessionView,
    t: StoreView,
)
    requires
        changes_taken(w, s, changes, r, v, t),
        forall|i: int| 0 <= i < changes.len() ==> (#[trigger] changes[i]).kv.mod_revision <= w.told,
    ensures
        v == w,
        changes.len() > 0 ==> r is Wait && t == s,
        changes.len() == 0 ==> {
            &&& r is Stop
            &&& !t.watchers.contains_key((w.key, w.watcher_id))
            &&& t.history == s.history
        },
{
    lemma_none_fresh(changes, w.told);
}

proof fn lemma_none_fresh(changes: Seq<ChangeView>, rev: int)
    requires
        forall|i: int| 0 <= i < changes.len() ==> (#[trigger] changes[i]).kv.mod_revision <= rev,
    ensures
        fresh(changes, rev).len() == 0,
    decreases changes.len(),
{
    reveal(Seq::filter);
    if changes.len() > 0 {
        let front = changes.drop_last();
        assert forall|i: int| 0 <= i < front.len() implies (#[trigger] front[i]).kv.mod_revision
            <= rev by {
            assert(front[i] == changes[i]);
        }
        lemma_none_fresh(front, rev);
        assert(changes[changes.len() - 1] == changes.last());
    }
}

/// How a watch is refused: one of a revision that is compacted with what is compacted,
/// and one that asks for nothing that can be watched with a status. Only a watch that
/// can go on is registered for, but for one over several prefixes.
pub proof fn law_refused_watches(
    s: StoreView,
    first: ClientMessage,
    r: Result<WatchStart, Status>,
    t: StoreView,
)
    requires
        watch_started(s, first, r, t),
        s.history.compacted <= i64::MAX,
    ensures
        r is Err == creation(first) is None,
        r is Err ==> t == s,
        first is Closed ==> r is Err && r->Err_0@.code == Code::Cancelled,
        first is Request && creation(first) is None ==> r is Err && r->Err_0@.code
            == Code::InvalidArgument,
        creation(first) matches Some(c) ==> {
            let gone = 0 < c.start_revision <= s.history.compacted;
            &&& gone ==> (r matches Ok(WatchStart::Refused(resp)) && resp@.compact_revision
                == s.history.compacted && t == s)
            &&& c.start_revision <= 0 ==> r is Ok && r->Ok_0 is Opened
            &&& !gone ==> t.watchers.contains_key((c.key@, (s.watch_counter + 1) as i64))
                && t.watch_counter == s.watch_counter + 1
            &&& t.history == s.history
        },
{
}

/// A watch that asks for no revision starts without a past.
pub proof fn law_watch_from_now(
    s: StoreView,
    first: ClientMessage,
    r: Result<WatchStart, Status>,
    t: StoreView,
)
    requires
        watch_started(s, first, r, t),
        creation(first) is Some,
        creation(first)->0.start_revision <= 0,
        s.history.current() <= i64::MAX,
    ensures
        r matches Ok(WatchStart::Opened(w, responses)) && {
            &&& responses@.len() == 1
            &&& responses@[0]@.created
            &&& responses@[0]@.header->0.revision == s.history.current()
            &&& responses@[0]@.watch_id == w@.watcher_id
            &&& w@.told == 0
            &&& w@.key == creation(first)->0.key@
        },
{
}

/// What a client can say to a watch: it ends when the client asks for that, by its
/// number, or leaves. Asked for its progress, it names a revision that is neither before
/// what it has told nor before what all watchers were told. Anything else is passed over.
pub proof fn law_watch_messages(
    w: SessionView,
    s: StoreView,
    message: ClientMessage,
    r: WatchAction,
    t: StoreView,
)
    requires
        message_taken(w, s, message, r, t),
        w.told <= i64::MAX,
        s.progress <= i64::MAX,
        w.told >= i64::MIN,
        s.progress >= i64::MIN,
    ensures
        message is Closed ==> r is Stop,
        message is Failed ==> r is Stop,
        message matches ClientMessage::Request(
            WatchRequest { request_union: Some(RequestUnion::CancelRequest(c)) },
        ) ==> (r is Stop) == (c.watch_id == w.watcher_id) && !(r is Send),
        message matches ClientMessage::Request(
            WatchRequest { request_union: Some(RequestUnion::ProgressRequest(_)) },
        ) ==> r matches WatchAction::Send(resp) && {
            let named = resp@.header->0.revision as int;
            &&& named >= w.told
            &&& named >= s.progress
            &&& named == w.told || named == s.progress
            &&& resp@.events.len() == 0
            &&& resp@.watch_id == w.watcher_id
        },
        message matches ClientMessage::Request(
            WatchRequest { request_union: Some(RequestUnion::CreateRequest(_)) },
        ) ==> r is Wait,
        message matches ClientMessage::Request(WatchRequest { request_union: None }) ==> r is Wait,
        r is Stop ==> !t.watchers.contains_key((w.key, w.watcher_id)),
        !(r is Stop) ==> t == s,
        t.history == s.history,
{
}

} // verus!
