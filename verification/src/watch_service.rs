//! The decisions of a watch stream.

use crate::etcdserverpb::watch_request::RequestUnion;
use crate::etcdserverpb::{
    header_at, ResponseHeader, WatchCreateRequest, WatchRequest, WatchResponse,
};
use crate::history::{lemma_writes, History};
use crate::keyspace::{inverted, one_prefix, prefix_of, selected};
use crate::mvccpb::{
    change_views, copy_bytes, event_number, opt_kv, ChangeView, Event, EventType, KeyValueWithPrev,
    KeyValueView,
};
use crate::notify::{
    after_all, all_sent, arriving, law_arrival_does_not_matter, JobView, NotifierView,
};
use crate::rpc::status::{Code, Status, StatusView};
use crate::sorted_map::{ascending_unique, lemma_enumeration};
use crate::store::{Store, StoreView};
use crate::store_laws::{law_past_is_sound, law_watcher_is_told};
use vstd::prelude::*;
use vstd::string::*;

verus! {

/// What an [`Event`] says.
#[verifier::ext_equal]
pub struct EventView {
    pub event_type: i32,
    pub kv: Option<KeyValueView>,
    pub prev_kv: Option<KeyValueView>,
}

impl View for Event {
    type V = EventView;

    open spec fn view(&self) -> EventView {
        EventView {
            event_type: self.event_type,
            kv: opt_kv(self.kv),
            prev_kv: opt_kv(self.prev_kv),
        }
    }
}

/// The views of some events.
pub open spec fn event_views(events: Seq<Event>) -> Seq<EventView> {
    events.map_values(|e: Event| e@)
}

/// The event that tells a change: a deletion where the version is zero. What was
/// there before is told on request.
pub open spec fn event_of(c: ChangeView, prev_kv: bool) -> EventView {
    EventView {
        event_type: event_number(
            if c.kv.version == 0 {
                EventType::Delete
            } else {
                EventType::Put
            },
        ),
        kv: Some(c.kv),
        prev_kv: if prev_kv {
            c.prev_kv
        } else {
            None
        },
    }
}

/// The events that tell some changes.
pub open spec fn events_of(changes: Seq<ChangeView>, prev_kv: bool) -> Seq<EventView> {
    changes.map_values(|c: ChangeView| event_of(c, prev_kv))
}

/// What a [`WatchResponse`] says.
#[verifier::ext_equal]
pub struct WatchView {
    pub header: Option<ResponseHeader>,
    pub watch_id: i64,
    pub created: bool,
    pub canceled: bool,
    pub compact_revision: i64,
    pub cancel_reason: Seq<char>,
    pub fragment: bool,
    pub events: Seq<EventView>,
}

impl View for WatchResponse {
    type V = WatchView;

    open spec fn view(&self) -> WatchView {
        WatchView {
            header: self.header,
            watch_id: self.watch_id,
            created: self.created,
            canceled: self.canceled,
            compact_revision: self.compact_revision,
            cancel_reason: self.cancel_reason@,
            fragment: self.fragment,
            events: event_views(self.events@),
        }
    }
}

/// A response that names a revision and tells some events.
pub open spec fn told(watch_id: i64, revision: int, events: Seq<EventView>) -> WatchView {
    WatchView {
        header: Some(header_at(revision)),
        watch_id,
        created: false,
        canceled: false,
        compact_revision: 0,
        cancel_reason: ""@,
        fragment: false,
        events,
    }
}

/// What came on a watch stream.
#[derive(Debug)]
pub enum ClientMessage {
    Request(WatchRequest),
    /// The client closed the stream.
    Closed,
    /// The stream failed.
    Failed(Status),
}

/// The request for a watch that a message holds, if it does.
pub open spec fn creation(message: ClientMessage) -> Option<WatchCreateRequest> {
    match message {
        ClientMessage::Request(
            WatchRequest { request_union: Some(RequestUnion::CreateRequest(c)) },
        ) => Some(c),
        _ => None,
    }
}

/// What is to be done on a watch stream.
#[derive(Debug)]
pub enum WatchAction {
    /// A response is sent.
    Send(WatchResponse),
    /// Nothing is sent.
    Wait,
    /// The stream ends.
    Stop,
}

/// How a watch stream starts.
#[derive(Debug)]
pub enum WatchStart {
    /// One response is sent, and the stream ends.
    Refused(WatchResponse),
    /// The responses are sent, and the watch goes on.
    Opened(WatchSession, Vec<WatchResponse>),
}

/// An open watch.
#[derive(Debug)]
pub struct WatchSession {
    pub key: Vec<u8>,
    pub watcher_id: i64,
    pub prev_kv: bool,
    /// The last revision that was told.
    pub max_event_stream_rev: i64,
}

/// What a [`WatchSession`] says.
#[verifier::ext_equal]
pub struct SessionView {
    pub key: Seq<u8>,
    pub watcher_id: i64,
    pub prev_kv: bool,
    pub told: int,
}

impl View for WatchSession {
    type V = SessionView;

    open spec fn view(&self) -> SessionView {
        SessionView {
            key: self.key@,
            watcher_id: self.watcher_id,
            prev_kv: self.prev_kv,
            told: self.max_event_stream_rev as int,
        }
    }
}

/// The largest revision of some changes, or zero.
pub open spec fn largest_revision(changes: Seq<ChangeView>) -> int
    decreases changes.len(),
{
    if changes.len() == 0 {
        0
    } else {
        let n = largest_revision(changes.drop_last());
        if changes.last().kv.mod_revision > n {
            changes.last().kv.mod_revision
        } else {
            n
        }
    }
}

/// The changes that a watch is told of when it starts: those from a positive revision
/// on, key by key.
pub open spec fn past_changes(
    h: History,
    start: Seq<u8>,
    end: Seq<u8>,
    rev: int,
    prev_kv: bool,
) -> Seq<ChangeView> {
    if rev > 0 {
        h.past_of_keys(h.matching(start, end), rev, prev_kv)
    } else {
        Seq::empty()
    }
}

/// The revision of the last of some changes, or zero.
pub open spec fn last_revision(changes: Seq<ChangeView>) -> int {
    if changes.len() == 0 {
        0
    } else {
        changes.last().kv.mod_revision
    }
}

/// The changes after a revision.
pub open spec fn fresh(changes: Seq<ChangeView>, rev: int) -> Seq<ChangeView> {
    changes.filter(|c: ChangeView| c.kv.mod_revision > rev)
}

/// The store without the watcher of a session.
pub open spec fn unwatched(s: StoreView, w: SessionView) -> StoreView {
    StoreView { watchers: s.watchers.remove((w.key, w.watcher_id)), ..s }
}

fn empty_response(revision: i64, watch_id: i64) -> (r: WatchResponse)
    ensures
        r@ == told(watch_id, revision as int, Seq::empty()),
{
    let r = WatchResponse {
        header: Some(ResponseHeader::at(revision)),
        watch_id,
        created: false,
        canceled: false,
        compact_revision: 0,
        cancel_reason: "".to_owned(),
        fragment: false,
        events: Vec::new(),
    };
    assert(r@.events =~= Seq::empty());
    r
}

fn to_event(c: &KeyValueWithPrev, prev_kv: bool) -> (r: Event)
    ensures
        r@ == event_of(c@, prev_kv),
{
    Event {
        event_type: if c.kv.version == 0 {
            1
        } else {
            0
        },
        kv: Some(c.kv.clone()),
        prev_kv: if prev_kv {
            crate::mvccpb::copy_opt_kv(&c.prev_kv)
        } else {
            None
        },
    }
}

/// The events of the changes after a revision, with the last revision among them.
fn fresh_events(changes: &Vec<KeyValueWithPrev>, after: i64, prev_kv: bool) -> (r: (
    Vec<Event>,
    i64,
))
    ensures
        ({
            let f = fresh(change_views(changes@), after as int);
            &&& event_views(r.0@) == events_of(f, prev_kv)
            &&& r.1 == last_revision(f)
        }),
{
    let ghost all = change_views(changes@);
    let mut events: Vec<Event> = Vec::new();
    let mut last: i64 = 0;
    let mut i: usize = 0;
    proof {
        reveal(Seq::filter);
        assert(all.take(0) =~= Seq::empty());
        assert(fresh(all.take(0), after as int) =~= Seq::empty());
        assert(event_views(events@) =~= events_of(fresh(all.take(0), after as int), prev_kv));
    }
    while i < changes.len()
        invariant
            i <= changes@.len(),
            all == change_views(changes@),
            event_views(events@) == events_of(fresh(all.take(i as int), after as int), prev_kv),
            last == last_revision(fresh(all.take(i as int), after as int)),
        decreases changes@.len() - i,
    {
        let c = &changes[i];
        let ghost done = all.take(i as int);
        let ghost more = all.take(i + 1);
        let ghost before = events@;
        proof {
            reveal(Seq::filter);
            assert(more =~= done.push(c@));
            assert(more.drop_last() =~= done);
        }
        if c.kv.mod_revision > after {
            events.push(to_event(c, prev_kv));
            last = c.kv.mod_revision;
            proof {
                assert(fresh(more, after as int) == fresh(done, after as int).push(c@));
                assert(event_views(events@) =~= event_views(before).push(event_of(c@, prev_kv)));
                assert(events_of(fresh(more, after as int), prev_kv) =~= events_of(
                    fresh(done, after as int),
                    prev_kv,
                ).push(event_of(c@, prev_kv)));
            }
        } else {
            assert(fresh(more, after as int) == fresh(done, after as int));
        }
        i += 1;
    }
    assert(all.take(all.len() as int) =~= all);
    (events, last)
}

/// The largest revision of some changes, or zero.
fn largest_of(changes: &Vec<KeyValueWithPrev>) -> (r: i64)
    ensures
        r == largest_revision(change_views(changes@)),
{
    let ghost all = change_views(changes@);
    let mut largest: i64 = 0;
    let mut i: usize = 0;
    assert(all.take(0) =~= Seq::empty());
    while i < changes.len()
        invariant
            i <= changes@.len(),
            all == change_views(changes@),
            largest == largest_revision(all.take(i as int)),
        decreases changes@.len() - i,
    {
        proof {
            assert(all.take(i + 1).drop_last() =~= all.take(i as int));
            assert(all.take(i + 1).last() == all[i as int]);
        }
        let rev = changes[i].kv.mod_revision;
        if rev > largest {
            largest = rev;
        }
        i += 1;
    }
    assert(all.take(all.len() as int) =~= all);
    largest
}

/// The events of some changes.
fn all_events(changes: &Vec<KeyValueWithPrev>, prev_kv: bool) -> (r: Vec<Event>)
    ensures
        event_views(r@) == events_of(change_views(changes@), prev_kv),
{
    let ghost all = change_views(changes@);
    let mut events: Vec<Event> = Vec::new();
    let mut i: usize = 0;
    assert(event_views(events@) =~= events_of(all.take(0), prev_kv));
    while i < changes.len()
        invariant
            i <= changes@.len(),
            all == change_views(changes@),
            event_views(events@) == events_of(all.take(i as int), prev_kv),
        decreases changes@.len() - i,
    {
        let ghost before = events@;
        events.push(to_event(&changes[i], prev_kv));
        proof {
            let c = all[i as int];
            assert(event_views(events@) =~= event_views(before).push(event_of(c, prev_kv)));
            assert(events_of(all.take(i + 1), prev_kv) =~= events_of(
                all.take(i as int),
                prev_kv,
            ).push(event_of(c, prev_kv)));
        }
        i += 1;
    }
    assert(all.take(all.len() as int) =~= all);
    events
}

/// How a watch stream starts.
pub open spec fn watch_started(
    s: StoreView,
    first: ClientMessage,
    r: Result<WatchStart, Status>,
    t: StoreView,
) -> bool {
    let create = creation(first);
    &&& r is Err == create is None
    &&& r matches Err(e) ==> {
        &&& t == s
        &&& match first {
            ClientMessage::Request(_) => e@ == (StatusView {
                code: Code::InvalidArgument,
                message: "Not supported"@,
            }),
            ClientMessage::Closed => e@ == (StatusView {
                code: Code::Cancelled,
                message: "client closed stream before sending request"@,
            }),
            ClientMessage::Failed(status) => e == status,
        }
    }
    &&& r matches Ok(start) ==> {
        let c = create->0;
        let rev = c.start_revision as int;
        let gone = 0 < rev <= s.history.compacted;
        let past = past_changes(s.history, c.key@, c.range_end@, rev, c.prev_kv);
        let id = (s.watch_counter + 1) as i64;
        &&& start is Refused == (gone || (rev > 0 && !one_prefix(
            c.key@,
            c.range_end@,
        )))
        &&& start matches WatchStart::Refused(resp) ==> resp@ == (WatchView {
            compact_revision: s.history.compacted as i64,
            ..told(0, 0, Seq::empty())
        })
        &&& start matches WatchStart::Opened(w, responses) ==> {
            &&& w@ == (SessionView {
                key: c.key@,
                watcher_id: id,
                prev_kv: c.prev_kv,
                told: largest_revision(past),
            })
            &&& responses@.len() == (if past.len() == 0 {
                1int
            } else {
                2
            })
            &&& responses@[0]@ == (WatchView {
                created: true,
                ..told(id, s.history.current(), Seq::empty())
            })
            &&& past.len() > 0 ==> responses@[1]@ == told(
                id,
                s.history.current(),
                events_of(past, c.prev_kv),
            )
        }
        &&& t == (if gone {
            s
        } else {
            s.after_watch(c.key@, c.range_end@, rev)
        })
    }
}

/// What a session does with changes.
pub open spec fn changes_taken(
    w: SessionView,
    s: StoreView,
    changes: Seq<ChangeView>,
    r: WatchAction,
    v: SessionView,
    t: StoreView,
) -> bool {
    let news = fresh(changes, w.told);
    let last = last_revision(news);
    if changes.len() == 0 {
        &&& r is Stop
        &&& t == unwatched(s, w)
        &&& v == w
    } else if news.len() == 0 {
        &&& r is Wait
        &&& t == s
        &&& v == w
    } else {
        &&& r matches WatchAction::Send(resp)
        &&& resp@ == told(w.watcher_id, last, events_of(news, w.prev_kv))
        &&& t == s
        &&& v == (SessionView { told: last, ..w })
    }
}

/// What a session does with a message.
pub open spec fn message_taken(
    w: SessionView,
    s: StoreView,
    message: ClientMessage,
    r: WatchAction,
    t: StoreView,
) -> bool {
    let ends = match message {
        ClientMessage::Request(WatchRequest { request_union }) => request_union matches Some(
            RequestUnion::CancelRequest(c),
        ) && c.watch_id == w.watcher_id,
        _ => true,
    };
    let asks = message matches ClientMessage::Request(
        WatchRequest { request_union: Some(RequestUnion::ProgressRequest(_)) },
    );
    &&& r is Stop == ends
    &&& r is Send == asks
    &&& r matches WatchAction::Send(resp) ==> resp@ == told(
        w.watcher_id,
        if s.progress > w.told {
            s.progress
        } else {
            w.told
        },
        Seq::empty(),
    )
    &&& t == (if ends {
        unwatched(s, w)
    } else {
        s
    })
}

/// The watch requests.
#[derive(Debug)]
pub struct WatchService {}

impl WatchService {
    /// The watch requests.
    pub fn new() -> (r: WatchService) {
        WatchService {  }
    }

    /// Starts a watch stream with its first message. A watch of a compacted revision
    /// is answered with what is compacted; any other is confirmed, and told of the
    /// past changes.
    pub fn watch(&self, store: &mut Store, first: ClientMessage) -> (r: Result<WatchStart, Status>)
        requires
            old(store).wf(),
            old(store)@.watch_counter + 1 < i64::MAX,
            creation(first) matches Some(c) ==> (c.start_revision > old(
                store,
            )@.history.compacted && inverted(c.key@, c.range_end@) ==> !old(
                store,
            )@.history.has_prefix(prefix_of(c.key@))),
        ensures
            final(store).wf(),
            watch_started(old(store)@, first, r, final(store)@),
    {
        proof {
            store.lemma_wf();
        }
        let request = match first {
            ClientMessage::Request(request) => request,
            ClientMessage::Closed => {
                return Err(
                    Status::new(
                        Code::Cancelled,
                        "client closed stream before sending request",
                    ),
                );
            },
            ClientMessage::Failed(status) => {
                return Err(status);
            },
        };
        let create = match request.request_union {
            Some(RequestUnion::CreateRequest(create)) => create,
            _ => {
                return Err(Status::invalid_argument("Not supported"));
            },
        };
        let prev_kv = create.prev_kv;
        let key = copy_bytes(&create.key);
        match store.watch(create.key, create.range_end, create.start_revision, prev_kv) {
            Err(compact_revision) => {
                let mut resp = empty_response(0, 0);
                resp.compact_revision = compact_revision;
                assert(resp@.events =~= Seq::empty());
                Ok(WatchStart::Refused(resp))
            },
            Ok((past, watcher_id)) => {
                let revision = store.current_revision();
                let mut responses: Vec<WatchResponse> = Vec::new();
                let mut confirmed = empty_response(revision, watcher_id);
                confirmed.created = true;
                assert(confirmed@.events =~= Seq::empty());
                responses.push(confirmed);
                let told_rev = largest_of(&past);
                if past.len() > 0 {
                    let mut resp = empty_response(revision, watcher_id);
                    resp.events = all_events(&past, prev_kv);
                    responses.push(resp);
                }
                Ok(
                    WatchStart::Opened(
                        WatchSession {
                            key,
                            watcher_id,
                            prev_kv,
                            max_event_stream_rev: told_rev,
                        },
                        responses,
                    ),
                )
            },
        }
    }
}

impl WatchSession {
    /// Takes changes from the store and tells those that were not told yet. Without
    /// any change the channel is closed, and the watch ends.
    pub fn on_changes(&mut self, store: &mut Store, changes: Vec<KeyValueWithPrev>) -> (r:
        WatchAction)
        requires
            old(store).wf(),
        ensures
            final(store).wf(),
            changes_taken(
                old(self)@,
                old(store)@,
                change_views(changes@),
                r,
                final(self)@,
                final(store)@,
            ),
    {
        if changes.len() == 0 {
            store.unwatch(copy_bytes(&self.key), self.watcher_id);
            return WatchAction::Stop;
        }
        let ghost w = self@;
        let ghost news = fresh(change_views(changes@), w.told);
        let (events, last) = fresh_events(&changes, self.max_event_stream_rev, self.prev_kv);
        assert(event_views(events@).len() == news.len());
        if events.len() == 0 {
            return WatchAction::Wait;
        }
        proof {
            lemma_fresh_last(change_views(changes@), w.told);
        }
        if last > self.max_event_stream_rev {
            self.max_event_stream_rev = last;
        }
        let mut resp = empty_response(last, self.watcher_id);
        resp.events = events;
        WatchAction::Send(resp)
    }

    /// Takes a message of the client. The watch ends when the client asks for it or
    /// leaves; its progress is the last revision of which it was told, or of which
    /// all watchers were.
    pub fn on_message(&mut self, store: &mut Store, message: ClientMessage) -> (r: WatchAction)
        requires
            old(store).wf(),
        ensures
            final(store).wf(),
            final(self)@ == old(self)@,
            message_taken(old(self)@, old(store)@, message, r, final(store)@),
    {
        match message {
            ClientMessage::Request(request) => match request.request_union {
                Some(RequestUnion::CancelRequest(cancel)) => {
                    if cancel.watch_id == self.watcher_id {
                        store.unwatch(copy_bytes(&self.key), self.watcher_id);
                        WatchAction::Stop
                    } else {
                        WatchAction::Wait
                    }
                },
                Some(RequestUnion::ProgressRequest(_)) => {
                    let progress = store.progress_revision();
                    let revision = if progress > self.max_event_stream_rev {
                        progress
                    } else {
                        self.max_event_stream_rev
                    };
                    WatchAction::Send(empty_response(revision, self.watcher_id))
                },
                _ => WatchAction::Wait,
            },
            _ => {
                store.unwatch(copy_bytes(&self.key), self.watcher_id);
                WatchAction::Stop
            },
        }
    }
}

/// The last of the changes after a revision comes after it.
proof fn lemma_fresh_last(changes: Seq<ChangeView>, rev: int)
    ensures
        fresh(changes, rev).len() > 0 ==> last_revision(fresh(changes, rev)) > rev,
    decreases changes.len(),
{
    reveal(Seq::filter);
    if changes.len() > 0 {
        lemma_fresh_last(changes.drop_last(), rev);
    }
}

proof fn lemma_fresh_all(changes: Seq<ChangeView>, rev: int)
    ensures
        forall|i: int|
            0 <= i < fresh(changes, rev).len() ==> (#[trigger] fresh(
                changes,
                rev,
            )[i]).kv.mod_revision > rev,
    decreases changes.len(),
{
    reveal(Seq::filter);
    if changes.len() > 0 {
        lemma_fresh_all(changes.drop_last(), rev);
    }
}

/// A watch is told no change twice: after the changes up to a revision it is told
/// only of later ones, and what it calls its progress does not go back.
pub proof fn law_told_once(changes: Seq<ChangeView>, told: int)
    ensures
        forall|i: int|
            0 <= i < fresh(changes, told).len() ==> (#[trigger] fresh(
                changes,
                told,
            )[i]).kv.mod_revision > told,
        fresh(changes, told).len() > 0 ==> last_revision(fresh(changes, told)) > told,
{
    lemma_fresh_all(changes, told);
    lemma_fresh_last(changes, told);
}

/// What a stream calls its progress is past: whatever jobs arrive after that, the
/// stream is told of no revision up to the progress that it named.
pub proof fn law_progress_is_past(s: NotifierView, told: int, jobs: Seq<JobView>)
    requires
        s.tidy(),
        arriving(s, jobs),
        forall|i: int|
            0 <= i < s.spool.len() ==> (#[trigger] s.spool[i]).msg.kv.mod_revision
                == s.spool[i].rev,
        forall|i: int|
            0 <= i < jobs.len() ==> (#[trigger] jobs[i]).msg.kv.mod_revision == jobs[i].rev,
    ensures
        ({
            let changes = all_sent(s, jobs).map_values(|j: JobView| j.msg);
            let progress = if s.next - 1 > told {
                s.next - 1
            } else {
                told
            };
            forall|i: int|
                0 <= i < fresh(changes, told).len() ==> (#[trigger] fresh(
                    changes,
                    told,
                )[i]).kv.mod_revision > progress
        }),
{
    broadcast use vstd::seq_lib::group_to_multiset_ensures;

    law_arrival_does_not_matter(s, jobs);
    let sent = all_sent(s, jobs);
    let changes = sent.map_values(|j: JobView| j.msg);
    lemma_fresh_all(changes, told);
    assert forall|i: int| 0 <= i < sent.len() implies (#[trigger] sent[i]).msg.kv.mod_revision
        == sent[i].rev by {
        let x = sent[i];
        assert(sent.contains(x));
        let left = after_all(s, jobs).spool.to_multiset();
        assert(sent.to_multiset().add(left).count(x) > 0);
        assert(s.spool.to_multiset().add(jobs.to_multiset()).count(x) > 0);
        if s.spool.contains(x) {
            let k = choose|k: int| 0 <= k < s.spool.len() && s.spool[k] == x;
            assert(s.spool[k].msg.kv.mod_revision == s.spool[k].rev);
        } else {
            let k = choose|k: int| 0 <= k < jobs.len() && jobs[k] == x;
            assert(jobs[k].msg.kv.mod_revision == jobs[k].rev);
        }
    }
    assert forall|i: int| 0 <= i < fresh(changes, told).len() implies (#[trigger] fresh(
        changes,
        told,
    )[i]).kv.mod_revision > s.next - 1 by {
        let c = fresh(changes, told)[i];
        changes.lemma_filter_contains_rev(|c: ChangeView| c.kv.mod_revision > told, c);
        let k = choose|k: int| 0 <= k < changes.len() && changes[k] == c;
        assert(sent[k].msg.kv.mod_revision == sent[k].rev);
    }
}

/// A write that takes place on a store.
#[verifier::ext_equal]
pub struct WriteView {
    pub store: StoreView,
    pub key: Seq<u8>,
    pub value: Option<Seq<u8>>,
}

impl WriteView {
    /// The job that the write sets off.
    pub open spec fn job(self) -> JobView {
        self.store.job(self.key, self.value)
    }
}

/// Some writes take place one after the other, and after a revision.
pub open spec fn take_place_after(rev: int, writes: Seq<WriteView>) -> bool {
    &&& forall|i: int|
        0 <= i < writes.len() ==> rev <= (#[trigger] writes[i]).store.history.current()
    &&& forall|i: int, j: int|
        #![trigger writes[i], writes[j]]
        0 <= i < j < writes.len() ==> writes[i].store.history.current()
            < writes[j].store.history.current()
}

/// What some writes tell.
pub open spec fn news_of(writes: Seq<WriteView>) -> Seq<ChangeView> {
    writes.map_values(|w: WriteView| w.job().msg)
}

/// Changes that come in parts, as one sequence.
pub open spec fn put_together(parts: Seq<Seq<ChangeView>>) -> Seq<ChangeView>
    decreases parts.len(),
{
    if parts.len() == 0 {
        Seq::empty()
    } else {
        put_together(parts.drop_last()) + parts.last()
    }
}

/// The last revision that a session has told after it took changes in parts.
pub open spec fn told_after(told: int, parts: Seq<Seq<ChangeView>>) -> int
    decreases parts.len(),
{
    if parts.len() == 0 {
        told
    } else {
        let before = told_after(told, parts.drop_last());
        let news = fresh(parts.last(), before);
        if news.len() == 0 {
            before
        } else {
            last_revision(news)
        }
    }
}

/// The changes that a session tells when it takes changes in parts.
pub open spec fn delivered(told: int, parts: Seq<Seq<ChangeView>>) -> Seq<ChangeView>
    decreases parts.len(),
{
    if parts.len() == 0 {
        Seq::empty()
    } else {
        delivered(told, parts.drop_last()) + fresh(
            parts.last(),
            told_after(told, parts.drop_last()),
        )
    }
}

/// The revisions of some changes ascend, and come after a revision.
pub open spec fn rising(changes: Seq<ChangeView>, rev: int) -> bool {
    &&& forall|i: int| 0 <= i < changes.len() ==> (#[trigger] changes[i]).kv.mod_revision > rev
    &&& forall|i: int, j: int|
        #![trigger changes[i], changes[j]]
        0 <= i < j < changes.len() ==> changes[i].kv.mod_revision < changes[j].kv.mod_revision
}

/// Changes that all come after a revision are all fresh.
pub proof fn lemma_fresh_keeps(changes: Seq<ChangeView>, rev: int)
    requires
        forall|i: int| 0 <= i < changes.len() ==> (#[trigger] changes[i]).kv.mod_revision > rev,
    ensures
        fresh(changes, rev) == changes,
    decreases changes.len(),
{
    reveal(Seq::filter);
    if changes.len() > 0 {
        let front = changes.drop_last();
        assert forall|i: int| 0 <= i < front.len() implies (#[trigger] front[i]).kv.mod_revision
            > rev by {
            assert(front[i] == changes[i]);
        }
        lemma_fresh_keeps(front, rev);
        assert(changes[changes.len() - 1] == changes.last());
        assert(changes =~= front.push(changes.last()));
    } else {
        assert(fresh(changes, rev) =~= changes);
    }
}

proof fn lemma_delivers(told: int, parts: Seq<Seq<ChangeView>>)
    requires
        rising(put_together(parts), told),
    ensures
        delivered(told, parts) == put_together(parts),
        told_after(told, parts) == (if put_together(parts).len() == 0 {
            told
        } else {
            last_revision(put_together(parts))
        }),
    decreases parts.len(),
{
    if parts.len() > 0 {
        let all = put_together(parts);
        let a = put_together(parts.drop_last());
        let b = parts.last();
        assert(rising(a, told)) by {
            assert forall|i: int| 0 <= i < a.len() implies (#[trigger] a[i]).kv.mod_revision
                > told by {
                assert(all[i] == a[i]);
            }
            assert forall|i: int, j: int|
                #![trigger a[i], a[j]]
                0 <= i < j < a.len() implies a[i].kv.mod_revision < a[j].kv.mod_revision by {
                assert(all[i] == a[i] && all[j] == a[j]);
            }
        }
        lemma_delivers(told, parts.drop_last());
        let t = told_after(told, parts.drop_last());
        assert forall|i: int| 0 <= i < b.len() implies (#[trigger] b[i]).kv.mod_revision > t by {
            assert(all[a.len() + i] == b[i]);
            if a.len() > 0 {
                assert(all[a.len() - 1] == a.last());
            }
        }
        lemma_fresh_keeps(b, t);
        if b.len() > 0 {
            assert(all.last() == b.last());
        } else {
            assert(all =~= a);
        }
    }
}

/// The changes of a past are those of different revisions.
proof fn lemma_past_distinct(h: History, keys: Seq<Seq<u8>>, from: int, prev_kv: bool)
    requires
        h.valid(),
        keys.no_duplicates(),
    ensures
        ({
            let past = h.past_of_keys(keys, from, prev_kv);
            &&& forall|i: int|
                0 <= i < past.len() ==> from <= (#[trigger] past[i]).kv.mod_revision
                    <= h.current()
            &&& forall|i: int, j: int|
                #![trigger past[i], past[j]]
                0 <= i < j < past.len() ==> past[i].kv.mod_revision != past[j].kv.mod_revision
        }),
    decreases keys.len(),
{
    if keys.len() > 0 {
        let past = h.past_of_keys(keys, from, prev_kv);
        let others = keys.drop_last();
        let key = keys.last();
        let front = h.past_of_keys(others, from, prev_kv);
        let w = h.writes(key, from, h.current());
        lemma_past_distinct(h, others, from, prev_kv);
        lemma_writes(h, key, from, h.current());
        assert forall|i: int| front.len() <= i < past.len() implies (
        #[trigger] past[i]).kv.mod_revision == w[i - front.len()] by {
            let r = w[i - front.len()];
            assert(past[i] == h.past(key, r, prev_kv));
            assert(h.wrote(key, r));
        }
        assert forall|i: int| 0 <= i < past.len() implies from <= (
        #[trigger] past[i]).kv.mod_revision <= h.current() by {
            if i < front.len() {
                assert(past[i] == front[i]);
            }
        }
        assert forall|i: int, j: int|
            #![trigger past[i], past[j]]
            0 <= i < j < past.len() implies past[i].kv.mod_revision != past[j].kv.mod_revision by {
            if j < front.len() {
                assert(past[i] == front[i] && past[j] == front[j]);
            } else if i < front.len() {
                assert(past[i] == front[i]);
                assert(front.contains(front[i]));
                law_past_is_sound(h, others, from, prev_kv, front[i]);
                let (k, r) = choose|k: Seq<u8>, r: int|
                    others.contains(k) && from <= r && #[trigger] h.wrote(k, r) && front[i]
                        == h.past(k, r, prev_kv);
                let m = choose|m: int| 0 <= m < others.len() && others[m] == k;
                assert(keys[m] == k && keys[keys.len() - 1] == key);
                assert(h.wrote(key, w[j - front.len()]));
            }
        }
    }
}

proof fn lemma_largest(changes: Seq<ChangeView>, bound: int)
    requires
        0 <= bound,
        forall|i: int| 0 <= i < changes.len() ==> (#[trigger] changes[i]).kv.mod_revision <= bound,
    ensures
        0 <= largest_revision(changes) <= bound,
        forall|i: int|
            0 <= i < changes.len() ==> (#[trigger] changes[i]).kv.mod_revision <= largest_revision(
                changes,
            ),
    decreases changes.len(),
{
    if changes.len() > 0 {
        let front = changes.drop_last();
        assert forall|i: int| 0 <= i < front.len() implies (#[trigger] front[i]).kv.mod_revision
            <= bound by {
            assert(front[i] == changes[i]);
        }
        lemma_largest(front, bound);
        assert(changes[changes.len() - 1] == changes.last());
        assert forall|i: int| 0 <= i < changes.len() implies (#[trigger] changes[i]).kv.mod_revision
            <= largest_revision(changes) by {
            if i < front.len() {
                assert(front[i] == changes[i]);
            }
        }
    }
}

/// A watch tells each change once, from its past over to the writes that follow. The
/// past has no revision twice, and none after the last one. Each later write in its
/// range is for the watcher, for as long as it is registered, and comes after all that
/// the session has told. Of what is handed to the session of those writes, in whatever
/// parts, it drops nothing and repeats nothing.
pub proof fn law_watch_tells_each_once(
    s: StoreView,
    start: Seq<u8>,
    end: Seq<u8>,
    rev: int,
    prev_kv: bool,
    writes: Seq<WriteView>,
    parts: Seq<Seq<ChangeView>>,
)
    requires
        s.history.valid(),
        s.history.latest.dom().finite(),
        take_place_after(s.history.current(), writes),
        put_together(parts) == news_of(writes),
    ensures
        ({
            let id = (start, (s.watch_counter + 1) as i64);
            let watcher = s.after_watch(start, end, rev).watchers[id];
            let past = past_changes(s.history, start, end, rev, prev_kv);
            let told = largest_revision(past);
            &&& told <= s.history.current()
            &&& forall|i: int|
                0 <= i < past.len() ==> rev <= (#[trigger] past[i]).kv.mod_revision <= told
            &&& forall|i: int, j: int|
                #![trigger past[i], past[j]]
                0 <= i < j < past.len() ==> past[i].kv.mod_revision != past[j].kv.mod_revision
            &&& forall|i: int|
                #![trigger writes[i]]
                0 <= i < writes.len() ==> {
                    let w = writes[i];
                    &&& w.job().msg.kv.mod_revision == w.job().rev
                    &&& w.job().rev > s.history.current()
                    &&& w.store.watchers.dom().finite() && w.store.watchers.contains_key(id)
                        && w.store.watchers[id] == watcher && watcher.wants(w.key, w.job().rev)
                        ==> w.job().watchers.contains(id.1)
                }
            &&& delivered(told, parts) == news_of(writes)
            &&& rising(news_of(writes), told)
        }),
{
    let h = s.history;
    let id = (start, (s.watch_counter + 1) as i64);
    let watcher = s.after_watch(start, end, rev).watchers[id];
    let past = past_changes(h, start, end, rev, prev_kv);
    let told = largest_revision(past);
    let news = news_of(writes);
    let keys = h.matching(start, end);
    let set = Set::new(|k: Seq<u8>| h.latest.contains_key(k) && selected(k, start, end));
    assert(set.subset_of(h.latest.dom()));
    vstd::set_lib::lemma_set_subset_finite(h.latest.dom(), set);
    lemma_enumeration::<Vec<u8>>(set);
    assert forall|i: int, j: int|
        0 <= i < keys.len() && 0 <= j < keys.len() && i != j implies keys[i] != keys[j] by {
        if keys[i] == keys[j] {
            ascending_unique::<Vec<u8>>(keys, i, j);
        }
    }
    lemma_past_distinct(h, keys, rev, prev_kv);
    lemma_largest(past, h.current());
    assert forall|i: int| #![trigger writes[i]] 0 <= i < writes.len() implies {
        let w = writes[i];
        &&& w.job().msg.kv.mod_revision == w.job().rev
        &&& w.job().rev > h.current()
        &&& w.store.watchers.dom().finite() && w.store.watchers.contains_key(id)
            && w.store.watchers[id] == watcher && watcher.wants(w.key, w.job().rev)
            ==> w.job().watchers.contains(id.1)
    } by {
        let w = writes[i];
        if w.store.watchers.dom().finite() && w.store.watchers.contains_key(id)
            && w.store.watchers[id] == watcher && watcher.wants(w.key, w.job().rev) {
            law_watcher_is_told(w.store, id, w.key, w.value);
        }
    }
    assert(rising(news, told)) by {
        assert forall|i: int| 0 <= i < news.len() implies (#[trigger] news[i]).kv.mod_revision
            > told by {
            assert(news[i] == writes[i].job().msg);
        }
        assert forall|i: int, j: int|
            #![trigger news[i], news[j]]
            0 <= i < j < news.len() implies news[i].kv.mod_revision < news[j].kv.mod_revision by {
            assert(news[i] == writes[i].job().msg && news[j] == writes[j].job().msg);
        }
    }
    lemma_delivers(told, parts);
}

} // verus!
