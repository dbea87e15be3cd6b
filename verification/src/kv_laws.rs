//! What holds of the key-value requests.

use crate::etcdserverpb::compare::TargetUnion;
use crate::etcdserverpb::request_op::Request;
use crate::etcdserverpb::response_op::Response;
use crate::etcdserverpb::{
    CompactionRequest, CompactionResponse, DeleteRangeRequest, DeleteRangeResponse, PutRequest,
    PutResponse, RangeRequest, RangeResponse, TxnRequest, TxnResponse,
};
use crate::kv_service::{
    compact_done, compare_ok, delete_done, is_success, leader_error, lemma_single, put_done,
    range_done, txn_done, txn_refusal, Outcome, PendingDelete, PendingPut, PendingTxn,
};
use crate::mvccpb::{kv_views, opt_kv, KeyValueView};
use crate::outside::status_debug_text;
use crate::raft::RaftMetrics;
use crate::rpc::status::{Code, Status};
use crate::store::{compacted_error, StoreView};
use crate::store_laws::law_count_up_to_limit;
use crate::text::law_decimals_differ;
use vstd::prelude::*;
use vstd::string::*;

verus! {

/// A write is proposed.
pub open spec fn proposed<R, P>(r: Result<Outcome<R, P>, Status>) -> bool {
    r matches Ok(Outcome::Propose(_, _))
}

/// A node is the leader.
pub open spec fn leads(m: RaftMetrics) -> bool {
    m.current_leader == Some(m.id)
}

/// A key is there.
pub open spec fn is_there(s: StoreView, key: Seq<u8>) -> bool {
    s.history.latest.contains_key(key) && s.history.latest[key].value is Some
}

/// The last revision of a store.
pub open spec fn last(s: StoreView) -> int {
    (s.history.compacted + s.history.log.len()) as int
}

// ------------------------------------------------------------ transactions

/// With replication a transaction proposes its write exactly when the last revision or
/// the version of the key compares with the target as the request says: greater than
/// it, less than it, different from it, or else equal to it. Otherwise it is answered
/// that it did not succeed. The store is not changed either way.
pub proof fn law_replicated_compare(
    m: RaftMetrics,
    s: StoreView,
    req: TxnRequest,
    r: Result<Outcome<TxnResponse, PendingTxn>, Status>,
    t: StoreView,
    target: i64,
)
    requires
        txn_done(Some(m), s, req, r, t),
        leads(m),
        txn_refusal(req) is None,
        target >= 0,
    ensures
        ({
            let c = req.compare@[0];
            let v = s.history.latest[c.key@];
            let here = is_there(s, c.key@);
            let by_revision = c.target_union == Some(TargetUnion::ModRevision(target));
            let by_version = c.target_union == Some(TargetUnion::Version(target));
            let n = target as int;
            &&& t == s
            &&& here && by_revision && c.result == 1 ==> proposed(r) == (v.mod_revision > n)
            &&& here && by_revision && c.result == 2 ==> proposed(r) == (v.mod_revision < n)
            &&& here && by_revision && c.result == 3 ==> proposed(r) == (v.mod_revision != n)
            &&& here && by_revision && !(1 <= c.result <= 3) ==> proposed(r) == (v.mod_revision
                == n)
            &&& here && by_version && c.result == 1 ==> proposed(r) == (v.version > n)
            &&& here && by_version && c.result == 2 ==> proposed(r) == (v.version < n)
            &&& here && by_version && c.result == 3 ==> proposed(r) == (v.version != n)
            &&& here && by_version && !(1 <= c.result <= 3) ==> proposed(r) == (v.version == n)
            &&& !here && (by_revision || by_version) ==> proposed(r) == (n == 0)
            &&& !proposed(r) ==> {
                &&& r matches Ok(Outcome::Done(resp))
                &&& !resp.succeeded
            }
        }),
{
}

/// Of equal, greater and less exactly one holds of a key and a target, different holds
/// where equal does not, and what is greater than a target is greater than every smaller
/// one.
pub proof fn law_comparisons_exclude(kv: KeyValueView, target: int, smaller: int)
    requires
        0 <= smaller < target,
    ensures
        ({
            let equal = compare_ok(Some(kv), target, -1, 0);
            let greater = compare_ok(Some(kv), target, -1, 1);
            let less = compare_ok(Some(kv), target, -1, 2);
            &&& equal ==> !greater && !less
            &&& greater ==> !less
            &&& equal || greater || less
            &&& compare_ok(Some(kv), target, -1, 3) == !equal
            &&& greater || equal ==> compare_ok(Some(kv), smaller, -1, 1)
            &&& compare_ok(Some(kv), smaller, -1, 2) ==> less
        }),
        ({
            let equal = compare_ok(Some(kv), -1, target, 0);
            let greater = compare_ok(Some(kv), -1, target, 1);
            let less = compare_ok(Some(kv), -1, target, 2);
            &&& equal ==> !greater && !less
            &&& greater ==> !less
            &&& equal || greater || less
            &&& compare_ok(Some(kv), -1, target, 3) == !equal
            &&& greater || equal ==> compare_ok(Some(kv), -1, smaller, 1)
            &&& compare_ok(Some(kv), -1, smaller, 2) ==> less
        }),
        compare_ok(Some(kv), kv.mod_revision, kv.version, 0),
{
}

/// Without replication a transaction writes exactly when what is there equals what it
/// requires, whatever it says of the comparison. Where nothing is, it can only require
/// zero, and there is nothing to delete. A transaction that does not succeed changes
/// nothing; one that does writes once, at the next revision.
pub proof fn law_local_txn(
    s: StoreView,
    req: TxnRequest,
    r: Result<Outcome<TxnResponse, PendingTxn>, Status>,
    t: StoreView,
    target: i64,
)
    requires
        txn_done(None, s, req, r, t),
        txn_refusal(req) is None,
        target >= 0,
        last(s) < i64::MAX,
    ensures
        r matches Ok(Outcome::Done(_)),
        ({
            let c = req.compare@[0];
            let v = s.history.latest[c.key@];
            let here = is_there(s, c.key@);
            let by_revision = c.target_union == Some(TargetUnion::ModRevision(target));
            let by_version = c.target_union == Some(TargetUnion::Version(target));
            let done = r->Ok_0->Done_0;
            let op = req.success@[0].request->0;
            &&& here && by_revision ==> done.succeeded == (v.mod_revision == target)
            &&& here && by_version ==> done.succeeded == (v.version == target)
            &&& !here && (by_revision || by_version) ==> done.succeeded == (target == 0
                && op is RequestPut)
            &&& !done.succeeded ==> t == s && done.header->0.revision == last(s)
            &&& done.succeeded ==> {
                &&& last(t) == last(s) + 1
                &&& done.header->0.revision == last(t)
                &&& t.history.latest.contains_key(c.key@)
                &&& t.history.latest[c.key@].mod_revision == last(t)
                &&& t.history.latest.remove(c.key@) =~= s.history.latest.remove(c.key@)
                &&& op matches Request::RequestPut(put) ==> t.history.latest[c.key@].value
                    == Some(put.value@)
                &&& op is RequestDeleteRange ==> t.history.latest[c.key@].value is None
                &&& done.responses@.len() == 1
                &&& done.responses@[0].response is Some
                &&& (done.responses@[0].response->0 is ResponsePut) == (op is RequestPut)
                &&& (done.responses@[0].response->0 is ResponseDeleteRange) == (
                op is RequestDeleteRange)
                &&& done.responses@[0].response matches Some(Response::ResponseDeleteRange(d))
                    ==> d.deleted == 1 && d.prev_kvs@.len() == 0 && d.header->0.revision == last(t)
                &&& done.responses@[0].response matches Some(Response::ResponsePut(p))
                    ==> p.prev_kv is None && p.header->0.revision == last(t)
            }
        }),
{
}

/// A transaction that does not succeed is answered with what a range of the key holds,
/// if it has a failure branch.
pub proof fn law_failed_txn_tells_what_is_there(
    raft: Option<RaftMetrics>,
    s: StoreView,
    req: TxnRequest,
    r: Result<Outcome<TxnResponse, PendingTxn>, Status>,
    t: StoreView,
    limit: int,
)
    requires
        txn_done(raft, s, req, r, t),
        s.history.valid(),
        limit >= 1,
        r matches Ok(Outcome::Done(resp)) && !resp.succeeded,
        last(s) <= i64::MAX,
    ensures
        ({
            let done = r->Ok_0->Done_0;
            let kvs = s.range(req.compare@[0].key@, Seq::empty(), 0, limit).kvs;
            &&& done.header->0.revision == last(s)
            &&& req.failure@.len() == 0 ==> done.responses@.len() == 0
            &&& req.failure@.len() > 0 ==> {
                &&& done.responses@.len() == 1
                &&& done.responses@[0].response matches Some(Response::ResponseRange(range))
                &&& kv_views(range.kvs@) == kvs
                &&& range.count == 1
                &&& !range.more
                &&& range.header->0.revision == last(s)
            }
            &&& (kvs.len() == 1) == is_there(s, req.compare@[0].key@)
        }),
{
    lemma_single(s, req.compare@[0].key@, limit);
}

/// What a transaction proposes is the write of its success branch.
pub proof fn law_txn_proposes_its_write(
    m: RaftMetrics,
    s: StoreView,
    req: TxnRequest,
    r: Result<Outcome<TxnResponse, PendingTxn>, Status>,
    t: StoreView,
)
    requires
        txn_done(Some(m), s, req, r, t),
        proposed(r),
    ensures
        ({
            let p = r->Ok_0->Propose_0;
            let op = req.success@[0].request;
            &&& leads(m)
            &&& p@.key == req.compare@[0].key@
            &&& op matches Some(Request::RequestPut(put)) ==> p@.value == Some(put.value@)
            &&& op matches Some(Request::RequestDeleteRange(_)) ==> p@.value is None
            &&& (op matches Some(Request::RequestDeleteRange(_))) == (
            r->Ok_0->Propose_1.success_is_delete)
        }),
{
}

/// A transaction is supported with one comparison, of the last revision or the version
/// of a key, one put or deletion of that key alone, and at most one range of that key
/// alone. Everything else is refused.
pub proof fn law_supported_txns(req: TxnRequest)
    ensures
        (txn_refusal(req) is None) <==> {
            &&& req.compare@.len() == 1
            &&& req.success@.len() == 1
            &&& req.failure@.len() <= 1
            &&& match req.compare@[0].target_union {
                Some(TargetUnion::ModRevision(_)) => true,
                Some(TargetUnion::Version(_)) => true,
                _ => false,
            }
            &&& match req.success@[0].request {
                Some(Request::RequestPut(p)) => p.key@.len() > 0 && p.key@
                    == req.compare@[0].key@,
                Some(Request::RequestDeleteRange(d)) => d.key@.len() > 0 && d.range_end@.len() == 0
                    && d.key@ == req.compare@[0].key@,
                _ => false,
            }
            &&& req.failure@.len() == 1 ==> match req.failure@[0].request {
                Some(Request::RequestRange(f)) => f.key@ == req.compare@[0].key@
                    && f.range_end@.len() == 0,
                Some(_) => false,
                None => true,
            }
        },
{
}

/// Why a transaction is refused is told in words, the form first, then what it does.
pub proof fn law_txn_refusals(req: TxnRequest)
    ensures
        req.compare@.len() != 1 ==> txn_refusal(req) == Some("only one compare supported"@),
        req.compare@.len() == 1 ==> {
            let c = req.compare@[0];
            let target = c.target_union;
            let right = target matches Some(TargetUnion::ModRevision(_)) || target matches Some(
                TargetUnion::Version(_),
            );
            let single = req.success@.len() == 1;
            let few = req.failure@.len() <= 1;
            let failure = req.failure@[0].request;
            let quiet = req.failure@.len() == 0 || failure is None || (failure matches Some(
                Request::RequestRange(f),
            ) && f.key@ == c.key@ && f.range_end@.len() == 0);
            let op = req.success@[0].request;
            &&& target is None ==> txn_refusal(req) == Some("compare target_union is required"@)
            &&& target is Some && !right ==> txn_refusal(req) == Some(
                "only MOD or VERSION target supported"@,
            )
            &&& right && !single ==> txn_refusal(req) == Some("only one success supported"@)
            &&& right && single && !few ==> txn_refusal(req) == Some("only one failure supported"@)
            &&& right && single && req.failure@.len() == 1 ==> {
                &&& (failure matches Some(Request::RequestRange(f)) && f.key@ != c.key@)
                    ==> txn_refusal(req) == Some("compare key must match failure key"@)
                &&& (failure matches Some(Request::RequestRange(f)) && f.key@ == c.key@
                    && f.range_end@.len() > 0) ==> txn_refusal(req) == Some(
                    "range end not supported in failure"@,
                )
                &&& failure is Some && !(failure->0 is RequestRange) ==> txn_refusal(req) == Some(
                    "only range supported in failure"@,
                )
            }
            &&& right && single && few && quiet ==> {
                &&& (op matches Some(Request::RequestPut(p)) && p.key@.len() == 0)
                    ==> txn_refusal(req) == Some("key required in success put"@)
                &&& (op matches Some(Request::RequestPut(p)) && p.key@.len() > 0 && p.key@
                    != c.key@) ==> txn_refusal(req) == Some("compare key must match put key"@)
                &&& (op matches Some(Request::RequestDeleteRange(d)) && d.key@.len() == 0)
                    ==> txn_refusal(req) == Some("key required in success deleteRange"@)
                &&& (op matches Some(Request::RequestDeleteRange(d)) && d.key@.len() > 0
                    && d.range_end@.len() > 0) ==> txn_refusal(req) == Some(
                    "range end not supported in deleteRange"@,
                )
                &&& (op matches Some(Request::RequestDeleteRange(d)) && d.key@.len() > 0
                    && d.range_end@.len() == 0 && d.key@ != c.key@) ==> txn_refusal(req) == Some(
                    "compare key must match deleteRange key"@,
                )
                &&& (op matches Some(Request::RequestRange(_))) ==> txn_refusal(req) == Some(
                    "only put and deleteRange supported in success"@,
                )
                &&& (op matches Some(Request::RequestTxn(_))) ==> txn_refusal(req) == Some(
                    "only put and deleteRange supported in success"@,
                )
            }
        },
{
}

/// A transaction that is refused is an invalid argument, and changes nothing.
pub proof fn law_refused_txn(
    raft: Option<RaftMetrics>,
    s: StoreView,
    req: TxnRequest,
    r: Result<Outcome<TxnResponse, PendingTxn>, Status>,
    t: StoreView,
)
    requires
        txn_done(raft, s, req, r, t),
        txn_refusal(req) is Some,
    ensures
        r matches Err(e) && e@.code == Code::InvalidArgument && e@.message == txn_refusal(req)->0,
        t == s,
{
}

// --------------------------------------------------------- puts, deletions

/// What a put wrote is what a range of the key holds from then on, at the next revision,
/// and every other key stays as it was. The value is that of the request, or the one
/// that is there where the request says so. What was there before is told on request.
pub proof fn law_put_is_read(
    s: StoreView,
    req: PutRequest,
    r: Result<Outcome<PutResponse, PendingPut>, Status>,
    t: StoreView,
    limit: int,
)
    requires
        put_done(None, s, req, r, t),
        s.history.valid(),
        limit >= 1,
        r is Ok,
        last(s) < i64::MAX,
    ensures
        r matches Ok(Outcome::Done(_)),
        ({
            let resp = r->Ok_0->Done_0;
            let was = s.range(req.key@, Seq::empty(), 0, limit).kvs;
            let now = t.range(req.key@, Seq::empty(), 0, limit).kvs;
            &&& resp.header->0.revision == last(s) + 1
            &&& last(t) == last(s) + 1
            &&& now.len() == 1
            &&& now[0].key == req.key@
            &&& now[0].mod_revision == last(t)
            &&& !req.ignore_value ==> now[0].value == req.value@
            &&& req.ignore_value ==> was.len() == 1 && now[0].value == was[0].value
            &&& was.len() == 1 ==> now[0].version == was[0].version + 1 && now[0].create_revision
                == was[0].create_revision
            &&& was.len() == 0 ==> now[0].version == 1 && now[0].create_revision == last(t)
            &&& !req.prev_kv ==> resp.prev_kv is None
            &&& req.prev_kv && was.len() == 1 ==> opt_kv(resp.prev_kv) == Some(was[0])
            &&& req.prev_kv && was.len() == 0 ==> resp.prev_kv is None
            &&& t.history.latest.remove(req.key@) =~= s.history.latest.remove(req.key@)
            &&& t.watchers == s.watchers
        }),
{
    lemma_single(s, req.key@, limit);
    crate::history::lemma_write_valid(
        s.history,
        req.key@,
        Some(
            if req.ignore_value {
                s.history.conflict(req.key@)->0.value
            } else {
                req.value@
            },
        ),
    );
    lemma_single(t, req.key@, limit);
}

/// Without replication a put is refused only where it is to keep a value that is not
/// there; then nothing changes.
pub proof fn law_refused_put(
    s: StoreView,
    req: PutRequest,
    r: Result<Outcome<PutResponse, PendingPut>, Status>,
    t: StoreView,
)
    requires
        put_done(None, s, req, r, t),
    ensures
        r is Err == (req.ignore_value && !is_there(s, req.key@)),
        r matches Err(e) ==> e@.code == Code::InvalidArgument && t == s,
{
}

/// With replication a put changes nothing by itself: the leader proposes it, with the
/// value that it would write, and every other node refuses it.
pub proof fn law_replicated_put(
    m: RaftMetrics,
    s: StoreView,
    req: PutRequest,
    r: Result<Outcome<PutResponse, PendingPut>, Status>,
    t: StoreView,
)
    requires
        put_done(Some(m), s, req, r, t),
    ensures
        t == s,
        proposed(r) == (leads(m) && (req.ignore_value ==> is_there(s, req.key@))),
        r is Err == !proposed(r),
        proposed(r) ==> {
            let p = r->Ok_0->Propose_0;
            &&& p@.key == req.key@
            &&& !req.ignore_value ==> p@.value == Some(req.value@)
            &&& req.ignore_value ==> p@.value == s.history.latest[req.key@].value
            &&& r->Ok_0->Propose_1.prev_kv is Some == (req.prev_kv && is_there(s, req.key@))
        },
{
}

/// After a deletion the key is not there, and every other key stays as it was. It is
/// told whether there was one to delete, and on request what it was. The deletion of a
/// key that is not there takes no revision.
pub proof fn law_delete_is_gone(
    s: StoreView,
    req: DeleteRangeRequest,
    r: Result<Outcome<DeleteRangeResponse, PendingDelete>, Status>,
    t: StoreView,
    limit: int,
)
    requires
        delete_done(None, s, req, r, t),
        s.history.valid(),
        limit >= 1,
        last(s) < i64::MAX,
    ensures
        r is Err == (req.range_end@.len() > 0),
        r is Err ==> t == s,
        r is Ok ==> {
            &&& r matches Ok(Outcome::Done(resp))
            &&& {
                let was = s.range(req.key@, Seq::empty(), 0, limit).kvs;
                &&& !is_there(t, req.key@)
                &&& t.range(req.key@, Seq::empty(), 0, limit).kvs.len() == 0
                &&& resp.deleted == was.len()
                &&& last(t) == last(s) + was.len()
                &&& resp.header->0.revision == last(t)
                &&& req.prev_kv ==> kv_views(resp.prev_kvs@) == was
                &&& !req.prev_kv ==> resp.prev_kvs@.len() == 0
                &&& was.len() == 0 ==> t == s
                &&& t.history.latest.remove(req.key@) =~= s.history.latest.remove(req.key@)
            }
        },
{
    lemma_single(s, req.key@, limit);
    crate::history::lemma_write_valid(s.history, req.key@, None);
    lemma_single(t, req.key@, limit);
    if r is Ok {
        let resp = r->Ok_0->Done_0;
        assert(kv_views(resp.prev_kvs@).len() == resp.prev_kvs@.len());
    }
}

/// With replication a deletion changes nothing by itself: the leader proposes it, and
/// every other node refuses it.
pub proof fn law_replicated_delete(
    m: RaftMetrics,
    s: StoreView,
    req: DeleteRangeRequest,
    r: Result<Outcome<DeleteRangeResponse, PendingDelete>, Status>,
    t: StoreView,
)
    requires
        delete_done(Some(m), s, req, r, t),
    ensures
        t == s,
        proposed(r) == (leads(m) && req.range_end@.len() == 0),
        r is Err == !proposed(r),
        proposed(r) ==> {
            let p = r->Ok_0->Propose_0;
            let there = is_there(s, req.key@);
            let prev = kv_views(r->Ok_0->Propose_1.prev_kvs@);
            &&& p@.key == req.key@
            &&& p@.value is None
            &&& r->Ok_0->Propose_1.deleted == (if there {
                1int
            } else {
                0
            })
            &&& prev.len() == (if req.prev_kv && there {
                1int
            } else {
                0
            })
            &&& prev.len() > 0 ==> prev[0].key == req.key@ && Some(prev[0].value)
                == s.history.latest[req.key@].value
        },
{
}

/// A transaction that wrote is answered with the revision of its write: a deletion with the
/// one key that went, and a put without what was there before.
pub proof fn law_written_txns_are_answered(resp: TxnResponse, rev: i64, deletes: bool)
    requires
        is_success(resp, rev as int, deletes),
    ensures
        resp.succeeded,
        resp.header->0.revision == rev,
        resp.responses@.len() == 1,
        deletes ==> (resp.responses@[0].response matches Some(Response::ResponseDeleteRange(d))
            && d.deleted == 1 && d.prev_kvs@.len() == 0 && d.header->0.revision == rev),
        !deletes ==> (resp.responses@[0].response matches Some(Response::ResponsePut(p))
            && p.prev_kv is None && p.header->0.revision == rev),
{
}

// ----------------------------------------------------------------- leaders

/// Only the leader takes writes. Without replication every node does.
pub proof fn law_only_the_leader_writes(m: RaftMetrics)
    ensures
        leader_error(None) is None,
        leader_error(Some(m)) is None <==> m.current_leader == Some(m.id),
        m.current_leader is None ==> leader_error(Some(m))->0.code == Code::Unavailable,
        m.current_leader is Some && m.current_leader != Some(m.id) ==> leader_error(
            Some(m),
        )->0.code == Code::FailedPrecondition,
{
}

/// A node that does not lead tells which one does: for different leaders it says
/// something different.
pub proof fn law_tells_the_leader(a: RaftMetrics, b: RaftMetrics, x: u64, y: u64)
    requires
        a.current_leader == Some(x),
        b.current_leader == Some(y),
        x != a.id,
        y != b.id,
        x != y,
    ensures
        leader_error(Some(a))->0.message != leader_error(Some(b))->0.message,
{
    let head = "not leader, current leader is node "@;
    let d = leader_error(Some(a))->0.message;
    let e = leader_error(Some(b))->0.message;
    law_decimals_differ(x, y);
    if d == e {
        assert(d.skip(head.len() as int) =~= crate::text::decimal(x as nat));
        assert(e.skip(head.len() as int) =~= crate::text::decimal(y as nat));
    }
}

// ------------------------------------------------------------------ ranges

/// A range with a limit tells no more pairs than that, and says that there are more
/// exactly where more keys were there than the limit. Without a limit all are told. A
/// mere count tells no pair, and is zero exactly where there is none.
pub proof fn law_range_limits(
    s: StoreView,
    req: RangeRequest,
    r: Result<RangeResponse, Status>,
)
    requires
        range_done(s, req, r),
        r is Ok,
        0 <= req.limit <= usize::MAX,
        last(s) <= i64::MAX,
        ({
            let h = s.history;
            let keys = h.matching(req.key@, req.range_end@);
            keys.len() <= i64::MAX && keys.len() < usize::MAX
        }),
    ensures
        ({
            let resp = r->Ok_0;
            let h = s.history;
            let at = s.read_revision(req.revision as int);
            let there = h.live_keys(h.matching(req.key@, req.range_end@), at).len();
            &&& resp.header->0.revision == last(s)
            &&& req.count_only ==> resp.kvs@.len() == 0 && !resp.more && (resp.count == 0) == (
            there == 0)
            &&& !req.count_only && req.limit == 0 ==> resp.kvs@.len() == there && !resp.more
                && resp.count == there
            &&& !req.count_only && req.limit > 0 ==> {
                &&& resp.kvs@.len() == (if there < req.limit {
                    there as int
                } else {
                    req.limit as int
                })
                &&& resp.more == (there > req.limit)
                &&& there <= req.limit ==> resp.count == there
                &&& there > req.limit ==> resp.count > req.limit
            }
        }),
{
    let resp = r->Ok_0;
    let h = s.history;
    let at = s.read_revision(req.revision as int);
    let keys = h.matching(req.key@, req.range_end@);
    let limit: int = if req.count_only {
        0
    } else if req.limit == 0 {
        usize::MAX as int
    } else {
        req.limit as int
    };
    law_count_up_to_limit(h, keys, at, limit);
    assert(kv_views(resp.kvs@).len() == resp.kvs@.len());
}

// -------------------------------------------------------------- compaction

/// A compaction works to a revision that was written and not compacted, and to no other.
/// What is there stays, and so does the last revision; one that fails changes nothing.
/// After it the revisions before are refused as compacted.
pub proof fn law_compaction_request(
    s: StoreView,
    req: CompactionRequest,
    r: Result<CompactionResponse, Status>,
    t: StoreView,
    start: Seq<u8>,
    at: int,
)
    requires
        compact_done(s, req, r, t),
        last(s) <= i64::MAX,
        0 < at,
    ensures
        r is Ok == (s.history.compacted < req.revision <= last(s)),
        r is Err ==> t == s,
        r matches Err(e) ==> {
            &&& e@.code == Code::Internal
            &&& req.revision < 1 || req.revision > last(s) ==> e@.message
                == "Compaction operation failed: "@ + status_debug_text(
                11,
                "etcdserver: mvcc: required revision has been compacted"@,
            )
            &&& 1 <= req.revision <= s.history.compacted ==> e@.message
                == "Compaction operation failed: "@ + status_debug_text(
                13,
                "etcdserver: mvcc: compact failed"@,
            )
        },
        r is Ok ==> {
            &&& r->Ok_0.header->0.revision == last(s)
            &&& last(t) == last(s)
            &&& t.history.latest == s.history.latest
            &&& t.history.compacted == req.revision - 1
            &&& at < req.revision ==> t.range_error(start, Seq::empty(), at) == Some(
                compacted_error(),
            )
            &&& req.revision <= at <= last(s) ==> t.range_error(start, Seq::empty(), at) is None
            &&& t.watchers == s.watchers
            &&& t.jobs == s.jobs
        },
{
}

/// What a transaction requires of the revision and of the version has to hold of both. What
/// is negative requires nothing. Where no key is there, both can only be zero.
pub proof fn law_both_requirements(kv: KeyValueView, revision: int, version: int, kind: i32)
    ensures
        compare_ok(Some(kv), revision, version, kind) == (compare_ok(Some(kv), revision, -1, kind)
            && compare_ok(Some(kv), -1, version, kind)),
        compare_ok(Some(kv), -1, -1, kind),
        revision < 0 ==> compare_ok(Some(kv), revision, -1, kind),
        version < 0 ==> compare_ok(Some(kv), -1, version, kind),
        compare_ok(None, revision, version, kind) == (revision <= 0 && version <= 0),
{
}

} // verus!
