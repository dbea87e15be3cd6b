//! The decisions of the key-value requests.

use crate::etcdserverpb::compare::TargetUnion;
use crate::etcdserverpb::request_op::Request;
use crate::etcdserverpb::response_op::Response;
use crate::etcdserverpb::{
    header_at, CompactionRequest, CompactionResponse, DeleteRangeRequest, DeleteRangeResponse,
    PutRequest, PutResponse, RangeRequest, RangeResponse, RequestOp, ResponseHeader, ResponseOp,
    TxnRequest, TxnResponse,
};
use crate::history::{kv_of, requirement, History};
use crate::keyspace::selected;
use crate::mvccpb::{copy_bytes, kv_views, opt_kv, KeyValue, KeyValueView};
use crate::order::bytes_equal;
use crate::outside::{bytes_clone, bytes_contents, bytes_from_vec};
use crate::raft::{ProposalView, RaftMetrics, RaftRequest};
use crate::rpc::status::{Code, Status, StatusView};
use crate::sorted_map::{enumerates, lemma_in_order};
use crate::store::{
    compact_failed_error, compacted_error, last_revision_of, version_of, SetRequired, Store,
    StoreView,
};
use crate::text::{decimal, with_decimal};
use bytes::Bytes;
use vstd::prelude::*;
use vstd::string::*;

verus! {

/// What a request comes to: it is done, or a write is to be replicated first.
#[derive(Debug)]
pub enum Outcome<R, P> {
    Done(R),
    Propose(RaftRequest, P),
}

/// What is left of a put when its write has been replicated.
#[derive(Debug)]
pub struct PendingPut {
    pub prev_kv: Option<KeyValue>,
}

/// What is left of a deletion when it has been replicated.
#[derive(Debug)]
pub struct PendingDelete {
    pub deleted: i64,
    pub prev_kvs: Vec<KeyValue>,
}

/// What is left of a transaction when its write has been replicated.
#[derive(Debug)]
pub struct PendingTxn {
    pub success_is_delete: bool,
}

/// The key-value requests, with replication or without it.
#[derive(Debug)]
pub struct KvService {
    raft: Option<RaftMetrics>,
}

impl View for KvService {
    type V = Option<RaftMetrics>;

    closed spec fn view(&self) -> Option<RaftMetrics> {
        self.raft
    }
}

/// Why a node does not take writes, if it does not: it is not the leader.
pub open spec fn leader_error(raft: Option<RaftMetrics>) -> Option<StatusView> {
    match raft {
        None => None,
        Some(m) => match m.current_leader {
            None => Some(
                StatusView { code: Code::Unavailable, message: "no leader elected"@ },
            ),
            Some(leader) => if leader == m.id {
                None
            } else {
                Some(
                    StatusView {
                        code: Code::FailedPrecondition,
                        message: "not leader, current leader is node "@ + decimal(leader as nat),
                    },
                )
            },
        },
    }
}

/// The status for a refused argument.
pub open spec fn refused(message: Seq<char>) -> StatusView {
    StatusView { code: Code::InvalidArgument, message }
}

/// The limit of a range request: none for zero, and nothing for a mere count.
pub open spec fn limit_of(req: RangeRequest) -> Option<usize> {
    if req.count_only {
        Some(0)
    } else if req.limit == 0 {
        None
    } else {
        Some(req.limit as usize)
    }
}

/// The limit as a number.
pub open spec fn limit_number(limit: Option<usize>) -> int {
    match limit {
        Some(n) => n as int,
        None => usize::MAX as int,
    }
}

/// A comparison of a transaction: equal, unless it is the number of another one.
pub open spec fn compare_holds(kind: i32, existing: int, target: int) -> bool {
    if kind == 1 {
        existing > target
    } else if kind == 2 {
        existing < target
    } else if kind == 3 {
        existing != target
    } else {
        existing == target
    }
}

/// What is there meets what a transaction requires.
pub open spec fn compare_ok(
    current: Option<KeyValueView>,
    last_revision: int,
    version: int,
    kind: i32,
) -> bool {
    match current {
        Some(kv) => {
            &&& last_revision < 0 || compare_holds(kind, kv.mod_revision, last_revision)
            &&& version < 0 || compare_holds(kind, kv.version, version)
        },
        None => last_revision <= 0 && version <= 0,
    }
}

/// Why the failure branch of a transaction is refused, if it is.
pub open spec fn failure_refusal(req: TxnRequest) -> Option<Seq<char>> {
    if req.failure@.len() == 0 {
        None
    } else {
        match req.failure@[0].request {
            None => None,
            Some(Request::RequestRange(r)) => if r.key@ != req.compare@[0].key@ {
                Some("compare key must match failure key"@)
            } else if r.range_end@.len() > 0 {
                Some("range end not supported in failure"@)
            } else {
                None
            },
            Some(_) => Some("only range supported in failure"@),
        }
    }
}

/// Why the form of a transaction is refused, if it is.
pub open spec fn form_refusal(req: TxnRequest) -> Option<Seq<char>> {
    if req.compare@.len() != 1 {
        Some("only one compare supported"@)
    } else {
        match req.compare@[0].target_union {
            None => Some("compare target_union is required"@),
            Some(t) => if !(t is ModRevision || t is Version) {
                Some("only MOD or VERSION target supported"@)
            } else if req.success@.len() != 1 {
                Some("only one success supported"@)
            } else if req.failure@.len() > 1 {
                Some("only one failure supported"@)
            } else {
                failure_refusal(req)
            },
        }
    }
}

/// Why the success branch of a transaction is refused, if it is.
pub open spec fn success_refusal(req: TxnRequest) -> Option<Seq<char>> {
    let key = req.compare@[0].key@;
    match req.success@[0].request {
        Some(Request::RequestPut(put)) => if put.key@.len() == 0 {
            Some("key required in success put"@)
        } else if put.key@ != key {
            Some("compare key must match put key"@)
        } else {
            None
        },
        Some(Request::RequestDeleteRange(d)) => if d.key@.len() == 0 {
            Some("key required in success deleteRange"@)
        } else if d.range_end@.len() > 0 {
            Some("range end not supported in deleteRange"@)
        } else if d.key@ != key {
            Some("compare key must match deleteRange key"@)
        } else {
            None
        },
        _ => Some("only put and deleteRange supported in success"@),
    }
}

/// Why a transaction is refused, if it is.
pub open spec fn txn_refusal(req: TxnRequest) -> Option<Seq<char>> {
    match form_refusal(req) {
        Some(m) => Some(m),
        None => success_refusal(req),
    }
}

/// What a transaction writes.
pub open spec fn txn_write(req: TxnRequest) -> ProposalView {
    ProposalView {
        key: req.compare@[0].key@,
        value: match req.success@[0].request {
            Some(Request::RequestPut(put)) => Some(put.value@),
            _ => None,
        },
    }
}

/// The last revision that a transaction requires, negative for none.
pub open spec fn txn_last_revision(req: TxnRequest) -> int {
    match req.compare@[0].target_union {
        Some(TargetUnion::ModRevision(n)) => n as int,
        _ => -1,
    }
}

/// The version that a transaction requires, negative for none.
pub open spec fn txn_version(req: TxnRequest) -> int {
    match req.compare@[0].target_union {
        Some(TargetUnion::Version(n)) => n as int,
        _ => -1,
    }
}

/// The response to a transaction whose condition did not hold: what is there, if
/// the request has a failure branch.
pub open spec fn is_failure(
    resp: TxnResponse,
    rev: int,
    kv: Option<KeyValueView>,
    branch: bool,
) -> bool {
    &&& resp.header == Some(header_at(rev))
    &&& !resp.succeeded
    &&& if branch {
        &&& resp.responses@.len() == 1
        &&& resp.responses@[0].response matches Some(Response::ResponseRange(r))
        &&& r.header == Some(header_at(rev))
        &&& r.count == 1
        &&& !r.more
        &&& kv_views(r.kvs@) == (match kv {
            Some(kv) => seq![kv],
            None => Seq::empty(),
        })
    } else {
        resp.responses@.len() == 0
    }
}

/// The response to a transaction that wrote.
pub open spec fn is_success(resp: TxnResponse, rev: int, deletes: bool) -> bool {
    &&& resp.header == Some(header_at(rev))
    &&& resp.succeeded
    &&& resp.responses@.len() == 1
    &&& if deletes {
        &&& resp.responses@[0].response matches Some(Response::ResponseDeleteRange(d))
        &&& d.header == Some(header_at(rev))
        &&& d.prev_kvs@.len() == 0
        &&& d.deleted == 1
    } else {
        &&& resp.responses@[0].response matches Some(Response::ResponsePut(p))
        &&& p.header == Some(header_at(rev))
        &&& p.prev_kv is None
    }
}

/// What is there under one key is what a range of that key holds.
pub proof fn lemma_single(s: StoreView, key: Seq<u8>, limit: int)
    requires
        s.history.valid(),
        limit >= 1,
    ensures
        s.answers(key, Seq::empty(), 0),
        s.range_error(key, Seq::empty(), 0) is None,
        ({
            let r = s.range(key, Seq::empty(), 0, limit);
            &&& r.latest_rev == s.history.current()
            &&& r.kvs == (match s.history.conflict(key) {
                Some(kv) => seq![kv],
                None => Seq::empty(),
            })
        }),
{
    let h = s.history;
    let none = Seq::<u8>::empty();
    let set = Set::new(|k: Seq<u8>| h.latest.contains_key(k) && selected(k, key, none));
    let keys = if h.latest.contains_key(key) {
        seq![key]
    } else {
        Seq::empty()
    };
    assert forall|k: Seq<u8>| keys.contains(k) <==> #[trigger] set.contains(k) by {
        if h.latest.contains_key(key) {
            assert(keys[0] == key);
        }
    }
    assert(enumerates::<Vec<u8>>(keys, set));
    lemma_in_order::<Vec<u8>>(keys, set);
    assert(h.matching(key, none) == keys);
    reveal(Seq::filter);
    let live = h.live_keys(keys, h.current());
    if h.latest.contains_key(key) {
        assert(keys.drop_last() =~= Seq::empty());
        assert(h.live_keys(keys.drop_last(), h.current()) =~= Seq::empty());
        assert(h.live_at(key, h.current()) == h.live(key));
        if h.live(key) {
            assert(live =~= seq![key]);
            assert(live.take(1) =~= seq![key]);
            assert(h.pairs(seq![key], h.current()) =~= seq![kv_of(key, h.latest[key])]);
        } else {
            assert(live =~= Seq::empty());
            assert(h.pairs(live.take(0), h.current()) =~= Seq::empty());
        }
    } else {
        assert(live =~= Seq::empty());
        assert(h.pairs(live.take(0), h.current()) =~= Seq::empty());
    }
}

/// What is there under a key, with the last revision.
pub fn current_pair(store: &Store, key: &Vec<u8>, limit: Option<usize>) -> (r: (
    Option<KeyValue>,
    i64,
))
    requires
        store.wf(),
        limit_number(limit) >= 1,
    ensures
        opt_kv(r.0) == store@.history.conflict(key@),
        r.1 == store@.history.current(),
{
    let end: Vec<u8> = Vec::new();
    proof {
        store.lemma_wf();
        lemma_single(store@, key@, limit_number(limit));
        assert(end@ =~= Seq::empty());
    }
    match store.range(copy_bytes(key), end, 0, limit) {
        Ok(result) => {
            let latest_rev = result.latest_rev;
            let mut kvs = result.kvs;
            let ghost views = kv_views(kvs@);
            assert(views.len() == kvs@.len());
            match kvs.pop() {
                Some(kv) => {
                    assert(views[0] == kv@);
                    (Some(kv), latest_rev)
                },
                None => (None, latest_rev),
            }
        },
        Err(_) => {
            assert(false);
            (None, 0)
        },
    }
}

/// How a range request is answered.
pub open spec fn range_done(
    s: StoreView,
    req: RangeRequest,
    r: Result<RangeResponse, Status>,
) -> bool {
    let error = s.range_error(req.key@, req.range_end@, req.revision as int);
    let limit = limit_of(req);
    let result = s.range(
        req.key@,
        req.range_end@,
        req.revision as int,
        limit_number(limit),
    );
    &&& r is Err == error is Some
    &&& r matches Err(e) ==> error == Some(e@)
    &&& r matches Ok(resp) ==> {
        &&& resp.header == Some(header_at(result.latest_rev))
        &&& kv_views(resp.kvs@) == result.kvs
        &&& resp.count == result.count
        &&& resp.more == (!req.count_only && limit is Some && result.count
            > limit->0 as i64)
    }
}

/// How a put is answered, or proposed.
pub open spec fn put_done(
    raft: Option<RaftMetrics>,
    s: StoreView,
    req: PutRequest,
    r: Result<Outcome<PutResponse, PendingPut>, Status>,
    t: StoreView,
) -> bool {
    let h = s.history;
    let here = h.conflict(req.key@);
    let missing = req.ignore_value && here is None;
    let value = if req.ignore_value {
        here->0.value
    } else {
        req.value@
    };
    let prev = if req.prev_kv {
        here
    } else {
        None
    };
    &&& r is Err == (missing || leader_error(raft) is Some)
    &&& r matches Err(e) ==> {
        &&& e@ == (if missing {
            refused("ignore_value set but key does not exist"@)
        } else {
            leader_error(raft)->0
        })
        &&& t == s
    }
    &&& r matches Ok(Outcome::Propose(w, p)) ==> {
        &&& raft is Some
        &&& w@ == (ProposalView { key: req.key@, value: Some(value) })
        &&& opt_kv(p.prev_kv) == prev
        &&& t == s
    }
    &&& r matches Ok(Outcome::Done(resp)) ==> {
        &&& raft is None
        &&& resp.header == Some(header_at(h.current() + 1))
        &&& opt_kv(resp.prev_kv) == prev
        &&& t == s.after_write(req.key@, Some(value))
    }
}

/// How a deletion is answered, or proposed.
pub open spec fn delete_done(
    raft: Option<RaftMetrics>,
    s: StoreView,
    req: DeleteRangeRequest,
    r: Result<Outcome<DeleteRangeResponse, PendingDelete>, Status>,
    t: StoreView,
) -> bool {
    let h = s.history;
    let here = h.conflict(req.key@);
    let ranged = req.range_end@.len() > 0;
    let prev = if req.prev_kv && here is Some {
        seq![here->0]
    } else {
        Seq::empty()
    };
    let deleted: int = if here is Some {
        1
    } else {
        0
    };
    &&& r is Err == (ranged || leader_error(raft) is Some)
    &&& r matches Err(e) ==> {
        &&& e@ == (if ranged {
            refused("range end not supported in deleteRange"@)
        } else {
            leader_error(raft)->0
        })
        &&& t == s
    }
    &&& r matches Ok(Outcome::Propose(w, p)) ==> {
        &&& raft is Some
        &&& w@ == (ProposalView { key: req.key@, value: None })
        &&& p.deleted == deleted
        &&& kv_views(p.prev_kvs@) == prev
        &&& t == s
    }
    &&& r matches Ok(Outcome::Done(resp)) ==> {
        &&& raft is None
        &&& resp.header == Some(header_at(h.current() + deleted))
        &&& resp.deleted == deleted
        &&& kv_views(resp.prev_kvs@) == prev
        &&& t == (if here is Some {
            s.after_write(req.key@, None)
        } else {
            s
        })
    }
}

/// How a transaction is answered, or proposed.
pub open spec fn txn_done(
    raft: Option<RaftMetrics>,
    s: StoreView,
    req: TxnRequest,
    r: Result<Outcome<TxnResponse, PendingTxn>, Status>,
    t: StoreView,
) -> bool {
    let h = s.history;
    let bad = txn_refusal(req);
    let w = txn_write(req);
    let branch = req.failure@.len() > 0;
    let holds = if raft is Some {
        compare_ok(
            h.conflict(w.key),
            txn_last_revision(req),
            txn_version(req),
            req.compare@[0].result,
        )
    } else {
        h.accepts(w.key, w.value, txn_last_revision(req), txn_version(req))
    };
    &&& r is Err == (bad is Some || leader_error(raft) is Some)
    &&& r matches Err(e) ==> {
        &&& e@ == (if bad is Some {
            refused(bad->0)
        } else {
            leader_error(raft)->0
        })
        &&& t == s
    }
    &&& r matches Ok(Outcome::Propose(p, pending)) ==> {
        &&& raft is Some
        &&& holds
        &&& p@ == w
        &&& pending.success_is_delete == (w.value is None)
        &&& t == s
    }
    &&& r matches Ok(Outcome::Done(resp)) ==> if holds {
        &&& raft is None
        &&& is_success(resp, h.current() + 1, w.value is None)
        &&& t == s.after_write(w.key, w.value)
    } else {
        &&& is_failure(resp, h.current(), h.conflict(w.key), branch)
        &&& t == s
    }
}

/// How a compaction is answered.
pub open spec fn compact_done(
    s: StoreView,
    req: CompactionRequest,
    r: Result<CompactionResponse, Status>,
    t: StoreView,
) -> bool {
    let h = s.history;
    let rev = req.revision as int;
    &&& r is Ok == (h.compacted < rev <= h.current())
    &&& r matches Ok(resp) ==> {
        &&& resp.header == Some(header_at(h.current()))
        &&& t == (StoreView {
            history: h.after_compaction(rev),
            ..s
        })
    }
    &&& r matches Err(e) ==> {
        &&& e@ == (if rev < 1 || rev > h.current() {
            compacted_error()
        } else {
            compact_failed_error()
        }).causing("Compaction operation failed: "@)
        &&& t == s
    }
}

impl KvService {
    /// Without replication: writes go to the store.
    pub fn new() -> (r: KvService)
        ensures
            r@ is None,
    {
        KvService { raft: None }
    }

    /// With replication: writes are proposed by the leader.
    pub fn with_raft(metrics: RaftMetrics) -> (r: KvService)
        ensures
            r@ == Some(metrics),
    {
        KvService { raft: Some(metrics) }
    }

    /// Refuses where this node is not the leader.
    pub fn ensure_leader(&self) -> (r: Result<(), Status>)
        ensures
            r is Err == leader_error(self@) is Some,
            r matches Err(e) ==> leader_error(self@) == Some(e@),
    {
        match &self.raft {
            Some(metrics) => match metrics.current_leader {
                Some(leader) => if leader == metrics.id {
                    Ok(())
                } else {
                    Err(
                        Status {
                            code: Code::FailedPrecondition,
                            message: with_decimal("not leader, current leader is node ", leader),
                        },
                    )
                },
                None => Err(Status::unavailable("no leader elected")),
            },
            None => Ok(()),
        }
    }

    /// Whether what is there meets what a transaction requires.
    pub fn check_compare(
        current_kv: &Option<KeyValue>,
        required: &Option<SetRequired>,
        compare_result: i32,
    ) -> (r: bool)
        ensures
            r == compare_ok(
                opt_kv(*current_kv),
                last_revision_of(*required),
                version_of(*required),
                compare_result,
            ),
    {
        let (last_revision, version): (i64, i64) = match required {
            Some(r) => (
                match r.required_last_revision {
                    Some(n) => n,
                    None => -1,
                },
                match r.required_version {
                    Some(n) => n,
                    None => -1,
                },
            ),
            None => (-1, -1),
        };
        match current_kv {
            Some(kv) => {
                if last_revision >= 0 && !Self::satisfied(
                    compare_result,
                    kv.mod_revision,
                    last_revision,
                ) {
                    return false;
                }
                if version >= 0 && !Self::satisfied(compare_result, kv.version, version) {
                    return false;
                }
                true
            },
            None => last_revision <= 0 && version <= 0,
        }
    }

    fn satisfied(kind: i32, existing: i64, target: i64) -> (r: bool)
        ensures
            r == compare_holds(kind, existing as int, target as int),
    {
        match kind {
            1 => existing > target,
            2 => existing < target,
            3 => existing != target,
            _ => existing == target,
        }
    }

    /// Answers a range request.
    pub fn range(&self, store: &Store, req: RangeRequest) -> (r: Result<RangeResponse, Status>)
        requires
            store.wf(),
            store@.answers(req.key@, req.range_end@, req.revision as int),
        ensures
            range_done(store@, req, r),
    {
        let count_only = req.count_only;
        let limit: Option<usize> = if count_only {
            Some(0)
        } else if req.limit == 0 {
            None
        } else {
            Some(req.limit as usize)
        };
        match store.range(req.key, req.range_end, req.revision, limit) {
            Err(e) => Err(e),
            Ok(result) => {
                let more = match limit {
                    Some(n) => !count_only && result.count > n as i64,
                    None => false,
                };
                Ok(
                    RangeResponse {
                        header: Some(ResponseHeader::at(result.latest_rev)),
                        kvs: result.kvs,
                        more,
                        count: result.count,
                    },
                )
            },
        }
    }

    /// Answers a put, or proposes its write.
    pub fn put(&self, store: &mut Store, req: PutRequest) -> (r: Result<
        Outcome<PutResponse, PendingPut>,
        Status,
    >)
        requires
            old(store).wf(),
            old(store)@.has_room(),
        ensures
            final(store).wf(),
            put_done(self@, old(store)@, req, r, final(store)@),
    {
        let prev_kv = if req.prev_kv || req.ignore_value {
            let (kv, _) = current_pair(store, &req.key, Some(1));
            kv
        } else {
            None
        };
        let value: Bytes = if req.ignore_value {
            match &prev_kv {
                Some(kv) => bytes_clone(&kv.value),
                None => {
                    return Err(
                        Status::invalid_argument("ignore_value set but key does not exist"),
                    );
                },
            }
        } else {
            bytes_from_vec(req.value)
        };
        let told = if req.prev_kv {
            prev_kv
        } else {
            None
        };
        if self.raft.is_some() {
            match self.ensure_leader() {
                Ok(()) => {},
                Err(e) => {
                    return Err(e);
                },
            }
            return Ok(
                Outcome::Propose(
                    RaftRequest::Put { key: req.key, value },
                    PendingPut { prev_kv: told },
                ),
            );
        }
        match store.set(req.key, Some(value), None) {
            Ok(rev) => Ok(Outcome::Done(Self::put_response(PendingPut { prev_kv: told }, rev))),
            Err(_) => {
                assert(false);
                Err(Status::internal("Put operation failed"))
            },
        }
    }

    /// The response to a put whose write took place at a revision.
    pub fn put_response(pending: PendingPut, rev: i64) -> (r: PutResponse)
        ensures
            r.header == Some(header_at(rev as int)),
            r.prev_kv == pending.prev_kv,
    {
        PutResponse { header: Some(ResponseHeader::at(rev)), prev_kv: pending.prev_kv }
    }

    /// Answers a deletion, or proposes it. The response to the deletion of a key
    /// that is not there names the last revision.
    pub fn delete_range(&self, store: &mut Store, req: DeleteRangeRequest) -> (r: Result<
        Outcome<DeleteRangeResponse, PendingDelete>,
        Status,
    >)
        requires
            old(store).wf(),
            old(store)@.has_room(),
        ensures
            final(store).wf(),
            delete_done(self@, old(store)@, req, r, final(store)@),
    {
        if req.range_end.len() > 0 {
            return Err(Status::invalid_argument("range end not supported in deleteRange"));
        }
        let (existing, _) = current_pair(store, &req.key, Some(1));
        let deleted: i64 = if existing.is_some() {
            1
        } else {
            0
        };
        let mut prev_kvs: Vec<KeyValue> = Vec::new();
        let ghost here = opt_kv(existing);
        if req.prev_kv {
            if let Some(kv) = existing {
                prev_kvs.push(kv);
                assert(kv_views(prev_kvs@) =~= seq![here->0]);
            } else {
                assert(kv_views(prev_kvs@) =~= Seq::empty());
            }
        } else {
            assert(kv_views(prev_kvs@) =~= Seq::empty());
        }
        if self.raft.is_some() {
            match self.ensure_leader() {
                Ok(()) => {},
                Err(e) => {
                    return Err(e);
                },
            }
            return Ok(
                Outcome::Propose(
                    RaftRequest::Delete { key: req.key },
                    PendingDelete { deleted, prev_kvs },
                ),
            );
        }
        let rev = match store.delete(req.key, None) {
            Ok(rev) => rev,
            Err((rev, _)) => rev,
        };
        Ok(Outcome::Done(Self::delete_response(PendingDelete { deleted, prev_kvs }, rev)))
    }

    /// The response to a deletion that took place at a revision.
    pub fn delete_response(pending: PendingDelete, rev: i64) -> (r: DeleteRangeResponse)
        ensures
            r.header == Some(header_at(rev as int)),
            r.deleted == pending.deleted,
            r.prev_kvs == pending.prev_kvs,
    {
        DeleteRangeResponse {
            header: Some(ResponseHeader::at(rev)),
            deleted: pending.deleted,
            prev_kvs: pending.prev_kvs,
        }
    }

    /// Whether a transaction can be answered: a request that has the right form is not
    /// without the operation for success.
    pub fn can_txn(req: &TxnRequest) -> (r: bool)
        ensures
            r == (form_refusal(*req) is None ==> req.success@[0].request is Some),
    {
        match Self::check_form(req) {
            Ok(()) => req.success[0].request.is_some(),
            Err(_) => true,
        }
    }

    /// Refuses a transaction whose form is not supported.
    fn check_form(req: &TxnRequest) -> (r: Result<(), Status>)
        ensures
            r is Err == form_refusal(*req) is Some,
            r matches Err(e) ==> e@ == refused(form_refusal(*req)->0),
    {
        if req.compare.len() != 1 {
            return Err(Status::invalid_argument("only one compare supported"));
        }
        match &req.compare[0].target_union {
            None => {
                return Err(Status::invalid_argument("compare target_union is required"));
            },
            Some(TargetUnion::ModRevision(_)) => {},
            Some(TargetUnion::Version(_)) => {},
            Some(_) => {
                return Err(Status::invalid_argument("only MOD or VERSION target supported"));
            },
        }
        if req.success.len() != 1 {
            return Err(Status::invalid_argument("only one success supported"));
        }
        if req.failure.len() > 1 {
            return Err(Status::invalid_argument("only one failure supported"));
        }
        if req.failure.len() > 0 {
            match &req.failure[0].request {
                None => {},
                Some(Request::RequestRange(range_req)) => {
                    if !bytes_equal(range_req.key.as_slice(), req.compare[0].key.as_slice()) {
                        return Err(
                            Status::invalid_argument("compare key must match failure key"),
                        );
                    }
                    if range_req.range_end.len() > 0 {
                        return Err(
                            Status::invalid_argument("range end not supported in failure"),
                        );
                    }
                },
                Some(_) => {
                    return Err(Status::invalid_argument("only range supported in failure"));
                },
            }
        }
        Ok(())
    }

    /// What the success branch of a transaction writes under the compared key.
    fn check_success(op: Request, key: &Vec<u8>, req: Ghost<TxnRequest>) -> (r: Result<
        Option<Bytes>,
        Status,
    >)
        requires
            req@.compare@.len() == 1,
            req@.success@.len() == 1,
            req@.success@[0].request == Some(op),
            key@ == req@.compare@[0].key@,
        ensures
            r is Err == success_refusal(req@) is Some,
            r matches Err(e) ==> e@ == refused(success_refusal(req@)->0),
            r matches Ok(v) ==> crate::store::opt_bytes(v) == txn_write(req@).value && (v is None
                == (op is RequestDeleteRange)),
    {
        match op {
            Request::RequestPut(put) => {
                if put.key.len() == 0 {
                    return Err(Status::invalid_argument("key required in success put"));
                }
                if !bytes_equal(put.key.as_slice(), key.as_slice()) {
                    return Err(Status::invalid_argument("compare key must match put key"));
                }
                Ok(Some(bytes_from_vec(put.value)))
            },
            Request::RequestDeleteRange(delete_range) => {
                if delete_range.key.len() == 0 {
                    return Err(Status::invalid_argument("key required in success deleteRange"));
                }
                if delete_range.range_end.len() > 0 {
                    return Err(
                        Status::invalid_argument("range end not supported in deleteRange"),
                    );
                }
                if !bytes_equal(delete_range.key.as_slice(), key.as_slice()) {
                    return Err(
                        Status::invalid_argument("compare key must match deleteRange key"),
                    );
                }
                Ok(None)
            },
            _ => Err(
                Status::invalid_argument("only put and deleteRange supported in success"),
            ),
        }
    }

    /// Answers a transaction, or proposes its write. A transaction has one
    /// condition, on the last revision or the version of a key, a put or a deletion
    /// of that key where it holds, and at most a range of that key where it does
    /// not. With replication the condition is compared as the request says, before the
    /// write is proposed. Without it the store decides: what is there has to equal what
    /// is required, and the deletion of a key that is not there fails as well.
    pub fn txn(&self, store: &mut Store, req: TxnRequest) -> (r: Result<
        Outcome<TxnResponse, PendingTxn>,
        Status,
    >)
        requires
            old(store).wf(),
            old(store)@.has_room(),
            form_refusal(req) is None ==> req.success@[0].request is Some,
        ensures
            final(store).wf(),
            txn_done(self@, old(store)@, req, r, final(store)@),
    {
        let ghost whole = req;
        match Self::check_form(&req) {
            Ok(()) => {},
            Err(e) => {
                return Err(e);
            },
        }
        let key = copy_bytes(&req.compare[0].key);
        let compare_result = req.compare[0].result;
        let required = match &req.compare[0].target_union {
            Some(TargetUnion::ModRevision(mod_revision)) => SetRequired {
                required_last_revision: Some(*mod_revision),
                required_version: None,
            },
            Some(TargetUnion::Version(version)) => SetRequired {
                required_last_revision: None,
                required_version: Some(*version),
            },
            _ => {
                assert(false);
                SetRequired { required_last_revision: None, required_version: None }
            },
        };
        let required = Some(required);
        proof {
            assert(last_revision_of(required) < 0 && txn_last_revision(req) < 0 || last_revision_of(
                required,
            ) == txn_last_revision(req));
        }
        let branch = req.failure.len() > 0;
        let mut success = req.success;
        let op = match success.pop() {
            Some(RequestOp { request: Some(op) }) => op,
            _ => {
                assert(false);
                return Err(Status::invalid_argument("success must be a single request"));
            },
        };
        let value = match Self::check_success(op, &key, Ghost(whole)) {
            Ok(v) => v,
            Err(e) => {
                return Err(e);
            },
        };
        let success_is_delete = value.is_none();
        let result = if self.raft.is_some() {
            match self.ensure_leader() {
                Ok(()) => {},
                Err(e) => {
                    return Err(e);
                },
            }
            let (current_kv, latest_rev) = current_pair(store, &key, Some(1));
            if Self::check_compare(&current_kv, &required, compare_result) {
                let write = match value {
                    Some(value) => RaftRequest::Put { key, value },
                    None => RaftRequest::Delete { key },
                };
                return Ok(Outcome::Propose(write, PendingTxn { success_is_delete }));
            }
            Err((latest_rev, current_kv))
        } else {
            store.set(key, value, required)
        };
        match result {
            Err((rev, kv)) => Ok(Outcome::Done(Self::txn_failed(rev, kv, branch))),
            Ok(rev) => Ok(
                Outcome::Done(Self::txn_response(PendingTxn { success_is_delete }, rev)),
            ),
        }
    }

    /// The response to a transaction whose condition did not hold.
    fn txn_failed(rev: i64, kv: Option<KeyValue>, branch: bool) -> (r: TxnResponse)
        ensures
            is_failure(r, rev as int, opt_kv(kv), branch),
    {
        let ghost here = opt_kv(kv);
        let mut responses: Vec<ResponseOp> = Vec::new();
        if branch {
            let mut kvs: Vec<KeyValue> = Vec::new();
            if let Some(kv) = kv {
                kvs.push(kv);
                assert(kv_views(kvs@) =~= seq![here->0]);
            } else {
                assert(kv_views(kvs@) =~= Seq::empty());
            }
            responses.push(
                ResponseOp {
                    response: Some(
                        Response::ResponseRange(
                            RangeResponse {
                                header: Some(ResponseHeader::at(rev)),
                                kvs,
                                more: false,
                                count: 1,
                            },
                        ),
                    ),
                },
            );
        }
        TxnResponse { header: Some(ResponseHeader::at(rev)), succeeded: false, responses }
    }

    /// The response to a transaction whose write took place at a revision.
    pub fn txn_response(pending: PendingTxn, rev: i64) -> (r: TxnResponse)
        ensures
            is_success(r, rev as int, pending.success_is_delete),
    {
        let header = Some(ResponseHeader::at(rev));
        let response = if pending.success_is_delete {
            Response::ResponseDeleteRange(
                DeleteRangeResponse { header, deleted: 1, prev_kvs: Vec::new() },
            )
        } else {
            Response::ResponsePut(PutResponse { header, prev_kv: None })
        };
        let mut responses: Vec<ResponseOp> = Vec::new();
        responses.push(ResponseOp { response: Some(response) });
        TxnResponse { header, succeeded: true, responses }
    }

    /// Answers a compaction.
    pub fn compact(&self, store: &mut Store, req: CompactionRequest) -> (r: Result<
        CompactionResponse,
        Status,
    >)
        requires
            old(store).wf(),
        ensures
            final(store).wf(),
            compact_done(old(store)@, req, r, final(store)@),
    {
        match store.compact(req.revision) {
            Ok(()) => Ok(
                CompactionResponse {
                    header: Some(ResponseHeader::at(store.current_revision())),
                },
            ),
            Err(e) => Err(Status::caused("Compaction operation failed: ", &e)),
        }
    }
}

/// A transaction that compares for equality has the same condition with and without
/// replication, but for the deletion of a key that is not there: what is checked before
/// the write is proposed is what the store requires.
pub proof fn law_compare_agrees_with_store(
    h: History,
    key: Seq<u8>,
    value: Option<Seq<u8>>,
    last_revision: int,
    version: int,
)
    ensures
        (compare_ok(h.conflict(key), last_revision, version, 0) && (value is Some || h.live(key)))
            == h.accepts(key, value, last_revision, version),
{
}

} // verus!
