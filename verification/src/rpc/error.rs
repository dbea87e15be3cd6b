//! The statuses of the errors that a server answers with.

use crate::lease::lease::LeaseError;
use crate::membership::MembershipError;
use crate::rpc::status::{Code, Status, StatusView};
use crate::text::{
    contains_text, decimal, decimal_int, digit_char, joined, stands_at, stands_in, with_decimal,
    with_integer,
};
use vstd::prelude::*;
use vstd::string::*;

verus! {

/// The status of an error that is given in words.
pub fn to_grpc_error(err: &str) -> (r: Status)
    ensures
        r@ == (StatusView { code: Code::Internal, message: "etcdserver: "@ + err@ }),
{
    Status::internal(joined("etcdserver: ", err).as_str())
}

/// The status for a revision that has been compacted.
pub open spec fn compacted_status(rev: int) -> StatusView {
    StatusView {
        code: Code::OutOfRange,
        message: "etcdserver: mvcc: required revision "@ + decimal_int(rev)
            + " has been compacted"@,
    }
}

/// A revision has been compacted.
pub fn err_compacted(rev: i64) -> (r: Status)
    ensures
        r@ == compacted_status(rev as int),
{
    let text = with_integer("etcdserver: mvcc: required revision ", rev);
    Status::new(Code::OutOfRange, joined(text.as_str(), " has been compacted").as_str())
}

/// The status for a revision to come.
pub open spec fn future_status(rev: int) -> StatusView {
    StatusView {
        code: Code::OutOfRange,
        message: "etcdserver: mvcc: required revision "@ + decimal_int(rev)
            + " is a future revision"@,
    }
}

/// A revision is still to come.
pub fn err_future_rev(rev: i64) -> (r: Status)
    ensures
        r@ == future_status(rev as int),
{
    let text = with_integer("etcdserver: mvcc: required revision ", rev);
    Status::new(Code::OutOfRange, joined(text.as_str(), " is a future revision").as_str())
}

/// The status while there is no leader.
pub open spec fn no_leader_status() -> StatusView {
    StatusView { code: Code::Unavailable, message: "etcdserver: no leader"@ }
}

/// No leader is elected.
pub fn err_no_leader() -> (r: Status)
    ensures
        r@ == no_leader_status(),
{
    Status::new(Code::Unavailable, "etcdserver: no leader")
}

/// The status of a node that does not lead.
pub open spec fn not_leader_status(leader: nat) -> StatusView {
    StatusView {
        code: Code::FailedPrecondition,
        message: "etcdserver: not leader, current leader is node "@ + decimal(leader),
    }
}

/// This node does not lead; the given one does.
pub fn err_not_leader(leader: u64) -> (r: Status)
    ensures
        r@ == not_leader_status(leader as nat),
{
    Status::new(
        Code::FailedPrecondition,
        with_decimal("etcdserver: not leader, current leader is node ", leader).as_str(),
    )
}

/// A request is too large.
pub fn err_request_too_large() -> (r: Status)
    ensures
        r@ == (StatusView {
            code: Code::ResourceExhausted,
            message: "etcdserver: request is too large"@,
        }),
{
    Status::new(Code::ResourceExhausted, "etcdserver: request is too large")
}

/// The storage is full.
pub fn err_no_space() -> (r: Status)
    ensures
        r@ == (StatusView { code: Code::ResourceExhausted, message: "etcdserver: no space"@ }),
{
    Status::new(Code::ResourceExhausted, "etcdserver: no space")
}

/// There is no such lease.
pub fn err_lease_not_found(id: i64) -> (r: Status)
    ensures
        r@ == (StatusView {
            code: Code::NotFound,
            message: "etcdserver: lease not found: "@ + decimal_int(id as int),
        }),
{
    Status::new(Code::NotFound, with_integer("etcdserver: lease not found: ", id).as_str())
}

/// There is such a lease already.
pub fn err_lease_exists(id: i64) -> (r: Status)
    ensures
        r@ == (StatusView {
            code: Code::AlreadyExists,
            message: "etcdserver: lease already exists: "@ + decimal_int(id as int),
        }),
{
    Status::new(Code::AlreadyExists, with_integer("etcdserver: lease already exists: ", id).as_str())
}

/// The time of a lease is too long.
pub fn err_lease_ttl_too_large() -> (r: Status)
    ensures
        r@ == (StatusView {
            code: Code::InvalidArgument,
            message: "etcdserver: lease TTL too large"@,
        }),
{
    Status::new(Code::InvalidArgument, "etcdserver: lease TTL too large")
}

/// There is no such key.
pub fn err_key_not_found() -> (r: Status)
    ensures
        r@ == (StatusView { code: Code::NotFound, message: "etcdserver: key not found"@ }),
{
    Status::new(Code::NotFound, "etcdserver: key not found")
}

/// The code of a refused change of the members.
pub open spec fn membership_code(err: MembershipError) -> Code {
    match err {
        MembershipError::IdRemoved => Code::NotFound,
        MembershipError::IdNotFound => Code::NotFound,
        MembershipError::IdExists => Code::AlreadyExists,
        MembershipError::PeerUrlExists => Code::AlreadyExists,
        MembershipError::MemberNotLearner => Code::FailedPrecondition,
        MembershipError::TooManyLearners => Code::ResourceExhausted,
        MembershipError::NotEnoughStartedMembers => Code::FailedPrecondition,
    }
}

/// The status of a refused change of the members.
pub fn map_membership_error(err: &MembershipError) -> (r: Status)
    ensures
        r@ == (StatusView {
            code: membership_code(*err),
            message: "etcdserver: membership: "@ + err.spec_text(),
        }),
{
    let code = match err {
        MembershipError::IdRemoved => Code::NotFound,
        MembershipError::IdNotFound => Code::NotFound,
        MembershipError::IdExists => Code::AlreadyExists,
        MembershipError::PeerUrlExists => Code::AlreadyExists,
        MembershipError::MemberNotLearner => Code::FailedPrecondition,
        MembershipError::TooManyLearners => Code::ResourceExhausted,
        MembershipError::NotEnoughStartedMembers => Code::FailedPrecondition,
    };
    Status::new(code, joined("etcdserver: membership: ", err.text()).as_str())
}

/// The status of a refused request on a lease.
pub fn map_lease_error(err: &LeaseError) -> (r: Status)
    ensures
        r@ == (match *err {
            LeaseError::NotFound(id) => StatusView {
                code: Code::NotFound,
                message: "etcdserver: lease not found: "@ + decimal_int(id as int),
            },
            LeaseError::Exists(id) => StatusView {
                code: Code::AlreadyExists,
                message: "etcdserver: lease already exists: "@ + decimal_int(id as int),
            },
            LeaseError::TTLTooLarge => StatusView {
                code: Code::InvalidArgument,
                message: "etcdserver: lease TTL too large"@,
            },
        }),
{
    match err {
        LeaseError::NotFound(id) => err_lease_not_found(*id),
        LeaseError::Exists(id) => err_lease_exists(*id),
        LeaseError::TTLTooLarge => err_lease_ttl_too_large(),
    }
}

impl StatusView {
    /// The status has a code, and its message holds a text.
    pub open spec fn tells(self, code: Code, text: Seq<char>) -> bool {
        self.code == code && stands_in(self.message, text)
    }
}

/// Whether a status says that this node does not lead.
pub fn is_not_leader(status: &Status) -> (r: bool)
    ensures
        r == status@.tells(Code::FailedPrecondition, "not leader"@),
{
    status.code() == Code::FailedPrecondition && contains_text(status.message(), "not leader")
}

/// Whether a status says that there is no leader.
pub fn is_no_leader(status: &Status) -> (r: bool)
    ensures
        r == status@.tells(Code::Unavailable, "no leader"@),
{
    status.code() == Code::Unavailable && contains_text(status.message(), "no leader")
}

/// Whether a status says that a revision has been compacted.
pub fn is_compacted(status: &Status) -> (r: bool)
    ensures
        r == status@.tells(Code::OutOfRange, "compacted"@),
{
    status.code() == Code::OutOfRange && contains_text(status.message(), "compacted")
}

/// Whether a status says that a revision is still to come.
pub fn is_future_rev(status: &Status) -> (r: bool)
    ensures
        r == status@.tells(Code::OutOfRange, "future revision"@),
{
    status.code() == Code::OutOfRange && contains_text(status.message(), "future revision")
}

// ------------------------------------------------------------------- laws

proof fn lemma_digits(n: nat)
    ensures
        forall|i: int| 0 <= i < decimal(n).len() ==> '0' <= #[trigger] decimal(n)[i] <= '9',
    decreases n,
{
    if n >= 10 {
        lemma_digits(n / 10);
        let rest = decimal(n / 10);
        let last = digit_char((n % 10) as int);
        assert('0' <= last <= '9');
        assert forall|i: int| 0 <= i < decimal(n).len() implies '0' <= #[trigger] decimal(n)[i]
            <= '9' by {
            assert(decimal(n) == rest.push(last));
            if i < rest.len() {
                assert(decimal(n)[i] == rest[i]);
            }
        }
    } else {
        assert('0' <= digit_char(n as int) <= '9');
    }
}

/// The statuses for compacted revisions and revisions to come are told apart.
pub proof fn law_revision_errors(rev: int)
    ensures
        compacted_status(rev).tells(Code::OutOfRange, "compacted"@),
        !compacted_status(rev).tells(Code::OutOfRange, "future revision"@),
        future_status(rev).tells(Code::OutOfRange, "future revision"@),
        !future_status(rev).tells(Code::OutOfRange, "compacted"@),
{
    reveal_strlit("etcdserver: mvcc: required revision ");
    reveal_strlit(" has been compacted");
    reveal_strlit(" is a future revision");
    reveal_strlit("compacted");
    reveal_strlit("future revision");
    let head = "etcdserver: mvcc: required revision "@;
    let d = decimal_int(rev);
    if rev < 0 {
        lemma_digits((-rev) as nat);
    } else {
        lemma_digits(rev as nat);
    }
    assert(forall|i: int| 0 <= i < d.len() ==> #[trigger] d[i] != 'f' && d[i] != 'p');
    let c = compacted_status(rev).message;
    let f = future_status(rev).message;
    let at: int = (head.len() + d.len()) as int;
    assert(stands_at(c, "compacted"@, at + 10)) by {
        assert(c.subrange(at + 10, at + 19) =~= "compacted"@);
    }
    assert(stands_at(f, "future revision"@, at + 6)) by {
        assert(f.subrange(at + 6, at + 21) =~= "future revision"@);
    }
    assert forall|i: int| 0 <= i < c.len() implies #[trigger] c[i] != 'f' by {
        if i < head.len() {
            assert(c[i] == head[i]);
        } else if i < at {
            assert(c[i] == d[i - head.len()]);
        } else {
            assert(c[i] == " has been compacted"@[i - at]);
        }
    }
    assert forall|i: int| 0 <= i < f.len() implies #[trigger] f[i] != 'p' by {
        if i < head.len() {
            assert(f[i] == head[i]);
        } else if i < at {
            assert(f[i] == d[i - head.len()]);
        } else {
            assert(f[i] == " is a future revision"@[i - at]);
        }
    }
    if stands_in(c, "future revision"@) {
        let i = choose|i: int| #[trigger] stands_at(c, "future revision"@, i);
        assert(c.subrange(i, i + 15)[0] == 'f');
    }
    if stands_in(f, "compacted"@) {
        let i = choose|i: int| #[trigger] stands_at(f, "compacted"@, i);
        assert(f.subrange(i, i + 9)[3] == 'p');
    }
}

/// The statuses without a leader and of a node that does not lead are told apart.
pub proof fn law_leader_errors(leader: nat)
    ensures
        not_leader_status(leader).tells(Code::FailedPrecondition, "not leader"@),
        !not_leader_status(leader).tells(Code::Unavailable, "no leader"@),
        no_leader_status().tells(Code::Unavailable, "no leader"@),
        !no_leader_status().tells(Code::FailedPrecondition, "not leader"@),
{
    reveal_strlit("etcdserver: not leader, current leader is node ");
    reveal_strlit("etcdserver: no leader");
    reveal_strlit("not leader");
    reveal_strlit("no leader");
    let a = not_leader_status(leader).message;
    let b = no_leader_status().message;
    assert(stands_at(a, "not leader"@, 12)) by {
        assert(a.subrange(12, 22) =~= "not leader"@);
    }
    assert(stands_at(b, "no leader"@, 12)) by {
        assert(b.subrange(12, 21) =~= "no leader"@);
    }
}

/// A change of the members is refused as not found where its member is not there, and as
/// already there where its member or its addresses are.
pub proof fn law_codes_of_refused_changes(e: MembershipError)
    ensures
        membership_code(e) == Code::NotFound <==> (e is IdRemoved || e is IdNotFound),
        membership_code(e) == Code::AlreadyExists <==> (e is IdExists || e is PeerUrlExists),
        membership_code(e) == Code::FailedPrecondition <==> (e is MemberNotLearner
            || e is NotEnoughStartedMembers),
        membership_code(e) == Code::ResourceExhausted <==> e is TooManyLearners,
{
}

} // verus!
