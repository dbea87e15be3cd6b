//! The lease requests. Leases are echoed: no key is attached to them.

use crate::auth::following;
use crate::etcdserverpb::{
    header_at, LeaseGrantRequest, LeaseGrantResponse, LeaseKeepAliveResponse, LeaseRevokeRequest,
    LeaseRevokeResponse, ResponseHeader,
};
use crate::rpc::status::{Code, Status, StatusView};
use vstd::prelude::*;
use vstd::string::*;

verus! {

/// The lease requests.
#[derive(Debug)]
pub struct LeaseService {
    lease_id: i64,
}

impl View for LeaseService {
    /// The next number of a lease.
    type V = int;

    closed spec fn view(&self) -> int {
        self.lease_id as int
    }
}

/// The status for a request that is not implemented.
pub open spec fn not_implemented(message: Seq<char>) -> StatusView {
    StatusView { code: Code::Unimplemented, message }
}

/// The number of a lease: the one that was asked for, or the next one for zero.
pub open spec fn echoed_number(next: int, asked: i64) -> int {
    if asked == 0 {
        next
    } else {
        asked as int
    }
}

/// The next number after a lease.
pub open spec fn next_number(next: int, asked: i64) -> int {
    if asked == 0 {
        following(next)
    } else {
        next
    }
}

impl LeaseService {
    /// The lease requests; the first number is zero.
    pub fn new() -> (r: LeaseService)
        ensures
            r@ == 0,
    {
        LeaseService { lease_id: 0 }
    }

    /// Grants a lease with the number that the client asks for, or the next one.
    pub fn lease_grant(&mut self, req: LeaseGrantRequest) -> (r: LeaseGrantResponse)
        ensures
            r.header == Some(header_at(1)),
            r.id == echoed_number(old(self)@, req.id),
            r.ttl == req.ttl,
            r.error@ == ""@,
            final(self)@ == next_number(old(self)@, req.id),
    {
        let id = if req.id == 0 {
            let id = self.lease_id;
            self.lease_id = id.wrapping_add(1);
            id
        } else {
            req.id
        };
        LeaseGrantResponse {
            header: Some(ResponseHeader::at(1)),
            id,
            ttl: req.ttl,
            error: "".to_owned(),
        }
    }

    /// Ends a lease.
    pub fn lease_revoke(&self, _req: LeaseRevokeRequest) -> (r: LeaseRevokeResponse)
        ensures
            r.header == Some(header_at(2)),
    {
        LeaseRevokeResponse { header: Some(ResponseHeader::at(2)) }
    }

    /// The time of a lease is not told.
    pub fn lease_time_to_live(&self) -> (r: Status)
        ensures
            r@ == not_implemented("lease_time_to_live not implemented"@),
    {
        Status::unimplemented("lease_time_to_live not implemented")
    }

    /// The leases are not listed.
    pub fn lease_leases(&self) -> (r: Status)
        ensures
            r@ == not_implemented("lease_leases not implemented"@),
    {
        Status::unimplemented("lease_leases not implemented")
    }

    /// The one response of a stream that keeps leases alive.
    pub fn lease_keep_alive(&self) -> (r: LeaseKeepAliveResponse)
        ensures
            r.header == Some(header_at(1)),
            r.id == 0,
            r.ttl == 0,
    {
        LeaseKeepAliveResponse { header: Some(ResponseHeader::at(1)), id: 0, ttl: 0 }
    }
}

/// A lease has the number that was asked for. Leases for which none was asked for get
/// numbers in a row, whatever other leases come between them.
pub proof fn law_numbers_in_a_row(next: int, asked: i64, other: i64)
    requires
        0 <= next < i64::MAX,
        other != 0,
    ensures
        asked != 0 ==> echoed_number(next, asked) == asked,
        echoed_number(next, 0) == next,
        echoed_number(next_number(next, 0), 0) == next + 1,
        echoed_number(next_number(next_number(next, 0), other), 0) == next + 1,
        next_number(next, other) == next,
{
}

} // verus!
