//! The status that a failed request is answered with.

use crate::outside::{status_debug, status_debug_text};
use vstd::prelude::*;

verus! {

/// The gRPC status codes.
#[derive(Clone, Copy, Debug, PartialEq, Eq, Structural)]
pub enum Code {
    Cancelled,
    Unknown,
    InvalidArgument,
    DeadlineExceeded,
    NotFound,
    AlreadyExists,
    PermissionDenied,
    ResourceExhausted,
    FailedPrecondition,
    Aborted,
    OutOfRange,
    Unimplemented,
    Internal,
    Unavailable,
    DataLoss,
    Unauthenticated,
}

impl Code {
    /// The number of a code.
    pub open spec fn spec_number(self) -> i32 {
        match self {
            Code::Cancelled => 1,
            Code::Unknown => 2,
            Code::InvalidArgument => 3,
            Code::DeadlineExceeded => 4,
            Code::NotFound => 5,
            Code::AlreadyExists => 6,
            Code::PermissionDenied => 7,
            Code::ResourceExhausted => 8,
            Code::FailedPrecondition => 9,
            Code::Aborted => 10,
            Code::OutOfRange => 11,
            Code::Unimplemented => 12,
            Code::Internal => 13,
            Code::Unavailable => 14,
            Code::DataLoss => 15,
            Code::Unauthenticated => 16,
        }
    }

    /// The number of a code.
    pub fn number(self) -> (n: i32)
        ensures
            n == self.spec_number(),
    {
        match self {
            Code::Cancelled => 1,
            Code::Unknown => 2,
            Code::InvalidArgument => 3,
            Code::DeadlineExceeded => 4,
            Code::NotFound => 5,
            Code::AlreadyExists => 6,
            Code::PermissionDenied => 7,
            Code::ResourceExhausted => 8,
            Code::FailedPrecondition => 9,
            Code::Aborted => 10,
            Code::OutOfRange => 11,
            Code::Unimplemented => 12,
            Code::Internal => 13,
            Code::Unavailable => 14,
            Code::DataLoss => 15,
            Code::Unauthenticated => 16,
        }
    }
}

/// A status code with a message.
#[derive(Debug)]
pub struct Status {
    pub code: Code,
    pub message: String,
}

/// What a [`Status`] says.
#[verifier::ext_equal]
pub struct StatusView {
    pub code: Code,
    pub message: Seq<char>,
}

impl View for Status {
    type V = StatusView;

    open spec fn view(&self) -> StatusView {
        StatusView { code: self.code, message: self.message@ }
    }
}

impl Status {
    /// A status with a code and a message.
    pub fn new(code: Code, message: &str) -> (r: Status)
        ensures
            r@ == (StatusView { code, message: message@ }),
    {
        Status { code, message: message.to_owned() }
    }

    /// The code.
    pub fn code(&self) -> (r: Code)
        ensures
            r == self@.code,
    {
        self.code
    }

    /// The message.
    pub fn message(&self) -> (r: &str)
        ensures
            r@ == self@.message,
    {
        self.message.as_str()
    }

    /// A refused argument.
    pub fn invalid_argument(message: &str) -> (r: Status)
        ensures
            r@ == (StatusView { code: Code::InvalidArgument, message: message@ }),
    {
        Status::new(Code::InvalidArgument, message)
    }

    /// A condition that does not hold.
    pub fn failed_precondition(message: &str) -> (r: Status)
        ensures
            r@ == (StatusView { code: Code::FailedPrecondition, message: message@ }),
    {
        Status::new(Code::FailedPrecondition, message)
    }

    /// A failure of the server itself.
    pub fn internal(message: &str) -> (r: Status)
        ensures
            r@ == (StatusView { code: Code::Internal, message: message@ }),
    {
        Status::new(Code::Internal, message)
    }

    /// Something that is not there.
    pub fn not_found(message: &str) -> (r: Status)
        ensures
            r@ == (StatusView { code: Code::NotFound, message: message@ }),
    {
        Status::new(Code::NotFound, message)
    }

    /// Something that the server cannot do now.
    pub fn unavailable(message: &str) -> (r: Status)
        ensures
            r@ == (StatusView { code: Code::Unavailable, message: message@ }),
    {
        Status::new(Code::Unavailable, message)
    }

    /// Something that the server cannot do.
    pub fn unimplemented(message: &str) -> (r: Status)
        ensures
            r@ == (StatusView { code: Code::Unimplemented, message: message@ }),
    {
        Status::new(Code::Unimplemented, message)
    }

    /// A failure of the server itself, which another status has caused.
    pub fn caused(message: &str, cause: &Status) -> (r: Status)
        ensures
            r@ == cause@.causing(message@),
    {
        let mut text = message.to_owned();
        text.append(status_debug(cause.code.number(), cause.message.as_str()).as_str());
        Status { code: Code::Internal, message: text }
    }
}

impl StatusView {
    /// The failure that this status causes: it is quoted after a text.
    pub open spec fn causing(self, text: Seq<char>) -> StatusView {
        StatusView {
            code: Code::Internal,
            message: text + status_debug_text(self.code.spec_number(), self.message),
        }
    }
}

/// Different codes have different numbers, from one to sixteen.
pub proof fn law_codes_differ(a: Code, b: Code)
    ensures
        1 <= a.spec_number() <= 16,
        a.spec_number() == b.spec_number() ==> a == b,
{
}

/// A failure that a status causes is one of the server itself, and says first what failed.
pub proof fn law_caused_failures(cause: StatusView, text: Seq<char>)
    ensures
        cause.causing(text).code == Code::Internal,
        text.is_prefix_of(cause.causing(text).message),
{
    let m = cause.causing(text).message;
    assert(m.subrange(0, text.len() as int) =~= text);
}

} // verus!
