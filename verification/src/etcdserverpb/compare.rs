//! What a transaction compares.

use vstd::prelude::*;

verus! {

/// How the state of a key is compared with what is required.
#[derive(Clone, Copy, Debug, PartialEq, Eq, Structural)]
pub enum CompareResult {
    Equal,
    Greater,
    Less,
    NotEqual,
}

/// What is required of a key.
#[derive(Debug)]
pub enum TargetUnion {
    Version(i64),
    CreateRevision(i64),
    ModRevision(i64),
    Value(Vec<u8>),
    Lease(i64),
}

} // verus!
