//! Leases: keys that go when their time is over.

pub mod lease;
pub mod lessor;
