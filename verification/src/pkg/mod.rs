//! Small tools that the server is built with.

pub mod fileutil;
pub mod id;
pub mod netutil;
pub mod pbutil;
pub mod schedule;
pub mod wait;
