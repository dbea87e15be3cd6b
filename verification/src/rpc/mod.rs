//! Errors as they are answered to clients.

pub mod error;
pub mod status;
