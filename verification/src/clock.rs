//! The time of the machine.

use crate::outside::{duration_nanos, time_now, time_since_epoch};
use vstd::prelude::*;

verus! {

/// The nanoseconds in a second.
pub const NANOS: u128 = 1_000_000_000;

/// A time that the machine can give: nanoseconds since the start of the Unix epoch.
pub open spec fn is_time(now: int) -> bool {
    0 <= now <= u64::MAX * 1_000_000_000 + 999_999_999
}

/// The nanoseconds since the start of the Unix epoch, or zero before it. Which time
/// it is, the machine decides.
pub fn now_nanos() -> (n: u128)
    ensures
        is_time(n as int),
{
    let t = time_now();
    nanos_since(
        match time_since_epoch(&t) {
            Ok(d) => Some(duration_nanos(&d)),
            Err(_) => None,
        },
    )
}

/// The nanoseconds of a time, given the span since the start of the Unix epoch. A
/// time before it has no span, and counts as the start.
pub fn nanos_since(span: Option<u128>) -> (n: u128)
    ensures
        n == (match span {
            Some(nanos) => nanos,
            None => 0,
        }),
{
    match span {
        Some(nanos) => nanos,
        None => 0,
    }
}

} // verus!
