//! Millisecond timestamps from a monotonic clock.

use vstd::prelude::*;

verus! {

/// Milliseconds from `then` to `now`, zero where `now` is earlier, as
/// `Instant::elapsed` saturates.
pub open spec fn elapsed(now: u64, then: u64) -> nat {
    if now >= then {
        (now - then) as nat
    } else {
        0
    }
}

/// Executable `elapsed`.
pub fn elapsed_ms(now: u64, then: u64) -> (r: u64)
    ensures
        r == elapsed(now, then),
{
    if now >= then {
        now - then
    } else {
        0
    }
}

} // verus!
