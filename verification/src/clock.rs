//! Reading the clock.

use crate::model::Timestamp;
use vstd::prelude::*;

verus! {

/// `chrono::Utc::now`, as whole seconds since the Unix epoch and nanoseconds
/// within the second. Nothing is said of which moment it is. A system clock
/// that stands before the epoch makes the call panic.
#[verifier::external_body]
fn clock_reading() -> (r: (i64, u32))
    ensures
        0 <= r.0,
        r.1 < 1_000_000_000,
{
    let t = chrono::Utc::now();
    (t.timestamp(), t.timestamp_subsec_nanos())
}

/// The current time.
pub fn now() -> (r: Timestamp)
    ensures
        0 <= r,
{
    let (secs, nanos) = clock_reading();
    (secs as i128) * 1_000_000_000 + (nanos as i128)
}

/// `n` readings of the clock, one after the other.
pub fn readings(n: usize) -> (r: Vec<Timestamp>)
    ensures
        r@.len() == n,
        forall|i: int| 0 <= i < n ==> 0 <= #[trigger] r@[i],
{
    let mut out: Vec<Timestamp> = Vec::new();
    while out.len() < n
        invariant
            out@.len() <= n,
            forall|i: int| 0 <= i < out@.len() ==> 0 <= #[trigger] out@[i],
        decreases n - out@.len(),
    {
        out.push(now());
    }
    out
}

} // verus!
