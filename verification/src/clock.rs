//! The engine's clock.
//!
//! The only part of the engine that the machine decides: what time it is.
//! Everything else is a function of the model and the plan.
use vstd::prelude::*;
use crate::num::TS_LIMIT;

verus! {

/// Relies on chrono::Utc::now and chrono::DateTime::timestamp: the current
/// time as whole seconds since the Unix epoch. `Utc::now` reads the system
/// clock and fails (it panics rather than returning) when that clock stands
/// before the Unix epoch or beyond the years chrono can represent; every
/// time it does return lies on or after the epoch, so the seconds are never
/// negative. Nothing more is promised: the clock may move arbitrarily
/// between calls.
#[verifier::external_body]
fn now_unix_secs() -> (r: i64)
    ensures
        r >= 0,
{
    chrono::Utc::now().timestamp()
}

/// The current time as an engine timestamp: a reading past the
/// representable range clamps to its last second. On a system clock set
/// before the Unix epoch the underlying library fails instead of returning
/// a time, as the wrapper above records, so no clamp exists for that side.
pub fn now_ts() -> (r: u64)
    ensures
        r < TS_LIMIT,
{
    let s = now_unix_secs();
    let u = s as u64;
    if u >= TS_LIMIT {
        TS_LIMIT - 1
    } else {
        u
    }
}

} // verus!
