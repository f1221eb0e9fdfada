//! Core of a terminal tracker for security-challenge ("box") progress.
//!
//! The library holds the entity model (boxes, actions, notes, environment
//! variables), the session state machine that drives list selection and the
//! edit forms, the persistent-store codec with its round-trip guarantee, the
//! shell-log merge, and the write-up renderer. Terminal drawing and file or
//! process I/O live outside, in the surrounding application.

use vstd::prelude::*;

pub mod ext;
pub mod ip;
pub mod model;
pub mod num;
pub mod session;
pub mod shell_log;
pub mod store;
pub mod text;
pub mod writeup;

verus! {

/// Largest timestamp (milliseconds since the Unix epoch) the model accepts:
/// the last millisecond of year 9999. Keeping timestamps in a fixed range
/// lets the calendar formatting used by write-ups stay total.
pub const MAX_TS_MS: i64 = 253402300799999;

/// A timestamp the model accepts: non-negative and within calendar range.
pub open spec fn ts_in_range(ts: i64) -> bool {
    0 <= ts <= MAX_TS_MS
}

/// Clamp an arbitrary millisecond timestamp into the accepted range.
pub fn clamp_ts(ts: i64) -> (r: i64)
    ensures
        ts_in_range(r),
        ts_in_range(ts) ==> r == ts,
{
    if ts < 0 {
        0
    } else if ts > MAX_TS_MS {
        MAX_TS_MS
    } else {
        ts
    }
}

} // verus!
