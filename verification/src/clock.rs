use vstd::prelude::*;
use std::time::{Duration, SystemTime, UNIX_EPOCH};

verus! {

/// The wall clock's reading, as std keeps it.
#[verifier::external_type_specification]
#[verifier::external_body]
pub struct ExSystemTime(SystemTime);

/// Calls `std::time::SystemTime::now`. The reading depends on the moment of the call,
/// so nothing is stated of it.
#[verifier::external_body]
pub(crate) fn now() -> SystemTime {
    SystemTime::now()
}

/// Calls `std::time::SystemTime::duration_since` with `UNIX_EPOCH`: the time from the epoch to
/// `t`, `None` where std reports an error (`t` is earlier than the epoch). A `SystemTime` is
/// opaque to Verus, so the relation between `t` and the result is left unstated.
#[verifier::external_body]
pub(crate) fn since_epoch(t: &SystemTime) -> Option<Duration> {
    t.duration_since(UNIX_EPOCH).ok()
}

/// Calls `std::time::Duration::as_nanos`: the whole nanoseconds in `d`. A `Duration` is opaque
/// to Verus, so the relation between `d` and the number is left unstated.
#[verifier::external_body]
pub(crate) fn as_nanos(d: &Duration) -> u128 {
    d.as_nanos()
}

/// The wall clock's reading, in nanoseconds since the epoch; `None` where the clock reads
/// earlier than the epoch. It depends on the moment of the call, so nothing is stated of it.
pub(crate) fn now_nanos() -> Option<u128> {
    let t = now();
    match since_epoch(&t) {
        Some(d) => Some(as_nanos(&d)),
        None => None,
    }
}

/// The whole milliseconds from the reading `earlier` to the reading `later` (both in
/// nanoseconds since the epoch); `None` where either is missing or `later` is earlier.
pub open spec fn elapsed_ms(earlier: Option<u128>, later: Option<u128>) -> Option<u128> {
    match (earlier, later) {
        (Some(e), Some(l)) => if e <= l {
            Some(((l - e) / 1_000_000) as u128)
        } else {
            None
        },
        _ => None,
    }
}

/// Computes `elapsed_ms`.
pub fn elapsed_ms_between(earlier: Option<u128>, later: Option<u128>) -> (r: Option<u128>)
    ensures
        r == elapsed_ms(earlier, later),
{
    match (earlier, later) {
        (Some(e), Some(l)) => {
            if e <= l {
                Some((l - e) / 1_000_000)
            } else {
                None
            }
        },
        _ => None,
    }
}

} // verus!
