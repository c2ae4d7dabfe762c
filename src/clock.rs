//! The wall clock, in whole seconds since the Unix epoch.

use vstd::prelude::*;

verus! {

#[verifier::external_type_specification]
#[verifier::external_body]
pub struct ExSystemTime(std::time::SystemTime);

/// Relies on `std::time::SystemTime::now`: the current time, about which
/// nothing is promised.
#[verifier::external_body]
fn system_now() -> std::time::SystemTime {
    std::time::SystemTime::now()
}

/// Relies on `std::time::SystemTime::duration_since` with the Unix epoch:
/// `None` when `t` lies before the epoch.
#[verifier::external_body]
fn since_epoch(t: &std::time::SystemTime) -> Option<std::time::Duration> {
    t.duration_since(std::time::UNIX_EPOCH).ok()
}

/// Relies on `Duration::as_secs`: the whole seconds of a duration.
pub assume_specification[ core::time::Duration::as_secs ](d: &core::time::Duration) -> u64;

/// Whole seconds since the epoch as an `i64`: 0 for a time before the epoch
/// (`None`), and `i64::MAX` for a count beyond it.
pub fn secs_since_epoch(secs: Option<u64>) -> (r: i64)
    ensures
        r == match secs {
            Some(x) => if x > i64::MAX as u64 {
                i64::MAX
            } else {
                x as i64
            },
            None => 0,
        },
{
    match secs {
        Some(x) => {
            if x > i64::MAX as u64 {
                i64::MAX
            } else {
                x as i64
            }
        },
        None => 0,
    }
}

/// Seconds since the Unix epoch now, as `secs_since_epoch` converts the
/// clock's reading.
pub fn now_secs() -> (r: i64)
    ensures
        r >= 0,
{
    let t = system_now();
    let secs = match since_epoch(&t) {
        Some(d) => Some(d.as_secs()),
        None => None,
    };
    secs_since_epoch(secs)
}

} // verus!
