//! The one place the engine reads the clock.

use vstd::prelude::*;

verus! {

/// Relies on `std::time::SystemTime`: the current time as milliseconds since
/// the epoch, negative when the system clock sits before it and capped at the
/// representable range, so the call never panics. Nothing can be promised of
/// the clock's value.
#[verifier::external_body]
pub fn now_millis() -> i64 {
    match std::time::SystemTime::now().duration_since(std::time::UNIX_EPOCH) {
        Ok(d) => {
            if d.as_millis() > i64::MAX as u128 { i64::MAX } else { d.as_millis() as i64 }
        },
        Err(e) => {
            let ms = e.duration().as_millis();
            if ms > i64::MAX as u128 { i64::MIN } else { -(ms as i64) }
        },
    }
}

/// The later of two timestamps; keeps `updated_at` monotone even when the
/// clock steps backwards.
pub fn later_of(a: i64, b: i64) -> (r: i64)
    ensures
        r == if a >= b {
            a
        } else {
            b
        },
        r >= a && r >= b,
{
    if a >= b {
        a
    } else {
        b
    }
}

} // verus!
