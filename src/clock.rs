use vstd::prelude::*;
use crate::quote::TimeOfDay;

verus! {

/// Hours by which the exchange's clock runs ahead of UTC.
pub const EXCHANGE_UTC_OFFSET_HOURS: i64 = 9;

/// The time of day, in milliseconds, `secs` seconds and `nanos` nanoseconds
/// after the Unix epoch, on a clock `hours` ahead of UTC.
pub open spec fn shifted_millis(secs: int, nanos: int, hours: int) -> int {
    ((secs + hours * 3600) % 86400) * 1000 + nanos / 1_000_000
}

/// Relies on chrono's `DateTime::from_timestamp` and `DateTime::time` for the
/// UTC time of day of a Unix timestamp, on `NaiveTime + TimeDelta::hours`,
/// which wraps around midnight, and on `NaiveTime::signed_duration_since`
/// with `TimeDelta::num_milliseconds` to read the result back. Timestamps up
/// to 10^12 seconds lie well inside chrono's range of dates.
#[verifier::external_body]
fn shifted_clock_millis(secs: i64, nanos: u32, hours: i64) -> (r: Option<i64>)
    requires
        nanos < 1_000_000_000,
        0 <= hours < 24,
    ensures
        0 <= secs <= 1_000_000_000_000 ==> r is Some,
        r matches Some(v) ==> v == shifted_millis(secs as int, nanos as int, hours as int),
{
    match chrono::DateTime::from_timestamp(secs, nanos) {
        Some(utc) => Some(
            (utc.time() + chrono::TimeDelta::hours(hours)).signed_duration_since(
                chrono::NaiveTime::MIN,
            ).num_milliseconds(),
        ),
        None => None,
    }
}

/// The capture time `tv_sec` seconds and `tv_usec` microseconds after the
/// Unix epoch, as a time of day on the exchange's clock. A microsecond count
/// outside one second is refused, as is a date out of chrono's range.
pub fn extract_time(tv_sec: i64, tv_usec: i64) -> (r: Option<TimeOfDay>)
    ensures
        !(0 <= tv_usec < 1_000_000) ==> r is None,
        0 <= tv_usec < 1_000_000 && 0 <= tv_sec <= 1_000_000_000_000 ==> r is Some,
        r matches Some(t) ==> t.millis == ((tv_sec + EXCHANGE_UTC_OFFSET_HOURS * 3600) % 86400)
            * 1000 + tv_usec / 1000,
{
    if tv_usec < 0 || tv_usec >= 1_000_000 {
        return None;
    }
    let nanos = (tv_usec as u32) * 1000;
    match shifted_clock_millis(tv_sec, nanos, EXCHANGE_UTC_OFFSET_HOURS) {
        Some(v) => {
            proof {
                let u = tv_usec as int;
                assert((u * 1000) / 1_000_000 == u / 1000) by (nonlinear_arith)
                    requires 0 <= u;
                let s = (tv_sec + EXCHANGE_UTC_OFFSET_HOURS * 3600) % 86400;
                assert(0 <= s < 86400);
                assert(u / 1000 < 1000);
            }
            Some(TimeOfDay { millis: v as u32 })
        },
        None => None,
    }
}

} // verus!
