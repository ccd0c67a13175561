use vstd::prelude::*;

use std::time::SystemTime;

verus! {

/// A reading of the system clock (std's `SystemTime`), carried through as it
/// is.
#[verifier::external_type_specification]
#[verifier::external_body]
pub struct ExSystemTime(std::time::SystemTime);

/// std's `SystemTime::now`: the system clock's reading. Nothing is stated of
/// it: two calls may differ.
#[verifier::external_body]
fn now_system() -> (r: SystemTime) {
    SystemTime::now()
}

/// std's `SystemTime::duration_since(UNIX_EPOCH)`: `Ok` with the whole
/// seconds and the nanoseconds (below one billion, as `Duration` keeps them)
/// from 1970-01-01 00:00 UTC to `t`, or `Err` with those from `t` to then
/// when `t` is earlier. Which arm comes back, and the numbers, are not stated.
#[verifier::external_body]
fn since_epoch(t: &SystemTime) -> (r: Result<(u64, u32), (u64, u32)>)
    ensures
        r matches Ok(d) ==> d.1 < 1_000_000_000,
        r matches Err(d) ==> d.1 < 1_000_000_000,
{
    match t.duration_since(std::time::UNIX_EPOCH) {
        Ok(d) => Ok((d.as_secs(), d.subsec_nanos())),
        Err(e) => Err((e.duration().as_secs(), e.duration().subsec_nanos())),
    }
}

/// The seconds and nanoseconds of a clock reading before or after 1970, as
/// a time: whole seconds since 1970-01-01 00:00 UTC, rounded down, and the
/// nanoseconds into that second.
pub open spec fn unix_time_spec(r: Result<(u64, u32), (u64, u32)>) -> (int, int) {
    match r {
        Ok(d) => (d.0 as int, d.1 as int),
        Err(d) => if d.1 == 0 { (-(d.0 as int), 0) } else { (-(d.0 as int) - 1, 1_000_000_000 - d.1) },
    }
}

/// The clock now, as whole seconds since 1970-01-01 00:00 UTC (rounded down,
/// negative before 1970) and nanoseconds into that second. Which moment it
/// reads is not stated: two calls may differ. It does not fail, whatever the
/// clock reads.
pub fn unix_time() -> (r: (i128, u32))
    ensures
        exists|d: Result<(u64, u32), (u64, u32)>|
            (#[trigger] unix_time_spec(d)) == (r.0 as int, r.1 as int),
        -0x1_0000_0000_0000_0000 <= r.0 <= 0xFFFF_FFFF_FFFF_FFFF,
        r.1 < 1_000_000_000,
{
    let t = now_system();
    let d = since_epoch(&t);
    let r: (i128, u32) = match d {
        Ok((s, n)) => (s as i128, n),
        Err((s, n)) => {
            if n == 0 {
                (0 - (s as i128), 0)
            } else {
                (0 - (s as i128) - 1, 1_000_000_000 - n)
            }
        },
    };
    assert(unix_time_spec(d) == (r.0 as int, r.1 as int));
    r
}

/// chrono's `DateTime::from_timestamp(secs, nanos)` shown in the machine's
/// time zone (`with_timezone(&Local)`) as `YYYY-MM-DDTHH:MM:SS`; `None` where
/// chrono has no date for that time. What the text is, and on which times
/// it is `None`, is not stated: it depends on the machine's time zone.
#[verifier::external_body]
fn local_time_text(secs: i64, nanos: u32) -> (r: Option<String>) {
    match chrono::DateTime::from_timestamp(secs, nanos) {
        Some(t) => Some(t.with_timezone(&chrono::Local).format("%Y-%m-%dT%H:%M:%S").to_string()),
        None => None,
    }
}

/// The local date and time now, as `YYYY-MM-DDTHH:MM:SS`; empty when the
/// clock reads a time that has no date. Never fails.
pub fn local_now_text() -> (r: String) {
    let (s, n) = unix_time();
    if s < i64::MIN as i128 || s > i64::MAX as i128 {
        return String::new();
    }
    match local_time_text(s as i64, n) {
        Some(t) => t,
        None => String::new(),
    }
}

} // verus!
