//! The engine's reading of the outside world's clock, and the rendering
//! of an instant as a local calendar date. Every other function takes
//! instants and durations as plain milliseconds, so that the bookkeeping
//! around them is checked for every possible reading.

use vstd::prelude::*;

verus! {

/// Relies on std::time::SystemTime::now: the current instant, read as whole
/// milliseconds since the Unix epoch (zero if the system clock is set
/// before the epoch). Nothing can be promised of a clock reading.
#[verifier::external_body]
pub(crate) fn now_millis() -> (t: u64) {
    match std::time::SystemTime::now().duration_since(std::time::UNIX_EPOCH) {
        Ok(d) => {
            let ms = d.as_millis();
            if ms > u64::MAX as u128 {
                u64::MAX
            } else {
                ms as u64
            }
        },
        Err(_) => 0,
    }
}

/// Relies on chrono's checked timestamp conversion
/// (`DateTime::from_timestamp`, which cannot panic) and its local-time
/// formatting: the calendar date of the given instant, in whole seconds
/// since the Unix epoch, rendered as "year-month-day" in the machine's
/// time zone. An instant outside chrono's calendar range falls back to
/// the epoch date rather than failing. The result depends on the
/// machine's time zone, so nothing can be promised of it.
#[verifier::external_body]
pub(crate) fn local_date_of(unix_seconds: u64) -> (r: String) {
    let secs = if unix_seconds > i64::MAX as u64 {
        i64::MAX
    } else {
        unix_seconds as i64
    };
    match chrono::DateTime::<chrono::Utc>::from_timestamp(secs, 0) {
        Some(t) => t.with_timezone(&chrono::Local).format("%Y-%m-%d").to_string(),
        None => String::from("1970-01-01"),
    }
}

} // verus!
