//! The time of a build, as the system clock shows it.

use vstd::prelude::*;

verus! {

/// A reading of the system clock.
#[verifier::external_type_specification]
#[verifier::external_body]
pub struct ExSystemTime(std::time::SystemTime);

/// A date with a time of day, without a zone.
#[verifier::external_type_specification]
#[verifier::external_body]
pub struct ExNaiveDateTime(chrono::NaiveDateTime);

/// Calls std's `SystemTime::now`. Nothing is claimed of the reading.
#[verifier::external_body]
fn system_now() -> std::time::SystemTime {
    std::time::SystemTime::now()
}

/// Calls std's `SystemTime::duration_since` with the start of 1970 and hands
/// back the whole seconds and the nanoseconds beside them; `None` where the
/// reading lies before 1970. Nothing is claimed of the numbers.
#[verifier::external_body]
fn since_epoch(now: &std::time::SystemTime) -> Option<(u64, u32)> {
    match now.duration_since(std::time::UNIX_EPOCH) {
        Ok(passed) => Some((passed.as_secs(), passed.subsec_nanos())),
        Err(_) => None,
    }
}

/// Calls chrono's `DateTime::from_timestamp` and hands back the date and time
/// in UTC; `None` where chrono cannot hold the moment. Nothing is claimed of
/// the date.
#[verifier::external_body]
fn utc_time(seconds: i64, nanoseconds: u32) -> Option<chrono::NaiveDateTime> {
    chrono::DateTime::from_timestamp(seconds, nanoseconds).map(|moment| moment.naive_utc())
}

/// Calls chrono's `NaiveDateTime::format` with `pattern` and writes the
/// outcome into a text; `None` where the pattern cannot be written out.
/// Nothing is claimed of the text.
#[verifier::external_body]
fn format_time(time: &chrono::NaiveDateTime, pattern: &str) -> Option<String> {
    let mut text = String::new();
    match time.format(pattern).write_to(&mut text) {
        Ok(()) => Some(text),
        Err(_) => None,
    }
}

/// The time that the clock shows, in UTC, written as year, month, day, `T`,
/// hours, minutes, seconds, milliseconds and `Z`; `None` where the clock
/// shows a time before 1970 or one that no date can hold.
pub(crate) fn current_build_time() -> Option<String> {
    let now = system_now();
    match since_epoch(&now) {
        Some((seconds, nanoseconds)) => {
            if seconds > 0x7fff_ffff_ffff_ffff {
                None
            } else {
                match utc_time(seconds as i64, nanoseconds) {
                    Some(time) => format_time(&time, "%Y-%m-%dT%H:%M:%S%.3fZ"),
                    None => None,
                }
            }
        },
        None => None,
    }
}

} // verus!
