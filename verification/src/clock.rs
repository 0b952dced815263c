//! Reading the system clock.
use vstd::prelude::*;

verus! {

/// The system clock's time type.
#[verifier::external_type_specification]
#[verifier::external_body]
pub struct ExSystemTime(std::time::SystemTime);

/// The error of a clock reading taken before the reference point.
#[verifier::external_type_specification]
#[verifier::external_body]
pub struct ExSystemTimeError(std::time::SystemTimeError);

/// `std::time::SystemTime::now`: the system clock's current reading. It
/// depends on the time of the call; nothing is claimed of it.
#[verifier::external_body]
fn clock_now() -> (t: std::time::SystemTime) {
    std::time::SystemTime::now()
}

/// `SystemTime::duration_since(UNIX_EPOCH)`: how long after the unix epoch
/// the reading was taken, or an error when it lies before the epoch. It
/// depends on the reading; nothing is claimed of it.
#[verifier::external_body]
fn since_epoch(t: &std::time::SystemTime) -> (r: Result<
    std::time::Duration,
    std::time::SystemTimeError,
>) {
    t.duration_since(std::time::UNIX_EPOCH)
}

/// `Duration::as_secs`: the whole seconds of a span of time read off the
/// clock; no clause states them.
#[verifier::external_body]
fn whole_secs(d: &std::time::Duration) -> (s: u64) {
    d.as_secs()
}

/// `Duration::subsec_nanos`: the fractional part of a span of time in
/// nanoseconds, which its documentation says is always below one billion.
#[verifier::external_body]
fn subsec_nanos(d: &std::time::Duration) -> (n: u32)
    ensures
        n < 1_000_000_000,
{
    d.subsec_nanos()
}

/// The latest clock reading, in seconds after the epoch, that the library
/// works with: a day short of the end of `i64`, so that a time-zone offset
/// can always be added.
pub const MAX_CLOCK_SECS: i64 = 9_223_372_036_854_689_407;

/// The current time as seconds and nanoseconds after the unix epoch. A
/// clock set before the epoch reads as the epoch itself; a reading past
/// [`MAX_CLOCK_SECS`] reads as that bound. Which time is read depends on
/// the call; nothing else is claimed of it.
pub fn unix_now() -> (r: (i64, u32))
    ensures
        0 <= r.0 <= MAX_CLOCK_SECS,
        r.1 < 1_000_000_000,
{
    let reading = clock_now();
    match since_epoch(&reading) {
        Ok(d) => {
            let s = whole_secs(&d);
            let secs: i64 = if s > MAX_CLOCK_SECS as u64 {
                MAX_CLOCK_SECS
            } else {
                s as i64
            };
            (secs, subsec_nanos(&d))
        },
        Err(_) => (0, 0),
    }
}

} // verus!
