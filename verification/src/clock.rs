//! Time: how long something took, and when it happened.
use vstd::prelude::*;

verus! {

/// `std::time::Instant`, a point on the monotonic clock.
#[verifier::external_type_specification]
#[verifier::external_body]
pub struct ExInstant(std::time::Instant);

/// `std::time::Instant::now` reads the clock; nothing is claimed of it.
pub assume_specification[ std::time::Instant::now ]() -> std::time::Instant;

/// `std::time::Instant::elapsed` reads the clock; nothing is claimed of it.
pub assume_specification[ std::time::Instant::elapsed ](
    instant: &std::time::Instant,
) -> std::time::Duration;

/// `std::time::Duration::as_secs`: the whole seconds of a span of which
/// nothing else is known.
pub assume_specification[ std::time::Duration::as_secs ](duration: &std::time::Duration) -> u64;

/// `std::time::Duration::subsec_nanos`: the rest in nanoseconds, less than a
/// second.
pub assume_specification[ std::time::Duration::subsec_nanos ](
    duration: &std::time::Duration,
) -> (r: u32)
    ensures
        r < 1_000_000_000,
;

/// A span of time in whole seconds and the nanoseconds beyond them.
#[derive(Clone, Copy, Debug, PartialEq, Eq, Structural)]
pub struct Elapsed {
    pub secs: u64,
    pub nanos: u32,
}

/// Whether `elapsed` is a span that the clock can give as the time since
/// `start`, split into whole seconds and the rest.
pub open spec fn measured(start: &std::time::Instant, elapsed: Elapsed) -> bool {
    exists|span: std::time::Duration| #[trigger]
        call_ensures(std::time::Instant::elapsed, (start,), span) && call_ensures(
            std::time::Duration::as_secs,
            (&span,),
            elapsed.secs,
        ) && call_ensures(std::time::Duration::subsec_nanos, (&span,), elapsed.nanos)
}

/// The time that has passed since `start`.
pub fn elapsed_since(start: &std::time::Instant) -> (r: Elapsed)
    ensures
        r.nanos < 1_000_000_000,
        measured(start, r),
{
    let span = start.elapsed();
    Elapsed { secs: span.as_secs(), nanos: span.subsec_nanos() }
}

/// `time::OffsetDateTime::now_utc`, formatted as RFC 3339. It depends on the
/// clock, and gives nothing where the date cannot be written that way.
#[verifier::external_body]
fn utc_now_rfc3339() -> (r: Option<String>) {
    time::OffsetDateTime::now_utc().format(&time::format_description::well_known::Rfc3339).ok()
}

/// The text of a timestamp, or `NA` where there is none.
pub fn timestamp_text(formatted: Option<String>) -> (r: String)
    ensures
        r@ == (match formatted {
            Some(text) => text@,
            None => "NA"@,
        }),
{
    match formatted {
        Some(text) => text,
        None => "NA".to_owned(),
    }
}

/// Whether the clock can give this as the current time.
pub closed spec fn clock_gave(formatted: Option<String>) -> bool {
    call_ensures(utc_now_rfc3339, (), formatted)
}

/// The current time in UTC, as RFC 3339 text or `NA`.
pub fn utc_timestamp() -> (r: String)
    ensures
        exists|formatted: Option<String>| #[trigger]
            clock_gave(formatted) && r@ == (match formatted {
                Some(text) => text@,
                None => "NA"@,
            }),
{
    let formatted: Option<String> = utc_now_rfc3339();
    assert(clock_gave(formatted));
    timestamp_text(formatted)
}

}
