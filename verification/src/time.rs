//! Spans of time as whole nanoseconds, and the two clocks.
use std::time::{Duration, Instant, SystemTimeError};
use vstd::prelude::*;

verus! {

/// Nanoseconds in a second.
pub const NANOS: u128 = 1_000_000_000;

/// A reading of the monotonic clock.
#[verifier::external_type_specification]
#[verifier::external_body]
pub struct ExInstant(Instant);

/// What the wall clock reports when it stands before the Unix epoch.
#[verifier::external_type_specification]
#[verifier::external_body]
pub struct ExSystemTimeError(SystemTimeError);

/// The whole seconds of a span, as `Duration::as_secs` gives them.
pub uninterp spec fn whole_secs(span: Duration) -> u64;

/// The nanoseconds of a span beyond its whole seconds, as
/// `Duration::subsec_nanos` gives them.
pub uninterp spec fn spare_nanos(span: Duration) -> u32;

/// A span of time in nanoseconds.
pub open spec fn span_nanos(span: Duration) -> nat {
    (whole_secs(span) * 1_000_000_000 + spare_nanos(span)) as nat
}

/// `Duration::as_secs`: the whole seconds of a span.
pub assume_specification[ Duration::as_secs ](span: &Duration) -> (r: u64)
    ensures
        r == whole_secs(*span),
;

/// `Duration::subsec_nanos`: what a span holds beyond its whole seconds, which
/// is always less than a second.
pub assume_specification[ Duration::subsec_nanos ](span: &Duration) -> (r: u32)
    ensures
        r == spare_nanos(*span),
        r < 1_000_000_000,
;

/// `Duration::new`, with less than a second of nanoseconds: the span of that
/// many seconds and nanoseconds.
pub assume_specification[ Duration::new ](secs: u64, nanos: u32) -> (r: Duration)
    requires
        nanos < 1_000_000_000,
    ensures
        whole_secs(r) == secs,
        spare_nanos(r) == nanos,
;

/// `Instant::now`: a reading of the monotonic clock. Nothing is promised of
/// which.
pub assume_specification[ Instant::now ]() -> (r: Instant)
;

/// `Instant::elapsed`: the time since a reading. Nothing is promised of how
/// much that is.
pub assume_specification[ Instant::elapsed ](start: &Instant) -> (r: Duration)
;

/// Whether this is a reading that the monotonic clock gave.
pub open spec fn read_now(reading: Instant) -> bool {
    call_ensures(Instant::now, (), reading)
}

/// Whether the monotonic clock gave this as the time since a reading.
pub open spec fn since(start: Instant, past: Duration) -> bool {
    call_ensures(Instant::elapsed, (&start,), past)
}

/// Whether the wall clock gave this as how far it stands past the Unix epoch.
pub closed spec fn past_epoch_by(past: Result<Duration, SystemTimeError>) -> bool {
    call_ensures(past_epoch, (), past)
}

/// `SystemTime::elapsed` of the Unix epoch: how far the wall clock stands past
/// it, or an error where it stands before. Nothing is promised of either.
#[verifier::external_body]
fn past_epoch() -> (r: Result<Duration, SystemTimeError>) {
    std::time::UNIX_EPOCH.elapsed()
}

/// A span of time in nanoseconds.
pub fn nanos_of(span: Duration) -> (r: u128)
    ensures
        r == span_nanos(span),
        r <= LONGEST,
{
    span.as_secs() as u128 * NANOS + span.subsec_nanos() as u128
}

/// The longest span there is, in nanoseconds.
pub const LONGEST: u128 = 0x1_0000_0000_0000_0000 * NANOS - 1;

/// The span of that many nanoseconds, or the longest there is where that is
/// less.
pub fn span_of(nanos: u128) -> (r: Duration)
    ensures
        span_nanos(r) == if nanos <= LONGEST { nanos } else { LONGEST },
{
    let nanos: u128 = if nanos <= LONGEST {
        nanos
    } else {
        LONGEST
    };
    Duration::new((nanos / NANOS) as u64, (nanos % NANOS) as u32)
}

/// Seconds since the Unix epoch, where the clock stands `past` it, and 0 where
/// it stands before.
pub fn epoch_seconds(past: Option<Duration>) -> (r: u64)
    ensures
        r == match past {
            Some(span) => whole_secs(span),
            None => 0,
        },
{
    match past {
        Some(span) => span.as_secs(),
        None => 0,
    }
}

/// Seconds since the Unix epoch by the wall clock, or 0 where that clock stands
/// before it.
pub fn unix_now() -> (r: u64)
    ensures
        exists|past: Result<Duration, SystemTimeError>| #[trigger]
            past_epoch_by(past) && r == match past {
                Ok(span) => whole_secs(span),
                Err(_) => 0,
            },
{
    let reading = past_epoch();
    assert(past_epoch_by(reading));
    match reading {
        Ok(span) => epoch_seconds(Some(span)),
        Err(_) => epoch_seconds(None),
    }
}

/// A span in nanoseconds holds its seconds and what it has beyond them, and a
/// span made of that many nanoseconds is the same again.
pub proof fn law_nanoseconds_say_it_all(span: Duration, nanos: u128, again: Duration)
    requires
        call_ensures(nanos_of, (span,), nanos),
        call_ensures(span_of, (nanos,), again),
        spare_nanos(span) < 1_000_000_000,
        spare_nanos(again) < 1_000_000_000,
    ensures
        nanos / 1_000_000_000 == whole_secs(span),
        nanos % 1_000_000_000 == spare_nanos(span),
        whole_secs(again) == whole_secs(span),
        spare_nanos(again) == spare_nanos(span),
{
}

/// More nanoseconds than any span holds make the longest one, and never a
/// shorter one than fewer do.
pub proof fn law_spans_never_wrap(nanos: u128, more: u128, r: Duration, longer: Duration)
    requires
        call_ensures(span_of, (nanos,), r),
        call_ensures(span_of, (more,), longer),
        nanos <= more,
        spare_nanos(r) < 1_000_000_000,
        spare_nanos(longer) < 1_000_000_000,
    ensures
        nanos / 1_000_000_000 > u64::MAX ==> whole_secs(r) == u64::MAX && spare_nanos(r)
            == 999_999_999,
        nanos / 1_000_000_000 <= u64::MAX ==> whole_secs(r) == nanos / 1_000_000_000
            && spare_nanos(r) == nanos % 1_000_000_000,
        whole_secs(r) <= whole_secs(longer),
{
}

} // verus!
