//! Instants and spans of time as plain integers, with the calendar work left to `chrono`.

use chrono::{DateTime, TimeDelta, Utc};
use vstd::prelude::*;

verus! {

/// The second at which the first instant that `chrono` can hold begins (year -262143).
pub const FIRST_SECOND: i64 = -8_334_601_228_800;

/// The last second that `chrono` can hold (end of year 262142).
pub const LAST_SECOND: i64 = 8_210_266_876_799;

/// The second at which year 0 begins.
pub const YEAR_ZERO: i64 = -62_167_219_200;

/// The last second of year 9999.
pub const YEAR_9999_END: i64 = 253_402_300_799;

/// Nanoseconds in a second.
pub const NANOS_PER_SECOND: u32 = 1_000_000_000;

/// The longest span that `chrono` can hold, in whole seconds.
pub const LONGEST_SPAN_SECONDS: i64 = 9_223_372_036_854_775;

/// What the longest span that `chrono` can hold has beyond its whole seconds, in nanoseconds.
pub const LONGEST_SPAN_NANOS: u32 = 807_000_000;

/// A point in time: seconds since 1970-01-01T00:00:00Z and the nanoseconds after that second.
///
/// A leap second has no count of its own: it is the second before it with `nanos` past one
/// billion.
#[derive(Clone, Copy, Debug, PartialEq, Eq, Structural)]
pub struct Timestamp {
    pub secs: i64,
    pub nanos: u32,
}

impl Timestamp {
    /// The instants that exist in `chrono`.
    pub open spec fn valid(self) -> bool {
        &&& FIRST_SECOND <= self.secs <= LAST_SECOND
        &&& self.nanos < NANOS_PER_SECOND || (self.nanos < 2 * NANOS_PER_SECOND && self.secs as int
            % 60 == 59)
    }

    /// An instant that a clock shows: a valid one outside a leap second.
    pub open spec fn on_clock(self) -> bool {
        self.valid() && self.nanos < NANOS_PER_SECOND
    }

    /// An instant of the years 0 to 9999.
    pub open spec fn in_four_digit_year(self) -> bool {
        YEAR_ZERO <= self.secs <= YEAR_9999_END
    }

    /// The order of time.
    pub open spec fn before(self, other: Timestamp) -> bool {
        self.secs < other.secs || (self.secs == other.secs && self.nanos < other.nanos)
    }

    /// Whether `self` comes strictly before `other`.
    pub fn is_before(&self, other: &Timestamp) -> (r: bool)
        ensures
            r == self.before(*other),
    {
        self.secs < other.secs || (self.secs == other.secs && self.nanos < other.nanos)
    }
}

/// Whether `at` was read from the clock. What makes an instant one is not shown outside this
/// module: only a reading of the clock is known to be one.
pub closed spec fn is_clock_reading(at: Timestamp) -> bool {
    at.on_clock()
}

/// A length of time, possibly negative: `secs` whole seconds and `nanos` more nanoseconds.
#[derive(Clone, Copy, Debug, PartialEq, Eq, Structural)]
pub struct Span {
    pub secs: i64,
    pub nanos: u32,
}

impl Span {
    /// The spans that exist in `chrono`: as many milliseconds as an `i64` counts, of either sign.
    pub open spec fn valid(self) -> bool {
        &&& self.nanos < NANOS_PER_SECOND
        &&& self.total_nanos() <= LONGEST_SPAN_SECONDS * NANOS_PER_SECOND + LONGEST_SPAN_NANOS
        &&& -self.total_nanos() <= LONGEST_SPAN_SECONDS * NANOS_PER_SECOND + LONGEST_SPAN_NANOS
    }

    /// The span in nanoseconds.
    pub open spec fn total_nanos(self) -> int {
        self.secs * NANOS_PER_SECOND + self.nanos
    }
}

/// The instant `span` after `at`, if `chrono` can hold it.
pub open spec fn later(at: Timestamp, span: Span) -> Option<Timestamp> {
    let nanos = at.nanos + span.nanos;
    let secs = at.secs + span.secs + nanos / (NANOS_PER_SECOND as int);
    if FIRST_SECOND <= secs <= LAST_SECOND {
        Some(Timestamp { secs: secs as i64, nanos: (nanos % (NANOS_PER_SECOND as int)) as u32 })
    } else {
        None
    }
}

/// A deadline after a positive wait lies ahead, and it is an instant that a clock shows.
pub proof fn law_deadline_lies_ahead(at: Timestamp, span: Span)
    requires
        at.on_clock(),
        span.valid(),
    ensures
        later(at, span) matches Some(deadline) ==> deadline.on_clock() && (at.before(deadline)
            <==> span.total_nanos() > 0),
{
}

/// Outside leap seconds the order of time is that of the nanoseconds since the epoch.
pub proof fn law_order_counts_nanoseconds(a: Timestamp, b: Timestamp)
    requires
        a.on_clock(),
        b.on_clock(),
    ensures
        a.before(b) <==> a.secs * 1_000_000_000 + a.nanos < b.secs * 1_000_000_000 + b.nanos,
{
}

/// Of two instants one comes before the other, or they are the same; what comes before what
/// comes before an instant comes before it; and a leap second lies between its second and the
/// next.
pub proof fn law_order_is_total(a: Timestamp, b: Timestamp, c: Timestamp)
    ensures
        a.before(b) || b.before(a) || a == b,
        !(a.before(b) && b.before(a)),
        !a.before(a),
        a.before(b) && b.before(c) ==> a.before(c),
        a.secs < b.secs ==> a.before(b),
        a.secs == b.secs && a.nanos < 1_000_000_000 <= b.nanos ==> a.before(b),
{
}

/// A deadline is the wait after the instant, to the nanosecond, and there is one exactly where
/// that lies in the seconds that there are.
pub proof fn law_deadline_is_the_sum(at: Timestamp, span: Span)
    requires
        at.on_clock(),
        span.valid(),
    ensures
        ({
            let sum = at.secs * 1_000_000_000 + at.nanos + span.secs * 1_000_000_000 + span.nanos;
            match later(at, span) {
                Some(deadline) => deadline.on_clock() && deadline.secs * 1_000_000_000
                    + deadline.nanos == sum,
                None => sum < -8_334_601_228_800 * 1_000_000_000 || sum >= 8_210_266_876_800
                    * 1_000_000_000,
            }
        }),
{
}

/// Every second from the first to the last, with any nanosecond of it, is an instant, and one
/// that a clock shows; and so is no other but for leap seconds.
pub proof fn law_instants(at: Timestamp)
    ensures
        at.on_clock() <==> -8_334_601_228_800 <= at.secs <= 8_210_266_876_799 && at.nanos
            < 1_000_000_000,
        at.valid() && !at.on_clock() <==> -8_334_601_228_800 <= at.secs <= 8_210_266_876_799
            && at.secs as int % 60 == 59 && 1_000_000_000 <= at.nanos < 2_000_000_000,
        at.in_four_digit_year() <==> -62_167_219_200 <= at.secs <= 253_402_300_799,
{
}

/// Every length of time of as many milliseconds as an `i64` counts, of either sign, is a span.
pub proof fn law_spans(span: Span)
    ensures
        span.valid() <==> span.nanos < 1_000_000_000 && -9_223_372_036_854_775_807_000_000
            <= span.secs * 1_000_000_000 + span.nanos <= 9_223_372_036_854_775_807_000_000,
{
}

/// What `chrono::DateTime::to_rfc3339` writes for the instant `at` in UTC.
pub uninterp spec fn rfc3339_text(at: Timestamp) -> Seq<char>;

/// What `chrono::DateTime::parse_from_rfc3339` reads, as an instant; `None` where it refuses the
/// text.
pub uninterp spec fn rfc3339_instant(text: Seq<char>) -> Option<Timestamp>;

/// The error of `chrono::DateTime::parse_from_rfc3339`.
#[verifier::external_type_specification]
#[verifier::external_body]
pub struct ExChronoParseError(chrono::ParseError);

/// Reads the clock with `chrono::Utc::now`.
///
/// Nothing is claimed of which instant it shows, but that it is a reading of the clock, that
/// `chrono` can hold it and that it is not inside a leap second: the system clock counts none.
#[verifier::external_body]
pub(crate) fn utc_now() -> (now: Timestamp)
    ensures
        is_clock_reading(now),
        now.on_clock(),
{
    let now = Utc::now();
    Timestamp { secs: now.timestamp(), nanos: now.timestamp_subsec_nanos() }
}

/// Adds `span` to `at` with `chrono::DateTime::checked_add_signed`.
///
/// The claim: outside leap seconds the sum is the plain sum of nanoseconds, and it is `None`
/// exactly when the sum lies outside the years that `chrono` can hold.
#[verifier::external_body]
pub(crate) fn add_span(at: Timestamp, span: Span) -> (r: Option<Timestamp>)
    requires
        at.on_clock(),
        span.valid(),
    ensures
        r == later(at, span),
{
    let start = DateTime::from_timestamp(at.secs, at.nanos)?;
    let sum = start.checked_add_signed(TimeDelta::new(span.secs, span.nanos)?)?;
    Some(Timestamp { secs: sum.timestamp(), nanos: sum.timestamp_subsec_nanos() })
}

/// Writes `at` with `chrono::DateTime::to_rfc3339`, in UTC.
///
/// The claim: the text depends on the instant alone, and for the four-digit years
/// `chrono::DateTime::parse_from_rfc3339` reads the same instant back from it.
#[verifier::external_body]
pub(crate) fn format_rfc3339(at: Timestamp) -> (text: String)
    requires
        at.valid(),
    ensures
        text@ == rfc3339_text(at),
        at.in_four_digit_year() ==> rfc3339_instant(text@) == Some(at),
{
    DateTime::from_timestamp(at.secs, at.nanos).unwrap().to_rfc3339()
}

/// Reads `text` with `chrono::DateTime::parse_from_rfc3339` and moves it to UTC.
///
/// The claim: what is read, or that it is refused, depends on the text alone, and an instant
/// that is read is one that `chrono` can hold.
#[verifier::external_body]
pub(crate) fn parse_rfc3339(text: &str) -> (r: Result<Timestamp, chrono::ParseError>)
    ensures
        r is Ok <==> rfc3339_instant(text@) is Some,
        r matches Ok(at) ==> rfc3339_instant(text@) == Some(at) && at.valid(),
{
    let at = DateTime::parse_from_rfc3339(text)?.with_timezone(&Utc);
    Ok(Timestamp { secs: at.timestamp(), nanos: at.timestamp_subsec_nanos() })
}

} // verus!
