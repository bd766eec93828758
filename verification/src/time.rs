//! Instants and spans of time, modelled as chrono models them.
//!
//! An [`Instant`] holds what chrono's `DateTime<Utc>` exposes: the UNIX
//! timestamp and the nanoseconds within that second (a leap second shows as
//! nanoseconds of one billion or more). A [`Span`] holds a chrono `TimeDelta`
//! as its signed number of nanoseconds.
use chrono::{DateTime, Utc};
use vstd::prelude::*;

verus! {

/// Nanoseconds in one second.
pub const NANOS_PER_SEC: i128 = 1_000_000_000;

/// The earliest UNIX timestamp that a chrono `DateTime<Utc>` can hold
/// (January 1 of year -262143, midnight).
pub const MIN_TIMESTAMP: i64 = -8_334_601_228_800;

/// The latest UNIX timestamp that a chrono `DateTime<Utc>` can hold
/// (December 31 of year 262142, 23:59:59).
pub const MAX_TIMESTAMP: i64 = 8_210_266_876_799;

/// The largest magnitude of a chrono `TimeDelta`, in nanoseconds
/// (`i64::MAX` milliseconds).
pub const MAX_SPAN_NANOS: i128 = 9_223_372_036_854_775_807_000_000;

/// A point in time: seconds since the UNIX epoch and the nanoseconds past
/// that second.
#[derive(Clone, Copy, Debug, PartialEq, Eq, Hash, Structural)]
pub struct Instant {
    pub secs: i64,
    pub nanos: u32,
}

/// A signed length of time in nanoseconds.
#[derive(Clone, Copy, Debug, PartialEq, Eq, Hash, Structural)]
pub struct Span {
    pub nanos: i128,
}

/// Nanoseconds since the epoch, counting a leap second's nanoseconds on top
/// of the second it extends.
pub open spec fn total_nanos(at: Instant) -> int {
    at.secs * 1_000_000_000 + at.nanos
}

/// An instant that is not inside a leap second, as the system clock gives.
pub open spec fn is_regular(at: Instant) -> bool {
    at.nanos < 1_000_000_000
}

/// The instants that chrono can build from a timestamp and nanoseconds:
/// within chrono's date range, and nanoseconds of a leap second only on the
/// last second of a minute.
pub open spec fn representable(at: Instant) -> bool {
    &&& MIN_TIMESTAMP <= at.secs <= MAX_TIMESTAMP
    &&& (at.nanos < 1_000_000_000 || (at.nanos < 2_000_000_000 && at.secs % 60 == 59))
}

/// A total count of nanoseconds whose second lies in chrono's range.
pub open spec fn total_in_range(t: int) -> bool {
    MIN_TIMESTAMP <= t / 1_000_000_000 <= MAX_TIMESTAMP
}

/// A span that a chrono `TimeDelta` can hold.
pub open spec fn span_valid(d: Span) -> bool {
    -MAX_SPAN_NANOS <= d.nanos <= MAX_SPAN_NANOS
}

/// Chrono's order of instants: by second, then by nanoseconds.
pub open spec fn earlier(a: Instant, b: Instant) -> bool {
    a.secs < b.secs || (a.secs == b.secs && a.nanos < b.nanos)
}

/// The regular instant with the given total of nanoseconds.
pub open spec fn instant_at(t: int) -> Instant {
    Instant { secs: (t / 1_000_000_000) as i64, nanos: (t % 1_000_000_000) as u32 }
}

/// `at + d` for a regular instant, as chrono adds a `TimeDelta`.
pub open spec fn shifted(at: Instant, d: Span) -> Instant {
    instant_at(total_nanos(at) + d.nanos)
}

/// `later - earlier` as chrono's `signed_duration_since` computes it, for a
/// regular `earlier`: a leap second that falls on an earlier time of day than
/// `earlier` counts one second less.
pub open spec fn span_between(later: Instant, earlier: Instant) -> int {
    let leap_back: int = if later.nanos >= 1_000_000_000 && later.secs % 86_400 < earlier.secs
        % 86_400 {
        1_000_000_000
    } else {
        0
    };
    total_nanos(later) - total_nanos(earlier) - leap_back
}

impl Instant {
    /// `self < other` in chrono's order.
    pub fn is_before(&self, other: &Instant) -> (r: bool)
        ensures
            r == earlier(*self, *other),
    {
        self.secs < other.secs || (self.secs == other.secs && self.nanos < other.nanos)
    }

    /// Nanoseconds since the epoch.
    pub fn total(&self) -> (r: i128)
        ensures
            r == total_nanos(*self),
    {
        self.secs as i128 * NANOS_PER_SEC + self.nanos as i128
    }

    /// Whether chrono can build this instant.
    pub fn is_representable(&self) -> (r: bool)
        ensures
            r == representable(*self),
    {
        MIN_TIMESTAMP <= self.secs && self.secs <= MAX_TIMESTAMP && (self.nanos < 1_000_000_000
            || (self.nanos < 2_000_000_000 && self.secs.checked_rem_euclid(60) == Some(59i64)))
    }
}

impl Instant {
    /// `self + d`, as chrono adds a `TimeDelta` to a regular instant.
    pub fn shift(&self, d: Span) -> (r: Instant)
        requires
            is_regular(*self),
            span_valid(d),
            total_in_range(total_nanos(*self) + d.nanos),
        ensures
            r == shifted(*self, d),
            is_regular(r),
            representable(r),
    {
        let t = self.total() + d.nanos;
        let secs = match t.checked_div_euclid(NANOS_PER_SEC) {
            Some(q) => q,
            None => 0,
        };
        let nanos = match t.checked_rem_euclid(NANOS_PER_SEC) {
            Some(m) => m,
            None => 0,
        };
        let r = Instant { secs: secs as i64, nanos: nanos as u32 };
        assert(r.secs % 60 == (t / 1_000_000_000) % 60);
        r
    }

    /// Whether `self + d` lies in chrono's range.
    pub fn can_shift(&self, d: Span) -> (r: bool)
        requires
            span_valid(d),
        ensures
            r == total_in_range(total_nanos(*self) + d.nanos),
    {
        let t = self.total() + d.nanos;
        let secs = match t.checked_div_euclid(NANOS_PER_SEC) {
            Some(q) => q,
            None => 0,
        };
        MIN_TIMESTAMP as i128 <= secs && secs <= MAX_TIMESTAMP as i128
    }

    /// `self - earlier`, as chrono's `signed_duration_since` computes it for
    /// a regular `earlier`.
    pub fn since(&self, earlier: &Instant) -> (r: Span)
        requires
            is_regular(*earlier),
        ensures
            r.nanos == span_between(*self, *earlier),
    {
        let later_day_secs = match self.secs.checked_rem_euclid(86_400) {
            Some(m) => m,
            None => 0,
        };
        let earlier_day_secs = match earlier.secs.checked_rem_euclid(86_400) {
            Some(m) => m,
            None => 0,
        };
        let leap_back: i128 = if self.nanos >= 1_000_000_000 && later_day_secs < earlier_day_secs {
            NANOS_PER_SEC
        } else {
            0
        };
        Span { nanos: self.total() - earlier.total() - leap_back }
    }
}

/// Adding a span to a regular instant and measuring back from that instant
/// gives the span again.
pub proof fn law_since_undoes_shift(at: Instant, d: Span)
    requires
        is_regular(at),
        span_valid(d),
        total_in_range(total_nanos(at) + d.nanos),
    ensures
        is_regular(shifted(at, d)),
        span_between(shifted(at, d), at) == d.nanos,
{
    let t = total_nanos(at) + d.nanos;
    assert(t == (t / 1_000_000_000) * 1_000_000_000 + t % 1_000_000_000);
}

/// Chrono's reading of an RFC 3339 timestamp, converted to UTC: the
/// timestamp and sub-second nanoseconds, or `None` where chrono refuses the text.
pub uninterp spec fn rfc3339_instant(text: Seq<char>) -> Option<(i64, u32)>;

/// Chrono's rendering of an instant with the pattern `%Y-%m-%d %H:%M UTC`.
pub uninterp spec fn utc_minute_text(secs: i64, nanos: u32) -> Seq<char>;

/// Parses an RFC 3339 timestamp with `chrono::DateTime::parse_from_rfc3339`
/// and converts it to UTC. Trusted: the result is chrono's (named
/// [`rfc3339_instant`]), and a `DateTime<Utc>` always lies in chrono's range.
#[verifier::external_body]
pub fn parse_rfc3339(text: &str) -> (r: Option<Instant>)
    ensures
        match r {
            Some(at) => rfc3339_instant(text@) == Some((at.secs, at.nanos)) && representable(at),
            None => rfc3339_instant(text@) is None,
        },
{
    match DateTime::parse_from_rfc3339(text) {
        Ok(parsed) => {
            let utc = parsed.with_timezone(&Utc);
            Some(Instant { secs: utc.timestamp(), nanos: utc.timestamp_subsec_nanos() })
        },
        Err(_) => None,
    }
}

/// Renders an instant with chrono's `format("%Y-%m-%d %H:%M UTC")` after
/// building it with `DateTime::from_timestamp`. Trusted: the text is chrono's
/// (named [`utc_minute_text`]); `from_timestamp` succeeds on representable instants.
#[verifier::external_body]
pub fn format_utc_minute(at: &Instant) -> (r: String)
    requires
        representable(*at),
    ensures
        r@ == utc_minute_text(at.secs, at.nanos),
{
    match DateTime::from_timestamp(at.secs, at.nanos) {
        Some(moment) => moment.format("%Y-%m-%d %H:%M UTC").to_string(),
        None => String::new(),
    }
}

/// Chrono's `to_rfc3339` rendering of an instant.
pub uninterp spec fn rfc3339_text(secs: i64, nanos: u32) -> Seq<char>;

/// Renders an instant with chrono's `DateTime::<Utc>::to_rfc3339` after
/// building it with `DateTime::from_timestamp`. Trusted: the text is chrono's
/// (named [`rfc3339_text`]); `from_timestamp` succeeds on representable instants.
#[verifier::external_body]
pub fn format_rfc3339(at: &Instant) -> (r: String)
    requires
        representable(*at),
    ensures
        r@ == rfc3339_text(at.secs, at.nanos),
{
    match DateTime::from_timestamp(at.secs, at.nanos) {
        Some(moment) => moment.to_rfc3339(),
        None => String::new(),
    }
}

} // verus!
