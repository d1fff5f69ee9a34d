//! Instants on the UTC time line, and the calendar parsing they come from.
use vstd::prelude::*;

verus! {

/// Seconds in one day.
pub const SECONDS_PER_DAY: i64 = 86_400;

/// Bound on the magnitude of any instant's seconds: the calendar library
/// represents years up to 262142 in either direction.
pub const SECS_BOUND: i64 = 10_000_000_000_000;

/// An instant: whole seconds since the Unix epoch and the nanoseconds past
/// that second (above 999,999,999 only within a leap second).
#[derive(Debug, Clone, Copy, PartialEq, Eq, Structural)]
pub struct Timestamp {
    pub secs: i64,
    pub nanos: u32,
}

/// The instant that RFC 3339 text denotes, as `(seconds, nanoseconds)`, or
/// `None` where the text is not a valid RFC 3339 date-time.
pub uninterp spec fn rfc3339_instant(s: Seq<char>) -> Option<(int, int)>;

/// The instant that RFC 2822 text denotes, as `(seconds, nanoseconds)`, or
/// `None` where the text is not a valid RFC 2822 date-time.
pub uninterp spec fn rfc2822_instant(s: Seq<char>) -> Option<(int, int)>;

/// The later of two instants.
pub open spec fn later(a: Timestamp, b: Timestamp) -> Timestamp {
    if a.spec_lt(b) {
        b
    } else {
        a
    }
}

impl Timestamp {
    /// Seconds and nanoseconds as one integer count of nanoseconds.
    pub open spec fn nanos_total(self) -> int {
        self.secs as int * 1_000_000_000 + self.nanos as int
    }

    /// Whether the instant lies in the range the calendar library represents.
    pub open spec fn in_bounds(self) -> bool {
        -SECS_BOUND < self.secs < SECS_BOUND && self.nanos < 2_000_000_000
    }

    /// Order of instants: by seconds, then by nanoseconds.
    pub open spec fn spec_lt(self, other: Timestamp) -> bool {
        self.secs < other.secs || (self.secs == other.secs && self.nanos < other.nanos)
    }

    /// The Unix epoch.
    pub open spec fn epoch_spec() -> Timestamp {
        Timestamp { secs: 0, nanos: 0 }
    }

    /// The Unix epoch.
    pub fn epoch() -> (r: Timestamp)
        ensures
            r == Self::epoch_spec(),
    {
        Timestamp { secs: 0, nanos: 0 }
    }

    /// Whether `self` lies strictly after `other`.
    pub fn is_after(&self, other: &Timestamp) -> (r: bool)
        ensures
            r == other.spec_lt(*self),
    {
        self.secs > other.secs || (self.secs == other.secs && self.nanos > other.nanos)
    }

    /// The instant `days` whole days after `self`.
    pub fn plus_days(&self, days: u32) -> (r: Timestamp)
        requires
            self.in_bounds(),
        ensures
            r.secs == self.secs + SECONDS_PER_DAY * days,
            r.nanos == self.nanos,
    {
        Timestamp { secs: self.secs + SECONDS_PER_DAY * (days as i64), nanos: self.nanos }
    }
}

/// Relies on chrono's `DateTime::parse_from_rfc3339`, with the parsed
/// instant read back through `timestamp` and `timestamp_subsec_nanos`: the
/// result depends on the text alone and lies in chrono's representable range.
#[verifier::external_body]
pub(crate) fn parse_rfc3339(s: &str) -> (r: Result<Timestamp, chrono::ParseError>)
    ensures
        r is Ok <==> rfc3339_instant(s@) is Some,
        r matches Ok(t) ==> rfc3339_instant(s@) == Some((t.secs as int, t.nanos as int)),
        r matches Ok(t) ==> t.in_bounds(),
{
    match chrono::DateTime::parse_from_rfc3339(s) {
        Ok(d) => Ok(Timestamp { secs: d.timestamp(), nanos: d.timestamp_subsec_nanos() }),
        Err(e) => Err(e),
    }
}

/// Relies on chrono's `DateTime::parse_from_rfc2822`, with the parsed
/// instant read back through `timestamp` and `timestamp_subsec_nanos`: the
/// result depends on the text alone and lies in chrono's representable range.
#[verifier::external_body]
pub(crate) fn parse_rfc2822(s: &str) -> (r: Result<Timestamp, chrono::ParseError>)
    ensures
        r is Ok <==> rfc2822_instant(s@) is Some,
        r matches Ok(t) ==> rfc2822_instant(s@) == Some((t.secs as int, t.nanos as int)),
        r matches Ok(t) ==> t.in_bounds(),
{
    match chrono::DateTime::parse_from_rfc2822(s) {
        Ok(d) => Ok(Timestamp { secs: d.timestamp(), nanos: d.timestamp_subsec_nanos() }),
        Err(e) => Err(e),
    }
}

/// chrono's parse error, carried through unchanged.
#[verifier::external_type_specification]
#[verifier::external_body]
pub struct ExParseError(chrono::ParseError);

} // verus!
