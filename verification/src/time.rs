//! Timestamps as plain values: seconds since the Unix epoch plus a
//! subsecond nanosecond count, both in UTC. Conversion to and from a
//! calendar library happens outside this crate; everything the core's
//! logic reads of a timestamp is here.

use vstd::prelude::*;

verus! {

/// Nanoseconds per second; the subsecond field stays strictly below it.
pub const NANOS_PER_SEC: u32 = 1_000_000_000;

/// A point in time, UTC: whole seconds since the Unix epoch (may be
/// negative) and nanoseconds within that second.
#[derive(Clone, Copy, Debug)]
pub struct Timestamp {
    /// Whole seconds since 1970-01-01T00:00:00Z.
    pub secs: i64,
    /// Nanoseconds within the second, always below `NANOS_PER_SEC`.
    pub nanos: u32,
}

impl Timestamp {
    /// A timestamp is well formed when its subsecond part names a real
    /// nanosecond offset within one second.
    pub open spec fn wf(self) -> bool {
        self.nanos < NANOS_PER_SEC
    }

    /// Order on timestamps: by seconds, then by nanoseconds.
    pub open spec fn spec_le(self, other: Timestamp) -> bool {
        self.secs < other.secs || (self.secs == other.secs && self.nanos <= other.nanos)
    }

    /// Strict order on timestamps.
    pub open spec fn spec_lt(self, other: Timestamp) -> bool {
        self.secs < other.secs || (self.secs == other.secs && self.nanos < other.nanos)
    }

    /// Builds a well-formed timestamp; a subsecond count of a full second
    /// or more is folded into the seconds (saturating at the far future).
    pub fn new(secs: i64, nanos: u32) -> (r: Timestamp)
        ensures
            r.wf(),
            nanos < NANOS_PER_SEC ==> r == (Timestamp { secs, nanos }),
    {
        if nanos < NANOS_PER_SEC {
            Timestamp { secs, nanos }
        } else {
            let extra = (nanos / NANOS_PER_SEC) as i64;
            let rem = nanos % NANOS_PER_SEC;
            if secs <= i64::MAX - extra {
                Timestamp { secs: secs + extra, nanos: rem }
            } else {
                Timestamp { secs: i64::MAX, nanos: rem }
            }
        }
    }

    /// `self <= other` in the timeline order.
    pub fn le(&self, other: &Timestamp) -> (r: bool)
        ensures
            r == self.spec_le(*other),
    {
        self.secs < other.secs || (self.secs == other.secs && self.nanos <= other.nanos)
    }

    /// `self < other` in the timeline order.
    pub fn lt(&self, other: &Timestamp) -> (r: bool)
        ensures
            r == self.spec_lt(*other),
    {
        self.secs < other.secs || (self.secs == other.secs && self.nanos < other.nanos)
    }

    /// Field-for-field equality.
    pub fn eq_ts(&self, other: &Timestamp) -> (r: bool)
        ensures
            r == (*self == *other),
    {
        self.secs == other.secs && self.nanos == other.nanos
    }
}

/// Why a supplied date string was rejected.
#[derive(Clone, Copy, Debug, PartialEq, Eq, Structural)]
pub enum DateError {
    /// The string is not a calendar date this core accepts.
    InvalidDate,
}

/// What the calendar library answers for a `YYYY-MM-DD` string taken
/// at midnight UTC: the seconds since the epoch, or nothing when the
/// string is not such a date. The outcome depends on the characters
/// alone.
pub uninterp spec fn spec_parse_ymd(s: Seq<char>) -> Option<i64>;

/// Relies on chrono::NaiveDate::parse_from_str with the `%Y-%m-%d`
/// format, taken at midnight UTC via NaiveDate::and_hms_opt,
/// NaiveDateTime::and_utc and DateTime::timestamp: the outcome is a
/// function of the input characters alone.
#[verifier::external_body]
fn parse_ymd_chrono(s: &str) -> (r: Option<i64>)
    ensures
        r == spec_parse_ymd(s@),
{
    match chrono::NaiveDate::parse_from_str(s, "%Y-%m-%d") {
        Ok(d) => match d.and_hms_opt(0, 0, 0) {
            Some(dt) => Some(dt.and_utc().timestamp()),
            None => None,
        },
        Err(_) => None,
    }
}

/// Parses a `YYYY-MM-DD` date as the timestamp of that day's midnight,
/// UTC. Returns the error exactly when the calendar library rejects
/// the string.
pub fn parse_date(s: &str) -> (r: Result<Timestamp, DateError>)
    ensures
        match r {
            Ok(t) => spec_parse_ymd(s@) == Some(t.secs) && t.nanos == 0 && t.wf(),
            Err(e) => e == DateError::InvalidDate && spec_parse_ymd(s@).is_none(),
        },
{
    match parse_ymd_chrono(s) {
        Some(secs) => Ok(Timestamp { secs, nanos: 0 }),
        None => Err(DateError::InvalidDate),
    }
}

} // verus!
