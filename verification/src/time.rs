//! Timestamps for feed dates.
//!
//! Every date that reaches the engine is normalized to UTC and represented
//! as plain integers, so ordering is integer ordering and independent of the
//! offset the source declared. Parsing the two wire date formats (RFC 2822
//! for RSS, RFC 3339 for Atom) is delegated to `chrono`.

use vstd::prelude::*;

verus! {

/// A point in time in UTC: seconds since the Unix epoch plus a sub-second
/// nanosecond count.
#[derive(Clone, Copy, Debug, PartialEq, Eq, Structural)]
pub struct Timestamp {
    pub secs: i64,
    pub nanos: u32,
}

/// `a` is no later than `b`.
pub open spec fn ts_le(a: Timestamp, b: Timestamp) -> bool {
    a.secs < b.secs || (a.secs == b.secs && a.nanos <= b.nanos)
}

/// `a` is strictly earlier than `b`.
pub open spec fn ts_lt(a: Timestamp, b: Timestamp) -> bool {
    a.secs < b.secs || (a.secs == b.secs && a.nanos < b.nanos)
}

impl Timestamp {
    /// `self` is no later than `other`.
    pub fn le(&self, other: &Timestamp) -> (r: bool)
        ensures
            r == ts_le(*self, *other),
    {
        self.secs < other.secs || (self.secs == other.secs && self.nanos <= other.nanos)
    }
}

/// What `chrono`'s RFC 2822 parser yields on a given string: the parsed
/// instant as a `(seconds, nanoseconds)` pair in UTC, or `None` when the
/// string is not a well-formed RFC 2822 date.
pub uninterp spec fn rfc2822_time_of(s: Seq<char>) -> Option<(i64, u32)>;

/// What `chrono`'s RFC 3339 parser yields on a given string, reported the
/// same way as [`rfc2822_time_of`].
pub uninterp spec fn rfc3339_time_of(s: Seq<char>) -> Option<(i64, u32)>;

/// [`rfc2822_time_of`] wrapped into a [`Timestamp`].
pub open spec fn rfc2822_timestamp_of(s: Seq<char>) -> Option<Timestamp> {
    match rfc2822_time_of(s) {
        Some(p) => Some(Timestamp { secs: p.0, nanos: p.1 }),
        None => None,
    }
}

/// [`rfc3339_time_of`] wrapped into a [`Timestamp`].
pub open spec fn rfc3339_timestamp_of(s: Seq<char>) -> Option<Timestamp> {
    match rfc3339_time_of(s) {
        Some(p) => Some(Timestamp { secs: p.0, nanos: p.1 }),
        None => None,
    }
}

/// Relies on `chrono::DateTime::parse_from_rfc2822`: parsing is a pure
/// function of the input string, and the parsed instant is read off in UTC
/// through `timestamp` and `timestamp_subsec_nanos`.
#[verifier::external_body]
fn parse_rfc2822_raw(s: &str) -> (r: Option<(i64, u32)>)
    ensures
        r == rfc2822_time_of(s@),
{
    match chrono::DateTime::parse_from_rfc2822(s) {
        Ok(dt) => Some((dt.timestamp(), dt.timestamp_subsec_nanos())),
        Err(_) => None,
    }
}

/// Relies on `chrono::DateTime::parse_from_rfc3339`, read off as in
/// [`parse_rfc2822_raw`].
#[verifier::external_body]
fn parse_rfc3339_raw(s: &str) -> (r: Option<(i64, u32)>)
    ensures
        r == rfc3339_time_of(s@),
{
    match chrono::DateTime::parse_from_rfc3339(s) {
        Ok(dt) => Some((dt.timestamp(), dt.timestamp_subsec_nanos())),
        Err(_) => None,
    }
}

/// Parse an RFC 2822 date (the RSS date format) into a [`Timestamp`].
pub fn parse_rfc2822(s: &str) -> (r: Option<Timestamp>)
    ensures
        r == rfc2822_timestamp_of(s@),
{
    match parse_rfc2822_raw(s) {
        Some(p) => Some(Timestamp { secs: p.0, nanos: p.1 }),
        None => None,
    }
}

/// Parse an RFC 3339 date (the Atom date format) into a [`Timestamp`].
pub fn parse_rfc3339(s: &str) -> (r: Option<Timestamp>)
    ensures
        r == rfc3339_timestamp_of(s@),
{
    match parse_rfc3339_raw(s) {
        Some(p) => Some(Timestamp { secs: p.0, nanos: p.1 }),
        None => None,
    }
}

} // verus!
