//! Calendar timestamps of exchange records.
use chrono::{Datelike, Timelike};
use vstd::prelude::*;

verus! {

/// A date and time of day as written in a record, without a time zone.
#[derive(Debug, Clone, Copy, PartialEq, Eq, Structural)]
pub struct Timestamp {
    pub year: i32,
    pub month: u32,
    pub day: u32,
    pub hour: u32,
    pub minute: u32,
    pub second: u32,
    pub nanosecond: u32,
}

/// The timestamp that chrono reads from `s` in the layout `%Y%m%d%H%M%S%f`
/// (year, month, day, hour, minute, second, then nanoseconds), if any.
pub uninterp spec fn moment_of(s: Seq<char>) -> Option<Timestamp>;

/// Relies on chrono's `NaiveDateTime::parse_from_str` with the layout
/// `%Y%m%d%H%M%S%f`: its result depends on the text alone.
#[verifier::external_body]
pub(crate) fn parse_moment(s: &str) -> (r: Option<Timestamp>)
    ensures
        r == moment_of(s@),
{
    match chrono::NaiveDateTime::parse_from_str(s, "%Y%m%d%H%M%S%f") {
        Ok(t) => Some(Timestamp {
            year: t.year(),
            month: t.month(),
            day: t.day(),
            hour: t.hour(),
            minute: t.minute(),
            second: t.second(),
            nanosecond: t.nanosecond(),
        }),
        Err(_) => None,
    }
}

} // verus!
