//! Calendar date-times as plain fields, read through chrono.

use chrono::{Datelike, Timelike};
use vstd::prelude::*;

verus! {

/// A calendar date-time as the cleaner keeps it.
#[derive(Clone, Copy, Debug, PartialEq, Eq, Structural)]
pub struct Timestamp {
    pub year: i32,
    pub month: u32,
    pub day: u32,
    pub hour: u32,
    pub minute: u32,
    pub second: u32,
}

impl Timestamp {
    /// Every field within its calendar range.
    pub open spec fn wf(&self) -> bool {
        &&& 1 <= self.month <= 12
        &&& 1 <= self.day <= 31
        &&& self.hour < 24
        &&& self.minute < 60
        &&& self.second < 60
    }
}

/// What chrono's date-time parser makes of `text` under `format`.
pub uninterp spec fn datetime_of(text: Seq<char>, format: Seq<char>) -> Option<Timestamp>;

/// Relies on `chrono::NaiveDateTime::parse_from_str`, whose result depends
/// on the two strings alone, and on chrono's `Datelike` / `Timelike`
/// accessors, documented to return month 1-12, day 1-31, hour 0-23, minute
/// 0-59 and second 0-59.
#[verifier::external_body]
pub(crate) fn parse_datetime(text: &str, format: &str) -> (r: Option<Timestamp>)
    ensures
        r == datetime_of(text@, format@),
        r matches Some(t) ==> t.wf(),
{
    match chrono::NaiveDateTime::parse_from_str(text, format) {
        Ok(t) => Some(Timestamp {
            year: t.year(),
            month: t.month(),
            day: t.day(),
            hour: t.hour(),
            minute: t.minute(),
            second: t.second(),
        }),
        Err(_) => None,
    }
}

} // verus!
