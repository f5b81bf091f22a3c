//! Dates, times of day and instants, and the calls into chrono and
//! chrono-tz that read feed text and resolve London wall-clock times.

use chrono::{Datelike, NaiveDate, NaiveTime, TimeZone, Timelike};
use chrono::offset::{FixedOffset, LocalResult};
use chrono_tz::Europe::London;
use vstd::prelude::*;

verus! {

#[verifier::external_type_specification]
#[verifier::external_body]
pub struct ExParseError(chrono::ParseError);

/// The first year that chrono can hold.
pub const MIN_YEAR: i32 = -262143;

/// The last year that chrono can hold.
pub const MAX_YEAR: i32 = 262142;

/// The Unix timestamp of the first second chrono can hold.
pub const MIN_TIMESTAMP: i64 = -8334601315200;

/// The Unix timestamp of the last second chrono can hold.
pub const MAX_TIMESTAMP: i64 = 8210266876799;

pub open spec fn is_leap_year(y: int) -> bool {
    (y % 4 == 0 && y % 100 != 0) || y % 400 == 0
}

pub open spec fn days_in_month(y: int, m: int) -> int {
    if m == 2 {
        if is_leap_year(y) {
            29
        } else {
            28
        }
    } else if m == 4 || m == 6 || m == 9 || m == 11 {
        30
    } else {
        31
    }
}

/// A day of the proleptic Gregorian calendar.
#[derive(Clone, Copy, Debug, PartialEq, Eq, Structural)]
pub struct CivilDate {
    pub year: i32,
    pub month: u32,
    pub day: u32,
}

impl CivilDate {
    pub open spec fn is_valid(self) -> bool {
        &&& MIN_YEAR <= self.year <= MAX_YEAR
        &&& 1 <= self.month <= 12
        &&& 1 <= self.day <= days_in_month(self.year as int, self.month as int)
    }
}

/// A time of day, to the minute.
#[derive(Clone, Copy, Debug, PartialEq, Eq, Structural)]
pub struct ClockTime {
    pub hour: u32,
    pub minute: u32,
}

impl ClockTime {
    pub open spec fn is_valid(self) -> bool {
        self.hour < 24 && self.minute < 60
    }
}

/// The instants at which a London wall-clock time occurs, as Unix
/// timestamps.
#[derive(Clone, Copy, Debug, PartialEq, Eq, Structural)]
pub enum LocalTimes {
    /// The time is skipped when the clocks go forward.
    Missing,
    /// The time occurs once.
    Unique(i64),
    /// The time occurs twice when the clocks go back: earlier, later.
    Folded(i64, i64),
}

pub open spec fn in_timestamp_range(t: int) -> bool {
    MIN_TIMESTAMP <= t <= MAX_TIMESTAMP
}

pub open spec fn in_offset_range(o: int) -> bool {
    -86400 < o < 86400
}

/// An instant, to the second, together with the UTC offset that it is
/// shown in.
#[derive(Clone, Copy, Debug, PartialEq, Eq, Hash)]
pub struct Instant {
    pub(crate) timestamp: i64,
    pub(crate) offset: i32,
}

/// What an instant is: seconds since 1970-01-01T00:00:00Z, and the offset
/// east of UTC, in seconds, that it is shown at.
pub struct InstantView {
    pub timestamp: int,
    pub offset: int,
}

impl View for Instant {
    type V = InstantView;

    closed spec fn view(&self) -> InstantView {
        InstantView { timestamp: self.timestamp as int, offset: self.offset as int }
    }
}

impl Instant {
    #[verifier::type_invariant]
    spec fn in_range(self) -> bool {
        in_timestamp_range(self.timestamp as int) && in_offset_range(self.offset as int)
    }

    /// Seconds since 1970-01-01T00:00:00Z.
    pub fn timestamp(&self) -> (r: i64)
        ensures
            r == self@.timestamp,
    {
        self.timestamp
    }

    /// Seconds east of UTC.
    pub fn offset(&self) -> (r: i32)
        ensures
            r == self@.offset,
    {
        self.offset
    }

    /// The instant `timestamp`, shown at `offset` seconds east of UTC;
    /// `None` where either lies outside what chrono can hold.
    pub fn new(timestamp: i64, offset: i32) -> (r: Option<Instant>)
        ensures
            r is Some <==> in_timestamp_range(timestamp as int) && in_offset_range(offset as int),
            r matches Some(i) ==> i@.timestamp == timestamp && i@.offset == offset,
    {
        if MIN_TIMESTAMP <= timestamp && timestamp <= MAX_TIMESTAMP && -86400 < offset && offset
            < 86400 {
            Some(Instant { timestamp, offset })
        } else {
            None
        }
    }

    /// The instant `timestamp`, shown in UTC.
    pub(crate) fn utc(timestamp: i64) -> (r: Instant)
        requires
            in_timestamp_range(timestamp as int),
        ensures
            r@.timestamp == timestamp,
            r@.offset == 0,
    {
        Instant { timestamp, offset: 0 }
    }

    /// The RFC 3339 text of the instant, shown at its offset.
    pub fn to_rfc3339(&self) -> (r: String)
        ensures
            r@ == rfc3339_text(self@.timestamp, self@.offset),
    {
        proof {
            use_type_invariant(self);
        }
        format_rfc3339(self.timestamp, self.offset)
    }
}

/// What chrono reads as a date from feed text in the form
/// `%Y-%m-%dT%H:%M:%S`; `None` where it reports an error.
pub uninterp spec fn date_in_text(s: Seq<char>) -> Option<CivilDate>;

/// What chrono reads as a time of day from feed text in the form `%H:%M`;
/// `None` where it reports an error.
pub uninterp spec fn time_in_text(s: Seq<char>) -> Option<ClockTime>;

/// The instants at which the tz database that chrono-tz carries puts a
/// London wall-clock time.
pub uninterp spec fn london_times(d: CivilDate, t: ClockTime) -> LocalTimes;

/// chrono's RFC 3339 text for an instant shown at an offset.
pub uninterp spec fn rfc3339_text(timestamp: int, offset: int) -> Seq<char>;

/// Relies on chrono's `NaiveDate::parse_from_str`, whose dates always lie
/// between `NaiveDate::MIN` and `NaiveDate::MAX`.
#[verifier::external_body]
pub(crate) fn parse_date(s: &str) -> (r: Result<CivilDate, chrono::ParseError>)
    ensures
        match r {
            Ok(d) => date_in_text(s@) == Some(d) && d.is_valid(),
            Err(_) => date_in_text(s@) is None,
        },
{
    match NaiveDate::parse_from_str(s, "%Y-%m-%dT%H:%M:%S") {
        Ok(d) => Ok(CivilDate { year: d.year(), month: d.month(), day: d.day() }),
        Err(e) => Err(e),
    }
}

/// Relies on chrono's `NaiveTime::parse_from_str`; its hours run from 0 to
/// 23 and its minutes from 0 to 59.
#[verifier::external_body]
pub(crate) fn parse_time(s: &str) -> (r: Result<ClockTime, chrono::ParseError>)
    ensures
        match r {
            Ok(t) => time_in_text(s@) == Some(t) && t.is_valid(),
            Err(_) => time_in_text(s@) is None,
        },
{
    match NaiveTime::parse_from_str(s, "%H:%M") {
        Ok(t) => Ok(ClockTime { hour: t.hour(), minute: t.minute() }),
        Err(e) => Err(e),
    }
}

/// Relies on chrono-tz's `Europe::London` through chrono's
/// `TimeZone::from_local_datetime`, which lists the two instants of a
/// folded time as (earliest, latest) and only yields instants that chrono
/// can hold.
#[verifier::external_body]
pub(crate) fn resolve_london(d: CivilDate, t: ClockTime) -> (r: LocalTimes)
    requires
        d.is_valid(),
        t.is_valid(),
    ensures
        r == london_times(d, t),
        r matches LocalTimes::Unique(a) ==> in_timestamp_range(a as int),
        r matches LocalTimes::Folded(a, b) ==> a <= b && in_timestamp_range(a as int)
            && in_timestamp_range(b as int),
{
    let date = NaiveDate::from_ymd_opt(d.year, d.month, d.day).unwrap();
    let local = date.and_time(NaiveTime::from_hms_opt(t.hour, t.minute, 0).unwrap());
    match London.from_local_datetime(&local) {
        LocalResult::None => LocalTimes::Missing,
        LocalResult::Single(a) => LocalTimes::Unique(a.timestamp()),
        LocalResult::Ambiguous(a, b) => LocalTimes::Folded(a.timestamp(), b.timestamp()),
    }
}

/// Relies on chrono's `DateTime::to_rfc3339`.
#[verifier::external_body]
fn format_rfc3339(timestamp: i64, offset: i32) -> (r: String)
    requires
        in_timestamp_range(timestamp as int),
        in_offset_range(offset as int),
    ensures
        r@ == rfc3339_text(timestamp as int, offset as int),
{
    FixedOffset::east_opt(offset).unwrap().timestamp_opt(timestamp, 0).unwrap().to_rfc3339()
}

} // verus!
