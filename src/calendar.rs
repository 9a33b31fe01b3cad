//! Calendar values: a day as a day number, a time of day as seconds, and the
//! fourteen-day planning period.

use chrono::Datelike;
use chrono::Timelike;
use vstd::prelude::*;

verus! {

/// The first year that `chrono::NaiveDate` can represent.
pub const MIN_YEAR: i32 = -262143;

/// The last year that `chrono::NaiveDate` can represent.
pub const MAX_YEAR: i32 = 262142;

/// Leap years of the proleptic Gregorian calendar.
pub open spec fn is_leap_year(y: int) -> bool {
    y % 4 == 0 && (y % 100 != 0 || y % 400 == 0)
}

pub open spec fn days_in_month(y: int, m: int) -> int {
    if m == 2 {
        if is_leap_year(y) { 29 } else { 28 }
    } else if m == 4 || m == 6 || m == 9 || m == 11 {
        30
    } else {
        31
    }
}

/// Days of the year `y` that come before the first of month `m`.
pub open spec fn days_before_month(y: int, m: int) -> int
    decreases m,
{
    if m <= 1 {
        0
    } else {
        days_before_month(y, m - 1) + days_in_month(y, m - 1)
    }
}

/// Whether year, month and day name a date that `chrono::NaiveDate` holds.
pub open spec fn is_calendar_date(y: int, m: int, d: int) -> bool {
    &&& MIN_YEAR <= y <= MAX_YEAR
    &&& 1 <= m <= 12
    &&& 1 <= d <= days_in_month(y, m)
}

/// The day number of a date, counted so that 0001-01-01 is day 1 (the count
/// of `chrono::Datelike::num_days_from_ce`).
pub open spec fn days_from_ce(y: int, m: int, d: int) -> int {
    let p = y - 1;
    365 * p + p / 4 - p / 100 + p / 400 + days_before_month(y, m) + d
}

/// Relies on `chrono::NaiveDate::from_ymd_opt`, which gives `None` exactly for a
/// month, day or year out of range, and on `Datelike::num_days_from_ce` for the
/// day number of the date it made.
#[verifier::external_body]
fn ymd_day_number(y: i32, m: u32, d: u32) -> (r: Option<i32>)
    ensures
        r == (if is_calendar_date(y as int, m as int, d as int) {
            Some(days_from_ce(y as int, m as int, d as int) as i32)
        } else {
            None::<i32>
        }),
{
    match chrono::NaiveDate::from_ymd_opt(y, m, d) {
        Some(date) => Some(date.num_days_from_ce()),
        None => None,
    }
}

/// Relies on `chrono::NaiveTime::from_hms_opt`, which gives `None` exactly when
/// an hour, minute or second is out of range, and on
/// `Timelike::num_seconds_from_midnight` for the time it made.
#[verifier::external_body]
fn hms_seconds(h: u32, m: u32, s: u32) -> (r: Option<u32>)
    ensures
        r == (if h < 24 && m < 60 && s < 60 {
            Some((h * 3600 + m * 60 + s) as u32)
        } else {
            None::<u32>
        }),
{
    match chrono::NaiveTime::from_hms_opt(h, m, s) {
        Some(time) => Some(time.num_seconds_from_midnight()),
        None => None,
    }
}

/// A calendar day, as its day number (0001-01-01 is day 1).
#[derive(Clone, Copy, Debug, PartialEq, Eq, Structural, Hash, PartialOrd, Ord)]
pub struct Date {
    pub days_from_ce: i32,
}

impl Date {
    /// The date of a year, month and day of the proleptic Gregorian calendar,
    /// or `None` where there is no such date.
    pub fn from_ymd_opt(year: i32, month: u32, day: u32) -> (r: Option<Date>)
        ensures
            r == (if is_calendar_date(year as int, month as int, day as int) {
                Some(Date { days_from_ce: days_from_ce(year as int, month as int, day as int) as i32 })
            } else {
                None::<Date>
            }),
    {
        match ymd_day_number(year, month, day) {
            Some(days_from_ce) => Some(Date { days_from_ce }),
            None => None,
        }
    }

    pub fn from_days_from_ce(days_from_ce: i32) -> (r: Date)
        ensures
            r.days_from_ce == days_from_ce,
    {
        Date { days_from_ce }
    }

    pub fn days_from_ce(&self) -> (r: i32)
        ensures
            r == self.days_from_ce,
    {
        self.days_from_ce
    }

    /// The date `n` days later, or `None` where its day number leaves `i32`.
    pub fn checked_add_days(&self, n: u32) -> (r: Option<Date>)
        ensures
            r == (if self.days_from_ce + n <= i32::MAX {
                Some(Date { days_from_ce: (self.days_from_ce + n) as i32 })
            } else {
                None::<Date>
            }),
    {
        if n as i64 <= i32::MAX as i64 - self.days_from_ce as i64 {
            Some(Date { days_from_ce: (self.days_from_ce as i64 + n as i64) as i32 })
        } else {
            None
        }
    }
}

/// A time of day, as seconds since midnight.
#[derive(Clone, Copy, Debug, PartialEq, Eq, Structural, Hash, PartialOrd, Ord)]
pub struct TimeOfDay {
    secs: u32,
}

impl TimeOfDay {
    pub closed spec fn seconds(self) -> int {
        self.secs as int
    }

    /// The time `hour:min:sec`, or `None` where a part is out of range.
    pub fn from_hms_opt(hour: u32, min: u32, sec: u32) -> (r: Option<TimeOfDay>)
        ensures
            r.is_some() <==> (hour < 24 && min < 60 && sec < 60),
            r.is_some() ==> r.unwrap().seconds() == hour * 3600 + min * 60 + sec,
    {
        match hms_seconds(hour, min, sec) {
            Some(secs) => Some(TimeOfDay { secs }),
            None => None,
        }
    }

    pub fn num_seconds_from_midnight(&self) -> (r: u32)
        ensures
            r == self.seconds(),
    {
        self.secs
    }
}

/// A date together with a time of day.
#[derive(Clone, Copy, Debug, PartialEq, Eq, Structural, Hash, PartialOrd, Ord)]
pub struct DateTime {
    pub date: Date,
    pub time: TimeOfDay,
}

impl DateTime {
    pub fn new(date: Date, time: TimeOfDay) -> (r: DateTime)
        ensures
            r.date == date,
            r.time == time,
    {
        DateTime { date, time }
    }

    pub fn date(&self) -> (r: Date)
        ensures
            r == self.date,
    {
        self.date
    }

    pub fn time(&self) -> (r: TimeOfDay)
        ensures
            r == self.time,
    {
        self.time
    }
}

/// Number of calendar days in a planning period.
pub const PERIOD_DAYS: u32 = 14;

/// A planning period: the fourteen calendar days from its start date on.
#[derive(Clone, Copy, Debug, PartialEq, Eq, Structural, Hash, PartialOrd, Ord)]
pub struct Period(pub Date);

impl Period {
    /// Day number of the period's first day.
    pub open spec fn first_day(self) -> int {
        self.0.days_from_ce as int
    }

    /// Day number of the period's last day.
    pub open spec fn last_day(self) -> int {
        self.first_day() + PERIOD_DAYS - 1
    }

    /// A period is valid when each of its days has a day number, that is,
    /// when the day number of its last day fits in an `i32`.
    pub open spec fn wf(self) -> bool {
        self.last_day() <= i32::MAX
    }

    /// Whether `d` is one of the period's days, both ends included.
    pub open spec fn spans(self, d: Date) -> bool {
        self.first_day() <= d.days_from_ce <= self.last_day()
    }

    pub fn from_start_date(start_date: Date) -> (r: Period)
        ensures
            r.0 == start_date,
    {
        Period(start_date)
    }

    pub fn start_date(&self) -> (r: Date)
        ensures
            r == self.0,
    {
        self.0
    }

    pub fn contains_date(&self, day: Date) -> (r: bool)
        ensures
            r == self.spans(day),
    {
        let first = self.0.days_from_ce as i64;
        let d = day.days_from_ce as i64;
        first <= d && d <= first + (PERIOD_DAYS as i64 - 1)
    }
}

} // verus!
