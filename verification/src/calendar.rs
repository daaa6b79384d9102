//! Fully specified calendar values: a date in the proleptic Gregorian
//! calendar, a time of day with microsecond precision, and their combination
//! with a fixed UTC offset.

use vstd::prelude::*;

verus! {

/// Whether `year` is a leap year in the proleptic Gregorian calendar.
pub open spec fn is_leap_year(year: int) -> bool {
    year % 4 == 0 && (year % 100 != 0 || year % 400 == 0)
}

/// The number of days of month `month` of year `year`,
/// for `month` between 1 and 12.
pub open spec fn days_in_month(year: int, month: int) -> int {
    if month == 2 {
        if is_leap_year(year) {
            29
        } else {
            28
        }
    } else if month == 4 || month == 6 || month == 9 || month == 11 {
        30
    } else {
        31
    }
}

/// Whether (year, month, day) names a day of the proleptic Gregorian
/// calendar, with the year restricted to the four-digit range of the
/// DICOM DA representation.
pub open spec fn valid_date(year: int, month: int, day: int) -> bool {
    &&& 0 <= year <= 9999
    &&& 1 <= month <= 12
    &&& 1 <= day <= days_in_month(year, month)
}

/// Whether (hour, minute, second, microsecond) names a time of day.
/// Second 60 is admitted for leap seconds.
pub open spec fn valid_time(hour: int, minute: int, second: int, microsecond: int) -> bool {
    &&& 0 <= hour <= 23
    &&& 0 <= minute <= 59
    &&& 0 <= second <= 60
    &&& 0 <= microsecond <= 999999
}

/// A fully specified Gregorian calendar date.
#[derive(Debug, Clone, Copy, PartialEq, Eq, Structural)]
pub struct Date {
    pub year: u16,
    pub month: u8,
    pub day: u8,
}

impl Date {
    /// Whether the components form a valid date.
    pub open spec fn wf(self) -> bool {
        valid_date(self.year as int, self.month as int, self.day as int)
    }

    /// Build a date, checking validity against the Gregorian calendar.
    pub fn from_ymd(year: u16, month: u8, day: u8) -> (r: Option<Date>)
        ensures
            match r {
                Some(d) => valid_date(year as int, month as int, day as int) && d == (Date {
                    year,
                    month,
                    day,
                }),
                None => !valid_date(year as int, month as int, day as int),
            },
    {
        if year <= 9999 && 1 <= month && month <= 12 && 1 <= day
            && day <= days_in_month_exec(year, month) {
            Some(Date { year, month, day })
        } else {
            None
        }
    }
}

/// The number of days of month `month` of year `year`.
pub fn days_in_month_exec(year: u16, month: u8) -> (r: u8)
    requires
        1 <= month <= 12,
    ensures
        r == days_in_month(year as int, month as int),
{
    if month == 2 {
        if year % 4 == 0 && (year % 100 != 0 || year % 400 == 0) {
            29
        } else {
            28
        }
    } else if month == 4 || month == 6 || month == 9 || month == 11 {
        30
    } else {
        31
    }
}

/// A fully specified time of day with microsecond precision.
#[derive(Debug, Clone, Copy, PartialEq, Eq, Structural)]
pub struct Time {
    pub hour: u8,
    pub minute: u8,
    pub second: u8,
    pub microsecond: u32,
}

impl Time {
    /// Whether the components form a valid time of day.
    pub open spec fn wf(self) -> bool {
        valid_time(self.hour as int, self.minute as int, self.second as int,
            self.microsecond as int)
    }

    /// Build a time of day, checking the range of every component.
    pub fn from_hms_micro(hour: u8, minute: u8, second: u8, microsecond: u32) -> (r: Option<
        Time,
    >)
        ensures
            match r {
                Some(t) => valid_time(hour as int, minute as int, second as int,
                    microsecond as int) && t == (Time { hour, minute, second, microsecond }),
                None => !valid_time(hour as int, minute as int, second as int,
                    microsecond as int),
            },
    {
        if hour <= 23 && minute <= 59 && second <= 60 && microsecond <= 999999 {
            Some(Time { hour, minute, second, microsecond })
        } else {
            None
        }
    }
}

/// A fully specified date and time of day under a fixed UTC offset,
/// given in seconds east of UTC.
#[derive(Debug, Clone, Copy, PartialEq, Eq, Structural)]
pub struct DateTime {
    pub date: Date,
    pub time: Time,
    pub offset_seconds: i32,
}

impl DateTime {
    /// Whether the parts are valid and the offset is less than a day.
    pub open spec fn wf(self) -> bool {
        &&& self.date.wf()
        &&& self.time.wf()
        &&& -86400 < self.offset_seconds < 86400
    }
}

} // verus!
