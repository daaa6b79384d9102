//! Precision-tagged date/time values.
//!
//! A DICOM DA, TM or DT value may omit trailing components. The types here
//! keep exactly the components that were present, so that a later consumer
//! can expand a partial value into the range it stands for.

use vstd::prelude::*;

verus! {

/// One component of a date/time value, named in validation errors.
#[derive(Debug, Clone, Copy, PartialEq, Eq, Structural)]
pub enum DateComponent {
    Year,
    Month,
    Day,
    Hour,
    Minute,
    Second,
    Fraction,
    UTCOffset,
}

/// Failure to build a partial date/time value.
#[derive(Debug, Clone, Copy, PartialEq, Eq, Structural)]
pub enum Error {
    /// A component lies outside its range.
    InvalidComponent { component: DateComponent, value: u32 },
    /// A fraction was given with a precision outside 1..=6 digits.
    InvalidFractionPrecision { precision: u8 },
    /// A date and a time were combined, but the date does not reach
    /// day precision.
    ImpreciseDate,
}

/// Ten to the power `n`.
pub open spec fn pow10(n: nat) -> nat
    decreases n,
{
    if n == 0 {
        1
    } else {
        10 * pow10((n - 1) as nat)
    }
}

/// The range each date/time component must lie in. The second admits 60
/// for leap seconds; the UTC offset is a magnitude in seconds, strictly
/// below one day.
pub open spec fn component_in_range(component: DateComponent, value: int) -> bool {
    match component {
        DateComponent::Year => 0 <= value <= 9999,
        DateComponent::Month => 1 <= value <= 12,
        DateComponent::Day => 1 <= value <= 31,
        DateComponent::Hour => 0 <= value <= 23,
        DateComponent::Minute => 0 <= value <= 59,
        DateComponent::Second => 0 <= value <= 60,
        DateComponent::Fraction => 0 <= value <= 999999,
        DateComponent::UTCOffset => 0 <= value < 86400,
    }
}

/// Check one component against its range.
pub fn check_component(component: DateComponent, value: u32) -> (r: Result<(), Error>)
    ensures
        match r {
            Ok(()) => component_in_range(component, value as int),
            Err(e) => !component_in_range(component, value as int) && e
                == (Error::InvalidComponent { component, value }),
        },
{
    let ok = match component {
        DateComponent::Year => value <= 9999,
        DateComponent::Month => 1 <= value && value <= 12,
        DateComponent::Day => 1 <= value && value <= 31,
        DateComponent::Hour => value <= 23,
        DateComponent::Minute => value <= 59,
        DateComponent::Second => value <= 60,
        DateComponent::Fraction => value <= 999999,
        DateComponent::UTCOffset => value < 86400,
    };
    if ok {
        Ok(())
    } else {
        Err(Error::InvalidComponent { component, value })
    }
}

/// A date with the precision it was given at: a year, a year and month,
/// or a full day. Day-of-month validity against the month length is
/// deliberately not enforced: a partial date may stand for a range query.
#[derive(Debug, Clone, Copy, PartialEq, Eq, Structural)]
pub enum DicomDate {
    Year(u16),
    Month(u16, u8),
    Day(u16, u8, u8),
}

impl DicomDate {
    /// Whether every component present lies in its range.
    pub open spec fn wf(self) -> bool {
        match self {
            DicomDate::Year(y) => y <= 9999,
            DicomDate::Month(y, m) => y <= 9999 && 1 <= m <= 12,
            DicomDate::Day(y, m, d) => y <= 9999 && 1 <= m <= 12 && 1 <= d <= 31,
        }
    }

    /// Build a date of year precision.
    pub fn from_y(year: u16) -> (r: Result<DicomDate, Error>)
        ensures
            match r {
                Ok(d) => year <= 9999 && d == DicomDate::Year(year),
                Err(e) => year > 9999 && e == (Error::InvalidComponent {
                    component: DateComponent::Year,
                    value: year as u32,
                }),
            },
    {
        check_component(DateComponent::Year, year as u32)?;
        Ok(DicomDate::Year(year))
    }

    /// Build a date of month precision. The year is checked first.
    pub fn from_ym(year: u16, month: u8) -> (r: Result<DicomDate, Error>)
        ensures
            match r {
                Ok(d) => year <= 9999 && 1 <= month <= 12 && d == DicomDate::Month(year, month),
                Err(e) => if year > 9999 {
                    e == (Error::InvalidComponent {
                        component: DateComponent::Year,
                        value: year as u32,
                    })
                } else {
                    !(1 <= month <= 12) && e == (Error::InvalidComponent {
                        component: DateComponent::Month,
                        value: month as u32,
                    })
                },
            },
    {
        check_component(DateComponent::Year, year as u32)?;
        check_component(DateComponent::Month, month as u32)?;
        Ok(DicomDate::Month(year, month))
    }

    /// Build a date of day precision. Components are checked in order;
    /// the day is only checked against 1..=31, not the month length.
    pub fn from_ymd(year: u16, month: u8, day: u8) -> (r: Result<DicomDate, Error>)
        ensures
            match r {
                Ok(d) => year <= 9999 && 1 <= month <= 12 && 1 <= day <= 31 && d
                    == DicomDate::Day(year, month, day),
                Err(e) => if year > 9999 {
                    e == (Error::InvalidComponent {
                        component: DateComponent::Year,
                        value: year as u32,
                    })
                } else if !(1 <= month <= 12) {
                    e == (Error::InvalidComponent {
                        component: DateComponent::Month,
                        value: month as u32,
                    })
                } else {
                    !(1 <= day <= 31) && e == (Error::InvalidComponent {
                        component: DateComponent::Day,
                        value: day as u32,
                    })
                },
            },
    {
        check_component(DateComponent::Year, year as u32)?;
        check_component(DateComponent::Month, month as u32)?;
        check_component(DateComponent::Day, day as u32)?;
        Ok(DicomDate::Day(year, month, day))
    }
}

/// A time of day with the precision it was given at. A fraction keeps the
/// number of significant digits it was written with: `Fraction(.., 5, 1)`
/// stands for the half-open tenth of a second, not for 5 microseconds.
#[derive(Debug, Clone, Copy, PartialEq, Eq, Structural)]
pub enum DicomTime {
    Hour(u8),
    Minute(u8, u8),
    Second(u8, u8, u8),
    Fraction(u8, u8, u8, u32, u8),
}

impl DicomTime {
    /// Whether every component present lies in its range, and a fraction
    /// fits its declared precision.
    pub open spec fn wf(self) -> bool {
        match self {
            DicomTime::Hour(h) => h <= 23,
            DicomTime::Minute(h, m) => h <= 23 && m <= 59,
            DicomTime::Second(h, m, s) => h <= 23 && m <= 59 && s <= 60,
            DicomTime::Fraction(h, m, s, f, fp) => h <= 23 && m <= 59 && s <= 60 && 1 <= fp <= 6
                && f < pow10(fp as nat),
        }
    }

    /// Build a time of hour precision.
    pub fn from_h(hour: u8) -> (r: Result<DicomTime, Error>)
        ensures
            match r {
                Ok(t) => hour <= 23 && t == DicomTime::Hour(hour),
                Err(e) => hour > 23 && e == (Error::InvalidComponent {
                    component: DateComponent::Hour,
                    value: hour as u32,
                }),
            },
    {
        check_component(DateComponent::Hour, hour as u32)?;
        Ok(DicomTime::Hour(hour))
    }

    /// Build a time of minute precision. The hour is checked first.
    pub fn from_hm(hour: u8, minute: u8) -> (r: Result<DicomTime, Error>)
        ensures
            match r {
                Ok(t) => hour <= 23 && minute <= 59 && t == DicomTime::Minute(hour, minute),
                Err(e) => if hour > 23 {
                    e == (Error::InvalidComponent {
                        component: DateComponent::Hour,
                        value: hour as u32,
                    })
                } else {
                    minute > 59 && e == (Error::InvalidComponent {
                        component: DateComponent::Minute,
                        value: minute as u32,
                    })
                },
            },
    {
        check_component(DateComponent::Hour, hour as u32)?;
        check_component(DateComponent::Minute, minute as u32)?;
        Ok(DicomTime::Minute(hour, minute))
    }

    /// Build a time of second precision. Components are checked in order;
    /// second 60 is admitted for leap seconds.
    pub fn from_hms(hour: u8, minute: u8, second: u8) -> (r: Result<DicomTime, Error>)
        ensures
            match r {
                Ok(t) => hour <= 23 && minute <= 59 && second <= 60 && t == DicomTime::Second(
                    hour,
                    minute,
                    second,
                ),
                Err(e) => if hour > 23 {
                    e == (Error::InvalidComponent {
                        component: DateComponent::Hour,
                        value: hour as u32,
                    })
                } else if minute > 59 {
                    e == (Error::InvalidComponent {
                        component: DateComponent::Minute,
                        value: minute as u32,
                    })
                } else {
                    second > 60 && e == (Error::InvalidComponent {
                        component: DateComponent::Second,
                        value: second as u32,
                    })
                },
            },
    {
        check_component(DateComponent::Hour, hour as u32)?;
        check_component(DateComponent::Minute, minute as u32)?;
        check_component(DateComponent::Second, second as u32)?;
        Ok(DicomTime::Second(hour, minute, second))
    }

    /// Build a time with a second fraction of `fraction_precision`
    /// significant digits. Components are checked in order: hour, minute,
    /// second, then the precision against 1..=6, then the fraction against
    /// the precision.
    pub fn from_hmsf(hour: u8, minute: u8, second: u8, fraction: u32, fraction_precision: u8) -> (r:
        Result<DicomTime, Error>)
        ensures
            match r {
                Ok(t) => hour <= 23 && minute <= 59 && second <= 60 && 1 <= fraction_precision <= 6
                    && fraction < pow10(fraction_precision as nat) && t == DicomTime::Fraction(
                    hour,
                    minute,
                    second,
                    fraction,
                    fraction_precision,
                ),
                Err(e) => if hour > 23 {
                    e == (Error::InvalidComponent {
                        component: DateComponent::Hour,
                        value: hour as u32,
                    })
                } else if minute > 59 {
                    e == (Error::InvalidComponent {
                        component: DateComponent::Minute,
                        value: minute as u32,
                    })
                } else if second > 60 {
                    e == (Error::InvalidComponent {
                        component: DateComponent::Second,
                        value: second as u32,
                    })
                } else if !(1 <= fraction_precision <= 6) {
                    e == (Error::InvalidFractionPrecision { precision: fraction_precision })
                } else {
                    fraction >= pow10(fraction_precision as nat) && e == (Error::InvalidComponent {
                        component: DateComponent::Fraction,
                        value: fraction,
                    })
                },
            },
    {
        check_component(DateComponent::Hour, hour as u32)?;
        check_component(DateComponent::Minute, minute as u32)?;
        check_component(DateComponent::Second, second as u32)?;
        if fraction_precision < 1 || fraction_precision > 6 {
            return Err(Error::InvalidFractionPrecision { precision: fraction_precision });
        }
        let bound = pow10_exec(fraction_precision);
        if fraction >= bound {
            return Err(Error::InvalidComponent {
                component: DateComponent::Fraction,
                value: fraction,
            });
        }
        Ok(DicomTime::Fraction(hour, minute, second, fraction, fraction_precision))
    }
}

/// Ten to the power `n`, for `n` up to 9.
pub fn pow10_exec(n: u8) -> (r: u32)
    requires
        n <= 9,
    ensures
        r == pow10(n as nat),
{
    let mut r: u32 = 1;
    let mut i: u8 = 0;
    while i < n
        invariant
            i <= n <= 9,
            r == pow10(i as nat),
        decreases n - i,
    {
        proof {
            lemma_pow10_monotonic(i as nat + 1, 9);
            reveal_with_fuel(pow10, 11);
            assert(pow10(9) == 1000000000);
            assert(pow10(i as nat + 1) == 10 * pow10(i as nat));
        }
        r = r * 10;
        i = i + 1;
        assert(r == pow10(i as nat));
    }
    r
}

/// `pow10` does not decrease from `m` to `n`.
pub proof fn lemma_pow10_monotonic(m: nat, n: nat)
    requires
        m <= n,
    ensures
        pow10(m) <= pow10(n),
    decreases n,
{
    if m < n {
        lemma_pow10_monotonic(m, (n - 1) as nat);
    }
}

/// A partial date, an optional partial time, and a fixed UTC offset in
/// seconds east of UTC.
#[derive(Debug, Clone, Copy, PartialEq, Eq, Structural)]
pub struct DicomDateTime {
    pub date: DicomDate,
    pub time: Option<DicomTime>,
    pub offset_seconds: i32,
}

impl DicomDateTime {
    /// Whether the parts are valid: a time may only accompany a date of
    /// day precision, and the offset is less than a day in magnitude.
    pub open spec fn wf(self) -> bool {
        &&& self.date.wf()
        &&& match self.time {
            Some(t) => t.wf() && self.date matches DicomDate::Day(_, _, _),
            None => true,
        }
        &&& -86400 < self.offset_seconds < 86400
    }

    /// Combine a date-only value with an offset.
    pub fn from_dicom_date(date: DicomDate, offset_seconds: i32) -> (r: DicomDateTime)
        ensures
            r == (DicomDateTime { date, time: None, offset_seconds }),
    {
        DicomDateTime { date, time: None, offset_seconds }
    }

    /// Combine a date, a time and an offset. The date must reach day
    /// precision, else no instant range is named and the call fails.
    pub fn from_dicom_date_and_time(date: DicomDate, time: DicomTime, offset_seconds: i32) -> (r:
        Result<DicomDateTime, Error>)
        ensures
            match r {
                Ok(dt) => (date matches DicomDate::Day(_, _, _)) && dt == (DicomDateTime {
                    date,
                    time: Some(time),
                    offset_seconds,
                }),
                Err(e) => !(date matches DicomDate::Day(_, _, _)) && e == Error::ImpreciseDate,
            },
    {
        match date {
            DicomDate::Day(_, _, _) => Ok(DicomDateTime { date, time: Some(time), offset_seconds }),
            _ => Err(Error::ImpreciseDate),
        }
    }
}

} // verus!
