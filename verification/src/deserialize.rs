//! Parsers for the textual DICOM date/time value representations.
//!
//! The DA, TM and DT representations are fixed-width decimal texts with
//! optional trailing components. Strict parsers (`parse_date`, `parse_time`,
//! `parse_datetime`) demand a fully specified value; partial parsers keep
//! the precision the text was written with, consuming the longest prefix
//! whose components read and validate cleanly.
//!
//! Every parser is a pure function of its input bytes; each one's behaviour
//! is pinned down by a specification function of the same shape
//! (`spec_parse_date` for `parse_date`, and so on).

use vstd::prelude::*;
use vstd::slice::slice_subrange;

use crate::calendar::{days_in_month_exec, valid_date, Date, DateTime, Time};
use crate::partial::Error as PartialError;
use crate::partial::{pow10, pow10_exec, DateComponent, DicomDate, DicomDateTime, DicomTime};

verus! {

/// Failure to decode a DICOM date, time or date-time text.
#[derive(Debug, Clone, Copy, PartialEq, Eq)]
pub enum Error {
    /// The text ends before a required component.
    UnexpectedEndOfElement,
    /// The components do not name a day of the Gregorian calendar.
    InvalidDate,
    /// The components do not name a time of day.
    InvalidTime,
    /// A date and a time could not be combined.
    InvalidDateTime { source: PartialError },
    /// The time zone suffix does not name a fixed UTC offset.
    InvalidDateTimeZone,
    /// The byte where the fraction delimiter '.' was expected.
    FractionDelimiter { value: u8 },
    /// A decimal number field of `len` bytes; it must have 1 to 9.
    InvalidNumberLength { len: usize },
    /// The first byte of a decimal number field that is not a digit.
    InvalidNumberToken { value: u8 },
    /// The byte where the time zone sign '+' or '-' was expected.
    InvalidTimeZoneSignToken { value: u8 },
    /// The text ends with the named component missing.
    IncompleteValue { component: DateComponent },
    /// A component of a strict value lies outside its range.
    InvalidComponent { source: PartialError },
    /// A component of a partial value lies outside its range.
    PartialValue { source: PartialError },
}

/// Whether `b` is an ASCII decimal digit.
pub open spec fn is_digit(b: u8) -> bool {
    48 <= b <= 57
}

/// Whether every byte of `s` is an ASCII decimal digit.
pub open spec fn all_digits(s: Seq<u8>) -> bool {
    forall|i: int| 0 <= i < s.len() ==> is_digit(#[trigger] s[i])
}

/// The value of `s` read as a decimal numeral, most significant digit first.
pub open spec fn num_val(s: Seq<u8>) -> int
    decreases s.len(),
{
    if s.len() == 0 {
        0
    } else {
        num_val(s.drop_last()) * 10 + (s.last() - 48)
    }
}

/// The first byte of `s` that is not a decimal digit
/// (zero if every byte is one).
pub open spec fn first_non_digit(s: Seq<u8>) -> u8
    decreases s.len(),
{
    if s.len() == 0 {
        0
    } else if !is_digit(s[0]) {
        s[0]
    } else {
        first_non_digit(s.skip(1))
    }
}

/// The length of the longest prefix of `s` made of decimal digits.
pub open spec fn digits_prefix_len(s: Seq<u8>) -> int
    decreases s.len(),
{
    if s.len() == 0 || !is_digit(s[0]) {
        0
    } else {
        1 + digits_prefix_len(s.skip(1))
    }
}

/// What `read_number` returns: the decimal value of a field of 1 to 9
/// digit bytes, or the error naming what is wrong with the field.
pub open spec fn spec_read_number(s: Seq<u8>) -> Result<u32, Error> {
    if s.len() < 1 || s.len() > 9 {
        Err(Error::InvalidNumberLength { len: s.len() as usize })
    } else if !all_digits(s) {
        Err(Error::InvalidNumberToken { value: first_non_digit(s) })
    } else {
        Ok((num_val(s) as u32))
    }
}

/// A decimal numeral of digit count `len` is below ten to the `len`.
pub proof fn lemma_num_val_bound(s: Seq<u8>)
    requires
        all_digits(s),
    ensures
        0 <= num_val(s) < pow10(s.len()),
    decreases s.len(),
{
    if s.len() == 0 {
    } else {
        assert forall|i: int| 0 <= i < s.drop_last().len() implies is_digit(
            #[trigger] s.drop_last()[i],
        ) by {
            assert(s.drop_last()[i] == s[i]);
        }
        lemma_num_val_bound(s.drop_last());
        assert(is_digit(s.last()));
        assert(pow10(s.len()) == 10 * pow10(s.drop_last().len()));
    }
}

proof fn lemma_first_non_digit_at(s: Seq<u8>, i: int)
    requires
        0 <= i < s.len(),
        !is_digit(s[i]),
        forall|j: int| 0 <= j < i ==> is_digit(#[trigger] s[j]),
    ensures
        first_non_digit(s) == s[i],
    decreases i,
{
    if i == 0 {
    } else {
        assert(is_digit(s[0]));
        assert forall|j: int| 0 <= j < i - 1 implies is_digit(#[trigger] s.skip(1)[j]) by {
            assert(s.skip(1)[j] == s[j + 1]);
        }
        assert(s.skip(1)[i - 1] == s[i]);
        lemma_first_non_digit_at(s.skip(1), i - 1);
    }
}

proof fn lemma_digits_prefix_len_bounds(s: Seq<u8>)
    ensures
        0 <= digits_prefix_len(s) <= s.len(),
    decreases s.len(),
{
    if s.len() == 0 || !is_digit(s[0]) {
    } else {
        lemma_digits_prefix_len_bounds(s.skip(1));
    }
}

proof fn lemma_digits_prefix_at_least(s: Seq<u8>, n: int)
    requires
        0 <= n <= s.len(),
        forall|j: int| 0 <= j < n ==> is_digit(#[trigger] s[j]),
    ensures
        digits_prefix_len(s) >= n,
    decreases n,
{
    lemma_digits_prefix_len_bounds(s);
    if n > 0 {
        assert(is_digit(s[0]));
        assert forall|j: int| 0 <= j < n - 1 implies is_digit(#[trigger] s.skip(1)[j]) by {
            assert(s.skip(1)[j] == s[j + 1]);
        }
        lemma_digits_prefix_at_least(s.skip(1), n - 1);
    }
}

proof fn lemma_digits_prefix_exact(s: Seq<u8>, n: int)
    requires
        0 <= n <= s.len(),
        forall|j: int| 0 <= j < n ==> is_digit(#[trigger] s[j]),
        n < s.len() ==> !is_digit(s[n]),
    ensures
        digits_prefix_len(s) == n,
    decreases n,
{
    if n == 0 {
    } else {
        assert(is_digit(s[0]));
        assert forall|j: int| 0 <= j < n - 1 implies is_digit(#[trigger] s.skip(1)[j]) by {
            assert(s.skip(1)[j] == s[j + 1]);
        }
        if n < s.len() {
            assert(s.skip(1)[n - 1] == s[n]);
        }
        lemma_digits_prefix_exact(s.skip(1), n - 1);
    }
}

/// Retrieve the decimal value of a numeric text field.
///
/// The field must have 1 to 9 bytes, each an ASCII digit; nine digits at
/// most keep the value below 10^9. The exact error is returned otherwise.
pub fn read_number(text: &[u8]) -> (r: Result<u32, Error>)
    ensures
        r == spec_read_number(text@),
{
    if text.len() < 1 || text.len() > 9 {
        return Err(Error::InvalidNumberLength { len: text.len() });
    }
    let mut i: usize = 0;
    while i < text.len()
        invariant
            0 <= i <= text@.len() <= 9,
            forall|j: int| 0 <= j < i ==> is_digit(#[trigger] text@[j]),
        decreases text@.len() - i,
    {
        let b = text[i];
        if b < 48 || b > 57 {
            proof {
                lemma_first_non_digit_at(text@, i as int);
            }
            return Err(Error::InvalidNumberToken { value: b });
        }
        i = i + 1;
    }
    assert(all_digits(text@));
    proof {
        lemma_num_val_bound(text@);
        crate::partial::lemma_pow10_monotonic(text@.len(), 9);
        reveal_with_fuel(pow10, 11);
    }
    Ok(read_number_unchecked(text))
}

/// Retrieve the decimal value of a field already known to hold
/// 1 to 9 ASCII digits.
pub fn read_number_unchecked(buf: &[u8]) -> (r: u32)
    requires
        1 <= buf@.len() <= 9,
        all_digits(buf@),
    ensures
        r == num_val(buf@),
{
    assert(is_digit(buf@[0]));
    let mut acc: u32 = (buf[0] - 48) as u32;
    let mut i: usize = 1;
    proof {
        assert(buf@.take(1).drop_last() =~= Seq::<u8>::empty());
        assert(buf@.take(1).last() == buf@[0]);
        assert(num_val(Seq::<u8>::empty()) == 0);
        assert(num_val(buf@.take(1)) == buf@[0] - 48);
    }
    while i < buf.len()
        invariant
            1 <= i <= buf@.len() <= 9,
            all_digits(buf@),
            acc == num_val(buf@.take(i as int)),
        decreases buf@.len() - i,
    {
        proof {
            assert forall|j: int| 0 <= j < i implies is_digit(
                #[trigger] buf@.take(i as int)[j],
            ) by {
                assert(buf@.take(i as int)[j] == buf@[j]);
            }
            lemma_num_val_bound(buf@.take(i as int));
            crate::partial::lemma_pow10_monotonic(i as nat, 8);
            reveal_with_fuel(pow10, 11);
        }
        assert(is_digit(buf@[i as int]));
        let d = buf[i] - 48;
        acc = acc * 10 + d as u32;
        proof {
            assert(buf@.take(i + 1).drop_last() =~= buf@.take(i as int));
            assert(buf@.take(i + 1).last() == buf@[i as int]);
        }
        i = i + 1;
    }
    proof {
        assert(buf@.take(buf@.len() as int) =~= buf@);
    }
    acc
}

/// Read the decimal field `buf[from..to]`.
fn read_number_at(buf: &[u8], from: usize, to: usize) -> (r: Result<u32, Error>)
    requires
        from <= to <= buf@.len(),
    ensures
        r == spec_read_number(buf@.subrange(from as int, to as int)),
{
    read_number(slice_subrange(buf, from, to))
}

/// What `parse_date` returns for input `s`: a full date read from the
/// first eight bytes, or the error naming the first thing wrong with them.
pub open spec fn spec_parse_date(s: Seq<u8>) -> Result<Date, Error> {
    if s.len() == 4 {
        match spec_read_number(s.subrange(0, 4)) {
            Err(e) => Err(e),
            Ok(_) => Err(Error::IncompleteValue { component: DateComponent::Month }),
        }
    } else if s.len() == 6 {
        match spec_read_number(s.subrange(0, 4)) {
            Err(e) => Err(e),
            Ok(_) => match spec_read_number(s.subrange(4, 6)) {
                Err(e) => Err(e),
                Ok(m) => if !(1 <= m <= 12) {
                    Err(Error::InvalidComponent {
                        source: PartialError::InvalidComponent {
                            component: DateComponent::Month,
                            value: m,
                        },
                    })
                } else {
                    Err(Error::IncompleteValue { component: DateComponent::Day })
                },
            },
        }
    } else if s.len() >= 8 {
        match spec_read_number(s.subrange(0, 4)) {
            Err(e) => Err(e),
            Ok(y) => match spec_read_number(s.subrange(4, 6)) {
                Err(e) => Err(e),
                Ok(m) => if !(1 <= m <= 12) {
                    Err(Error::InvalidComponent {
                        source: PartialError::InvalidComponent {
                            component: DateComponent::Month,
                            value: m,
                        },
                    })
                } else {
                    match spec_read_number(s.subrange(6, 8)) {
                        Err(e) => Err(e),
                        Ok(d) => if !(1 <= d <= 31) {
                            Err(Error::InvalidComponent {
                                source: PartialError::InvalidComponent {
                                    component: DateComponent::Day,
                                    value: d,
                                },
                            })
                        } else if valid_date(y as int, m as int, d as int) {
                            Ok(Date { year: y as u16, month: m as u8, day: d as u8 })
                        } else {
                            Err(Error::InvalidDate)
                        },
                    }
                },
            },
        }
    } else {
        Err(Error::UnexpectedEndOfElement)
    }
}

/// Decode a single DICOM Date (DA) into a full calendar date.
///
/// The full eight-byte form YYYYMMDD is required; bytes after the eighth
/// are ignored. Four- and six-byte prefixes fail with the first missing
/// component; any other length fails with `UnexpectedEndOfElement`.
pub fn parse_date(buf: &[u8]) -> (r: Result<Date, Error>)
    ensures
        r == spec_parse_date(buf@),
        r matches Ok(d) ==> d.wf(),
{
    if buf.len() == 4 {
        match read_number_at(buf, 0, 4) {
            Err(e) => Err(e),
            Ok(_) => Err(Error::IncompleteValue { component: DateComponent::Month }),
        }
    } else if buf.len() == 6 {
        match read_number_at(buf, 0, 4) {
            Err(e) => Err(e),
            Ok(_) => match read_number_at(buf, 4, 6) {
                Err(e) => Err(e),
                Ok(m) => {
                    match crate::partial::check_component(DateComponent::Month, m) {
                        Err(e) => Err(Error::InvalidComponent { source: e }),
                        Ok(()) => Err(Error::IncompleteValue { component: DateComponent::Day }),
                    }
                },
            },
        }
    } else if buf.len() >= 8 {
        let y = match read_number_at(buf, 0, 4) {
            Err(e) => return Err(e),
            Ok(v) => v,
        };
        let m = match read_number_at(buf, 4, 6) {
            Err(e) => return Err(e),
            Ok(v) => v,
        };
        if let Err(e) = crate::partial::check_component(DateComponent::Month, m) {
            return Err(Error::InvalidComponent { source: e });
        }
        let d = match read_number_at(buf, 6, 8) {
            Err(e) => return Err(e),
            Ok(v) => v,
        };
        if let Err(e) = crate::partial::check_component(DateComponent::Day, d) {
            return Err(Error::InvalidComponent { source: e });
        }
        proof {
            lemma_num_val_bound(buf@.subrange(0, 4));
            reveal_with_fuel(pow10, 11);
        }
        assert(y <= 9999);
        if d <= days_in_month_exec(y as u16, m as u8) as u32 {
            Ok(Date { year: y as u16, month: m as u8, day: d as u8 })
        } else {
            Err(Error::InvalidDate)
        }
    } else {
        Err(Error::UnexpectedEndOfElement)
    }
}

/// What `parse_date_partial` returns for input `s`: the date made of the
/// components that read and validate cleanly, with the count of bytes
/// consumed, or the error for a component that read but did not validate.
pub open spec fn spec_parse_date_partial(s: Seq<u8>) -> Result<(DicomDate, int), Error> {
    if s.len() < 4 {
        Err(Error::UnexpectedEndOfElement)
    } else {
        match spec_read_number(s.subrange(0, 4)) {
            Err(e) => Err(e),
            Ok(y) => if s.len() < 6 {
                Ok((DicomDate::Year(y as u16), 4))
            } else {
                match spec_read_number(s.subrange(4, 6)) {
                    Err(_) => Ok((DicomDate::Year(y as u16), 4)),
                    Ok(m) => if !(1 <= m <= 12) {
                        Err(Error::PartialValue {
                            source: PartialError::InvalidComponent {
                                component: DateComponent::Month,
                                value: m,
                            },
                        })
                    } else if s.len() < 8 {
                        Ok((DicomDate::Month(y as u16, m as u8), 6))
                    } else {
                        match spec_read_number(s.subrange(6, 8)) {
                            Err(_) => Ok((DicomDate::Month(y as u16, m as u8), 6)),
                            Ok(d) => if !(1 <= d <= 31) {
                                Err(Error::PartialValue {
                                    source: PartialError::InvalidComponent {
                                        component: DateComponent::Day,
                                        value: d,
                                    },
                                })
                            } else {
                                Ok((DicomDate::Day(y as u16, m as u8, d as u8), 8))
                            },
                        }
                    },
                }
            },
        }
    }
}

/// Decode a single DICOM Date (DA) into a precision-tagged date.
///
/// Unlike `parse_date`, incomplete forms YYYY and YYYYMM are accepted, and
/// the precision is kept. The unconsumed tail of the input is returned: a
/// trailing component that fails to read as digits is left unconsumed,
/// while one that reads but falls outside its range is a hard error.
/// Day-of-month validity against the month length is not checked here.
pub fn parse_date_partial(buf: &[u8]) -> (r: Result<(DicomDate, &[u8]), Error>)
    ensures
        match r {
            Ok((date, rest)) => spec_parse_date_partial(buf@) matches Ok(p) && date == p.0
                && 0 <= p.1 <= buf@.len() && rest@ == buf@.subrange(p.1, buf@.len() as int)
                && date.wf(),
            Err(e) => spec_parse_date_partial(buf@) == Err::<(DicomDate, int), Error>(e),
        },
{
    if buf.len() < 4 {
        return Err(Error::UnexpectedEndOfElement);
    }
    let y = match read_number_at(buf, 0, 4) {
        Err(e) => return Err(e),
        Ok(v) => v,
    };
    proof {
        lemma_num_val_bound(buf@.subrange(0, 4));
        reveal_with_fuel(pow10, 11);
    }
    assert(y <= 9999);
    if buf.len() < 6 {
        match DicomDate::from_y(y as u16) {
            Ok(date) => return Ok((date, slice_subrange(buf, 4, buf.len()))),
            Err(e) => return Err(Error::PartialValue { source: e }),
        }
    }
    let m = match read_number_at(buf, 4, 6) {
        Err(_) => match DicomDate::from_y(y as u16) {
            Ok(date) => return Ok((date, slice_subrange(buf, 4, buf.len()))),
            Err(e) => return Err(Error::PartialValue { source: e }),
        },
        Ok(v) => v,
    };
    proof {
        lemma_num_val_bound(buf@.subrange(4, 6));
        reveal_with_fuel(pow10, 11);
    }
    assert(m <= 99);
    if let Err(e) = crate::partial::check_component(DateComponent::Month, m) {
        return Err(Error::PartialValue { source: e });
    }
    if buf.len() < 8 {
        match DicomDate::from_ym(y as u16, m as u8) {
            Ok(date) => return Ok((date, slice_subrange(buf, 6, buf.len()))),
            Err(e) => return Err(Error::PartialValue { source: e }),
        }
    }
    let d = match read_number_at(buf, 6, 8) {
        Err(_) => match DicomDate::from_ym(y as u16, m as u8) {
            Ok(date) => return Ok((date, slice_subrange(buf, 6, buf.len()))),
            Err(e) => return Err(Error::PartialValue { source: e }),
        },
        Ok(v) => v,
    };
    proof {
        lemma_num_val_bound(buf@.subrange(6, 8));
        reveal_with_fuel(pow10, 11);
    }
    assert(d <= 99);
    if let Err(e) = crate::partial::check_component(DateComponent::Day, d) {
        return Err(Error::PartialValue { source: e });
    }
    match DicomDate::from_ymd(y as u16, m as u8, d as u8) {
        Ok(date) => Ok((date, slice_subrange(buf, 8, buf.len()))),
        Err(e) => Err(Error::PartialValue { source: e }),
    }
}

/// Ten to a sum of powers is the product of ten to each power.
pub proof fn lemma_pow10_adds(a: nat, b: nat)
    ensures
        pow10(a + b) == pow10(a) * pow10(b),
    decreases a,
{
    if a == 0 {
        assert(pow10(0 + b) == 1 * pow10(b));
    } else {
        lemma_pow10_adds((a - 1) as nat, b);
        assert(pow10(a + b) == 10 * pow10((a - 1) as nat + b));
        assert(10 * (pow10((a - 1) as nat) * pow10(b)) == (10 * pow10((a - 1) as nat)) * pow10(
            b,
        )) by (nonlinear_arith);
    }
}

/// Count the digits at the front of `buf[start..]`, up to six.
fn digits_prefix_upto6(buf: &[u8], start: usize) -> (n: usize)
    requires
        start <= buf@.len(),
    ensures
        start + n <= buf@.len(),
        ({
            let d = digits_prefix_len(buf@.skip(start as int));
            n == if d < 6 {
                d
            } else {
                6
            }
        }),
{
    let ghost t = buf@.skip(start as int);
    let end = buf.len();
    let mut n: usize = 0;
    while n < 6 && start + n < end
        invariant_except_break
            n <= 6,
            end == buf@.len(),
            start + n <= end,
            t == buf@.skip(start as int),
            forall|j: int| 0 <= j < n ==> is_digit(#[trigger] t[j]),
        ensures
            n <= 6,
            start + n <= buf@.len(),
            t == buf@.skip(start as int),
            forall|j: int| 0 <= j < n ==> is_digit(#[trigger] t[j]),
            n == 6 || start + n == buf@.len() || !is_digit(t[n as int]),
        decreases 6 - n,
    {
        let b = buf[start + n];
        assert(t[n as int] == buf@[start + n]);
        if b < 48 || b > 57 {
            break ;
        }
        n = n + 1;
    }
    proof {
        lemma_digits_prefix_len_bounds(t);
        if n < 6 {
            lemma_digits_prefix_exact(t, n as int);
        } else {
            lemma_digits_prefix_at_least(t, 6);
        }
    }
    n
}

/// What `parse_time_partial` returns for input `s`: the time made of the
/// components that read and validate cleanly, with the count of bytes
/// consumed. A second fraction is taken only after a '.', keeping its
/// digit count (at most six) as the precision.
pub open spec fn spec_parse_time_partial(s: Seq<u8>) -> Result<(DicomTime, int), Error> {
    if s.len() < 2 {
        Err(Error::UnexpectedEndOfElement)
    } else {
        match spec_read_number(s.subrange(0, 2)) {
            Err(e) => Err(e),
            Ok(h) => if h > 23 {
                Err(Error::PartialValue {
                    source: PartialError::InvalidComponent {
                        component: DateComponent::Hour,
                        value: h,
                    },
                })
            } else if s.len() < 4 {
                Ok((DicomTime::Hour(h as u8), 2))
            } else {
                match spec_read_number(s.subrange(2, 4)) {
                    Err(_) => Ok((DicomTime::Hour(h as u8), 2)),
                    Ok(m) => if m > 59 {
                        Err(Error::PartialValue {
                            source: PartialError::InvalidComponent {
                                component: DateComponent::Minute,
                                value: m,
                            },
                        })
                    } else if s.len() < 6 {
                        Ok((DicomTime::Minute(h as u8, m as u8), 4))
                    } else {
                        match spec_read_number(s.subrange(4, 6)) {
                            Err(_) => Ok((DicomTime::Minute(h as u8, m as u8), 4)),
                            Ok(sec) => if sec > 60 {
                                Err(Error::PartialValue {
                                    source: PartialError::InvalidComponent {
                                        component: DateComponent::Second,
                                        value: sec,
                                    },
                                })
                            } else if s.len() > 7 && s[6] == 46 {
                                let d = digits_prefix_len(s.skip(7));
                                let n = if d < 6 {
                                    d
                                } else {
                                    6
                                };
                                match spec_read_number(s.subrange(7, 7 + n)) {
                                    Err(e) => Err(e),
                                    Ok(f) => Ok(
                                        (
                                            DicomTime::Fraction(
                                                h as u8,
                                                m as u8,
                                                sec as u8,
                                                f,
                                                n as u8,
                                            ),
                                            7 + n,
                                        ),
                                    ),
                                }
                            } else {
                                Ok((DicomTime::Second(h as u8, m as u8, sec as u8), 6))
                            },
                        }
                    },
                }
            },
        }
    }
}

/// Decode a single DICOM Time (TM) into a precision-tagged time.
///
/// Unlike `parse_time`, missing trailing components are accepted and the
/// precision of the second fraction is kept without padding: a one-digit
/// fraction stays one digit. The unconsumed tail of the input is returned.
pub fn parse_time_partial(buf: &[u8]) -> (r: Result<(DicomTime, &[u8]), Error>)
    ensures
        match r {
            Ok((time, rest)) => spec_parse_time_partial(buf@) matches Ok(p) && time == p.0
                && 0 <= p.1 <= buf@.len() && rest@ == buf@.subrange(p.1, buf@.len() as int)
                && time.wf(),
            Err(e) => spec_parse_time_partial(buf@) == Err::<(DicomTime, int), Error>(e),
        },
{
    if buf.len() < 2 {
        return Err(Error::UnexpectedEndOfElement);
    }
    let h = match read_number_at(buf, 0, 2) {
        Err(e) => return Err(e),
        Ok(v) => v,
    };
    proof {
        lemma_num_val_bound(buf@.subrange(0, 2));
        reveal_with_fuel(pow10, 11);
    }
    assert(h <= 99);
    if let Err(e) = crate::partial::check_component(DateComponent::Hour, h) {
        return Err(Error::PartialValue { source: e });
    }
    if buf.len() < 4 {
        match DicomTime::from_h(h as u8) {
            Ok(time) => return Ok((time, slice_subrange(buf, 2, buf.len()))),
            Err(e) => return Err(Error::PartialValue { source: e }),
        }
    }
    let m = match read_number_at(buf, 2, 4) {
        Err(_) => match DicomTime::from_h(h as u8) {
            Ok(time) => return Ok((time, slice_subrange(buf, 2, buf.len()))),
            Err(e) => return Err(Error::PartialValue { source: e }),
        },
        Ok(v) => v,
    };
    proof {
        lemma_num_val_bound(buf@.subrange(2, 4));
        reveal_with_fuel(pow10, 11);
    }
    assert(m <= 99);
    if let Err(e) = crate::partial::check_component(DateComponent::Minute, m) {
        return Err(Error::PartialValue { source: e });
    }
    if buf.len() < 6 {
        match DicomTime::from_hm(h as u8, m as u8) {
            Ok(time) => return Ok((time, slice_subrange(buf, 4, buf.len()))),
            Err(e) => return Err(Error::PartialValue { source: e }),
        }
    }
    let sec = match read_number_at(buf, 4, 6) {
        Err(_) => match DicomTime::from_hm(h as u8, m as u8) {
            Ok(time) => return Ok((time, slice_subrange(buf, 4, buf.len()))),
            Err(e) => return Err(Error::PartialValue { source: e }),
        },
        Ok(v) => v,
    };
    proof {
        lemma_num_val_bound(buf@.subrange(4, 6));
        reveal_with_fuel(pow10, 11);
    }
    assert(sec <= 99);
    if let Err(e) = crate::partial::check_component(DateComponent::Second, sec) {
        return Err(Error::PartialValue { source: e });
    }
    if buf.len() > 7 && buf[6] == 46 {
        let n = digits_prefix_upto6(buf, 7);
        let f = match read_number_at(buf, 7, 7 + n) {
            Err(e) => return Err(e),
            Ok(v) => v,
        };
        proof {
            lemma_num_val_bound(buf@.subrange(7, 7 + n as int));
        }
        match DicomTime::from_hmsf(h as u8, m as u8, sec as u8, f, n as u8) {
            Ok(time) => Ok((time, slice_subrange(buf, 7 + n, buf.len()))),
            Err(e) => Err(Error::PartialValue { source: e }),
        }
    } else {
        match DicomTime::from_hms(h as u8, m as u8, sec as u8) {
            Ok(time) => Ok((time, slice_subrange(buf, 6, buf.len()))),
            Err(e) => Err(Error::PartialValue { source: e }),
        }
    }
}

/// What `parse_time` returns for input `s`: a time with the fraction
/// right-padded to microsecond precision, with the count of bytes
/// consumed, or the error naming the first thing wrong. The fraction with
/// its '.' delimiter is required; two-, four- and six-byte prefixes fail
/// with the first missing component.
pub open spec fn spec_parse_time(s: Seq<u8>) -> Result<(Time, int), Error> {
    if s.len() == 2 || s.len() == 4 || s.len() == 6 || s.len() >= 8 {
        match spec_read_number(s.subrange(0, 2)) {
            Err(e) => Err(e),
            Ok(h) => if h > 23 {
                Err(Error::InvalidComponent {
                    source: PartialError::InvalidComponent {
                        component: DateComponent::Hour,
                        value: h,
                    },
                })
            } else if s.len() == 2 {
                Err(Error::IncompleteValue { component: DateComponent::Minute })
            } else {
                match spec_read_number(s.subrange(2, 4)) {
                    Err(e) => Err(e),
                    Ok(m) => if m > 59 {
                        Err(Error::InvalidComponent {
                            source: PartialError::InvalidComponent {
                                component: DateComponent::Minute,
                                value: m,
                            },
                        })
                    } else if s.len() == 4 {
                        Err(Error::IncompleteValue { component: DateComponent::Second })
                    } else {
                        match spec_read_number(s.subrange(4, 6)) {
                            Err(e) => Err(e),
                            Ok(sec) => if sec > 60 {
                                Err(Error::InvalidComponent {
                                    source: PartialError::InvalidComponent {
                                        component: DateComponent::Second,
                                        value: sec,
                                    },
                                })
                            } else if s.len() == 6 {
                                Err(Error::IncompleteValue { component: DateComponent::Fraction })
                            } else if s[6] != 46 {
                                Err(Error::FractionDelimiter { value: s[6] })
                            } else {
                                let d = digits_prefix_len(s.skip(7));
                                let n = if d < 6 {
                                    d
                                } else {
                                    6
                                };
                                match spec_read_number(s.subrange(7, 7 + n)) {
                                    Err(e) => Err(e),
                                    Ok(f) => Ok(
                                        (
                                            Time {
                                                hour: h as u8,
                                                minute: m as u8,
                                                second: sec as u8,
                                                microsecond: (f * pow10((6 - n) as nat)) as u32,
                                            },
                                            7 + n,
                                        ),
                                    ),
                                }
                            },
                        }
                    },
                }
            },
        }
    } else {
        Err(Error::UnexpectedEndOfElement)
    }
}

/// Decode a single DICOM Time (TM) into a full time of day.
///
/// At least the form HHMMSS.F is required: the second fraction must be
/// present with one to six digits, and is right-padded with zeros to
/// microsecond precision. The unconsumed tail of the input is returned.
/// For missing components, or to keep the written precision, use
/// `parse_time_partial`.
pub fn parse_time(buf: &[u8]) -> (r: Result<(Time, &[u8]), Error>)
    ensures
        match r {
            Ok((time, rest)) => spec_parse_time(buf@) matches Ok(p) && time == p.0 && 0 <= p.1
                <= buf@.len() && rest@ == buf@.subrange(p.1, buf@.len() as int) && time.wf(),
            Err(e) => spec_parse_time(buf@) == Err::<(Time, int), Error>(e),
        },
{
    if !(buf.len() == 2 || buf.len() == 4 || buf.len() == 6 || buf.len() >= 8) {
        return Err(Error::UnexpectedEndOfElement);
    }
    let h = match read_number_at(buf, 0, 2) {
        Err(e) => return Err(e),
        Ok(v) => v,
    };
    proof {
        lemma_num_val_bound(buf@.subrange(0, 2));
        reveal_with_fuel(pow10, 11);
    }
    assert(h <= 99);
    if let Err(e) = crate::partial::check_component(DateComponent::Hour, h) {
        return Err(Error::InvalidComponent { source: e });
    }
    if buf.len() == 2 {
        return Err(Error::IncompleteValue { component: DateComponent::Minute });
    }
    let m = match read_number_at(buf, 2, 4) {
        Err(e) => return Err(e),
        Ok(v) => v,
    };
    proof {
        lemma_num_val_bound(buf@.subrange(2, 4));
        reveal_with_fuel(pow10, 11);
    }
    assert(m <= 99);
    if let Err(e) = crate::partial::check_component(DateComponent::Minute, m) {
        return Err(Error::InvalidComponent { source: e });
    }
    if buf.len() == 4 {
        return Err(Error::IncompleteValue { component: DateComponent::Second });
    }
    let sec = match read_number_at(buf, 4, 6) {
        Err(e) => return Err(e),
        Ok(v) => v,
    };
    proof {
        lemma_num_val_bound(buf@.subrange(4, 6));
        reveal_with_fuel(pow10, 11);
    }
    assert(sec <= 99);
    if let Err(e) = crate::partial::check_component(DateComponent::Second, sec) {
        return Err(Error::InvalidComponent { source: e });
    }
    if buf.len() == 6 {
        return Err(Error::IncompleteValue { component: DateComponent::Fraction });
    }
    let delim = buf[6];
    if delim != 46 {
        return Err(Error::FractionDelimiter { value: delim });
    }
    let n = digits_prefix_upto6(buf, 7);
    let f = match read_number_at(buf, 7, 7 + n) {
        Err(e) => return Err(e),
        Ok(v) => v,
    };
    proof {
        lemma_num_val_bound(buf@.subrange(7, 7 + n as int));
        lemma_pow10_adds(n as nat, (6 - n) as nat);
        reveal_with_fuel(pow10, 11);
        assert(f * pow10((6 - n) as nat) < pow10(n as nat) * pow10((6 - n) as nat)) by (
        nonlinear_arith)
            requires
                f < pow10(n as nat),
                pow10((6 - n) as nat) > 0,
        ;
    }
    let micros = f * pow10_exec((6 - n) as u8);
    match Time::from_hms_micro(h as u8, m as u8, sec as u8, micros) {
        Some(time) => Ok((time, slice_subrange(buf, 7 + n, buf.len()))),
        None => Err(Error::InvalidTime),
    }
}

/// Combine a partial date, an optional partial time and an offset,
/// as `parse_datetime_partial` does after the pieces are read.
pub open spec fn spec_build_datetime(
    date: DicomDate,
    time: Option<DicomTime>,
    offset_seconds: i32,
) -> Result<DicomDateTime, Error> {
    match time {
        Some(t) => if date matches DicomDate::Day(_, _, _) {
            Ok(DicomDateTime { date, time, offset_seconds })
        } else {
            Err(Error::InvalidDateTime { source: PartialError::ImpreciseDate })
        },
        None => Ok(DicomDateTime { date, time: None, offset_seconds }),
    }
}

/// What `parse_datetime` returns for input `s` under the default offset:
/// a full date, a full time on the bytes after the date, and either a
/// five-byte time zone suffix or, with nothing after the time, the
/// default offset. Bytes after the suffix are ignored.
pub open spec fn spec_parse_datetime(s: Seq<u8>, dt_utc_offset: i32) -> Result<DateTime, Error> {
    match spec_parse_date(s) {
        Err(e) => Err(e),
        Ok(date) => match spec_parse_time(s.skip(8)) {
            Err(e) => Err(e),
            Ok(p) => {
                let rest = s.skip(8).subrange(p.1, s.skip(8).len() as int);
                if rest.len() == 0 {
                    Ok(DateTime { date, time: p.0, offset_seconds: dt_utc_offset })
                } else if rest.len() > 4 {
                    match spec_read_number(rest.subrange(1, 3)) {
                        Err(e) => Err(e),
                        Ok(th) => match spec_read_number(rest.subrange(3, 5)) {
                            Err(e) => Err(e),
                            Ok(tm) => {
                                let secs = (th * 60 + tm) * 60;
                                if rest[0] == 43 {
                                    if secs < 86400 {
                                        Ok(
                                            DateTime {
                                                date,
                                                time: p.0,
                                                offset_seconds: secs as i32,
                                            },
                                        )
                                    } else {
                                        Err(Error::InvalidDateTimeZone)
                                    }
                                } else if rest[0] == 45 {
                                    if secs < 86400 {
                                        Ok(
                                            DateTime {
                                                date,
                                                time: p.0,
                                                offset_seconds: (-(secs as int)) as i32,
                                            },
                                        )
                                    } else {
                                        Err(Error::InvalidDateTimeZone)
                                    }
                                } else {
                                    Err(Error::InvalidTimeZoneSignToken { value: rest[0] })
                                }
                            },
                        },
                    }
                } else {
                    Err(Error::UnexpectedEndOfElement)
                }
            },
        },
    }
}

/// Retrieve a full DICOM DateTime (DT) from `buf`, assuming the given
/// default UTC offset (in seconds east) where the text carries none.
///
/// The date and the time, fraction included, must be fully specified.
/// A suffix of sign, two hour digits and two minute digits selects the
/// offset instead of the default; an offset of a day or more is refused.
/// Bytes after the suffix are ignored.
pub fn parse_datetime(buf: &[u8], dt_utc_offset: i32) -> (r: Result<DateTime, Error>)
    requires
        -86400 < dt_utc_offset < 86400,
    ensures
        r == spec_parse_datetime(buf@, dt_utc_offset),
        r matches Ok(dt) ==> dt.wf(),
{
    let date = match parse_date(buf) {
        Err(e) => return Err(e),
        Ok(d) => d,
    };
    assert(buf@.len() >= 8);
    let (time, rest) = match parse_time(slice_subrange(buf, 8, buf.len())) {
        Err(e) => return Err(e),
        Ok(p) => p,
    };
    if rest.len() == 0 {
        return Ok(DateTime { date, time, offset_seconds: dt_utc_offset });
    }
    if rest.len() > 4 {
        let tz_sign = rest[0];
        let th = match read_number_at(rest, 1, 3) {
            Err(e) => return Err(e),
            Ok(v) => v,
        };
        let tm = match read_number_at(rest, 3, 5) {
            Err(e) => return Err(e),
            Ok(v) => v,
        };
        proof {
            lemma_num_val_bound(rest@.subrange(1, 3));
            lemma_num_val_bound(rest@.subrange(3, 5));
            reveal_with_fuel(pow10, 11);
        }
        assert(th <= 99 && tm <= 99);
        let secs = (th * 60 + tm) * 60;
        if tz_sign == 43 {
            if secs < 86400 {
                Ok(DateTime { date, time, offset_seconds: secs as i32 })
            } else {
                Err(Error::InvalidDateTimeZone)
            }
        } else if tz_sign == 45 {
            if secs < 86400 {
                Ok(DateTime { date, time, offset_seconds: -(secs as i32) })
            } else {
                Err(Error::InvalidDateTimeZone)
            }
        } else {
            Err(Error::InvalidTimeZoneSignToken { value: tz_sign })
        }
    } else {
        Err(Error::UnexpectedEndOfElement)
    }
}

/// What `parse_datetime_partial` returns for input `s` under the default
/// offset: the partial date, then a partial time where one reads cleanly
/// (any failure there leaves the bytes to the suffix), then the offset
/// suffix, checked to be less than a day.
pub open spec fn spec_parse_datetime_partial(s: Seq<u8>, dt_utc_offset: i32) -> Result<
    DicomDateTime,
    Error,
> {
    match spec_parse_date_partial(s) {
        Err(e) => Err(e),
        Ok(dp) => {
            let after_date = s.subrange(dp.1, s.len() as int);
            let time = match spec_parse_time_partial(after_date) {
                Ok(tp) => Some(tp.0),
                Err(_) => None,
            };
            let rest = match spec_parse_time_partial(after_date) {
                Ok(tp) => after_date.subrange(tp.1, after_date.len() as int),
                Err(_) => after_date,
            };
            if rest.len() == 0 {
                spec_build_datetime(dp.0, time, dt_utc_offset)
            } else if rest.len() > 4 {
                match spec_read_number(rest.subrange(1, 3)) {
                    Err(e) => Err(e),
                    Ok(th) => match spec_read_number(rest.subrange(3, 5)) {
                        Err(e) => Err(e),
                        Ok(tm) => {
                            let secs = (th * 60 + tm) * 60;
                            if secs >= 86400 {
                                Err(Error::InvalidComponent {
                                    source: PartialError::InvalidComponent {
                                        component: DateComponent::UTCOffset,
                                        value: secs as u32,
                                    },
                                })
                            } else if rest[0] == 43 {
                                spec_build_datetime(dp.0, time, secs as i32)
                            } else if rest[0] == 45 {
                                spec_build_datetime(dp.0, time, (-(secs as int)) as i32)
                            } else {
                                Err(Error::InvalidTimeZoneSignToken { value: rest[0] })
                            }
                        },
                    },
                }
            } else {
                Err(Error::UnexpectedEndOfElement)
            }
        },
    }
}

/// Decode a single DICOM DateTime (DT) into a precision-tagged value,
/// assuming the given default UTC offset (in seconds east) where the
/// text carries none.
///
/// Unlike `parse_datetime`, date and time components may be missing and
/// the precision of the second fraction is kept. A time that fails to
/// read is treated as absent, leaving its bytes to the offset suffix.
pub fn parse_datetime_partial(buf: &[u8], dt_utc_offset: i32) -> (r: Result<DicomDateTime, Error>)
    requires
        -86400 < dt_utc_offset < 86400,
    ensures
        r == spec_parse_datetime_partial(buf@, dt_utc_offset),
        r matches Ok(dt) ==> dt.wf(),
{
    let (date, after_date) = match parse_date_partial(buf) {
        Err(e) => return Err(e),
        Ok(p) => p,
    };
    let (time, rest) = match parse_time_partial(after_date) {
        Err(_) => (None, after_date),
        Ok((t, rest2)) => (Some(t), rest2),
    };
    if rest.len() == 0 {
        return build_datetime(date, time, dt_utc_offset);
    }
    if rest.len() > 4 {
        let tz_sign = rest[0];
        let th = match read_number_at(rest, 1, 3) {
            Err(e) => return Err(e),
            Ok(v) => v,
        };
        let tm = match read_number_at(rest, 3, 5) {
            Err(e) => return Err(e),
            Ok(v) => v,
        };
        proof {
            lemma_num_val_bound(rest@.subrange(1, 3));
            lemma_num_val_bound(rest@.subrange(3, 5));
            reveal_with_fuel(pow10, 11);
        }
        assert(th <= 99 && tm <= 99);
        let secs = (th * 60 + tm) * 60;
        if let Err(e) = crate::partial::check_component(DateComponent::UTCOffset, secs) {
            return Err(Error::InvalidComponent { source: e });
        }
        if tz_sign == 43 {
            build_datetime(date, time, secs as i32)
        } else if tz_sign == 45 {
            build_datetime(date, time, -(secs as i32))
        } else {
            Err(Error::InvalidTimeZoneSignToken { value: tz_sign })
        }
    } else {
        Err(Error::UnexpectedEndOfElement)
    }
}

/// Combine the pieces of a partial date-time, wrapping a combination
/// failure the way `parse_datetime_partial` reports it.
fn build_datetime(date: DicomDate, time: Option<DicomTime>, offset_seconds: i32) -> (r: Result<
    DicomDateTime,
    Error,
>)
    requires
        -86400 < offset_seconds < 86400,
    ensures
        r == spec_build_datetime(date, time, offset_seconds),
        (r matches Ok(dt) && date.wf() && (time matches Some(t) ==> t.wf())) ==> (r matches Ok(dt)
            && dt.wf()),
{
    match time {
        Some(t) => match DicomDateTime::from_dicom_date_and_time(date, t, offset_seconds) {
            Ok(dt) => Ok(dt),
            Err(e) => Err(Error::InvalidDateTime { source: e }),
        },
        None => Ok(DicomDateTime::from_dicom_date(date, offset_seconds)),
    }
}

/// The canonical `width`-digit decimal numeral for `v`,
/// most significant digit first, zero-padded on the left.
pub open spec fn dec_digits(v: int, width: nat) -> Seq<u8>
    decreases width,
{
    if width == 0 {
        Seq::empty()
    } else {
        dec_digits(v / 10, (width - 1) as nat).push((48 + v % 10) as u8)
    }
}

/// The canonical numeral is made of digits and reads back to its value.
pub proof fn lemma_dec_digits(v: int, width: nat)
    requires
        0 <= v < pow10(width),
    ensures
        dec_digits(v, width).len() == width,
        all_digits(dec_digits(v, width)),
        num_val(dec_digits(v, width)) == v,
    decreases width,
{
    if width == 0 {
        assert(dec_digits(v, width) =~= Seq::<u8>::empty());
    } else {
        let prefix = dec_digits(v / 10, (width - 1) as nat);
        let s = dec_digits(v, width);
        assert(pow10(width) == 10 * pow10((width - 1) as nat));
        vstd::arithmetic::div_mod::lemma_multiply_divide_lt(v, 10, pow10((width - 1) as nat) as int);
        vstd::arithmetic::div_mod::lemma_div_pos_is_pos(v, 10);
        vstd::arithmetic::div_mod::lemma_fundamental_div_mod(v, 10);
        lemma_dec_digits(v / 10, (width - 1) as nat);
        assert(s.drop_last() =~= prefix);
        assert(s.last() == (48 + v % 10) as u8);
        assert forall|i: int| 0 <= i < s.len() implies is_digit(#[trigger] s[i]) by {
            if i < width - 1 {
                assert(s[i] == prefix[i]);
            }
        }
        assert(num_val(s) == num_val(prefix) * 10 + (s.last() - 48));
    }
}

/// The eight-byte DICOM DA text for the date (y, m, d).
pub open spec fn fmt_date(y: int, m: int, d: int) -> Seq<u8> {
    dec_digits(y, 4) + dec_digits(m, 2) + dec_digits(d, 2)
}

/// Parsing the canonical eight-byte text of any valid date gives back
/// exactly that date.
pub proof fn lemma_parse_date_round_trip(y: int, m: int, d: int)
    requires
        valid_date(y, m, d),
    ensures
        spec_parse_date(fmt_date(y, m, d)) == Ok::<Date, Error>(Date {
            year: y as u16,
            month: m as u8,
            day: d as u8,
        }),
{
    let s = fmt_date(y, m, d);
    reveal_with_fuel(pow10, 11);
    lemma_dec_digits(y, 4);
    lemma_dec_digits(m, 2);
    lemma_dec_digits(d, 2);
    assert(s.len() == 8);
    assert(s.subrange(0, 4) =~= dec_digits(y, 4));
    assert(s.subrange(4, 6) =~= dec_digits(m, 2));
    assert(s.subrange(6, 8) =~= dec_digits(d, 2));
}

/// On any input whose first eight bytes form a valid date, `parse_date`
/// succeeds with that date and ignores everything after the eighth byte.
pub proof fn lemma_parse_date_ignores_tail(s: Seq<u8>)
    requires
        s.len() >= 8,
        all_digits(s.subrange(0, 8)),
        valid_date(
            num_val(s.subrange(0, 4)),
            num_val(s.subrange(4, 6)),
            num_val(s.subrange(6, 8)),
        ),
    ensures
        spec_parse_date(s) == Ok::<Date, Error>(Date {
            year: num_val(s.subrange(0, 4)) as u16,
            month: num_val(s.subrange(4, 6)) as u8,
            day: num_val(s.subrange(6, 8)) as u8,
        }),
        spec_parse_date(s) == spec_parse_date(s.subrange(0, 8)),
{
    let first8 = s.subrange(0, 8);
    assert forall|i: int| 0 <= i < 4 implies is_digit(#[trigger] s.subrange(0, 4)[i]) by {
        assert(s.subrange(0, 4)[i] == first8[i]);
    }
    assert forall|i: int| 0 <= i < 2 implies is_digit(#[trigger] s.subrange(4, 6)[i]) by {
        assert(s.subrange(4, 6)[i] == first8[i + 4]);
    }
    assert forall|i: int| 0 <= i < 2 implies is_digit(#[trigger] s.subrange(6, 8)[i]) by {
        assert(s.subrange(6, 8)[i] == first8[i + 6]);
    }
    assert(first8.subrange(0, 4) =~= s.subrange(0, 4));
    assert(first8.subrange(4, 6) =~= s.subrange(4, 6));
    assert(first8.subrange(6, 8) =~= s.subrange(6, 8));
    reveal_with_fuel(pow10, 11);
    lemma_num_val_bound(s.subrange(0, 4));
    lemma_num_val_bound(s.subrange(4, 6));
    lemma_num_val_bound(s.subrange(6, 8));
}

/// The partial date parser consumes a prefix and returns the rest:
/// the consumed prefix and the returned tail recompose the input.
pub proof fn lemma_parse_date_partial_consumes_prefix(s: Seq<u8>)
    requires
        spec_parse_date_partial(s) matches Ok(_),
    ensures
        spec_parse_date_partial(s) matches Ok(p) && 0 <= p.1 <= s.len() && s.subrange(0, p.1)
            + s.subrange(p.1, s.len() as int) == s,
{
    let p = spec_parse_date_partial(s)->Ok_0;
    assert(s.subrange(0, p.1) + s.subrange(p.1, s.len() as int) =~= s);
}

/// The DICOM TM text HHMMSS.F...F with a fraction of `fp` digits.
pub open spec fn fmt_time_with_fraction(h: int, m: int, s: int, frac: int, fp: nat) -> Seq<u8> {
    dec_digits(h, 2) + dec_digits(m, 2) + dec_digits(s, 2) + seq![46u8] + dec_digits(frac, fp)
}

/// Parsing the canonical text of a time with a fraction of `fp`
/// significant digits gives back exactly those components, with the
/// written precision `fp` and no padding.
pub proof fn lemma_parse_time_partial_keeps_precision(
    h: int,
    m: int,
    s: int,
    frac: int,
    fp: nat,
)
    requires
        0 <= h <= 23,
        0 <= m <= 59,
        0 <= s <= 60,
        1 <= fp <= 6,
        0 <= frac < pow10(fp),
    ensures
        spec_parse_time_partial(fmt_time_with_fraction(h, m, s, frac, fp)) == Ok::<
            (DicomTime, int),
            Error,
        >((DicomTime::Fraction(h as u8, m as u8, s as u8, frac as u32, fp as u8), 7 + fp as int)),
{
    let t = fmt_time_with_fraction(h, m, s, frac, fp);
    reveal_with_fuel(pow10, 11);
    lemma_dec_digits(h, 2);
    lemma_dec_digits(m, 2);
    lemma_dec_digits(s, 2);
    lemma_dec_digits(frac, fp);
    assert(t.len() == 7 + fp);
    assert(t.subrange(0, 2) =~= dec_digits(h, 2));
    assert(t.subrange(2, 4) =~= dec_digits(m, 2));
    assert(t.subrange(4, 6) =~= dec_digits(s, 2));
    assert(t[6] == 46);
    assert(t.skip(7) =~= dec_digits(frac, fp));
    lemma_digits_prefix_at_least(t.skip(7), fp as int);
    lemma_digits_prefix_len_bounds(t.skip(7));
    assert(digits_prefix_len(t.skip(7)) == fp);
    assert(t.subrange(7, 7 + fp as int) =~= dec_digits(frac, fp));
}

} // verus!
