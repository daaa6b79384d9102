use dicom_codec::calendar::{Date, DateTime, Time};
use dicom_codec::deserialize::{
    parse_date, parse_date_partial, parse_datetime, parse_datetime_partial, parse_time,
    parse_time_partial, read_number, Error,
};
use dicom_codec::partial::{
    DateComponent, DicomDate, DicomDateTime, DicomTime, Error as PartialValuesError,
};

fn ymd(year: u16, month: u8, day: u8) -> Date {
    Date::from_ymd(year, month, day).unwrap()
}

fn hms_micro(hour: u8, minute: u8, second: u8, microsecond: u32) -> Time {
    Time::from_hms_micro(hour, minute, second, microsecond).unwrap()
}

#[test]
fn test_parse_date() {
    assert_eq!(parse_date(b"20180101").unwrap(), ymd(2018, 1, 1));
    assert_eq!(parse_date(b"19711231").unwrap(), ymd(1971, 12, 31));
    assert_eq!(parse_date(b"20140426").unwrap(), ymd(2014, 4, 26));
    assert_eq!(parse_date(b"20180101xxxx").unwrap(), ymd(2018, 1, 1));
    assert_eq!(parse_date(b"19000101").unwrap(), ymd(1900, 1, 1));
    assert_eq!(parse_date(b"19620728").unwrap(), ymd(1962, 7, 28));
    assert_eq!(parse_date(b"19020404-0101").unwrap(), ymd(1902, 4, 4));

    assert!(matches!(
        parse_date(b"1902"),
        Err(Error::IncompleteValue { component: DateComponent::Month })
    ));

    assert!(matches!(
        parse_date(b"190208"),
        Err(Error::IncompleteValue { component: DateComponent::Day })
    ));

    assert!(matches!(
        parse_date(b"19021515"),
        Err(Error::InvalidComponent {
            source: PartialValuesError::InvalidComponent {
                component: DateComponent::Month,
                value: 15,
            },
        })
    ));

    assert!(matches!(
        parse_date(b"19021200"),
        Err(Error::InvalidComponent {
            source: PartialValuesError::InvalidComponent {
                component: DateComponent::Day,
                value: 0,
            },
        })
    ));

    assert!(matches!(
        parse_date(b"19021232"),
        Err(Error::InvalidComponent {
            source: PartialValuesError::InvalidComponent {
                component: DateComponent::Day,
                value: 32,
            },
        })
    ));

    // not a leap year
    assert!(matches!(parse_date(b"20210229"), Err(Error::InvalidDate)));

    assert!(parse_date(b"").is_err());
    assert!(parse_date(b"        ").is_err());
    assert!(parse_date(b"--------").is_err());
    assert!(parse_date(&[0x00_u8; 8]).is_err());
    assert!(parse_date(&[0xFF_u8; 8]).is_err());
    assert!(parse_date(&[b'0'; 8]).is_err());
    assert!(parse_date(b"nothing!").is_err());
    assert!(parse_date(b"2012dec").is_err());
}

#[test]
fn test_parse_date_partial() {
    assert_eq!(
        parse_date_partial(b"20180101").unwrap(),
        (DicomDate::Day(2018, 1, 1), &[][..])
    );
    assert_eq!(
        parse_date_partial(b"19711231").unwrap(),
        (DicomDate::Day(1971, 12, 31), &[][..])
    );
    assert_eq!(
        parse_date_partial(b"20180101xxxx").unwrap(),
        (DicomDate::Day(2018, 1, 1), &b"xxxx"[..])
    );
    assert_eq!(
        parse_date_partial(b"201801xxxx").unwrap(),
        (DicomDate::Month(2018, 1), &b"xxxx"[..])
    );
    assert_eq!(
        parse_date_partial(b"2018xxxx").unwrap(),
        (DicomDate::Year(2018), &b"xxxx"[..])
    );
    assert_eq!(
        parse_date_partial(b"19020404-0101").unwrap(),
        (DicomDate::Day(1902, 4, 4), &b"-0101"[..])
    );
    assert_eq!(
        parse_date_partial(b"201811").unwrap(),
        (DicomDate::Month(2018, 11), &[][..])
    );
    assert_eq!(
        parse_date_partial(b"1914").unwrap(),
        (DicomDate::Year(1914), &[][..])
    );

    assert_eq!(
        parse_date_partial(b"19140").unwrap(),
        (DicomDate::Year(1914), &b"0"[..])
    );

    assert_eq!(
        parse_date_partial(b"1914121").unwrap(),
        (DicomDate::Month(1914, 12), &b"1"[..])
    );

    // does not check for leap year
    assert_eq!(
        parse_date_partial(b"20210229").unwrap(),
        (DicomDate::Day(2021, 2, 29), &[][..])
    );

    assert!(matches!(
        parse_date_partial(b"19021515"),
        Err(Error::PartialValue {
            source: PartialValuesError::InvalidComponent {
                component: DateComponent::Month,
                value: 15,
            },
        })
    ));

    assert!(matches!(
        parse_date_partial(b"19021200"),
        Err(Error::PartialValue {
            source: PartialValuesError::InvalidComponent {
                component: DateComponent::Day,
                value: 0,
            },
        })
    ));

    assert!(matches!(
        parse_date_partial(b"19021232"),
        Err(Error::PartialValue {
            source: PartialValuesError::InvalidComponent {
                component: DateComponent::Day,
                value: 32,
            },
        })
    ));
}

#[test]
fn test_parse_time() {
    assert_eq!(
        parse_time(b"100000.1").unwrap(),
        (hms_micro(10, 0, 0, 100_000), &[][..])
    );
    assert_eq!(
        parse_time(b"235959.0123").unwrap(),
        (hms_micro(23, 59, 59, 12_300), &[][..])
    );
    // only parses 6 digit precision as in DICOM standard
    assert_eq!(
        parse_time(b"235959.1234567").unwrap(),
        (hms_micro(23, 59, 59, 123_456), &b"7"[..])
    );
    assert_eq!(
        parse_time(b"235959.123456+0100").unwrap(),
        (hms_micro(23, 59, 59, 123_456), &b"+0100"[..])
    );
    assert_eq!(
        parse_time(b"235959.1-0100").unwrap(),
        (hms_micro(23, 59, 59, 100_000), &b"-0100"[..])
    );
    assert_eq!(
        parse_time(b"235959.12345+0100").unwrap(),
        (hms_micro(23, 59, 59, 123_450), &b"+0100"[..])
    );
    assert_eq!(
        parse_time(b"000000.000000").unwrap(),
        (hms_micro(0, 0, 0, 0), &[][..])
    );
    assert!(matches!(
        parse_time(b"24"),
        Err(Error::InvalidComponent {
            source: PartialValuesError::InvalidComponent {
                component: DateComponent::Hour,
                value: 24,
            },
        })
    ));
    assert!(matches!(
        parse_time(b"23"),
        Err(Error::IncompleteValue { component: DateComponent::Minute })
    ));
    assert!(matches!(
        parse_time(b"1560"),
        Err(Error::InvalidComponent {
            source: PartialValuesError::InvalidComponent {
                component: DateComponent::Minute,
                value: 60,
            },
        })
    ));
    assert!(matches!(
        parse_time(b"1530"),
        Err(Error::IncompleteValue { component: DateComponent::Second })
    ));
    assert!(matches!(
        parse_time(b"153099"),
        Err(Error::InvalidComponent {
            source: PartialValuesError::InvalidComponent {
                component: DateComponent::Second,
                value: 99,
            },
        })
    ));
    assert!(matches!(
        parse_time(b"153011"),
        Err(Error::IncompleteValue { component: DateComponent::Fraction })
    ));
    assert!(matches!(
        parse_time(b"153011x0110"),
        Err(Error::FractionDelimiter { value: 0x78_u8 })
    ));
    assert!(parse_date(&[0x00_u8; 6]).is_err());
    assert!(parse_date(&[0xFF_u8; 6]).is_err());
    assert!(parse_date(b"075501.----").is_err());
    assert!(parse_date(b"nope").is_err());
    assert!(parse_date(b"235800.0a").is_err());
}

#[test]
fn test_parse_time_partial() {
    assert_eq!(
        parse_time_partial(b"10").unwrap(),
        (DicomTime::Hour(10), &[][..])
    );
    assert_eq!(
        parse_time_partial(b"101").unwrap(),
        (DicomTime::Hour(10), &b"1"[..])
    );
    assert_eq!(
        parse_time_partial(b"0755").unwrap(),
        (DicomTime::Minute(7, 55), &[][..])
    );
    assert_eq!(
        parse_time_partial(b"075500").unwrap(),
        (DicomTime::Second(7, 55, 0), &[][..])
    );
    assert_eq!(
        parse_time_partial(b"065003").unwrap(),
        (DicomTime::Second(6, 50, 3), &[][..])
    );
    assert_eq!(
        parse_time_partial(b"075501.5").unwrap(),
        (DicomTime::Fraction(7, 55, 1, 5, 1), &[][..])
    );
    assert_eq!(
        parse_time_partial(b"075501.123").unwrap(),
        (DicomTime::Fraction(7, 55, 1, 123, 3), &[][..])
    );
    assert_eq!(
        parse_time_partial(b"10+0101").unwrap(),
        (DicomTime::Hour(10), &b"+0101"[..])
    );
    assert_eq!(
        parse_time_partial(b"1030+0101").unwrap(),
        (DicomTime::Minute(10, 30), &b"+0101"[..])
    );
    assert_eq!(
        parse_time_partial(b"075501.123+0101").unwrap(),
        (DicomTime::Fraction(7, 55, 1, 123, 3), &b"+0101"[..])
    );
    assert_eq!(
        parse_time_partial(b"075501+0101").unwrap(),
        (DicomTime::Second(7, 55, 1), &b"+0101"[..])
    );
    assert_eq!(
        parse_time_partial(b"075501.999999").unwrap(),
        (DicomTime::Fraction(7, 55, 1, 999_999, 6), &[][..])
    );
    assert_eq!(
        parse_time_partial(b"075501.9999994").unwrap(),
        (DicomTime::Fraction(7, 55, 1, 999_999, 6), &b"4"[..])
    );
    assert!(matches!(
        parse_time_partial(b"24"),
        Err(Error::PartialValue {
            source: PartialValuesError::InvalidComponent {
                component: DateComponent::Hour,
                value: 24,
            },
        })
    ));
    assert!(matches!(
        parse_time_partial(b"1060"),
        Err(Error::PartialValue {
            source: PartialValuesError::InvalidComponent {
                component: DateComponent::Minute,
                value: 60,
            },
        })
    ));
    // second 60 is a valid leap second
    assert_eq!(
        parse_time_partial(b"105960").unwrap(),
        (DicomTime::Second(10, 59, 60), &[][..])
    );
}

#[test]
fn test_parse_datetime() {
    let default_offset = 0;
    assert_eq!(
        parse_datetime(b"20171130101010.204", default_offset).unwrap(),
        DateTime {
            date: ymd(2017, 11, 30),
            time: hms_micro(10, 10, 10, 204_000),
            offset_seconds: 0,
        }
    );
    assert_eq!(
        parse_datetime(b"19440229101010.1", default_offset).unwrap(),
        DateTime {
            date: ymd(1944, 2, 29),
            time: hms_micro(10, 10, 10, 100_000),
            offset_seconds: 0,
        }
    );
    assert_eq!(
        parse_datetime(b"19450228101010.999999", default_offset).unwrap(),
        DateTime {
            date: ymd(1945, 2, 28),
            time: hms_micro(10, 10, 10, 999_999),
            offset_seconds: 0,
        }
    );
    assert_eq!(
        parse_datetime(b"20171130101010.564204-1001", default_offset).unwrap(),
        DateTime {
            date: ymd(2017, 11, 30),
            time: hms_micro(10, 10, 10, 564_204),
            offset_seconds: -(10 * 3600 + 60),
        }
    );
    assert_eq!(
        parse_datetime(b"20171130101010.564204-1001abcd", default_offset).unwrap(),
        DateTime {
            date: ymd(2017, 11, 30),
            time: hms_micro(10, 10, 10, 564_204),
            offset_seconds: -(10 * 3600 + 60),
        }
    );
    assert_eq!(
        parse_datetime(b"20171130101010.2-1100", default_offset).unwrap(),
        DateTime {
            date: ymd(2017, 11, 30),
            time: hms_micro(10, 10, 10, 200_000),
            offset_seconds: -(11 * 3600),
        }
    );
    assert_eq!(
        parse_datetime(b"20171130101010.0-1100", default_offset).unwrap(),
        DateTime {
            date: ymd(2017, 11, 30),
            time: hms_micro(10, 10, 10, 0),
            offset_seconds: -(11 * 3600),
        }
    );
    assert!(matches!(
        parse_datetime(b"20180101093059", default_offset),
        Err(Error::IncompleteValue { component: DateComponent::Fraction })
    ));
    assert!(matches!(
        parse_datetime(b"201801010930", default_offset),
        Err(Error::IncompleteValue { component: DateComponent::Second })
    ));
    assert!(matches!(
        parse_datetime(b"2018010109", default_offset),
        Err(Error::IncompleteValue { component: DateComponent::Minute })
    ));
    assert!(matches!(
        parse_datetime(b"20180101", default_offset),
        Err(Error::UnexpectedEndOfElement)
    ));
    assert!(matches!(
        parse_datetime(b"201801", default_offset),
        Err(Error::IncompleteValue { component: DateComponent::Day })
    ));
    assert!(matches!(
        parse_datetime(b"1526", default_offset),
        Err(Error::IncompleteValue { component: DateComponent::Month })
    ));

    let dt = parse_datetime(b"20171130101010.204+0100", default_offset).unwrap();
    assert_eq!(
        dt,
        DateTime {
            date: ymd(2017, 11, 30),
            time: hms_micro(10, 10, 10, 204_000),
            offset_seconds: 3600,
        }
    );

    let dt = parse_datetime(b"20171130101010.204+0535", default_offset).unwrap();
    assert_eq!(
        dt,
        DateTime {
            date: ymd(2017, 11, 30),
            time: hms_micro(10, 10, 10, 204_000),
            offset_seconds: 5 * 3600 + 35 * 60,
        }
    );
    assert_eq!(
        parse_datetime(b"20140505120101.204+0535", default_offset).unwrap(),
        DateTime {
            date: ymd(2014, 5, 5),
            time: hms_micro(12, 1, 1, 204_000),
            offset_seconds: 5 * 3600 + 35 * 60,
        }
    );

    assert!(parse_datetime(b"", default_offset).is_err());
    assert!(parse_datetime(&[0x00_u8; 8], default_offset).is_err());
    assert!(parse_datetime(&[0xFF_u8; 8], default_offset).is_err());
    assert!(parse_datetime(&[b'0'; 8], default_offset).is_err());
    assert!(parse_datetime(&[b' '; 8], default_offset).is_err());
    assert!(parse_datetime(b"nope", default_offset).is_err());
    assert!(parse_datetime(b"2015dec", default_offset).is_err());
    assert!(parse_datetime(b"20151231162945.", default_offset).is_err());
    assert!(parse_datetime(b"20151130161445+", default_offset).is_err());
    assert!(parse_datetime(b"20151130161445+----", default_offset).is_err());
    assert!(parse_datetime(b"20151130161445. ", default_offset).is_err());
    assert!(parse_datetime(b"20151130161445. +0000", default_offset).is_err());
    assert!(parse_datetime(b"20100423164000.001+3", default_offset).is_err());
    assert!(parse_datetime(b"200809112945*1000", default_offset).is_err());
    assert!(parse_datetime(b"20171130101010.204+1", default_offset).is_err());
    assert!(parse_datetime(b"20171130101010.204+01", default_offset).is_err());
    assert!(parse_datetime(b"20171130101010.204+011", default_offset).is_err());
}

#[test]
fn test_parse_datetime_partial() {
    let default_offset = 0;
    assert_eq!(
        parse_datetime_partial(b"20171130101010.204", default_offset).unwrap(),
        DicomDateTime::from_dicom_date_and_time(
            DicomDate::from_ymd(2017, 11, 30).unwrap(),
            DicomTime::from_hmsf(10, 10, 10, 204, 3).unwrap(),
            default_offset
        )
        .unwrap()
    );
    assert_eq!(
        parse_datetime_partial(b"20171130101010", default_offset).unwrap(),
        DicomDateTime::from_dicom_date_and_time(
            DicomDate::from_ymd(2017, 11, 30).unwrap(),
            DicomTime::from_hms(10, 10, 10).unwrap(),
            default_offset
        )
        .unwrap()
    );
    assert_eq!(
        parse_datetime_partial(b"2017113023", default_offset).unwrap(),
        DicomDateTime::from_dicom_date_and_time(
            DicomDate::from_ymd(2017, 11, 30).unwrap(),
            DicomTime::from_h(23).unwrap(),
            default_offset
        )
        .unwrap()
    );
    assert_eq!(
        parse_datetime_partial(b"201711", default_offset).unwrap(),
        DicomDateTime::from_dicom_date(DicomDate::from_ym(2017, 11).unwrap(), default_offset)
    );
    assert_eq!(
        parse_datetime_partial(b"20171130101010.204+0535", default_offset).unwrap(),
        DicomDateTime::from_dicom_date_and_time(
            DicomDate::from_ymd(2017, 11, 30).unwrap(),
            DicomTime::from_hmsf(10, 10, 10, 204, 3).unwrap(),
            5 * 3600 + 35 * 60
        )
        .unwrap()
    );
    assert_eq!(
        parse_datetime_partial(b"20171130101010+0535", default_offset).unwrap(),
        DicomDateTime::from_dicom_date_and_time(
            DicomDate::from_ymd(2017, 11, 30).unwrap(),
            DicomTime::from_hms(10, 10, 10).unwrap(),
            5 * 3600 + 35 * 60
        )
        .unwrap()
    );
    assert_eq!(
        parse_datetime_partial(b"2017113010+0535", default_offset).unwrap(),
        DicomDateTime::from_dicom_date_and_time(
            DicomDate::from_ymd(2017, 11, 30).unwrap(),
            DicomTime::from_h(10).unwrap(),
            5 * 3600 + 35 * 60
        )
        .unwrap()
    );
    assert_eq!(
        parse_datetime_partial(b"20171130-0135", default_offset).unwrap(),
        DicomDateTime::from_dicom_date(
            DicomDate::from_ymd(2017, 11, 30).unwrap(),
            -(3600 + 35 * 60)
        )
    );
    assert_eq!(
        parse_datetime_partial(b"201711-0135", default_offset).unwrap(),
        DicomDateTime::from_dicom_date(DicomDate::from_ym(2017, 11).unwrap(), -(3600 + 35 * 60))
    );
    assert_eq!(
        parse_datetime_partial(b"2017-0135", default_offset).unwrap(),
        DicomDateTime::from_dicom_date(DicomDate::from_y(2017).unwrap(), -(3600 + 35 * 60))
    );

    assert!(matches!(
        parse_datetime_partial(b"xxxx0229101010.204", default_offset),
        Err(Error::InvalidNumberToken { .. })
    ));

    assert!(parse_datetime_partial(b"", default_offset).is_err());
    assert!(parse_datetime_partial(&[0x00_u8; 8], default_offset).is_err());
    assert!(parse_datetime_partial(&[0xFF_u8; 8], default_offset).is_err());
    assert!(parse_datetime_partial(&[b'0'; 8], default_offset).is_err());
    assert!(parse_datetime_partial(&[b' '; 8], default_offset).is_err());
    assert!(parse_datetime_partial(b"nope", default_offset).is_err());
    assert!(parse_datetime_partial(b"2015dec", default_offset).is_err());
    assert!(parse_datetime_partial(b"20151231162945.", default_offset).is_err());
    assert!(parse_datetime_partial(b"20151130161445+", default_offset).is_err());
    assert!(parse_datetime_partial(b"20151130161445+----", default_offset).is_err());
    assert!(parse_datetime_partial(b"20151130161445. ", default_offset).is_err());
    assert!(parse_datetime_partial(b"20151130161445. +0000", default_offset).is_err());
    assert!(parse_datetime_partial(b"20100423164000.001+3", default_offset).is_err());
    assert!(parse_datetime_partial(b"200809112945*1000", default_offset).is_err());
    assert!(parse_datetime_partial(b"20171130101010.204+1", default_offset).is_err());
    assert!(parse_datetime_partial(b"20171130101010.204+01", default_offset).is_err());
    assert!(parse_datetime_partial(b"20171130101010.204+011", default_offset).is_err());
}

#[test]
fn test_read_number_values_and_errors() {
    assert_eq!(read_number(b"0").unwrap(), 0);
    assert_eq!(read_number(b"7").unwrap(), 7);
    assert_eq!(read_number(b"042").unwrap(), 42);
    assert_eq!(read_number(b"999999999").unwrap(), 999_999_999);
    assert!(matches!(
        read_number(b""),
        Err(Error::InvalidNumberLength { len: 0 })
    ));
    assert!(matches!(
        read_number(b"0123456789"),
        Err(Error::InvalidNumberLength { len: 10 })
    ));
    assert!(matches!(
        read_number(b"12x4"),
        Err(Error::InvalidNumberToken { value: b'x' })
    ));
    // the first non-digit byte is the one reported
    assert!(matches!(
        read_number(b"1a2b"),
        Err(Error::InvalidNumberToken { value: b'a' })
    ));
}

#[test]
fn test_strict_time_leap_second() {
    // second 60 is admitted for leap seconds in the strict parser too
    assert_eq!(
        parse_time(b"235960.5").unwrap(),
        (hms_micro(23, 59, 60, 500_000), &[][..])
    );
}

#[test]
fn test_datetime_zone_sign_and_range() {
    assert!(matches!(
        parse_datetime(b"20171130101010.204*0100", 0),
        Err(Error::InvalidTimeZoneSignToken { value: b'*' })
    ));
    // a fixed offset of a day or more is refused
    assert!(matches!(
        parse_datetime(b"20171130101010.204+2400", 0),
        Err(Error::InvalidDateTimeZone)
    ));
    assert!(matches!(
        parse_datetime_partial(b"20171130+2400", 0),
        Err(Error::InvalidComponent {
            source: PartialValuesError::InvalidComponent {
                component: DateComponent::UTCOffset,
                value: 86400,
            },
        })
    ));
    assert!(matches!(
        parse_datetime_partial(b"20171130*0100", 0),
        Err(Error::InvalidTimeZoneSignToken { value: b'*' })
    ));
}

#[test]
fn test_datetime_from_imprecise_date_and_time() {
    // a time may only accompany a date of day precision
    assert!(matches!(
        DicomDateTime::from_dicom_date_and_time(
            DicomDate::from_ym(2017, 11).unwrap(),
            DicomTime::from_h(10).unwrap(),
            0
        ),
        Err(PartialValuesError::ImpreciseDate)
    ));
}

#[test]
fn test_date_round_trip_literals() {
    // the canonical eight-byte text of a valid date parses back to it
    let cases: [(u16, u8, u8, &[u8]); 4] = [
        (2018, 1, 1, b"20180101"),
        (1971, 12, 31, b"19711231"),
        (2000, 2, 29, b"20000229"),
        (9999, 12, 31, b"99991231"),
    ];
    for (year, month, day, text) in cases {
        assert_eq!(parse_date(text).unwrap(), ymd(year, month, day));
    }
}

#[test]
fn test_time_partial_precision_is_exact() {
    // the fraction keeps exactly as many digits as were written
    assert_eq!(
        parse_time_partial(b"121314.000500").unwrap(),
        (DicomTime::Fraction(12, 13, 14, 500, 6), &[][..])
    );
    assert_eq!(
        parse_time_partial(b"121314.0005").unwrap(),
        (DicomTime::Fraction(12, 13, 14, 5, 4), &[][..])
    );
    assert_ne!(
        parse_time_partial(b"121314.0005").unwrap().0,
        parse_time_partial(b"121314.000500").unwrap().0
    );
}

#[test]
fn test_date_partial_tail_recomposes_input() {
    // the consumed prefix and the returned tail recompose the input
    let inputs: [&[u8]; 4] = [b"20180101xxxx", b"2018xxxx", b"1914121", b"19140"];
    for input in inputs {
        let (_, rest) = parse_date_partial(input).unwrap();
        let consumed = input.len() - rest.len();
        assert_eq!(&input[consumed..], rest);
    }
}
