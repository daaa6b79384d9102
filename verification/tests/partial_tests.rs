use dicom_codec::calendar::Date;
use dicom_codec::partial::{
    check_component, DateComponent, DicomDate, DicomTime, Error as PartialValuesError,
};

#[test]
fn test_date_constructors() {
    assert_eq!(DicomDate::from_y(2024).unwrap(), DicomDate::Year(2024));
    assert_eq!(DicomDate::from_ym(2024, 2).unwrap(), DicomDate::Month(2024, 2));
    assert_eq!(DicomDate::from_ymd(2024, 2, 29).unwrap(), DicomDate::Day(2024, 2, 29));
    // a partial date allows a structurally valid but impossible day,
    // while the strict date does not
    assert_eq!(DicomDate::from_ymd(2021, 2, 29).unwrap(), DicomDate::Day(2021, 2, 29));
    assert_eq!(Date::from_ymd(2021, 2, 29), None);
    assert_eq!(
        Date::from_ymd(2021, 2, 28),
        Some(Date { year: 2021, month: 2, day: 28 })
    );

    assert!(matches!(
        DicomDate::from_y(10000),
        Err(PartialValuesError::InvalidComponent {
            component: DateComponent::Year,
            value: 10000,
        })
    ));
    assert!(matches!(
        DicomDate::from_ym(2024, 13),
        Err(PartialValuesError::InvalidComponent {
            component: DateComponent::Month,
            value: 13,
        })
    ));
    assert!(matches!(
        DicomDate::from_ymd(2024, 2, 32),
        Err(PartialValuesError::InvalidComponent {
            component: DateComponent::Day,
            value: 32,
        })
    ));
}

#[test]
fn test_time_constructors() {
    assert_eq!(DicomTime::from_h(23).unwrap(), DicomTime::Hour(23));
    assert_eq!(DicomTime::from_hm(23, 59).unwrap(), DicomTime::Minute(23, 59));
    assert_eq!(DicomTime::from_hms(23, 59, 60).unwrap(), DicomTime::Second(23, 59, 60));
    assert_eq!(
        DicomTime::from_hmsf(12, 30, 15, 99, 2).unwrap(),
        DicomTime::Fraction(12, 30, 15, 99, 2)
    );

    assert!(matches!(
        DicomTime::from_h(24),
        Err(PartialValuesError::InvalidComponent {
            component: DateComponent::Hour,
            value: 24,
        })
    ));
    assert!(matches!(
        DicomTime::from_hms(12, 30, 61),
        Err(PartialValuesError::InvalidComponent {
            component: DateComponent::Second,
            value: 61,
        })
    ));
    // the precision must name one to six digits
    assert!(matches!(
        DicomTime::from_hmsf(12, 30, 15, 0, 0),
        Err(PartialValuesError::InvalidFractionPrecision { precision: 0 })
    ));
    assert!(matches!(
        DicomTime::from_hmsf(12, 30, 15, 0, 7),
        Err(PartialValuesError::InvalidFractionPrecision { precision: 7 })
    ));
    // the fraction must fit its declared precision
    assert!(matches!(
        DicomTime::from_hmsf(12, 30, 15, 100, 2),
        Err(PartialValuesError::InvalidComponent {
            component: DateComponent::Fraction,
            value: 100,
        })
    ));
}

#[test]
fn test_check_component_ranges() {
    assert!(check_component(DateComponent::Hour, 23).is_ok());
    assert!(check_component(DateComponent::Hour, 24).is_err());
    assert!(check_component(DateComponent::Second, 60).is_ok());
    assert!(check_component(DateComponent::Second, 61).is_err());
    assert!(check_component(DateComponent::Month, 0).is_err());
    assert!(check_component(DateComponent::Fraction, 999999).is_ok());
    assert!(check_component(DateComponent::Fraction, 1000000).is_err());
    assert!(check_component(DateComponent::UTCOffset, 86399).is_ok());
    assert!(check_component(DateComponent::UTCOffset, 86400).is_err());
}
