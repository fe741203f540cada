use budget::date::{Date, DateError};

#[test]
fn test_days_in_month_february() {
    // divisible by 400: leap; by 100 only: not; by 4: leap
    assert_eq!(Date::parse("2000-02-01").unwrap().days_in_month(), 29);
    assert_eq!(Date::parse("1900-02-01").unwrap().days_in_month(), 28);
    assert_eq!(Date::parse("2024-02-01").unwrap().days_in_month(), 29);
    assert_eq!(Date::parse("2023-02-01").unwrap().days_in_month(), 28);
}

#[test]
fn test_days_in_other_months() {
    assert_eq!(Date::parse("2024-01-05").unwrap().days_in_month(), 31);
    assert_eq!(Date::parse("2024-04-05").unwrap().days_in_month(), 30);
    assert_eq!(Date::parse("2024-12-05").unwrap().days_in_month(), 31);
}

#[test]
fn test_parse_basic() {
    let d = Date::parse("2024-01-05").unwrap();
    assert_eq!(d.year(), 2024);
    assert_eq!(d.month(), 1);
    assert_eq!(d.day(), 5);
}

#[test]
fn test_parse_errors() {
    assert!(matches!(
        Date::parse("2024/01/05").unwrap_err(),
        DateError::InvalidSeparator { .. }
    ));
    assert!(matches!(
        Date::parse("2024-01-05-06").unwrap_err(),
        DateError::InvalidSeparator { .. }
    ));
    assert!(matches!(
        Date::parse("02024-01-05").unwrap_err(),
        DateError::InvalidYear { .. }
    ));
    assert!(matches!(
        Date::parse("2024-13-05").unwrap_err(),
        DateError::InvalidMonth { .. }
    ));
    assert!(matches!(
        Date::parse("2024-1-05").unwrap_err(),
        DateError::InvalidMonth { .. }
    ));
    assert!(matches!(
        Date::parse("2024-01-32").unwrap_err(),
        DateError::InvalidDay { .. }
    ));
    assert!(matches!(
        Date::parse("2024-01-5").unwrap_err(),
        DateError::InvalidDay { .. }
    ));
    // the day is not checked against the specific month's length
    assert!(Date::parse("2023-02-31").is_ok());
}

#[test]
fn test_date_forms() {
    let d = Date::parse("2024-01-05").unwrap();
    assert_eq!(d.serialize(), "2024-01-05");
    assert_eq!(d.to_display_string(), "5 Jan 2024");
    let d2 = Date::parse("1999-12-25").unwrap();
    assert_eq!(d2.serialize(), "1999-12-25");
    assert_eq!(d2.to_display_string(), "25 Dec 1999");
}

#[test]
fn test_new_checks_ranges() {
    assert!(Date::new(2024, 2, 29).is_some());
    assert!(Date::new(2024, 0, 10).is_none());
    assert!(Date::new(2024, 13, 10).is_none());
    assert!(Date::new(2024, 5, 0).is_none());
    assert!(Date::new(2024, 5, 32).is_none());
}
