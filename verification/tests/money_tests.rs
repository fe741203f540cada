use budget::money::{Money, MoneyError};

#[test]
fn money_test_basic() {
    assert_eq!(Money::parse("1.15").unwrap(), Money::from_cents(115));
}

#[test]
fn test_large() {
    assert_eq!(
        Money::parse("92233720368547758.07").unwrap(),
        Money::from_cents(i64::MAX)
    );
}

#[test]
fn test_invalid_dollars() {
    assert_eq!(
        Money::parse("\u{a9}1.00").unwrap_err(),
        MoneyError::InvalidDollars
    );
    assert_eq!(Money::parse(".15").unwrap_err(), MoneyError::InvalidDollars);
    assert_eq!(
        Money::parse("-1.15").unwrap_err(),
        MoneyError::InvalidDollars
    );
    assert_eq!(
        Money::parse("ab.15").unwrap_err(),
        MoneyError::InvalidDollars
    );
    assert_eq!(
        Money::parse("1,500.15").unwrap_err(),
        MoneyError::InvalidDollars
    );
}

#[test]
fn test_invalid_decimal_point() {
    assert_eq!(
        Money::parse("1500").unwrap_err(),
        MoneyError::InvalidDecimalPoint
    );
    assert_eq!(
        Money::parse("15.0.0").unwrap_err(),
        MoneyError::InvalidDecimalPoint
    );
}

#[test]
fn test_invalid_cents() {
    assert_eq!(Money::parse("15.ab").unwrap_err(), MoneyError::InvalidCents);
    assert_eq!(
        Money::parse("15.-15").unwrap_err(),
        MoneyError::InvalidCents
    );
    assert_eq!(
        Money::parse("15.101").unwrap_err(),
        MoneyError::InvalidCents
    );
    assert_eq!(Money::parse("15.1").unwrap_err(), MoneyError::InvalidCents);
    assert_eq!(Money::parse("151.").unwrap_err(), MoneyError::InvalidCents);
}

#[test]
fn test_overflow() {
    assert_eq!(
        Money::parse("92233720368547758.08").unwrap_err(),
        MoneyError::Overflow
    );
}

#[test]
fn test_pluses() {
    assert_eq!(
        Money::parse("+100.22").unwrap_err(),
        MoneyError::InvalidDollars
    );
    assert_eq!(
        Money::parse("100.+2").unwrap_err(),
        MoneyError::InvalidCents
    );
}

#[test]
fn test_zero_and_leading_zero() {
    assert_eq!(Money::parse("0.05").unwrap(), Money::from_cents(5));
    assert_eq!(
        Money::parse("01.05").unwrap_err(),
        MoneyError::InvalidDollars
    );
    assert_eq!(Money::parse("10.00").unwrap(), Money::from_cents(1000));
}

#[test]
fn test_checked_div() {
    let spent = Money::from_cents(1950);
    let limit = Money::from_cents(10000);
    assert_eq!(spent.checked_div(limit), Some(0));
    assert_eq!(limit.checked_div(spent), Some(5));
    assert_eq!(spent.checked_div(Money::from_cents(0)), None);
    assert_eq!(
        Money::from_cents(i64::MIN).checked_div(Money::from_cents(-1)),
        None
    );
}

#[test]
fn test_left_to_date_in_month() {
    // 100.00 over January's 31 days is 322 cents a day; by the 15th,
    // 4830 cents accumulated, minus 1950 spent leaves 2880.
    let date = budget::date::Date::parse("2024-01-15").unwrap();
    let left = Money::left_to_date_in_month(
        date,
        Money::from_cents(10000),
        Money::from_cents(1950),
    );
    assert_eq!(left, Some(Money::from_cents(2880)));
}

#[test]
fn test_display_forms() {
    assert_eq!(
        Money::from_cents(115).to_display_string(),
        "\u{1b}[32m$1.15\u{1b}[0m"
    );
    assert_eq!(
        Money::from_cents(-115).to_display_string(),
        "\u{1b}[31m\u{2212}$1.15\u{1b}[0m"
    );
    assert_eq!(
        Money::from_cents(5).to_display_string(),
        "\u{1b}[32m$0.05\u{1b}[0m"
    );
}
