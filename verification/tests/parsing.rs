use sma_series::dates::Date;
use sma_series::dates::parse_date;
use sma_series::prices::PRICE_SCALE;
use sma_series::prices::parse_price;

#[test]
fn well_formed_date_parses() {
    assert_eq!(
        parse_date("2024-03-07"),
        Some(Date { year: 2024, month: 3, day: 7 })
    );
    assert_eq!(
        parse_date("1999-12-31"),
        Some(Date { year: 1999, month: 12, day: 31 })
    );
}

#[test]
fn ill_formed_dates_are_rejected() {
    assert_eq!(parse_date(""), None);
    assert_eq!(parse_date("2024-3-7"), None); // digits must be padded
    assert_eq!(parse_date("2024-13-01"), None); // no thirteenth month
    assert_eq!(parse_date("2024-00-10"), None);
    assert_eq!(parse_date("2024-01-00"), None);
    assert_eq!(parse_date("2024-01-32"), None);
    assert_eq!(parse_date("2024/01/02"), None);
    assert_eq!(parse_date("20x4-01-02"), None);
    assert_eq!(parse_date("2024-01-021"), None);
}

#[test]
fn integer_price_scales_exactly() {
    assert_eq!(parse_price("5"), Some(5 * PRICE_SCALE));
    assert_eq!(parse_price("184"), Some(184 * PRICE_SCALE));
    assert_eq!(parse_price("0"), Some(0));
}

#[test]
fn fractional_price_scales_exactly() {
    assert_eq!(parse_price("184.2300"), Some(1842300));
    assert_eq!(parse_price("184.23"), Some(1842300));
    assert_eq!(parse_price("0.1"), Some(1000));
    assert_eq!(parse_price("12.3456"), Some(123456));
}

#[test]
fn ill_formed_prices_are_rejected() {
    assert_eq!(parse_price(""), None);
    assert_eq!(parse_price("abc"), None);
    assert_eq!(parse_price("."), None);
    assert_eq!(parse_price("1."), None);
    assert_eq!(parse_price(".5"), None);
    assert_eq!(parse_price("1.23456"), None); // more than four fraction digits
    assert_eq!(parse_price("-1.0"), None); // prices are unsigned
    assert_eq!(parse_price("1.2.3"), None);
    assert_eq!(parse_price("1e5"), None);
    assert_eq!(parse_price("1234567890123456"), None); // sixteen integer digits
}

#[test]
fn fifteen_integer_digits_fit() {
    assert_eq!(
        parse_price("999999999999999"),
        Some(999999999999999 * PRICE_SCALE)
    );
}
