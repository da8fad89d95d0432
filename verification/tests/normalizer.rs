use sma_series::dates::Date;
use sma_series::series::Observation;
use sma_series::series::ParseField;
use sma_series::series::SmaData;
use sma_series::series::SortOrder;
use sma_series::series::arrange;
use sma_series::series::normalize;

const SCALE: u64 = 10000;

fn rec(date: &str, price: &str) -> (String, SmaData) {
    (date.to_string(), SmaData { sma: price.to_string() })
}

fn obs(year: u16, month: u8, day: u8, price: u64) -> Observation {
    Observation { date: Date { year, month, day }, price }
}

#[test]
fn truncation_keeps_most_recent_dates() {
    // ten days, limit 3, most-recent-first: the three latest dates
    let mut raw: Vec<(String, SmaData)> = Vec::new();
    for day in 1..=10 {
        raw.push(rec(&format!("2024-01-{:02}", day), "100.0"));
    }
    let out = normalize(&raw, 3, SortOrder::Descending).unwrap();
    let days: Vec<u8> = out.iter().map(|o| o.date.day).collect();
    assert_eq!(days, vec![10, 9, 8]);
}

#[test]
fn ascending_order_is_reversed_truncation() {
    let mut raw: Vec<(String, SmaData)> = Vec::new();
    for day in 1..=10 {
        raw.push(rec(&format!("2024-01-{:02}", day), "1.0"));
    }
    let out = normalize(&raw, 3, SortOrder::Ascending).unwrap();
    let days: Vec<u8> = out.iter().map(|o| o.date.day).collect();
    assert_eq!(days, vec![8, 9, 10]);
}

#[test]
fn unordered_input_is_sorted() {
    let raw = vec![
        rec("2024-03-05", "3.0"),
        rec("2024-01-20", "1.0"),
        rec("2024-02-11", "2.0"),
    ];
    let out = normalize(&raw, 10, SortOrder::Descending).unwrap();
    let months: Vec<u8> = out.iter().map(|o| o.date.month).collect();
    assert_eq!(months, vec![3, 2, 1]);
    assert_eq!(out[0].price, 3 * SCALE);
}

#[test]
fn fewer_records_than_limit_keeps_all() {
    let raw = vec![rec("2024-01-02", "1.5"), rec("2024-01-03", "2.5")];
    let out = normalize(&raw, 30, SortOrder::Descending).unwrap();
    assert_eq!(out.len(), 2);
}

#[test]
fn malformed_price_fails_whole_normalization() {
    let raw = vec![
        rec("2024-01-01", "10.0"),
        rec("2024-01-02", "abc"),
        rec("2024-01-03", "12.0"),
    ];
    let err = normalize(&raw, 30, SortOrder::Descending).unwrap_err();
    assert_eq!(err.date, "2024-01-02");
    assert_eq!(err.field, ParseField::PriceText);
    assert_eq!(err.raw_value, "abc");
}

#[test]
fn malformed_date_fails_whole_normalization() {
    let raw = vec![rec("2024-01-01", "10.0"), rec("not-a-date", "11.0")];
    let err = normalize(&raw, 30, SortOrder::Descending).unwrap_err();
    assert_eq!(err.date, "not-a-date");
    assert_eq!(err.field, ParseField::DateText);
    assert_eq!(err.raw_value, "not-a-date");
}

#[test]
fn arrange_drops_repeated_dates() {
    let input = vec![
        obs(2024, 1, 2, 5 * SCALE),
        obs(2024, 1, 2, 7 * SCALE),
        obs(2024, 1, 1, 1 * SCALE),
    ];
    let out = arrange(input, 10, SortOrder::Descending);
    assert_eq!(out.len(), 2);
    assert_eq!(out[0].date.day, 2);
    assert_eq!(out[1].date.day, 1);
}

#[test]
fn renormalizing_sorted_output_is_identity() {
    // already most-recent-first, unique dates: arranged again, unchanged
    let input = vec![
        obs(2024, 2, 1, 3 * SCALE),
        obs(2024, 1, 20, 2 * SCALE),
        obs(2024, 1, 5, 1 * SCALE),
    ];
    let once = arrange(input.clone(), 3, SortOrder::Descending);
    assert_eq!(once, input);
    let twice = arrange(once.clone(), 3, SortOrder::Descending);
    assert_eq!(twice, once);
}

#[test]
fn limit_zero_yields_empty_series() {
    let raw = vec![rec("2024-01-01", "10.0")];
    let out = normalize(&raw, 0, SortOrder::Descending).unwrap();
    assert!(out.is_empty());
}
