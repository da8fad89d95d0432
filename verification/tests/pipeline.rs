use sma_series::AnalysisError;
use sma_series::analyze;
use sma_series::average::ConfigurationError;
use sma_series::average::Signal;
use sma_series::average::signal_of_point;
use sma_series::series::MetaData;
use sma_series::series::SmaData;
use sma_series::series::TechnicalAnalysisResponse;
use sma_series::validate_config;

fn meta() -> MetaData {
    MetaData {
        symbol: "IBM".to_string(),
        indicator: "Simple Moving Average (SMA)".to_string(),
        last_refreshed: "2024-01-10".to_string(),
        interval: "daily".to_string(),
        time_period: 3,
        series_type: "close".to_string(),
        time_zone: "US/Eastern".to_string(),
    }
}

fn response(records: Vec<(&str, &str)>) -> TechnicalAnalysisResponse {
    TechnicalAnalysisResponse {
        meta_data: meta(),
        technical_analysis: records
            .into_iter()
            .map(|(d, p)| (d.to_string(), SmaData { sma: p.to_string() }))
            .collect(),
    }
}

#[test]
fn configuration_rejected_before_data() {
    assert!(matches!(
        validate_config(0, 10),
        Err(ConfigurationError::ZeroWindowSize)
    ));
    assert!(matches!(
        validate_config(3, 0),
        Err(ConfigurationError::ZeroLimit)
    ));
    assert!(validate_config(3, 10).is_ok());

    let resp = response(vec![("2024-01-01", "1.0")]);
    assert!(matches!(
        analyze(&resp, 0, 10),
        Err(AnalysisError::Configuration(ConfigurationError::ZeroWindowSize))
    ));
    assert!(matches!(
        analyze(&resp, 3, 0),
        Err(AnalysisError::Configuration(ConfigurationError::ZeroLimit))
    ));
}

#[test]
fn pipeline_produces_dated_signed_table() {
    // unordered records; chronological feed; window of two
    let resp = response(vec![
        ("2024-01-03", "30.0"),
        ("2024-01-01", "10.0"),
        ("2024-01-04", "20.0"),
        ("2024-01-02", "20.0"),
    ]);
    let points = analyze(&resp, 2, 30).unwrap();
    assert_eq!(points.len(), 4);
    let days: Vec<u8> = points.iter().map(|p| p.date.day).collect();
    assert_eq!(days, vec![1, 2, 3, 4]);
    assert!(points[0].average.is_none());
    let m1 = points[1].average.unwrap();
    assert_eq!(m1.sum, 300000); // mean 15.0
    assert_eq!(m1.count, 2);
    // day 2: price 20.0 above mean 15.0; day 4: price 20.0 below mean 25.0
    assert_eq!(signal_of_point(&points[1]), Some(Signal::Up));
    assert_eq!(signal_of_point(&points[3]), Some(Signal::Down));
}

#[test]
fn pipeline_truncates_before_feeding() {
    // limit 2 keeps the two most recent days only
    let resp = response(vec![
        ("2024-01-01", "10.0"),
        ("2024-01-02", "20.0"),
        ("2024-01-03", "30.0"),
    ]);
    let points = analyze(&resp, 1, 2).unwrap();
    let days: Vec<u8> = points.iter().map(|p| p.date.day).collect();
    assert_eq!(days, vec![2, 3]);
}

#[test]
fn pipeline_surfaces_parse_failure() {
    let resp = response(vec![("2024-01-01", "10.0"), ("2024-01-02", "abc")]);
    match analyze(&resp, 2, 30) {
        Err(AnalysisError::Parse(e)) => {
            assert_eq!(e.date, "2024-01-02");
            assert_eq!(e.raw_value, "abc");
        },
        _ => panic!("expected a parse failure"),
    }
}

#[test]
fn equal_price_and_average_signals_down() {
    // constant series: price always equals its average
    let resp = response(vec![
        ("2024-01-01", "10.0"),
        ("2024-01-02", "10.0"),
        ("2024-01-03", "10.0"),
    ]);
    let points = analyze(&resp, 2, 30).unwrap();
    assert_eq!(signal_of_point(&points[2]), Some(Signal::Down));
}
