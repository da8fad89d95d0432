use sma_series::average::Averager;
use sma_series::average::ConfigurationError;
use sma_series::average::Signal;
use sma_series::average::compute_sma;
use sma_series::average::derive_signal;
use sma_series::average::signal_of_point;
use sma_series::average::Mean;
use sma_series::dates::Date;
use sma_series::series::Observation;

const SCALE: u64 = 10000;

fn avg_f64(m: &Mean) -> f64 {
    (m.sum as f64) / (m.count as f64) / (SCALE as f64)
}

#[test]
fn zero_window_rejected_at_construction() {
    let r = Averager::new(0);
    assert!(matches!(r, Err(ConfigurationError::ZeroWindowSize)));
}

#[test]
fn window_fills_then_stays_full() {
    let mut a = Averager::new(3).unwrap();
    assert!(a.current_average().is_none());
    a.add_price(1 * SCALE);
    assert!(a.current_average().is_none());
    a.add_price(2 * SCALE);
    assert!(a.current_average().is_none());
    a.add_price(3 * SCALE);
    assert!(a.current_average().is_some());
    for p in 4..20u64 {
        a.add_price(p * SCALE);
        assert!(a.current_average().is_some());
    }
}

#[test]
fn fifo_eviction_yields_trailing_means() {
    // prices 1..=5 with a window of 3: None, None, 2.0, 3.0, 4.0
    let mut a = Averager::new(3).unwrap();
    let mut got: Vec<Option<f64>> = Vec::new();
    for p in 1..=5u64 {
        a.add_price(p * SCALE);
        got.push(a.current_average().as_ref().map(avg_f64));
    }
    assert_eq!(got, vec![None, None, Some(2.0), Some(3.0), Some(4.0)]);
}

#[test]
fn full_window_mean_ignores_older_prices() {
    // wildly different prefixes, identical last two prices
    let mut a = Averager::new(2).unwrap();
    for p in [900 * SCALE, 1 * SCALE, 30 * SCALE, 40 * SCALE] {
        a.add_price(p);
    }
    let mut b = Averager::new(2).unwrap();
    for p in [7 * SCALE, 30 * SCALE, 40 * SCALE] {
        b.add_price(p);
    }
    let ma = a.current_average().unwrap();
    let mb = b.current_average().unwrap();
    assert_eq!(ma, mb);
    assert_eq!(avg_f64(&ma), 35.0);
}

#[test]
fn mean_is_exact_rational() {
    let mut a = Averager::new(3).unwrap();
    a.add_price(1);
    a.add_price(1);
    a.add_price(2);
    let m = a.current_average().unwrap();
    assert_eq!(m.sum, 4);
    assert_eq!(m.count, 3);
}

#[test]
fn signal_up_only_on_strictly_greater_price() {
    let m = Mean { sum: 3 * 10 * SCALE as u128, count: 3 }; // average 10.0
    assert_eq!(derive_signal(10 * SCALE + 1, &m), Signal::Up);
    assert_eq!(derive_signal(10 * SCALE, &m), Signal::Down); // equality is Down
    assert_eq!(derive_signal(10 * SCALE - 1, &m), Signal::Down);
}

#[test]
fn signal_of_point_follows_average_presence() {
    let d = Date { year: 2024, month: 1, day: 2 };
    let filling = sma_series::average::SmaPoint { date: d, price: 5, average: None };
    assert!(signal_of_point(&filling).is_none());
    let full = sma_series::average::SmaPoint {
        date: d,
        price: 9,
        average: Some(Mean { sum: 16, count: 2 }),
    };
    assert_eq!(signal_of_point(&full), Some(Signal::Up));
}

#[test]
fn compute_sma_table_shape() {
    let mut series: Vec<Observation> = Vec::new();
    for day in 1..=5u8 {
        series.push(Observation {
            date: Date { year: 2024, month: 1, day },
            price: (day as u64) * SCALE,
        });
    }
    let points = compute_sma(&series, 3).unwrap();
    assert_eq!(points.len(), 5);
    for (i, pt) in points.iter().enumerate() {
        assert_eq!(pt.date, series[i].date);
        assert_eq!(pt.price, series[i].price);
        assert_eq!(pt.average.is_some(), i + 1 >= 3);
    }
    assert_eq!(avg_f64(&points[4].average.unwrap()), 4.0);
}

#[test]
fn compute_sma_rejects_zero_window() {
    let series: Vec<Observation> = Vec::new();
    assert!(matches!(
        compute_sma(&series, 0),
        Err(ConfigurationError::ZeroWindowSize)
    ));
}
