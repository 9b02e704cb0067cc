use avila_telemetry::fixed::Fixed;
use avila_telemetry::time_series::{Statistics, TimeSeries, Timestamp};
use avila_telemetry::TelemetryError;

fn ts_num(x: f64) -> Fixed {
    Fixed::from_nanos((x * 1_000_000_000.0).round() as i64)
}

fn ts_float(x: Fixed) -> f64 {
    match x.nanos() {
        Some(m) => m as f64 / 1_000_000_000.0,
        None => f64::NAN,
    }
}

fn ts_floats(v: &[Fixed]) -> Vec<f64> {
    v.iter().map(|&x| ts_float(x)).collect()
}

fn ts_series(values: &[f64]) -> TimeSeries {
    TimeSeries::new(values.iter().map(|&x| ts_num(x)).collect())
}

#[test]
fn test_basic_functionality() {
    let data = vec![1.0, 2.0, 3.0, 4.0, 5.0];
    let ts = ts_series(&data);
    assert_eq!(ts.len(), 5);
}

#[test]
fn test_moving_average() {
    let ts = ts_series(&[1.0, 2.0, 3.0, 4.0, 5.0]);
    let ma = ts.moving_average(3).unwrap();
    assert_eq!(ts_floats(&ma), vec![2.0, 3.0, 4.0]);
}

#[test]
fn test_ema() {
    let ts = ts_series(&[1.0, 2.0, 3.0, 4.0, 5.0]);
    let ema = ts.exponential_moving_average(ts_num(0.5)).unwrap();
    assert_eq!(ema.len(), 5);
}

#[test]
fn test_statistics() {
    let ts = ts_series(&[1.0, 2.0, 3.0, 4.0, 5.0]);
    let stats = ts.statistics();
    assert_eq!(ts_float(stats.mean), 3.0);
    assert_eq!(ts_float(stats.median), 3.0);
    assert_eq!(ts_float(stats.min), 1.0);
    assert_eq!(ts_float(stats.max), 5.0);
}

#[test]
fn new_series_has_no_timestamps_or_name() {
    let ts = ts_series(&[1.0, 2.0]);
    assert!(ts.timestamps.is_none());
    assert!(ts.name.is_none());
    assert!(!ts.is_empty());
    assert!(ts_series(&[]).is_empty());
}

#[test]
fn with_timestamps_requires_equal_lengths() {
    let stamps = vec![Timestamp { seconds: 10, nanos: 0 }, Timestamp { seconds: 20, nanos: 5 }];
    let ok = TimeSeries::with_timestamps(vec![ts_num(1.0), ts_num(2.0)], stamps.clone()).unwrap();
    assert_eq!(ok.timestamps, Some(stamps.clone()));
    assert_eq!(ok.len(), 2);
    let err = TimeSeries::with_timestamps(vec![ts_num(1.0)], stamps);
    assert!(matches!(err, Err(TelemetryError::InvalidData(_))));
}

#[test]
fn with_name_sets_the_name() {
    let ts = ts_series(&[1.0]).with_name("cpu".to_string());
    assert_eq!(ts.name, Some("cpu".to_string()));
    assert_eq!(ts.len(), 1);
}

#[test]
fn moving_average_rejects_bad_windows() {
    let ts = ts_series(&[1.0, 2.0, 3.0]);
    assert!(matches!(ts.moving_average(0), Err(TelemetryError::InvalidParameter(_))));
    assert!(matches!(ts.moving_average(4), Err(TelemetryError::InsufficientData(_))));
    let whole = ts.moving_average(3).unwrap();
    assert_eq!(ts_floats(&whole), vec![2.0]);
}

#[test]
fn moving_average_rounds_toward_zero() {
    let ts = ts_series(&[1.0, 1.0, 0.0, -1.0, -1.0]);
    let ma = ts.moving_average(3).unwrap();
    let nanos: Vec<Option<i64>> = ma.iter().map(|x| x.nanos()).collect();
    assert_eq!(nanos, vec![Some(666_666_666), Some(0), Some(-666_666_666)]);
}

#[test]
fn moving_average_is_undefined_over_an_undefined_value() {
    let ts = TimeSeries::new(vec![ts_num(1.0), Fixed::undefined(), ts_num(3.0), ts_num(5.0)]);
    let ma = ts.moving_average(2).unwrap();
    let nanos: Vec<Option<i64>> = ma.iter().map(|x| x.nanos()).collect();
    assert_eq!(nanos, vec![None, None, Some(4_000_000_000)]);
}

#[test]
fn ema_values_are_exact() {
    let ts = ts_series(&[1.0, 2.0, 3.0, 4.0, 5.0]);
    let ema = ts.exponential_moving_average(ts_num(0.5)).unwrap();
    assert_eq!(ts_floats(&ema), vec![1.0, 1.5, 2.25, 3.125, 4.0625]);
}

#[test]
fn ema_rejects_bad_alpha_and_empty_series() {
    let ts = ts_series(&[1.0, 2.0]);
    assert!(matches!(
        ts.exponential_moving_average(ts_num(0.0)),
        Err(TelemetryError::InvalidParameter(_))
    ));
    assert!(matches!(
        ts.exponential_moving_average(ts_num(1.5)),
        Err(TelemetryError::InvalidParameter(_))
    ));
    assert!(matches!(
        ts.exponential_moving_average(Fixed::undefined()),
        Err(TelemetryError::InvalidParameter(_))
    ));
    assert!(ts.exponential_moving_average(ts_num(1.0)).is_ok());
    assert!(matches!(
        ts_series(&[]).exponential_moving_average(ts_num(0.5)),
        Err(TelemetryError::InsufficientData(_))
    ));
}

#[test]
fn diff_gives_first_differences() {
    let ts = ts_series(&[1.0, 4.0, 9.0, 16.0]);
    assert_eq!(ts_floats(&ts.diff()), vec![3.0, 5.0, 7.0]);
    assert!(ts_series(&[1.0]).diff().is_empty());
    assert!(ts_series(&[]).diff().is_empty());
}

#[test]
fn pct_change_guards_zero() {
    let ts = ts_series(&[2.0, 3.0, 0.0, 5.0]);
    assert_eq!(ts_floats(&ts.pct_change()), vec![0.5, -1.0, 0.0]);
    assert!(ts_series(&[1.0]).pct_change().is_empty());
}

#[test]
fn slice_copies_values_timestamps_and_name() {
    let stamps: Vec<Timestamp> =
        (0..4).map(|i| Timestamp { seconds: i, nanos: 7 }).collect();
    let ts = TimeSeries::with_timestamps(
        vec![ts_num(1.0), ts_num(2.0), ts_num(3.0), ts_num(4.0)],
        stamps.clone(),
    )
    .unwrap()
    .with_name("load".to_string());
    let part = ts.slice(1, 3).unwrap();
    assert_eq!(ts_floats(&part.values), vec![2.0, 3.0]);
    assert_eq!(part.timestamps, Some(stamps[1..3].to_vec()));
    assert_eq!(part.name, Some("load".to_string()));
}

#[test]
fn slice_rejects_bad_indices() {
    let ts = ts_series(&[1.0, 2.0, 3.0]);
    assert!(matches!(ts.slice(2, 2), Err(TelemetryError::InvalidParameter(_))));
    assert!(matches!(ts.slice(2, 1), Err(TelemetryError::InvalidParameter(_))));
    assert!(matches!(ts.slice(0, 4), Err(TelemetryError::InvalidParameter(_))));
    assert_eq!(ts.slice(0, 3).unwrap().len(), 3);
}

#[test]
fn statistics_of_empty_series_are_zero() {
    let stats = Statistics::from_values(&[]);
    assert_eq!(stats.count, 0);
    assert_eq!(stats.mean.nanos(), Some(0));
    assert_eq!(stats.median.nanos(), Some(0));
    assert_eq!(stats.std_dev.nanos(), Some(0));
    assert_eq!(stats.min.nanos(), Some(0));
    assert_eq!(stats.max.nanos(), Some(0));
}

#[test]
fn statistics_use_population_variance() {
    let values = [ts_num(2.0), ts_num(4.0), ts_num(4.0), ts_num(4.0), ts_num(5.0), ts_num(5.0), ts_num(7.0), ts_num(9.0)];
    let stats = Statistics::from_values(&values);
    assert_eq!(stats.count, 8);
    assert_eq!(ts_float(stats.mean), 5.0);
    assert_eq!(ts_float(stats.std_dev), 2.0);
    assert_eq!(ts_float(stats.median), 4.5);
    assert_eq!(ts_float(stats.min), 2.0);
    assert_eq!(ts_float(stats.max), 9.0);
}

#[test]
fn statistics_sort_before_taking_the_median() {
    let values = [ts_num(9.0), ts_num(-1.0), ts_num(4.0)];
    let stats = Statistics::from_values(&values);
    assert_eq!(ts_float(stats.median), 4.0);
    assert_eq!(ts_float(stats.min), -1.0);
    assert_eq!(ts_float(stats.max), 9.0);
}

#[test]
fn statistics_are_undefined_over_an_undefined_value() {
    let values = [ts_num(1.0), Fixed::undefined(), ts_num(3.0)];
    let stats = Statistics::from_values(&values);
    assert_eq!(stats.count, 3);
    assert_eq!(stats.mean.nanos(), None);
    assert_eq!(stats.median.nanos(), None);
    assert_eq!(stats.std_dev.nanos(), None);
    assert_eq!(stats.min.nanos(), None);
    assert_eq!(stats.max.nanos(), None);
}

#[test]
fn error_text_names_the_kind() {
    assert_eq!(
        TelemetryError::InvalidData("a".to_string()).to_string(),
        "Invalid data: a"
    );
    assert_eq!(
        TelemetryError::InsufficientData("b".to_string()).to_string(),
        "Insufficient data: b"
    );
    assert_eq!(TelemetryError::ModelError("c".to_string()).to_string(), "Model error: c");
    assert_eq!(
        TelemetryError::InvalidParameter("d".to_string()).to_string(),
        "Invalid parameter: d"
    );
}

#[test]
fn error_messages_carry_the_numbers() {
    let ts = ts_series(&[1.0, 2.0, 3.0]);
    match ts.moving_average(5) {
        Err(e) => assert_eq!(
            e.to_string(),
            "Insufficient data: Window size 5 is larger than data length 3"
        ),
        Ok(_) => panic!("a window longer than the series was accepted"),
    }
}
