use avila_telemetry::features::FeatureExtractor;
use avila_telemetry::fixed::Fixed;
use avila_telemetry::time_series::TimeSeries;
use avila_telemetry::TelemetryError;

fn ft_num(x: f64) -> Fixed {
    Fixed::from_nanos((x * 1_000_000_000.0).round() as i64)
}

fn ft_float(x: Fixed) -> f64 {
    match x.nanos() {
        Some(m) => m as f64 / 1_000_000_000.0,
        None => f64::NAN,
    }
}

fn ft_floats(v: &[Fixed]) -> Vec<f64> {
    v.iter().map(|&x| ft_float(x)).collect()
}

fn ft_series(values: &[f64]) -> TimeSeries {
    TimeSeries::new(values.iter().map(|&x| ft_num(x)).collect())
}

#[test]
fn test_lag_features() {
    let ts = ft_series(&[1.0, 2.0, 3.0, 4.0, 5.0]);
    let features = FeatureExtractor::create_lag_features(&ts, &[1, 2]).unwrap();

    assert_eq!(features.len(), 2);
    assert_eq!(ft_floats(&features[0]), vec![1.0, 2.0, 3.0, 4.0]);
    assert_eq!(ft_floats(&features[1]), vec![1.0, 2.0, 3.0]);
}

#[test]
fn test_rolling_statistics() {
    let ts = ft_series(&[1.0, 2.0, 3.0, 4.0, 5.0]);
    let stats = FeatureExtractor::rolling_statistics(&ts, 3).unwrap();

    assert_eq!(stats.means.len(), 3);
    assert_eq!(ft_float(stats.means[0]), 2.0);
}

#[test]
fn lag_features_reject_no_lags_and_long_lags() {
    let ts = ft_series(&[1.0, 2.0, 3.0]);
    assert!(matches!(
        FeatureExtractor::create_lag_features(&ts, &[]),
        Err(TelemetryError::InvalidParameter(_))
    ));
    assert!(matches!(
        FeatureExtractor::create_lag_features(&ts, &[1, 3]),
        Err(TelemetryError::InvalidParameter(_))
    ));
    let features = FeatureExtractor::create_lag_features(&ts, &[2, 0, 2]).unwrap();
    assert_eq!(ft_floats(&features[0]), vec![1.0]);
    assert_eq!(ft_floats(&features[1]), vec![1.0, 2.0, 3.0]);
    assert_eq!(ft_floats(&features[2]), vec![1.0]);
}

#[test]
fn rolling_statistics_are_exact() {
    let ts = ft_series(&[2.0, 4.0, 4.0, 6.0, 0.0]);
    let stats = FeatureExtractor::rolling_statistics(&ts, 2).unwrap();
    assert_eq!(ft_floats(&stats.means), vec![3.0, 4.0, 5.0, 3.0]);
    assert_eq!(ft_floats(&stats.stds), vec![1.0, 0.0, 1.0, 3.0]);
    assert_eq!(ft_floats(&stats.mins), vec![2.0, 4.0, 4.0, 0.0]);
    assert_eq!(ft_floats(&stats.maxs), vec![4.0, 4.0, 6.0, 6.0]);
}

#[test]
fn rolling_statistics_reject_bad_windows() {
    let ts = ft_series(&[1.0, 2.0]);
    assert!(matches!(
        FeatureExtractor::rolling_statistics(&ts, 0),
        Err(TelemetryError::InvalidParameter(_))
    ));
    assert!(matches!(
        FeatureExtractor::rolling_statistics(&ts, 3),
        Err(TelemetryError::InsufficientData(_))
    ));
    assert_eq!(FeatureExtractor::rolling_statistics(&ts, 2).unwrap().means.len(), 1);
}

#[test]
fn trend_features_are_slopes() {
    let ts = ft_series(&[1.0, 3.0, 5.0, 4.0, 3.0]);
    let trends = FeatureExtractor::trend_features(&ts, 3).unwrap();
    // windows: 1 3 5 (slope 2), 3 5 4 (slope 0.5), 5 4 3 (slope -1)
    assert_eq!(ft_floats(&trends), vec![2.0, 0.5, -1.0]);
}

#[test]
fn trend_features_need_a_window_of_two() {
    let ts = ft_series(&[1.0, 2.0, 3.0]);
    assert!(matches!(
        FeatureExtractor::trend_features(&ts, 1),
        Err(TelemetryError::InvalidParameter(_))
    ));
    assert!(matches!(
        FeatureExtractor::trend_features(&ts, 0),
        Err(TelemetryError::InvalidParameter(_))
    ));
    assert_eq!(ft_floats(&FeatureExtractor::trend_features(&ts, 2).unwrap()), vec![1.0, 1.0]);
}

#[test]
fn rate_of_change_is_relative_to_the_earlier_value() {
    let ts = ft_series(&[2.0, 0.0, 3.0, 5.0, 6.0]);
    let roc = FeatureExtractor::rate_of_change(&ts, 2).unwrap();
    assert_eq!(ft_floats(&roc), vec![0.5, 0.0, 1.0]);
}

#[test]
fn rate_of_change_rejects_bad_periods() {
    let ts = ft_series(&[1.0, 2.0, 3.0]);
    assert!(matches!(
        FeatureExtractor::rate_of_change(&ts, 0),
        Err(TelemetryError::InvalidParameter(_))
    ));
    assert!(matches!(
        FeatureExtractor::rate_of_change(&ts, 3),
        Err(TelemetryError::InsufficientData(_))
    ));
    assert_eq!(FeatureExtractor::rate_of_change(&ts, 2).unwrap().len(), 1);
}

#[test]
fn slopes_of_large_values_over_long_windows_are_defined() {
    // every value rises by 10 000 000 over a window of 200 values
    let data: Vec<f64> = (0..200).map(|i| 10_000_000.0 * i as f64).collect();
    let ts = ft_series(&data);
    let trends = FeatureExtractor::trend_features(&ts, 200).unwrap();
    assert_eq!(ft_floats(&trends), vec![10_000_000.0]);
}

#[test]
fn slope_rounds_toward_zero() {
    // values 0, 0, 1: slope 0.5; values 0, 0, 0.000000001: slope 0.0000000005
    let ts = ft_series(&[0.0, 0.0, 1.0]);
    assert_eq!(ft_floats(&FeatureExtractor::trend_features(&ts, 3).unwrap()), vec![0.5]);
    let tiny = TimeSeries::new(vec![
        Fixed::from_nanos(0),
        Fixed::from_nanos(0),
        Fixed::from_nanos(1),
    ]);
    assert_eq!(FeatureExtractor::trend_features(&tiny, 3).unwrap()[0].nanos(), Some(0));
    let undefined = TimeSeries::new(vec![Fixed::from_nanos(0), Fixed::undefined()]);
    assert_eq!(FeatureExtractor::trend_features(&undefined, 2).unwrap()[0].nanos(), None);
}
