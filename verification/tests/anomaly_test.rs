use avila_telemetry::anomaly::{AnomalyDetector, AnomalyType};
use avila_telemetry::fixed::Fixed;
use avila_telemetry::time_series::TimeSeries;
use avila_telemetry::TelemetryError;

fn an_num(x: f64) -> Fixed {
    Fixed::from_nanos((x * 1_000_000_000.0).round() as i64)
}

fn an_series(values: &[f64]) -> TimeSeries {
    TimeSeries::new(values.iter().map(|&x| an_num(x)).collect())
}

#[test]
fn test_iqr_detection() {
    let data = vec![1.0, 2.0, 3.0, 2.0, 1.0, 100.0, 2.0, 1.0];
    let ts = an_series(&data);
    let detector = AnomalyDetector::default();

    let anomalies = detector.detect_iqr(&ts).unwrap();
    assert!(!anomalies.is_empty());
}

#[test]
fn default_detector_uses_three_and_one_and_a_half() {
    let detector = AnomalyDetector::default();
    assert_eq!(detector.z_threshold.nanos(), Some(3_000_000_000));
    assert_eq!(detector.iqr_multiplier.nanos(), Some(1_500_000_000));
    let custom = AnomalyDetector::new(an_num(2.0), an_num(1.0));
    assert_eq!(custom.z_threshold.nanos(), Some(2_000_000_000));
    assert_eq!(custom.iqr_multiplier.nanos(), Some(1_000_000_000));
}

#[test]
fn zscore_needs_three_values() {
    let detector = AnomalyDetector::default();
    assert!(matches!(
        detector.detect_zscore(&an_series(&[1.0, 2.0])),
        Err(TelemetryError::InsufficientData(_))
    ));
    assert!(detector.detect_zscore(&an_series(&[1.0, 2.0, 3.0])).is_ok());
}

#[test]
fn test_zscore_detection() {
    let data = vec![1.0, 2.0, 3.0, 2.0, 1.0, 100.0, 2.0, 1.0];
    let ts = an_series(&data);
    let detector = AnomalyDetector::default();

    // with the population standard deviation the z-score of 100.0 is
    // 2.645, under the threshold of 3: among eight values none exceeds
    // the square root of 7
    let anomalies = detector.detect_zscore(&ts).unwrap();
    assert!(anomalies.is_empty());
}

#[test]
fn zscore_flags_the_outlier_under_a_lower_threshold() {
    let ts = an_series(&[1.0, 2.0, 3.0, 2.0, 1.0, 100.0, 2.0, 1.0]);
    let detector = AnomalyDetector::new(an_num(2.5), an_num(1.5));
    let anomalies = detector.detect_zscore(&ts).unwrap();
    assert_eq!(anomalies.len(), 1);
    assert_eq!(anomalies[0].index, 5);
    assert_eq!(anomalies[0].value.nanos(), Some(100_000_000_000));
    assert_eq!(anomalies[0].anomaly_type, AnomalyType::Point);
    // (100 - 14) / 32.511536414 = 2.645214883
    assert_eq!(anomalies[0].score.nanos(), Some(2_645_214_883));
}

#[test]
fn zscore_of_a_constant_series_finds_nothing() {
    let ts = an_series(&[4.0, 4.0, 4.0, 4.0]);
    let detector = AnomalyDetector::new(an_num(0.0), an_num(1.5));
    assert!(detector.detect_zscore(&ts).unwrap().is_empty());
}

#[test]
fn iqr_needs_four_values() {
    let detector = AnomalyDetector::default();
    assert!(matches!(
        detector.detect_iqr(&an_series(&[1.0, 2.0, 3.0])),
        Err(TelemetryError::InsufficientData(_))
    ));
    assert!(detector.detect_iqr(&an_series(&[1.0, 2.0, 3.0, 4.0])).is_ok());
}

#[test]
fn iqr_scores_are_distances_in_quartile_ranges() {
    // ascending: 1 1 1 2 2 2 3 100 and -50 in place of one 1
    let ts = an_series(&[1.0, 2.0, 3.0, 2.0, -50.0, 100.0, 2.0, 1.0]);
    let anomalies = AnomalyDetector::default().detect_iqr(&ts).unwrap();
    // ascending: -50 1 1 2 2 2 3 100; quartiles 1 and 3; fences -2 and 6
    assert_eq!(anomalies.len(), 2);
    assert_eq!(anomalies[0].index, 4);
    assert_eq!(anomalies[0].score.nanos(), Some(24_000_000_000));
    assert_eq!(anomalies[0].anomaly_type, AnomalyType::Point);
    assert_eq!(anomalies[1].index, 5);
    assert_eq!(anomalies[1].score.nanos(), Some(47_000_000_000));
    assert_eq!(anomalies[1].value.nanos(), Some(100_000_000_000));
}

#[test]
fn iqr_over_an_undefined_value_finds_nothing() {
    let mut values: Vec<Fixed> = [1.0, 2.0, 3.0, 2.0, 1.0, 100.0].iter().map(|&x| an_num(x)).collect();
    values[1] = Fixed::undefined();
    let ts = TimeSeries::new(values);
    assert!(AnomalyDetector::default().detect_iqr(&ts).unwrap().is_empty());
    assert!(AnomalyDetector::default().detect_zscore(&ts).unwrap().is_empty());
}

#[test]
fn moving_average_detection_flags_the_middle_of_a_window() {
    let ts = an_series(&[10.0, 10.0, 40.0, 10.0, 10.0]);
    let detector = AnomalyDetector::default();
    let anomalies = detector.detect_moving_average(&ts, 3).unwrap();
    // windows average 20, 20, 20; middles 10, 40, 10; deviations 0.5, 1, 0.5
    assert_eq!(anomalies.len(), 1);
    assert_eq!(anomalies[0].index, 2);
    assert_eq!(anomalies[0].value.nanos(), Some(40_000_000_000));
    assert_eq!(anomalies[0].anomaly_type, AnomalyType::Contextual);
    assert_eq!(anomalies[0].score.nanos(), Some(1_000_000_000));
}

#[test]
fn moving_average_detection_divides_by_the_smallest_number_at_zero() {
    let ts = an_series(&[-1.0, 1.0, 1.0]);
    let anomalies = AnomalyDetector::default().detect_moving_average(&ts, 2).unwrap();
    // first window averages 0: the deviation of 1 is divided by 0.000000001
    assert_eq!(anomalies.len(), 1);
    assert_eq!(anomalies[0].index, 1);
    assert_eq!(anomalies[0].score.nanos(), Some(1_000_000_000_000_000_000));
}

#[test]
fn moving_average_detection_passes_window_errors_on() {
    let ts = an_series(&[1.0, 2.0]);
    let detector = AnomalyDetector::default();
    assert!(matches!(
        detector.detect_moving_average(&ts, 0),
        Err(TelemetryError::InvalidParameter(_))
    ));
    assert!(matches!(
        detector.detect_moving_average(&ts, 3),
        Err(TelemetryError::InsufficientData(_))
    ));
}

#[test]
fn ensemble_needs_four_values() {
    let detector = AnomalyDetector::default();
    assert!(matches!(
        detector.detect_ensemble(&an_series(&[1.0, 2.0])),
        Err(TelemetryError::InsufficientData(_))
    ));
    assert!(matches!(
        detector.detect_ensemble(&an_series(&[1.0, 2.0, 3.0])),
        Err(TelemetryError::InsufficientData(_))
    ));
    assert!(detector.detect_ensemble(&an_series(&[1.0, 2.0, 3.0, 4.0])).is_ok());
}

#[test]
fn ensemble_averages_the_scores_of_both_methods() {
    let ts = an_series(&[1.0, 2.0, 3.0, 2.0, -50.0, 100.0, 2.0, 1.0]);
    let detector = AnomalyDetector::new(an_num(2.0), an_num(1.5));
    let zscore = detector.detect_zscore(&ts).unwrap();
    let iqr = detector.detect_iqr(&ts).unwrap();
    assert_eq!(zscore.iter().map(|a| a.index).collect::<Vec<usize>>(), vec![5]);
    assert_eq!(iqr.iter().map(|a| a.index).collect::<Vec<usize>>(), vec![4, 5]);
    let both = detector.detect_ensemble(&ts).unwrap();
    assert_eq!(both.iter().map(|a| a.index).collect::<Vec<usize>>(), vec![4, 5]);
    assert_eq!(both[0].score.nanos(), Some(iqr[0].score.nanos().unwrap() / 2));
    assert_eq!(
        both[1].score.nanos(),
        Some((zscore[0].score.nanos().unwrap() + iqr[1].score.nanos().unwrap()) / 2)
    );
    assert_eq!(both[0].value.nanos(), Some(-50_000_000_000));
    assert_eq!(both[1].anomaly_type, AnomalyType::Point);
}
