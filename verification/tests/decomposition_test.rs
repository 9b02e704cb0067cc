use avila_telemetry::decomposition::{Decomposer, DecompositionType};
use avila_telemetry::fixed::Fixed;
use avila_telemetry::time_series::TimeSeries;
use avila_telemetry::TelemetryError;

fn dc_num(x: f64) -> Fixed {
    Fixed::from_nanos((x * 1_000_000_000.0).round() as i64)
}

fn dc_series(values: &[f64]) -> TimeSeries {
    TimeSeries::new(values.iter().map(|&x| dc_num(x)).collect())
}

fn dc_nanos(v: &[Fixed]) -> Vec<Option<i64>> {
    v.iter().map(|x| x.nanos()).collect()
}

#[test]
fn test_decomposition() {
    // Create a simple seasonal series
    let mut data = Vec::new();
    for i in 0..20 {
        let trend = i as f64;
        let seasonal = (i % 4) as f64;
        data.push(trend + seasonal);
    }

    let ts = dc_series(&data);
    let decomposer = Decomposer::new(DecompositionType::Additive, 4).unwrap();

    let result = decomposer.decompose(&ts).unwrap();

    assert_eq!(result.trend.len(), ts.len());
    assert_eq!(result.seasonal.len(), ts.len());
    assert_eq!(result.residual.len(), ts.len());
}

#[test]
fn period_zero_is_rejected() {
    assert!(matches!(
        Decomposer::new(DecompositionType::Additive, 0),
        Err(TelemetryError::InvalidParameter(_))
    ));
    assert!(matches!(
        Decomposer::new(DecompositionType::Multiplicative, 0),
        Err(TelemetryError::InvalidParameter(_))
    ));
    assert!(Decomposer::new(DecompositionType::Multiplicative, 1).is_ok());
}

#[test]
fn series_shorter_than_two_periods_is_rejected() {
    let decomposer = Decomposer::new(DecompositionType::Additive, 4).unwrap();
    let short = dc_series(&[1.0, 2.0, 3.0, 4.0, 5.0, 6.0, 7.0]);
    match decomposer.decompose(&short) {
        Err(TelemetryError::InsufficientData(msg)) => {
            assert_eq!(msg, "Need at least 8 data points for period 4")
        }
        _ => panic!("a series of 7 values was accepted for period 4"),
    }
    let enough = dc_series(&[1.0, 2.0, 3.0, 4.0, 5.0, 6.0, 7.0, 8.0]);
    assert!(decomposer.decompose(&enough).is_ok());
}

#[test]
fn a_huge_period_is_insufficient_data() {
    let decomposer = Decomposer::new(DecompositionType::Additive, usize::MAX).unwrap();
    let ts = dc_series(&[1.0, 2.0]);
    assert!(matches!(decomposer.decompose(&ts), Err(TelemetryError::InsufficientData(_))));
}

#[test]
fn additive_components_are_exact() {
    let ts = dc_series(&[1.0, 4.0, 3.0, 6.0, 5.0, 8.0, 7.0, 10.0]);
    let decomposer = Decomposer::new(DecompositionType::Additive, 2).unwrap();
    let result = decomposer.decompose(&ts).unwrap();
    // the mean of the three values around each place
    assert_eq!(
        dc_nanos(&result.trend),
        vec![
            None,
            Some(2_666_666_666),
            Some(4_333_333_333),
            Some(4_666_666_666),
            Some(6_333_333_333),
            Some(6_666_666_666),
            Some(8_333_333_333),
            None
        ]
    );
    // averages -1.333333333 and 1.333333334 total one billionth, which
    // the first entry gives up
    assert_eq!(
        dc_nanos(&result.seasonal),
        vec![
            Some(-1_333_333_334),
            Some(1_333_333_334),
            Some(-1_333_333_334),
            Some(1_333_333_334),
            Some(-1_333_333_334),
            Some(1_333_333_334),
            Some(-1_333_333_334),
            Some(1_333_333_334)
        ]
    );
    assert_eq!(
        dc_nanos(&result.residual),
        vec![None, Some(0), Some(1), Some(0), Some(1), Some(0), Some(1), None]
    );
}

#[test]
fn even_period_trend_is_the_mean_of_the_window() {
    let ts = dc_series(&[1.0, 1.0, 1.0, 1.0]);
    let decomposer = Decomposer::new(DecompositionType::Additive, 2).unwrap();
    let result = decomposer.decompose(&ts).unwrap();
    assert_eq!(
        dc_nanos(&result.trend),
        vec![None, Some(1_000_000_000), Some(1_000_000_000), None]
    );
    let wide = dc_series(&[2.0, 4.0, 6.0, 8.0, 10.0, 12.0, 14.0, 16.0]);
    let decomposer = Decomposer::new(DecompositionType::Additive, 4).unwrap();
    let result = decomposer.decompose(&wide).unwrap();
    // five values around each place
    assert_eq!(
        dc_nanos(&result.trend),
        vec![
            None,
            None,
            Some(6_000_000_000),
            Some(8_000_000_000),
            Some(10_000_000_000),
            Some(12_000_000_000),
            None,
            None
        ]
    );
}

#[test]
fn additive_season_sums_to_zero_over_a_cycle() {
    let ts = dc_series(&[0.0, 0.000001, 0.0, 0.0]);
    let decomposer = Decomposer::new(DecompositionType::Additive, 2).unwrap();
    let result = decomposer.decompose(&ts).unwrap();
    let first = result.seasonal[0].nanos().unwrap();
    let second = result.seasonal[1].nanos().unwrap();
    assert_eq!(first + second, 0);

    let mut data = Vec::new();
    for i in 0..70 {
        data.push((i as f64) * 0.37 + ((i * i) % 11) as f64 * 1.3);
    }
    let ts = dc_series(&data);
    for period in 1..=12 {
        let decomposer = Decomposer::new(DecompositionType::Additive, period).unwrap();
        let result = decomposer.decompose(&ts).unwrap();
        let sum: i64 = result.seasonal[..period].iter().map(|x| x.nanos().unwrap()).sum();
        assert_eq!(sum, 0);
    }
}

#[test]
fn multiplicative_product_is_within_a_billionth_of_the_value() {
    let ts = dc_series(&[1.0, 1.0, 2.0, 1.0, 1.0, 2.0]);
    let decomposer = Decomposer::new(DecompositionType::Multiplicative, 3).unwrap();
    let result = decomposer.decompose(&ts).unwrap();
    assert_eq!(result.trend[1].nanos(), Some(1_333_333_333));
    assert_eq!(result.seasonal[1].nanos(), Some(750_000_000));
    assert_eq!(result.residual[1].nanos(), Some(1_000_000_000));
    for i in 1..5 {
        let v = ts.values[i].nanos().unwrap() as i128;
        let t = result.trend[i].nanos().unwrap() as i128;
        let s = result.seasonal[i].nanos().unwrap() as i128;
        let r = result.residual[i].nanos().unwrap() as i128;
        let scale: i128 = 1_000_000_000;
        let error = v * scale * scale - t * s * r;
        assert!(2 * error.abs() <= t * s);
        // in units: |v - t*s*r| <= 1e-9 * v
        assert!(error.abs() <= v * scale);
    }
}

#[test]
fn odd_period_trend_is_the_window_mean() {
    let ts = dc_series(&[3.0, 6.0, 9.0, 3.0, 6.0, 9.0]);
    let decomposer = Decomposer::new(DecompositionType::Additive, 3).unwrap();
    let result = decomposer.decompose(&ts).unwrap();
    assert_eq!(
        dc_nanos(&result.trend),
        vec![None, Some(6_000_000_000), Some(6_000_000_000), Some(6_000_000_000), Some(6_000_000_000), None]
    );
    assert_eq!(
        dc_nanos(&result.seasonal),
        vec![
            Some(-3_000_000_000),
            Some(0),
            Some(3_000_000_000),
            Some(-3_000_000_000),
            Some(0),
            Some(3_000_000_000)
        ]
    );
    assert_eq!(
        dc_nanos(&result.residual),
        vec![None, Some(0), Some(0), Some(0), Some(0), None]
    );
}

#[test]
fn additive_reconstruction_holds_where_the_residual_is_defined() {
    let mut data = Vec::new();
    for i in 0..48 {
        let trend = 0.25 * i as f64;
        let seasonal = 5.0 * (i as f64 * std::f64::consts::PI / 6.0).sin();
        let noise = ((i * 37) % 11) as f64 * 0.01;
        data.push(trend + seasonal + noise);
    }
    let ts = dc_series(&data);
    let decomposer = Decomposer::new(DecompositionType::Additive, 12).unwrap();
    let result = decomposer.decompose(&ts).unwrap();
    let mut defined = 0;
    for i in 0..ts.len() {
        if let Some(t) = result.trend[i].nanos() {
            let s = result.seasonal[i].nanos().unwrap();
            let r = result.residual[i].nanos().unwrap();
            assert_eq!(ts.values[i].nanos().unwrap(), t + s + r);
            defined += 1;
        } else {
            assert_eq!(result.residual[i].nanos(), None);
        }
    }
    assert_eq!(defined, 48 - 12);
}

#[test]
fn seasonal_component_repeats_with_the_period() {
    let mut data = Vec::new();
    for i in 0..30 {
        data.push((i as f64) * 0.5 + ((i * i) % 7) as f64);
    }
    let ts = dc_series(&data);
    for kind in [DecompositionType::Additive, DecompositionType::Multiplicative] {
        let decomposer = Decomposer::new(kind, 5).unwrap();
        let result = decomposer.decompose(&ts).unwrap();
        for i in 0..25 {
            assert_eq!(result.seasonal[i].nanos(), result.seasonal[i + 5].nanos());
        }
    }
}

#[test]
fn trend_is_undefined_at_both_ends() {
    let data: Vec<f64> = (0..20).map(|i| i as f64).collect();
    let ts = dc_series(&data);
    let decomposer = Decomposer::new(DecompositionType::Additive, 6).unwrap();
    let result = decomposer.decompose(&ts).unwrap();
    for i in 0..20 {
        assert_eq!(result.trend[i].is_defined(), (3..17).contains(&i));
        assert_eq!(result.residual[i].is_defined(), (3..17).contains(&i));
        assert!(result.seasonal[i].is_defined());
    }
}

#[test]
fn multiplicative_components_are_exact() {
    let ts = dc_series(&[2.0, 4.0, 2.0, 4.0, 2.0, 4.0]);
    let decomposer = Decomposer::new(DecompositionType::Multiplicative, 2).unwrap();
    let result = decomposer.decompose(&ts).unwrap();
    // trend: the mean of v[i-1], v[i], v[i+1]
    assert_eq!(
        dc_nanos(&result.trend),
        vec![
            None,
            Some(2_666_666_666),
            Some(3_333_333_333),
            Some(2_666_666_666),
            Some(3_333_333_333),
            None
        ]
    );
    // detrended: 1.5, 0.6, 1.5, 0.6; cycle before normalizing: [0.6, 1.5], mean 1.05
    assert_eq!(
        dc_nanos(&result.seasonal),
        vec![
            Some(571_428_571),
            Some(1_428_571_428),
            Some(571_428_571),
            Some(1_428_571_428),
            Some(571_428_571),
            Some(1_428_571_428)
        ]
    );
    // residual: v / (t * s), to the nearest billionth
    assert_eq!(
        dc_nanos(&result.residual),
        vec![
            None,
            Some(1_050_000_001),
            Some(1_050_000_001),
            Some(1_050_000_001),
            Some(1_050_000_001),
            None
        ]
    );
}

#[test]
fn multiplicative_zero_trend_is_undefined() {
    let ts = dc_series(&[0.0, 0.0, 0.0, 0.0, 1.0, 2.0]);
    let decomposer = Decomposer::new(DecompositionType::Multiplicative, 2).unwrap();
    let result = decomposer.decompose(&ts).unwrap();
    assert_eq!(result.trend[1].nanos(), Some(0));
    assert_eq!(result.trend[2].nanos(), Some(0));
    assert_eq!(result.residual[1].nanos(), None);
    assert_eq!(result.residual[2].nanos(), None);
    assert_eq!(result.trend[3].nanos(), Some(333_333_333));
}

#[test]
fn undefined_values_are_skipped_by_the_seasonal_average() {
    let mut values: Vec<Fixed> =
        [0.0, 3.0, 2.0, 0.0, 4.0, 7.0, 6.0, 9.0].iter().map(|&x| dc_num(x)).collect();
    values[3] = Fixed::undefined();
    let ts = TimeSeries::new(values);
    let decomposer = Decomposer::new(DecompositionType::Additive, 2).unwrap();
    let result = decomposer.decompose(&ts).unwrap();
    // every window that holds the undefined value has no trend
    assert_eq!(
        result.trend.iter().map(|x| x.is_defined()).collect::<Vec<bool>>(),
        vec![false, true, false, false, false, true, true, false]
    );
    // detrended: 1.333333334 at 1 and 5, -1.333333333 at 6
    assert_eq!(result.seasonal[0].nanos(), Some(-1_333_333_334));
    assert_eq!(result.seasonal[1].nanos(), Some(1_333_333_334));
}

#[test]
fn multiplicative_cycle_with_zero_mean_is_left_as_it_is() {
    // a zero trend leaves nothing to average: the cycle is all zero, and
    // is not divided by its mean
    let ts = dc_series(&[0.0, 0.0, 0.0, 0.0, 0.0, 0.0]);
    let decomposer = Decomposer::new(DecompositionType::Multiplicative, 2).unwrap();
    let result = decomposer.decompose(&ts).unwrap();
    assert_eq!(dc_nanos(&result.seasonal), vec![Some(0); 6]);
    assert_eq!(dc_nanos(&result.residual), vec![None; 6]);
}

#[test]
fn multiplicative_residual_is_rounded_to_the_nearest_billionth() {
    // at index 2: value 2, trend 1.666666666, season 1.230769230; the
    // quotient 0.9750000007... rounds up
    let ts = dc_series(&[1.0, 1.0, 2.0, 2.0]);
    let decomposer = Decomposer::new(DecompositionType::Multiplicative, 2).unwrap();
    let result = decomposer.decompose(&ts).unwrap();
    assert_eq!(result.trend[2].nanos(), Some(1_666_666_666));
    assert_eq!(result.seasonal[2].nanos(), Some(1_230_769_230));
    assert_eq!(result.residual[2].nanos(), Some(975_000_001));
    let scale: i128 = 1_000_000_000;
    let error = 2 * scale * scale * scale - 1_666_666_666 * 1_230_769_230 * 975_000_001;
    assert!(error.abs() <= 2 * scale * scale);
}
