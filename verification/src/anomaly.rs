//! Anomaly detection algorithms.

use vstd::prelude::*;
use crate::fixed::{fixed_of, Fixed, SCALE};
use crate::ranking::{order_statistic, sorted};
use crate::series::{every_defined, mean_spec, std_dev_spec};
use crate::time_series::{moving_average_spec, TimeSeries};
use crate::TelemetryError;

verus! {

/// Type of anomaly detected.
#[derive(Debug, Clone, Copy, PartialEq, Eq)]
pub enum AnomalyType {
    /// Point anomaly (single outlier)
    Point,
    /// Contextual anomaly (unusual in context)
    Contextual,
    /// Collective anomaly (unusual pattern)
    Collective,
}

/// Represents a detected anomaly.
#[derive(Debug, Clone, Copy)]
pub struct Anomaly {
    /// Index in the time series
    pub index: usize,
    /// Value at the anomaly point
    pub value: Fixed,
    /// Type of anomaly
    pub anomaly_type: AnomalyType,
    /// Anomaly score (higher = more anomalous)
    pub score: Fixed,
}

/// Anomaly detector using various statistical methods.
pub struct AnomalyDetector {
    /// Z-score threshold for detection
    pub z_threshold: Fixed,
    /// IQR multiplier for detection
    pub iqr_multiplier: Fixed,
}

/// A rule that says, for a position, whether there is an anomaly there.
pub type Rule = spec_fn(int) -> Option<Anomaly>;

/// The anomalies that a rule finds at the positions below `n`, in order.
pub open spec fn hits(n: nat, rule: Rule) -> Seq<Anomaly>
    decreases n,
{
    if n == 0 {
        Seq::empty()
    } else {
        match rule(n - 1) {
            Some(a) => hits((n - 1) as nat, rule).push(a),
            None => hits((n - 1) as nat, rule),
        }
    }
}

/// The distance of the value at `i` from the mean, in standard deviations.
pub open spec fn z_score_at(values: Seq<Fixed>, i: int) -> Fixed {
    values[i].sub_spec(mean_spec(values, values.len() as int)).div_spec(
        std_dev_spec(values),
    ).abs_spec()
}

/// A point anomaly wherever the z-score exceeds the threshold; the score
/// is the z-score.
pub open spec fn zscore_rule(values: Seq<Fixed>, threshold: Fixed) -> Rule {
    |i: int|
        if threshold.lt_spec(z_score_at(values, i)) {
            Some(
                Anomaly {
                    index: i as usize,
                    value: values[i],
                    anomaly_type: AnomalyType::Point,
                    score: z_score_at(values, i),
                },
            )
        } else {
            None
        }
}

/// The value a quarter of the way through the ascending order.
pub open spec fn first_quartile(values: Seq<Fixed>) -> Fixed {
    order_statistic(values, values.len() as int / 4)
}

/// The value three quarters of the way through the ascending order.
pub open spec fn third_quartile(values: Seq<Fixed>) -> Fixed {
    order_statistic(values, 3 * values.len() as int / 4)
}

/// The distance between the quartiles.
pub open spec fn quartile_range(values: Seq<Fixed>) -> Fixed {
    third_quartile(values).sub_spec(first_quartile(values))
}

/// The first quartile less the multiplier times the quartile range.
pub open spec fn lower_fence(values: Seq<Fixed>, multiplier: Fixed) -> Fixed {
    first_quartile(values).sub_spec(multiplier.mul_spec(quartile_range(values)))
}

/// The third quartile plus the multiplier times the quartile range.
pub open spec fn upper_fence(values: Seq<Fixed>, multiplier: Fixed) -> Fixed {
    third_quartile(values).add_spec(multiplier.mul_spec(quartile_range(values)))
}

/// A point anomaly wherever the value lies outside the fences; the score
/// is its distance from the fence in quartile ranges.
pub open spec fn iqr_rule(values: Seq<Fixed>, multiplier: Fixed) -> Rule {
    |i: int|
        if values[i].lt_spec(lower_fence(values, multiplier)) {
            Some(
                Anomaly {
                    index: i as usize,
                    value: values[i],
                    anomaly_type: AnomalyType::Point,
                    score: lower_fence(values, multiplier).sub_spec(values[i]).div_spec(
                        quartile_range(values),
                    ),
                },
            )
        } else if upper_fence(values, multiplier).lt_spec(values[i]) {
            Some(
                Anomaly {
                    index: i as usize,
                    value: values[i],
                    anomaly_type: AnomalyType::Point,
                    score: values[i].sub_spec(upper_fence(values, multiplier)).div_spec(
                        quartile_range(values),
                    ),
                },
            )
        } else {
            None
        }
}

/// `a`, or the smallest positive number when `a` is less or undefined.
pub open spec fn at_least_smallest(a: Fixed) -> Fixed {
    if a.defined() && a.val() >= 1 {
        a
    } else {
        fixed_of(1)
    }
}

/// The distance of the value in the middle of the window that starts at
/// `j` from the window's average, as a fraction of the magnitude of the
/// average.
pub open spec fn relative_deviation(values: Seq<Fixed>, window: int, j: int) -> Fixed {
    values[j + window / 2].sub_spec(moving_average_spec(values, window)[j]).abs_spec().div_spec(
        at_least_smallest(moving_average_spec(values, window)[j].abs_spec()),
    )
}

/// A contextual anomaly in the middle of every window whose relative
/// deviation exceeds one half; the score is the relative deviation.
pub open spec fn contextual_rule(values: Seq<Fixed>, window: int) -> Rule {
    |j: int|
        if fixed_of(500_000_000).lt_spec(relative_deviation(values, window, j)) {
            Some(
                Anomaly {
                    index: (j + window / 2) as usize,
                    value: values[j + window / 2],
                    anomaly_type: AnomalyType::Contextual,
                    score: relative_deviation(values, window, j),
                },
            )
        } else {
            None
        }
}

/// The score of an anomaly, or zero where there is none.
pub open spec fn score_or_zero(a: Option<Anomaly>) -> Fixed {
    match a {
        Some(a) => a.score,
        None => fixed_of(0),
    }
}

/// A point anomaly wherever the z-score rule or the quartile rule finds
/// one; the score is the mean of the two scores, a missing one counting
/// as zero.
pub open spec fn ensemble_rule(values: Seq<Fixed>, threshold: Fixed, multiplier: Fixed) -> Rule {
    |i: int|
        if zscore_rule(values, threshold)(i) is Some || iqr_rule(values, multiplier)(i) is Some {
            Some(
                Anomaly {
                    index: i as usize,
                    value: values[i],
                    anomaly_type: AnomalyType::Point,
                    score: score_or_zero(zscore_rule(values, threshold)(i)).add_spec(
                        score_or_zero(iqr_rule(values, multiplier)(i)),
                    ).div_spec(fixed_of(2 * SCALE)),
                },
            )
        } else {
            None
        }
}

/// Every anomaly that the rule finds below `n` carries its position.
pub open spec fn positional(rule: Rule, n: nat) -> bool {
    forall|j: int| 0 <= j < n ==> (#[trigger] rule(j) matches Some(a) ==> a.index == j)
}

/// The anomalies found below `m` are the first of those found below `n`.
pub proof fn lemma_hits_prefix(n: nat, m: nat, rule: Rule)
    requires
        m <= n,
    ensures
        hits(m, rule).len() <= hits(n, rule).len(),
        hits(n, rule).subrange(0, hits(m, rule).len() as int) == hits(m, rule),
    decreases n,
{
    if m == n {
        assert(hits(n, rule).subrange(0, hits(n, rule).len() as int) =~= hits(n, rule));
    } else {
        lemma_hits_prefix((n - 1) as nat, m, rule);
        assert(hits(n, rule).subrange(0, hits(m, rule).len() as int) =~= hits(
            (n - 1) as nat,
            rule,
        ).subrange(0, hits(m, rule).len() as int));
    }
}

/// The anomalies found below `n` that are not among those found below
/// `m` lie at `m` or after it.
pub proof fn lemma_hits_later(n: nat, m: nat, rule: Rule, k: int)
    requires
        m <= n,
        positional(rule, n),
        hits(m, rule).len() <= k < hits(n, rule).len(),
    ensures
        m <= hits(n, rule)[k].index < n,
    decreases n,
{
    if m < n {
        let before = hits((n - 1) as nat, rule);
        if k < before.len() {
            lemma_hits_later((n - 1) as nat, m, rule, k);
        } else {
            assert(rule(n - 1) is Some);
        }
    }
}

impl Default for AnomalyDetector {
    /// A z-score threshold of 3 and a quartile-range multiplier of 1.5.
    fn default() -> (r: Self)
        ensures
            r.z_threshold == fixed_of(3 * SCALE),
            r.iqr_multiplier == fixed_of(1_500_000_000),
    {
        AnomalyDetector {
            z_threshold: Fixed::from_nanos(3_000_000_000),
            iqr_multiplier: Fixed::from_nanos(1_500_000_000),
        }
    }
}

impl AnomalyDetector {
    /// Create a new anomaly detector with custom parameters.
    pub fn new(z_threshold: Fixed, iqr_multiplier: Fixed) -> (r: Self)
        ensures
            r.z_threshold == z_threshold,
            r.iqr_multiplier == iqr_multiplier,
    {
        AnomalyDetector { z_threshold, iqr_multiplier }
    }

    /// Detect anomalies using Z-score method, on at least 3 values.
    pub fn detect_zscore(&self, ts: &TimeSeries) -> (r: Result<Vec<Anomaly>, TelemetryError>)
        ensures
            match r {
                Ok(found) => ts.values.len() >= 3 && found@ == hits(
                    ts.values@.len(),
                    zscore_rule(ts.values@, self.z_threshold),
                ),
                Err(e) => ts.values.len() < 3 && e is InsufficientData,
            },
    {
        if ts.len() < 3 {
            return Err(
                TelemetryError::InsufficientData(
                    "Need at least 3 data points for Z-score detection".to_string(),
                ),
            );
        }
        let stats = ts.statistics();
        let n: usize = ts.values.len();
        let ghost rule = zscore_rule(ts.values@, self.z_threshold);
        let mut anomalies: Vec<Anomaly> = Vec::new();
        let mut i: usize = 0;
        while i < n
            invariant
                i <= n,
                n == ts.values.len(),
                n >= 3,
                stats.mean == mean_spec(ts.values@, n as int),
                stats.std_dev == std_dev_spec(ts.values@),
                rule == zscore_rule(ts.values@, self.z_threshold),
                anomalies@ == hits(i as nat, rule),
            decreases n - i,
        {
            let value = ts.values[i];
            let z_score = value.sub(stats.mean).div(stats.std_dev).abs();
            assert(z_score == z_score_at(ts.values@, i as int));
            if self.z_threshold.lt(z_score) {
                anomalies.push(
                    Anomaly { index: i, value, anomaly_type: AnomalyType::Point, score: z_score },
                );
            }
            i = i + 1;
        }
        Ok(anomalies)
    }

    /// Detect anomalies using IQR (Interquartile Range) method, on at
    /// least 4 values.
    pub fn detect_iqr(&self, ts: &TimeSeries) -> (r: Result<Vec<Anomaly>, TelemetryError>)
        ensures
            match r {
                Ok(found) => ts.values.len() >= 4 && found@ == hits(
                    ts.values@.len(),
                    iqr_rule(ts.values@, self.iqr_multiplier),
                ),
                Err(e) => ts.values.len() < 4 && e is InsufficientData,
            },
    {
        if ts.len() < 4 {
            return Err(
                TelemetryError::InsufficientData(
                    "Need at least 4 data points for IQR detection".to_string(),
                ),
            );
        }
        let n: usize = ts.values.len();
        let ordered = sorted(&ts.values);
        proof {
            crate::ranking::lemma_ascending(ts.values@);
        }
        let complete: bool = every_defined(&ts.values);
        let at_q1: usize = n / 4;
        let at_q3: usize = (3 * (n as u128) / 4) as usize;
        let q1 = if complete {
            ordered[at_q1]
        } else {
            Fixed::undefined()
        };
        let q3 = if complete {
            ordered[at_q3]
        } else {
            Fixed::undefined()
        };
        let iqr = q3.sub(q1);

        let lower_bound = q1.sub(self.iqr_multiplier.mul(iqr));
        let upper_bound = q3.add(self.iqr_multiplier.mul(iqr));

        let ghost rule = iqr_rule(ts.values@, self.iqr_multiplier);
        let mut anomalies: Vec<Anomaly> = Vec::new();
        let mut i: usize = 0;
        while i < n
            invariant
                i <= n,
                n == ts.values.len(),
                iqr == quartile_range(ts.values@),
                lower_bound == lower_fence(ts.values@, self.iqr_multiplier),
                upper_bound == upper_fence(ts.values@, self.iqr_multiplier),
                rule == iqr_rule(ts.values@, self.iqr_multiplier),
                anomalies@ == hits(i as nat, rule),
            decreases n - i,
        {
            let value = ts.values[i];
            if value.lt(lower_bound) || upper_bound.lt(value) {
                let score = if value.lt(lower_bound) {
                    lower_bound.sub(value).div(iqr)
                } else {
                    value.sub(upper_bound).div(iqr)
                };
                anomalies.push(
                    Anomaly { index: i, value, anomaly_type: AnomalyType::Point, score },
                );
            }
            i = i + 1;
        }
        Ok(anomalies)
    }

    /// Detect anomalies using moving average deviation.
    pub fn detect_moving_average(&self, ts: &TimeSeries, window: usize) -> (r: Result<
        Vec<Anomaly>,
        TelemetryError,
    >)
        ensures
            match r {
                Ok(found) => 0 < window <= ts.values.len() && found@ == hits(
                    (ts.values.len() - window + 1) as nat,
                    contextual_rule(ts.values@, window as int),
                ),
                Err(e) => if window == 0 {
                    e is InvalidParameter
                } else {
                    window > ts.values.len() && e is InsufficientData
                },
            },
    {
        let ma = match ts.moving_average(window) {
            Ok(ma) => ma,
            Err(e) => { return Err(e); },
        };
        let ghost rule = contextual_rule(ts.values@, window as int);
        let mut anomalies: Vec<Anomaly> = Vec::new();

        // Calculate deviations from moving average
        let offset: usize = window / 2;
        let mut i: usize = 0;
        while i < ma.len()
            invariant
                i <= ma.len(),
                0 < window <= ts.values.len(),
                offset == window / 2,
                ma@ == moving_average_spec(ts.values@, window as int),
                ma@.len() == ts.values.len() - window + 1,
                rule == contextual_rule(ts.values@, window as int),
                anomalies@ == hits(i as nat, rule),
            decreases ma.len() - i,
        {
            let actual_idx: usize = i + offset;
            let average = ma[i];
            let deviation = ts.values[actual_idx].sub(average).abs();
            let magnitude = average.abs();
            let floor = if Fixed::from_nanos(1).le(magnitude) {
                magnitude
            } else {
                Fixed::from_nanos(1)
            };
            let relative_dev = deviation.div(floor);
            assert(relative_dev == relative_deviation(ts.values@, window as int, i as int));

            // 50% deviation threshold
            if Fixed::from_nanos(500_000_000).lt(relative_dev) {
                anomalies.push(
                    Anomaly {
                        index: actual_idx,
                        value: ts.values[actual_idx],
                        anomaly_type: AnomalyType::Contextual,
                        score: relative_dev,
                    },
                );
            }
            i = i + 1;
        }
        Ok(anomalies)
    }

    /// Detect anomalies using multiple methods and aggregate results, on
    /// at least 4 values.
    pub fn detect_ensemble(&self, ts: &TimeSeries) -> (r: Result<Vec<Anomaly>, TelemetryError>)
        ensures
            match r {
                Ok(found) => ts.values.len() >= 4 && found@ == hits(
                    ts.values@.len(),
                    ensemble_rule(ts.values@, self.z_threshold, self.iqr_multiplier),
                ),
                Err(e) => ts.values.len() < 4 && e is InsufficientData,
            },
    {
        let zscore_anomalies = match self.detect_zscore(ts) {
            Ok(found) => found,
            Err(e) => { return Err(e); },
        };
        let iqr_anomalies = match self.detect_iqr(ts) {
            Ok(found) => found,
            Err(e) => { return Err(e); },
        };
        let n: usize = ts.values.len();
        let ghost by_zscore = zscore_rule(ts.values@, self.z_threshold);
        let ghost by_iqr = iqr_rule(ts.values@, self.iqr_multiplier);
        let ghost rule = ensemble_rule(ts.values@, self.z_threshold, self.iqr_multiplier);
        assert(positional(by_zscore, n as nat));
        assert(positional(by_iqr, n as nat));

        // Walk the positions once, with a cursor into each list
        let mut anomalies: Vec<Anomaly> = Vec::new();
        let mut next_zscore: usize = 0;
        let mut next_iqr: usize = 0;
        let mut i: usize = 0;
        while i < n
            invariant
                i <= n,
                n == ts.values.len(),
                by_zscore == zscore_rule(ts.values@, self.z_threshold),
                by_iqr == iqr_rule(ts.values@, self.iqr_multiplier),
                rule == ensemble_rule(ts.values@, self.z_threshold, self.iqr_multiplier),
                positional(by_zscore, n as nat),
                positional(by_iqr, n as nat),
                zscore_anomalies@ == hits(n as nat, by_zscore),
                iqr_anomalies@ == hits(n as nat, by_iqr),
                next_zscore == hits(i as nat, by_zscore).len(),
                next_iqr == hits(i as nat, by_iqr).len(),
                next_zscore <= zscore_anomalies@.len(),
                next_iqr <= iqr_anomalies@.len(),
                anomalies@ == hits(i as nat, rule),
            decreases n - i,
        {
            proof {
                lemma_hits_prefix(n as nat, (i + 1) as nat, by_zscore);
                lemma_hits_prefix(n as nat, (i + 1) as nat, by_iqr);
                if next_zscore < zscore_anomalies@.len() && by_zscore(i as int) is None {
                    lemma_hits_later(n as nat, (i + 1) as nat, by_zscore, next_zscore as int);
                }
                if next_iqr < iqr_anomalies@.len() && by_iqr(i as int) is None {
                    lemma_hits_later(n as nat, (i + 1) as nat, by_iqr, next_iqr as int);
                }
                if by_zscore(i as int) is Some {
                    assert(hits((i + 1) as nat, by_zscore)[next_zscore as int] == by_zscore(
                        i as int,
                    ).unwrap());
                }
                if by_iqr(i as int) is Some {
                    assert(hits((i + 1) as nat, by_iqr)[next_iqr as int] == by_iqr(
                        i as int,
                    ).unwrap());
                }
            }
            let in_zscore: bool = next_zscore < zscore_anomalies.len()
                && zscore_anomalies[next_zscore].index == i;
            let in_iqr: bool = next_iqr < iqr_anomalies.len() && iqr_anomalies[next_iqr].index == i;
            assert(in_zscore == (by_zscore(i as int) is Some));
            assert(in_iqr == (by_iqr(i as int) is Some));
            if in_zscore || in_iqr {
                let zscore_score = if in_zscore {
                    zscore_anomalies[next_zscore].score
                } else {
                    Fixed::from_nanos(0)
                };
                let iqr_score = if in_iqr {
                    iqr_anomalies[next_iqr].score
                } else {
                    Fixed::from_nanos(0)
                };

                // Average the scores
                let score = zscore_score.add(iqr_score).div(Fixed::from_nanos(2_000_000_000));
                anomalies.push(
                    Anomaly {
                        index: i,
                        value: ts.values[i],
                        anomaly_type: AnomalyType::Point,
                        score,
                    },
                );
            }
            if in_zscore {
                next_zscore = next_zscore + 1;
            }
            if in_iqr {
                next_iqr = next_iqr + 1;
            }
            i = i + 1;
        }
        Ok(anomalies)
    }
}

} // verus!
