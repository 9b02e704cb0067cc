//! Time series decomposition (trend, seasonality, residuals).

use vstd::prelude::*;
use vstd::arithmetic::div_mod::{
    lemma_fundamental_div_mod,
    lemma_mod_add_multiples_vanish,
    lemma_mod_pos_bound,
};
use crate::fixed::{
    fits,
    fixed_of,
    lemma_nearest_remainder,
    lemma_quot_remainder,
    nearest,
    quot,
    undefined,
    wide_nearest,
    wide_product,
    wide_quot,
    Fixed,
    SCALE,
};
use crate::forecasting::repeated;
use crate::series::{
    all_defined,
    lemma_mean_within,
    lemma_quot_within,
    lemma_total_within,
    mean_of_range,
    mean_spec,
    total,
    total_bound,
    wide_total,
    within,
};
use crate::time_series::TimeSeries;
use crate::TelemetryError;

verus! {

/// Result of time series decomposition.
#[derive(Debug, Clone)]
pub struct DecompositionResult {
    /// Trend component
    pub trend: Vec<Fixed>,
    /// Seasonal component
    pub seasonal: Vec<Fixed>,
    /// Residual component
    pub residual: Vec<Fixed>,
}

/// Type of decomposition.
#[derive(Debug, Clone, Copy)]
pub enum DecompositionType {
    /// Additive: Y = T + S + R
    Additive,
    /// Multiplicative: Y = T * S * R
    Multiplicative,
}

/// Time series decomposer.
pub struct Decomposer {
    decomposition_type: DecompositionType,
    period: usize,
}

/// Centered moving average at index `i`: the mean of the values from
/// `i - period / 2` to `i + period / 2` inclusive. Undefined within
/// `period / 2` of either end.
pub open spec fn trend_at(values: Seq<Fixed>, period: int, i: int) -> Fixed {
    let half = period / 2;
    if half <= i < values.len() - half {
        mean_spec(values.subrange(i - half, i + half + 1), 2 * half + 1)
    } else {
        undefined()
    }
}

/// The trend component of `values`.
pub open spec fn trend_spec(values: Seq<Fixed>, period: int) -> Seq<Fixed> {
    Seq::new(values.len(), |i: int| trend_at(values, period, i))
}

/// A value with its trend removed; undefined where the trend is undefined
/// or, for the multiplicative form, zero.
pub open spec fn detrend_value(kind: DecompositionType, v: Fixed, t: Fixed) -> Fixed {
    if !t.defined() {
        undefined()
    } else {
        match kind {
            DecompositionType::Additive => v.sub_spec(t),
            DecompositionType::Multiplicative => v.div_spec(t),
        }
    }
}

/// The detrended series.
pub open spec fn detrend_spec(kind: DecompositionType, values: Seq<Fixed>, trend: Seq<Fixed>) -> Seq<
    Fixed,
> {
    Seq::new(values.len(), |i: int| detrend_value(kind, values[i], trend[i]))
}

/// Total of the defined entries of `d` whose index is `p` modulo `period`.
pub open spec fn class_total(d: Seq<Fixed>, period: int, p: int) -> int
    decreases d.len(),
{
    if d.len() == 0 {
        0
    } else {
        class_total(d.drop_last(), period, p) + if (d.len() - 1) % period == p && d.last().defined() {
            d.last().val()
        } else {
            0
        }
    }
}

/// Number of defined entries of `d` whose index is `p` modulo `period`.
pub open spec fn class_count(d: Seq<Fixed>, period: int, p: int) -> int
    decreases d.len(),
{
    if d.len() == 0 {
        0
    } else {
        class_count(d.drop_last(), period, p) + if (d.len() - 1) % period == p && d.last().defined() {
            1int
        } else {
            0int
        }
    }
}

/// Average of the defined entries of `d` at position `p` of the cycle;
/// zero when there is none.
pub open spec fn class_average(d: Seq<Fixed>, period: int, p: int) -> Fixed {
    if class_count(d, period, p) > 0 {
        fixed_of(quot(class_total(d, period, p), class_count(d, period, p)))
    } else {
        fixed_of(0)
    }
}

/// The averages of one cycle, before normalization.
pub open spec fn raw_pattern(d: Seq<Fixed>, period: int) -> Seq<Fixed> {
    Seq::new(period as nat, |p: int| class_average(d, period, p))
}

/// What entry `k` of a cycle of `n` entries gives up of the part of
/// `total` that the rounded mean leaves over: one billionth from each of
/// the first entries, until that part is used up.
pub open spec fn excess_share(total: int, n: int, k: int) -> int {
    let excess = total - n * quot(total, n);
    if k < excess {
        1
    } else if k < -excess {
        -1
    } else {
        0
    }
}

/// One cycle normalized. The additive form subtracts the cycle's mean from
/// every entry, and what the rounded mean leaves over from the first
/// entries, so that the cycle sums to zero. The multiplicative form
/// divides every entry by the mean unless the mean is zero.
pub open spec fn normalize(kind: DecompositionType, raw: Seq<Fixed>) -> Seq<Fixed> {
    let mean = mean_spec(raw, raw.len() as int);
    match kind {
        DecompositionType::Additive => Seq::new(
            raw.len(),
            |p: int|
                if all_defined(raw) {
                    fixed_of(
                        raw[p].val() - quot(total(raw), raw.len() as int) - excess_share(
                            total(raw),
                            raw.len() as int,
                            p,
                        ),
                    )
                } else {
                    undefined()
                },
        ),
        DecompositionType::Multiplicative => if mean.is_zero_spec() {
            raw
        } else {
            Seq::new(raw.len(), |p: int| raw[p].div_spec(mean))
        },
    }
}

/// The seasonal component: the normalized cycle repeated over the length
/// of the detrended series `d`.
pub open spec fn seasonal_spec(kind: DecompositionType, d: Seq<Fixed>, period: int) -> Seq<Fixed> {
    Seq::new(d.len(), |i: int| normalize(kind, raw_pattern(d, period))[i % period])
}

/// What remains of a value after trend and season; undefined where the
/// trend is undefined or, for the multiplicative form, either is zero. The
/// multiplicative form is the value over the exact product of trend and
/// season, rounded to the nearest billionth.
pub open spec fn residual_value(kind: DecompositionType, v: Fixed, t: Fixed, s: Fixed) -> Fixed {
    if !t.defined() {
        undefined()
    } else {
        match kind {
            DecompositionType::Additive => v.sub_spec(t).sub_spec(s),
            DecompositionType::Multiplicative => if t.is_zero_spec() || s.is_zero_spec()
                || !s.defined() || !v.defined() {
                undefined()
            } else {
                fixed_of(nearest(v.val() * SCALE * SCALE, t.val() * s.val()))
            },
        }
    }
}

/// The residual component.
pub open spec fn residual_spec(
    kind: DecompositionType,
    values: Seq<Fixed>,
    trend: Seq<Fixed>,
    seasonal: Seq<Fixed>,
) -> Seq<Fixed> {
    Seq::new(values.len(), |i: int| residual_value(kind, values[i], trend[i], seasonal[i]))
}

/// The seasonal component of `values`.
pub open spec fn seasonal_of(kind: DecompositionType, values: Seq<Fixed>, period: int) -> Seq<Fixed> {
    seasonal_spec(kind, detrend_spec(kind, values, trend_spec(values, period)), period)
}

/// The residual component of `values`.
pub open spec fn residual_of(kind: DecompositionType, values: Seq<Fixed>, period: int) -> Seq<Fixed> {
    residual_spec(kind, values, trend_spec(values, period), seasonal_of(kind, values, period))
}

impl Decomposer {
    #[verifier::type_invariant]
    spec fn well_formed(self) -> bool {
        self.period > 0
    }

    /// The length of one seasonal cycle.
    pub closed spec fn period_spec(self) -> usize {
        self.period
    }

    /// The form of the decomposition.
    pub closed spec fn kind_spec(self) -> DecompositionType {
        self.decomposition_type
    }

    /// Create a new decomposer.
    pub fn new(decomposition_type: DecompositionType, period: usize) -> (r: Result<
        Decomposer,
        TelemetryError,
    >)
        ensures
            match r {
                Ok(d) => period > 0 && d.period_spec() == period && d.kind_spec()
                    == decomposition_type,
                Err(e) => period == 0 && e is InvalidParameter,
            },
    {
        if period == 0 {
            return Err(
                TelemetryError::InvalidParameter("Period must be greater than 0".to_string()),
            );
        }
        Ok(Decomposer { decomposition_type, period })
    }

    /// Calculate trend component using moving average.
    fn calculate_trend(&self, values: &Vec<Fixed>) -> (trend: Vec<Fixed>)
        requires
            values.len() >= 2 * self.period,
        ensures
            trend@ == trend_spec(values@, self.period as int),
    {
        proof {
            use_type_invariant(self);
        }
        let n: usize = values.len();
        let half_window: usize = self.period / 2;
        let mut trend: Vec<Fixed> = Vec::new();
        let mut i: usize = 0;
        while i < n
            invariant
                i <= n,
                n == values.len(),
                n >= 2 * self.period,
                half_window == self.period / 2,
                trend@.len() == i,
                forall|k: int| 0 <= k < i ==> trend@[k] == trend_at(values@, self.period as int, k),
            decreases n - i,
        {
            if i < half_window || i >= n - half_window {
                trend.push(Fixed::undefined());
            } else {
                trend.push(
                    mean_of_range(
                        values,
                        i - half_window,
                        i + half_window + 1,
                        2 * half_window + 1,
                    ),
                );
            }
            i = i + 1;
        }
        assert(trend@ =~= trend_spec(values@, self.period as int));
        trend
    }

    /// Remove trend from series.
    fn detrend(&self, values: &Vec<Fixed>, trend: &Vec<Fixed>) -> (detrended: Vec<Fixed>)
        requires
            values.len() == trend.len(),
        ensures
            detrended@ == detrend_spec(self.decomposition_type, values@, trend@),
    {
        let n: usize = values.len();
        let mut detrended: Vec<Fixed> = Vec::new();
        let mut i: usize = 0;
        while i < n
            invariant
                i <= n,
                n == values.len(),
                n == trend.len(),
                detrended@.len() == i,
                forall|k: int| 0 <= k < i ==> detrended@[k] == detrend_value(
                    self.decomposition_type,
                    values@[k],
                    trend@[k],
                ),
            decreases n - i,
        {
            let v = values[i];
            let t = trend[i];
            let d = if !t.is_defined() {
                Fixed::undefined()
            } else {
                match self.decomposition_type {
                    DecompositionType::Additive => v.sub(t),
                    DecompositionType::Multiplicative => {
                        if t.is_zero() {
                            Fixed::undefined()
                        } else {
                            v.div(t)
                        }
                    },
                }
            };
            detrended.push(d);
            i = i + 1;
        }
        assert(detrended@ =~= detrend_spec(self.decomposition_type, values@, trend@));
        detrended
    }

    /// Calculate residual component.
    fn calculate_residual(&self, values: &Vec<Fixed>, trend: &Vec<Fixed>, seasonal: &Vec<Fixed>) -> (residual: Vec<Fixed>)
        requires
            values.len() == trend.len(),
            values.len() == seasonal.len(),
        ensures
            residual@ == residual_spec(self.decomposition_type, values@, trend@, seasonal@),
    {
        let n: usize = values.len();
        let mut residual: Vec<Fixed> = Vec::new();
        let mut i: usize = 0;
        while i < n
            invariant
                i <= n,
                n == values.len(),
                n == trend.len(),
                n == seasonal.len(),
                residual@.len() == i,
                forall|k: int| 0 <= k < i ==> residual@[k] == residual_value(
                    self.decomposition_type,
                    values@[k],
                    trend@[k],
                    seasonal@[k],
                ),
            decreases n - i,
        {
            let v = values[i];
            let t = trend[i];
            let s = seasonal[i];
            let r = if !t.is_defined() {
                Fixed::undefined()
            } else {
                match self.decomposition_type {
                    DecompositionType::Additive => v.sub(t).sub(s),
                    DecompositionType::Multiplicative => Self::ratio(v, t, s),
                }
            };
            residual.push(r);
            i = i + 1;
        }
        assert(residual@ =~= residual_spec(self.decomposition_type, values@, trend@, seasonal@));
        residual
    }

    /// The value over the exact product of trend and season.
    fn ratio(v: Fixed, t: Fixed, s: Fixed) -> (r: Fixed)
        requires
            t.defined(),
        ensures
            r == residual_value(DecompositionType::Multiplicative, v, t, s),
    {
        match (v.nanos, t.nanos, s.nanos) {
            (Some(value), Some(trend), Some(season)) => {
                if trend == 0 || season == 0 {
                    Fixed::undefined()
                } else {
                    let over: i128 = wide_product(trend, season);
                    assert(over != 0) by (nonlinear_arith)
                        requires
                            over == trend * season,
                            trend != 0,
                            season != 0,
                    ;
                    let scaled: i128 = value as i128 * 1_000_000_000_000_000_000;
                    assert(value * SCALE * SCALE == scaled) by (nonlinear_arith)
                        requires
                            scaled == value * 1_000_000_000_000_000_000,
                            SCALE == 1_000_000_000,
                    ;
                    Fixed::from_wide(wide_nearest(scaled, over))
                }
            },
            _ => Fixed::undefined(),
        }
    }

    /// One cycle with its mean subtracted, so that it sums to zero.
    fn centered(pattern: &Vec<Fixed>) -> (cycle: Vec<Fixed>)
        requires
            pattern.len() > 0,
        ensures
            cycle@ == normalize(DecompositionType::Additive, pattern@),
    {
        let n: usize = pattern.len();
        assert(pattern@.subrange(0, n as int) =~= pattern@);
        let sum: i128 = match wide_total(pattern, 0, n) {
            Some(t) => t,
            None => {
                let cycle = repeated(Fixed::undefined(), n);
                assert(cycle@ =~= normalize(DecompositionType::Additive, pattern@));
                return cycle;
            },
        };
        let mean: i128 = wide_quot(sum, n as i128);
        let size: i128 = if sum < 0 {
            -sum
        } else {
            sum
        };
        let part: i128 = size % (n as i128);
        let excess: i128 = if sum < 0 {
            -part
        } else {
            part
        };
        proof {
            lemma_quot_remainder(sum as int, n as int);
            lemma_fundamental_div_mod(size as int, n as int);
            lemma_mod_pos_bound(size as int, n as int);
            let k = size / (n as i128);
            assert(n * quot(sum as int, n as int) == if sum >= 0 {
                n * k
            } else {
                -(n * k)
            }) by (nonlinear_arith)
                requires
                    quot(sum as int, n as int) == (if sum >= 0 {
                        k as int
                    } else {
                        -k
                    }),
            ;
            assert(excess == sum - n * quot(sum as int, n as int));
            assert(-0x8000_0000_0000_0000 <= mean <= 0x8000_0000_0000_0000) by (nonlinear_arith)
                requires
                    -(n * 0x8000_0000_0000_0000) <= sum <= n * 0x8000_0000_0000_0000,
                    -n < sum - n * mean < n,
                    sum >= 0 ==> sum - n * mean >= 0,
                    sum <= 0 ==> sum - n * mean <= 0,
                    n > 0,
            ;
        }
        let mut cycle: Vec<Fixed> = Vec::new();
        let mut p: usize = 0;
        while p < n
            invariant
                p <= n,
                n == pattern.len(),
                all_defined(pattern@),
                sum == total(pattern@),
                mean == quot(sum as int, n as int),
                excess == sum - n * quot(sum as int, n as int),
                -n < excess < n,
                -0x8000_0000_0000_0000 <= mean <= 0x8000_0000_0000_0000,
                cycle@.len() == p,
                forall|k: int|
                    0 <= k < p ==> #[trigger] cycle@[k] == normalize(
                        DecompositionType::Additive,
                        pattern@,
                    )[k],
            decreases n - p,
        {
            let share: i128 = if (p as i128) < excess {
                1
            } else if (p as i128) < -excess {
                -1
            } else {
                0
            };
            match pattern[p].nanos {
                Some(v) => {
                    cycle.push(Fixed::from_wide(v as i128 - mean - share));
                },
                None => {
                    assert(pattern@[p as int].defined());
                    cycle.push(Fixed::undefined());
                },
            }
            p = p + 1;
        }
        assert(cycle@ =~= normalize(DecompositionType::Additive, pattern@));
        cycle
    }

    /// One cycle divided by its mean, unless the mean is zero.
    fn rescaled(pattern: &Vec<Fixed>) -> (cycle: Vec<Fixed>)
        ensures
            cycle@ == normalize(DecompositionType::Multiplicative, pattern@),
    {
        let n: usize = pattern.len();
        assert(pattern@.subrange(0, n as int) =~= pattern@);
        let mean = mean_of_range(pattern, 0, n, n);
        let divide: bool = !mean.is_zero();
        let mut cycle: Vec<Fixed> = Vec::new();
        let mut p: usize = 0;
        while p < n
            invariant
                p <= n,
                n == pattern.len(),
                mean == mean_spec(pattern@, n as int),
                divide == !mean.is_zero_spec(),
                cycle@.len() == p,
                forall|k: int|
                    0 <= k < p ==> #[trigger] cycle@[k] == normalize(
                        DecompositionType::Multiplicative,
                        pattern@,
                    )[k],
            decreases n - p,
        {
            let v = pattern[p];
            cycle.push(
                if divide {
                    v.div(mean)
                } else {
                    v
                },
            );
            p = p + 1;
        }
        assert(cycle@ =~= normalize(DecompositionType::Multiplicative, pattern@));
        cycle
    }

    /// Calculate seasonal component.
    fn calculate_seasonal(&self, detrended: &Vec<Fixed>) -> (seasonal: Vec<Fixed>)
        ensures
            seasonal@ == seasonal_spec(self.decomposition_type, detrended@, self.period as int),
    {
        proof {
            use_type_invariant(self);
        }
        let period: usize = self.period;
        let n: usize = detrended.len();

        // Totals and counts for each position in the period
        let mut sums: Vec<i128> = Vec::new();
        let mut counts: Vec<usize> = Vec::new();
        let mut p: usize = 0;
        while p < period
            invariant
                p <= period,
                sums@.len() == p,
                counts@.len() == p,
                forall|k: int| 0 <= k < p ==> sums@[k] == 0 && counts@[k] == 0,
            decreases period - p,
        {
            sums.push(0);
            counts.push(0);
            p = p + 1;
        }

        let mut i: usize = 0;
        while i < n
            invariant
                i <= n,
                n == detrended.len(),
                period == self.period,
                period > 0,
                sums@.len() == period,
                counts@.len() == period,
                forall|k: int|
                    0 <= k < period ==> #[trigger] sums@[k] == class_total(
                        detrended@.take(i as int),
                        period as int,
                        k,
                    ),
                forall|k: int|
                    0 <= k < period ==> #[trigger] counts@[k] == class_count(
                        detrended@.take(i as int),
                        period as int,
                        k,
                    ),
                forall|k: int|
                    0 <= k < period ==> -total_bound(i as int) <= #[trigger] sums@[k]
                        <= total_bound(i as int),
                forall|k: int| 0 <= k < period ==> #[trigger] counts@[k] <= i,
            decreases n - i,
        {
            proof {
                assert(detrended@.take(i + 1).drop_last() =~= detrended@.take(i as int));
                assert(detrended@.take(i + 1).last() == detrended@[i as int]);
            }
            let pos: usize = i % period;
            match detrended[i].nanos {
                Some(m) => {
                    let s: i128 = sums[pos];
                    let c: usize = counts[pos];
                    assert(-total_bound(i as int) <= s <= total_bound(i as int));
                    assert(c <= i);
                    sums.set(pos, s + m as i128);
                    counts.set(pos, c + 1);
                },
                None => {},
            }
            i = i + 1;
        }
        assert(detrended@.take(n as int) =~= detrended@);

        let mut pattern: Vec<Fixed> = Vec::new();
        let mut p: usize = 0;
        while p < period
            invariant
                p <= period,
                period == self.period,
                sums@.len() == period,
                counts@.len() == period,
                pattern@.len() == p,
                forall|k: int|
                    0 <= k < period ==> #[trigger] sums@[k] == class_total(
                        detrended@,
                        period as int,
                        k,
                    ),
                forall|k: int|
                    0 <= k < period ==> #[trigger] counts@[k] == class_count(
                        detrended@,
                        period as int,
                        k,
                    ),
                forall|k: int|
                    0 <= k < period ==> -total_bound(n as int) <= #[trigger] sums@[k]
                        <= total_bound(n as int),
                forall|k: int|
                    0 <= k < p ==> #[trigger] pattern@[k] == class_average(
                        detrended@,
                        period as int,
                        k,
                    ),
            decreases period - p,
        {
            let c: usize = counts[p];
            let s: i128 = sums[p];
            assert(-total_bound(n as int) <= s <= total_bound(n as int));
            if c > 0 {
                pattern.push(Fixed::from_wide(wide_quot(s, c as i128)));
            } else {
                pattern.push(Fixed::from_nanos(0));
            }
            p = p + 1;
        }
        assert(pattern@ =~= raw_pattern(detrended@, period as int));
        assert(pattern@.subrange(0, period as int) =~= pattern@);

        // Normalize seasonal component
        let cycle = match self.decomposition_type {
            DecompositionType::Additive => Self::centered(&pattern),
            DecompositionType::Multiplicative => Self::rescaled(&pattern),
        };

        // Repeat seasonal pattern to match series length
        let mut seasonal: Vec<Fixed> = Vec::new();
        let mut i: usize = 0;
        while i < n
            invariant
                i <= n,
                n == detrended.len(),
                period == self.period,
                period > 0,
                cycle@.len() == period,
                cycle@ == normalize(self.decomposition_type, raw_pattern(detrended@, period as int)),
                seasonal@.len() == i,
                forall|k: int| 0 <= k < i ==> #[trigger] seasonal@[k] == cycle@[k % (period as int)],
            decreases n - i,
        {
            seasonal.push(cycle[i % period]);
            i = i + 1;
        }
        assert(seasonal@ =~= seasonal_spec(
            self.decomposition_type,
            detrended@,
            self.period as int,
        ));
        seasonal
    }

    /// Decompose a time series into trend, seasonal and residual
    /// components, each as long as the series. Fails when the series is
    /// shorter than two periods.
    pub fn decompose(&self, ts: &TimeSeries) -> (r: Result<DecompositionResult, TelemetryError>)
        ensures
            match r {
                Ok(res) => {
                    &&& ts.values.len() >= 2 * self.period_spec()
                    &&& res.trend@.len() == ts.values.len()
                    &&& res.seasonal@.len() == ts.values.len()
                    &&& res.residual@.len() == ts.values.len()
                    &&& res.trend@ == trend_spec(ts.values@, self.period_spec() as int)
                    &&& res.seasonal@ == seasonal_of(
                        self.kind_spec(),
                        ts.values@,
                        self.period_spec() as int,
                    )
                    &&& res.residual@ == residual_of(
                        self.kind_spec(),
                        ts.values@,
                        self.period_spec() as int,
                    )
                },
                Err(e) => ts.values.len() < 2 * self.period_spec() && e is InsufficientData,
            },
    {
        let need: u128 = 2 * (self.period as u128);
        if (ts.len() as u128) < need {
            return Err(TelemetryError::InsufficientData(need_points_message(need, self.period)));
        }

        // Calculate trend using centered moving average
        let trend = self.calculate_trend(&ts.values);

        // Detrend the series
        let detrended = self.detrend(&ts.values, &trend);

        // Calculate seasonal component
        let seasonal = self.calculate_seasonal(&detrended);

        // Calculate residuals
        let residual = self.calculate_residual(&ts.values, &trend, &seasonal);

        Ok(DecompositionResult { trend, seasonal, residual })
    }
}

/// Text of the error for a series shorter than two periods, formatted by
/// `std::format!`; nothing is claimed of the text.
#[verifier::external_body]
fn need_points_message(need: u128, period: usize) -> String {
    format!("Need at least {} data points for period {}", need, period)
}

/// The three components are as long as the series.
pub proof fn lemma_components_aligned(kind: DecompositionType, values: Seq<Fixed>, period: int)
    ensures
        trend_spec(values, period).len() == values.len(),
        seasonal_of(kind, values, period).len() == values.len(),
        residual_of(kind, values, period).len() == values.len(),
{
}

/// Additive reconstruction: the residual at an index is defined exactly
/// when value, trend and season are defined there and their differences
/// are representable, and then the value is the sum of trend, season and
/// residual.
pub proof fn lemma_additive_reconstruction(values: Seq<Fixed>, period: int, i: int)
    requires
        0 < period,
        0 <= i < values.len(),
    ensures
        ({
            let v = values[i];
            let t = trend_spec(values, period)[i];
            let s = seasonal_of(DecompositionType::Additive, values, period)[i];
            let r = residual_of(DecompositionType::Additive, values, period)[i];
            &&& r.defined() <==> v.defined() && t.defined() && s.defined() && fits(v.val() - t.val())
                && fits(v.val() - t.val() - s.val())
            &&& r.defined() ==> v.val() == t.val() + s.val() + r.val()
        }),
{
}

/// Multiplicative decomposition leaves the residual undefined wherever
/// the trend is undefined or zero, or the season is zero.
pub proof fn lemma_multiplicative_residual_guard(values: Seq<Fixed>, period: int, i: int)
    requires
        0 < period,
        0 <= i < values.len(),
    ensures
        ({
            let t = trend_spec(values, period)[i];
            let s = seasonal_of(DecompositionType::Multiplicative, values, period)[i];
            let r = residual_of(DecompositionType::Multiplicative, values, period)[i];
            r.defined() ==> t.defined() && t.val() != 0 && !s.is_zero_spec()
        }),
{
}

/// The trend is undefined within half a period of either end of the
/// series.
pub proof fn lemma_trend_edges_undefined(values: Seq<Fixed>, period: int, i: int)
    requires
        0 < period,
        0 <= i < values.len(),
        i < period / 2 || i >= values.len() - period / 2,
    ensures
        !trend_spec(values, period)[i].defined(),
        !residual_of(DecompositionType::Additive, values, period)[i].defined(),
        !residual_of(DecompositionType::Multiplicative, values, period)[i].defined(),
{
}

/// The seasonal component repeats with the period.
pub proof fn lemma_seasonal_periodic(
    kind: DecompositionType,
    values: Seq<Fixed>,
    period: int,
    i: int,
)
    requires
        0 < period,
        0 <= i,
        i + period < values.len(),
    ensures
        seasonal_of(kind, values, period)[i] == seasonal_of(kind, values, period)[i + period],
{
    lemma_mod_add_multiples_vanish(i, period);
}

/// What the first `j` entries of a cycle give up of an excess.
pub open spec fn shares_taken(excess: int, j: int) -> int {
    if excess >= 0 {
        if j < excess {
            j
        } else {
            excess
        }
    } else {
        if j < -excess {
            -j
        } else {
            excess
        }
    }
}

/// The total of the first `j` entries of a centered cycle.
proof fn lemma_centered_prefix(raw: Seq<Fixed>, j: int)
    requires
        all_defined(raw),
        0 <= j <= raw.len(),
        all_defined(normalize(DecompositionType::Additive, raw)),
    ensures
        total(normalize(DecompositionType::Additive, raw).take(j)) == total(raw.take(j)) - j
            * quot(total(raw), raw.len() as int) - shares_taken(
            total(raw) - raw.len() * quot(total(raw), raw.len() as int),
            j,
        ),
    decreases j,
{
    let cycle = normalize(DecompositionType::Additive, raw);
    let mean = quot(total(raw), raw.len() as int);
    if j > 0 {
        lemma_centered_prefix(raw, j - 1);
        assert(cycle.take(j).drop_last() =~= cycle.take(j - 1));
        assert(raw.take(j).drop_last() =~= raw.take(j - 1));
        assert(cycle.take(j).last() == cycle[j - 1]);
        assert(raw.take(j).last() == raw[j - 1]);
        assert(cycle[j - 1].defined());
        assert(j * mean == (j - 1) * mean + mean) by (nonlinear_arith);
    } else {
        assert(cycle.take(0).len() == 0);
        assert(raw.take(0).len() == 0);
    }
}

/// The entries of an additive cycle, where all are defined, sum to zero.
pub proof fn lemma_additive_cycle_sums_to_zero(raw: Seq<Fixed>)
    requires
        raw.len() > 0,
        all_defined(normalize(DecompositionType::Additive, raw)),
    ensures
        total(normalize(DecompositionType::Additive, raw)) == 0,
{
    let cycle = normalize(DecompositionType::Additive, raw);
    let n = raw.len() as int;
    assert(cycle[0].defined());
    assert(all_defined(raw));
    lemma_quot_remainder(total(raw), n);
    lemma_centered_prefix(raw, n);
    assert(cycle.take(n) =~= cycle);
    assert(raw.take(n) =~= raw);
}

/// The additive seasonal component, where defined, sums to zero over one
/// cycle.
pub proof fn lemma_additive_season_sums_to_zero(values: Seq<Fixed>, period: int)
    requires
        0 < period <= values.len(),
        all_defined(seasonal_of(DecompositionType::Additive, values, period).subrange(0, period)),
    ensures
        total(seasonal_of(DecompositionType::Additive, values, period).subrange(0, period)) == 0,
{
    let detrended = detrend_spec(
        DecompositionType::Additive,
        values,
        trend_spec(values, period),
    );
    let raw = raw_pattern(detrended, period);
    let cycle = normalize(DecompositionType::Additive, raw);
    let first = seasonal_of(DecompositionType::Additive, values, period).subrange(0, period);
    assert forall|k: int| 0 <= k < period implies first[k] == cycle[k] by {
        assert(k % period == k) by (nonlinear_arith)
            requires
                0 <= k < period,
        ;
    }
    assert(first =~= cycle);
    lemma_additive_cycle_sums_to_zero(raw);
}

/// Multiplicative reconstruction: wherever the residual is defined, the
/// value differs from the product of trend, season and residual by at
/// most half a billionth of the magnitude of trend times season. (The
/// numbers are in billionths, so the value stands with the scale twice
/// beside the product of three.)
pub proof fn lemma_multiplicative_reconstruction(values: Seq<Fixed>, period: int, i: int)
    requires
        0 < period,
        0 <= i < values.len(),
        residual_of(DecompositionType::Multiplicative, values, period)[i].defined(),
    ensures
        ({
            let v = values[i];
            let t = trend_spec(values, period)[i];
            let s = seasonal_of(DecompositionType::Multiplicative, values, period)[i];
            let r = residual_of(DecompositionType::Multiplicative, values, period)[i];
            let product = t.val() * s.val();
            let error = v.val() * SCALE * SCALE - product * r.val();
            &&& v.defined() && t.defined() && s.defined() && product != 0
            &&& -product <= 2 * error <= product || product <= 2 * error <= -product
        }),
{
    let v = values[i];
    let t = trend_spec(values, period)[i];
    let s = seasonal_of(DecompositionType::Multiplicative, values, period)[i];
    assert(t.val() * s.val() != 0) by (nonlinear_arith)
        requires
            t.val() != 0,
            s.val() != 0,
    ;
    lemma_nearest_remainder(v.val() * SCALE * SCALE, t.val() * s.val());
}

/// Every element that is defined is at most `bound` in magnitude.
pub open spec fn defined_within(d: Seq<Fixed>, bound: int) -> bool {
    forall|i: int|
        0 <= i < d.len() ==> ((#[trigger] d[i]).defined() ==> -bound <= d[i].val() <= bound)
}

/// For values within a bound, the trend is defined exactly away from the
/// ends, and within the bound.
pub proof fn lemma_trend_within(values: Seq<Fixed>, period: int, bound: int, i: int)
    requires
        0 < period,
        within(values, bound),
        0 <= bound <= i64::MAX,
        0 <= i < values.len(),
    ensures
        trend_spec(values, period)[i].defined() <==> period / 2 <= i < values.len() - period / 2,
        trend_spec(values, period)[i].defined() ==> -bound <= trend_spec(values, period)[i].val()
            <= bound,
{
    let half = period / 2;
    if half <= i < values.len() - half {
        let window = values.subrange(i - half, i + half + 1);
        assert(within(window, bound)) by {
            assert forall|k: int| 0 <= k < window.len() implies (#[trigger] window[k]).defined()
                && -bound <= window[k].val() <= bound by {
                assert(values[i - half + k].defined());
            }
        }
        lemma_mean_within(window, bound);
    }
}

/// The totals over one position of the cycle of elements within a bound.
proof fn lemma_class_within(d: Seq<Fixed>, period: int, p: int, bound: int)
    requires
        defined_within(d, bound),
        0 <= bound,
        0 < period,
    ensures
        0 <= class_count(d, period, p),
        -(class_count(d, period, p) * bound) <= class_total(d, period, p) <= class_count(
            d,
            period,
            p,
        ) * bound,
    decreases d.len(),
{
    if d.len() > 0 {
        let prev = d.drop_last();
        assert(defined_within(prev, bound)) by {
            assert forall|i: int| 0 <= i < prev.len() implies ((#[trigger] prev[i]).defined()
                ==> -bound <= prev[i].val() <= bound) by {
                assert(d[i].defined() ==> -bound <= d[i].val() <= bound);
            }
        }
        lemma_class_within(prev, period, p, bound);
        let c = class_count(prev, period, p);
        assert((c + 1) * bound == c * bound + bound) by (nonlinear_arith);
        assert(d.last().defined() ==> -bound <= d.last().val() <= bound);
    }
}

/// The cycle of averages of elements within a bound is within the bound.
proof fn lemma_pattern_within(d: Seq<Fixed>, period: int, bound: int)
    requires
        defined_within(d, bound),
        0 <= bound <= i64::MAX,
        0 < period,
    ensures
        within(raw_pattern(d, period), bound),
{
    let raw = raw_pattern(d, period);
    assert forall|p: int| 0 <= p < raw.len() implies (#[trigger] raw[p]).defined() && -bound
        <= raw[p].val() <= bound by {
        lemma_class_within(d, period, p, bound);
        if class_count(d, period, p) > 0 {
            lemma_quot_within(class_total(d, period, p), class_count(d, period, p), bound);
        }
    }
}

/// A centered cycle of entries within a bound is within twice the bound
/// and one.
proof fn lemma_centered_within(raw: Seq<Fixed>, bound: int)
    requires
        within(raw, bound),
        raw.len() > 0,
        0 <= bound,
        2 * bound + 1 <= i64::MAX,
    ensures
        within(normalize(DecompositionType::Additive, raw), 2 * bound + 1),
{
    lemma_total_within(raw, bound);
    lemma_quot_within(total(raw), raw.len() as int, bound);
    let cycle = normalize(DecompositionType::Additive, raw);
    assert forall|p: int| 0 <= p < cycle.len() implies (#[trigger] cycle[p]).defined() && -(2
        * bound + 1) <= cycle[p].val() <= 2 * bound + 1 by {
        assert(raw[p].defined());
    }
}

/// For values within a bound, the additive seasonal component is defined
/// everywhere, within four times the bound and one.
pub proof fn lemma_additive_season_within(values: Seq<Fixed>, period: int, bound: int)
    requires
        0 < period,
        within(values, bound),
        0 <= bound,
        4 * bound + 1 <= i64::MAX,
    ensures
        within(seasonal_of(DecompositionType::Additive, values, period), 4 * bound + 1),
{
    let trend = trend_spec(values, period);
    let detrended = detrend_spec(DecompositionType::Additive, values, trend);
    assert(defined_within(detrended, 2 * bound)) by {
        assert forall|i: int| 0 <= i < detrended.len() implies ((#[trigger] detrended[i]).defined()
            ==> -(2 * bound) <= detrended[i].val() <= 2 * bound) by {
            lemma_trend_within(values, period, bound, i);
            assert(values[i].defined());
        }
    }
    lemma_pattern_within(detrended, period, 2 * bound);
    let raw = raw_pattern(detrended, period);
    lemma_centered_within(raw, 2 * bound);
    let cycle = normalize(DecompositionType::Additive, raw);
    let seasonal = seasonal_of(DecompositionType::Additive, values, period);
    assert forall|i: int| 0 <= i < seasonal.len() implies (#[trigger] seasonal[i]).defined() && -(4
        * bound + 1) <= seasonal[i].val() <= 4 * bound + 1 by {
        lemma_mod_pos_bound(i, period);
        assert(cycle[i % period].defined());
    }
}

/// Additive reconstruction for values within a bound: wherever the trend
/// is defined, so are the season and the residual, and the value is the
/// sum of trend, season and residual. The bound may be as large as a
/// sixth of the representable range.
pub proof fn lemma_additive_reconstruction_within(
    values: Seq<Fixed>,
    period: int,
    bound: int,
    i: int,
)
    requires
        0 < period,
        within(values, bound),
        0 <= bound,
        6 * bound + 1 <= i64::MAX,
        0 <= i < values.len(),
        trend_spec(values, period)[i].defined(),
    ensures
        ({
            let v = values[i];
            let t = trend_spec(values, period)[i];
            let s = seasonal_of(DecompositionType::Additive, values, period)[i];
            let r = residual_of(DecompositionType::Additive, values, period)[i];
            &&& s.defined() && r.defined()
            &&& v.val() == t.val() + s.val() + r.val()
        }),
{
    lemma_trend_within(values, period, bound, i);
    lemma_additive_season_within(values, period, bound);
    assert(values[i].defined());
    assert(seasonal_of(DecompositionType::Additive, values, period)[i].defined());
    lemma_additive_reconstruction(values, period, i);
}

/// For values within a bound, the additive seasonal component sums to
/// zero over one cycle.
pub proof fn lemma_additive_season_balanced(values: Seq<Fixed>, period: int, bound: int)
    requires
        0 < period <= values.len(),
        within(values, bound),
        0 <= bound,
        4 * bound + 1 <= i64::MAX,
    ensures
        all_defined(seasonal_of(DecompositionType::Additive, values, period).subrange(0, period)),
        total(seasonal_of(DecompositionType::Additive, values, period).subrange(0, period)) == 0,
{
    lemma_additive_season_within(values, period, bound);
    let seasonal = seasonal_of(DecompositionType::Additive, values, period);
    let first = seasonal.subrange(0, period);
    assert forall|k: int| 0 <= k < first.len() implies (#[trigger] first[k]).defined() by {
        assert(seasonal[k].defined());
    }
    lemma_additive_season_sums_to_zero(values, period);
}

/// Multiplicative reconstruction in proportion: wherever trend and season
/// are positive and the residual is more than a half, the value differs
/// from the product of trend, season and residual by at most one
/// billionth of the value.
pub proof fn lemma_multiplicative_relative_error(values: Seq<Fixed>, period: int, i: int)
    requires
        0 < period,
        0 <= i < values.len(),
        residual_of(DecompositionType::Multiplicative, values, period)[i].defined(),
        2 * residual_of(DecompositionType::Multiplicative, values, period)[i].val() > SCALE,
        trend_spec(values, period)[i].val() > 0,
        seasonal_of(DecompositionType::Multiplicative, values, period)[i].val() > 0,
    ensures
        ({
            let v = values[i];
            let t = trend_spec(values, period)[i];
            let s = seasonal_of(DecompositionType::Multiplicative, values, period)[i];
            let r = residual_of(DecompositionType::Multiplicative, values, period)[i];
            let error = v.val() * SCALE * SCALE - t.val() * s.val() * r.val();
            -(v.val() * SCALE) <= error <= v.val() * SCALE
        }),
{
    let v = values[i].val();
    let t = trend_spec(values, period)[i].val();
    let s = seasonal_of(DecompositionType::Multiplicative, values, period)[i].val();
    let r = residual_of(DecompositionType::Multiplicative, values, period)[i].val();
    lemma_multiplicative_reconstruction(values, period, i);
    let product = t * s;
    let scaled = v * SCALE * SCALE;
    assert(product > 0) by (nonlinear_arith)
        requires
            product == t * s,
            t > 0,
            s > 0,
    ;
    let error = scaled - product * r;
    assert(product <= 2 * (v * SCALE)) by (nonlinear_arith)
        requires
            product > 0,
            2 * r - 1 >= SCALE,
            SCALE == 1_000_000_000,
            2 * (scaled - product * r) >= -product,
            scaled == v * SCALE * SCALE,
    ;
}

} // verus!
