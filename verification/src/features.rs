//! Feature engineering for time series.

use vstd::prelude::*;
use vstd::slice::slice_to_vec;
use crate::fixed::{fixed_of, magnitude, quot, undefined, wide, wide_quot, Fixed, WIDE};
use crate::series::{
    all_defined,
    change_between,
    copied_range,
    extremes_of_range,
    greatest,
    least,
    mean_of_range,
    mean_spec,
    relative_change,
    std_dev_of_range,
    std_dev_spec,
};
use crate::time_series::TimeSeries;
use crate::TelemetryError;

verus! {

/// Feature extractor for time series data.
pub struct FeatureExtractor;

/// Rolling statistics result.
#[derive(Debug, Clone)]
pub struct RollingStats {
    pub means: Vec<Fixed>,
    pub stds: Vec<Fixed>,
    pub mins: Vec<Fixed>,
    pub maxs: Vec<Fixed>,
}

/// The run of `window` values of `values` that starts at `i`.
pub open spec fn window_at(values: Seq<Fixed>, window: int, i: int) -> Seq<Fixed> {
    values.subrange(i, i + window)
}

/// Twice the distance of position `i` from the middle of `n` positions:
/// a whole number.
pub open spec fn doubled_offset(n: int, i: int) -> int {
    2 * i - (n - 1)
}

/// Exact total, over the positions below `k`, of the doubled offset times
/// the value.
pub open spec fn moments_total(data: Seq<Fixed>, k: int) -> int
    decreases k,
{
    if k <= 0 {
        0
    } else {
        moments_total(data, k - 1) + doubled_offset(data.len() as int, k - 1) * data[k - 1].val()
    }
}

/// Exact total of the magnitudes of those products.
pub open spec fn moment_sizes_total(data: Seq<Fixed>, k: int) -> int
    decreases k,
{
    if k <= 0 {
        0
    } else {
        moment_sizes_total(data, k - 1) + magnitude(
            doubled_offset(data.len() as int, k - 1) * data[k - 1].val(),
        )
    }
}

/// Exact total, over the positions below `k` of `n`, of the squares of
/// the doubled offsets.
pub open spec fn offset_squares_total(n: int, k: int) -> int
    decreases k,
{
    if k <= 0 {
        0
    } else {
        offset_squares_total(n, k - 1) + doubled_offset(n, k - 1) * doubled_offset(n, k - 1)
    }
}

/// The slope of the least-squares line through the values at positions
/// 0, 1, 2 and so on: the total of the products of the distances of
/// position and value from their means, over the total of the squared
/// distances of the positions; zero when the latter is zero. Positions
/// are taken doubled to stay whole, and the mean of the values drops out,
/// because the distances of the positions total zero. The totals are
/// exact; only the ratio is narrowed. Undefined when a value is, or when
/// a total is beyond the range that is kept exactly.
pub open spec fn slope_spec(data: Seq<Fixed>) -> Fixed {
    let n = data.len() as int;
    if offset_squares_total(n, n) == 0 {
        fixed_of(0)
    } else if !all_defined(data) || !wide(moment_sizes_total(data, n)) || !wide(
        offset_squares_total(n, n),
    ) {
        undefined()
    } else {
        fixed_of(quot(2 * moments_total(data, n), offset_squares_total(n, n)))
    }
}

/// Totals of magnitudes and of squares do not shrink as more positions
/// are taken in, and a total is at most the total of the magnitudes.
pub proof fn lemma_moments_grow(data: Seq<Fixed>, j: int, k: int)
    requires
        0 <= j <= k,
    ensures
        0 <= moment_sizes_total(data, j) <= moment_sizes_total(data, k),
        0 <= offset_squares_total(data.len() as int, j) <= offset_squares_total(
            data.len() as int,
            k,
        ),
        magnitude(moments_total(data, j)) <= moment_sizes_total(data, j),
    decreases k - j, j,
{
    if j < k {
        lemma_moments_grow(data, j, k - 1);
        let o = doubled_offset(data.len() as int, k - 1);
        assert(o * o >= 0) by (nonlinear_arith);
    } else if j > 0 {
        lemma_moments_grow(data, j - 1, j - 1);
        let o = doubled_offset(data.len() as int, j - 1);
        assert(o * o >= 0) by (nonlinear_arith);
    }
}

/// The relative change over `periods` steps, for each value that has a
/// value `periods` places before it.
pub open spec fn rate_of_change_spec(values: Seq<Fixed>, periods: int) -> Seq<Fixed> {
    Seq::new(
        (values.len() - periods) as nat,
        |i: int| relative_change(values[i], values[i + periods]),
    )
}

impl FeatureExtractor {
    /// Create lag features: for each lag, the series without its last
    /// `lag` values. There must be a lag, and every lag must be less than
    /// the length of the series.
    pub fn create_lag_features(ts: &TimeSeries, lags: &[usize]) -> (r: Result<
        Vec<Vec<Fixed>>,
        TelemetryError,
    >)
        ensures
            match r {
                Ok(features) => {
                    &&& lags@.len() > 0
                    &&& forall|k: int| 0 <= k < lags@.len() ==> lags@[k] < ts.values.len()
                    &&& features@.len() == lags@.len()
                    &&& forall|k: int|
                        0 <= k < lags@.len() ==> (#[trigger] features@[k])@
                            == ts.values@.subrange(0, ts.values.len() - lags@[k])
                },
                Err(e) => {
                    &&& e is InvalidParameter
                    &&& lags@.len() == 0 || exists|k: int|
                        0 <= k < lags@.len() && lags@[k] >= ts.values.len()
                },
            },
    {
        let lags: Vec<usize> = slice_to_vec(lags);
        if lags.len() == 0 {
            return Err(
                TelemetryError::InvalidParameter("Must specify at least one lag".to_string()),
            );
        }
        let n: usize = ts.values.len();
        let mut max_lag: usize = lags[0];
        let mut at: usize = 0;
        let mut k: usize = 1;
        while k < lags.len()
            invariant
                1 <= k <= lags.len(),
                0 <= at < k,
                max_lag == lags@[at as int],
                forall|j: int| 0 <= j < k ==> lags@[j] <= max_lag,
            decreases lags.len() - k,
        {
            if lags[k] > max_lag {
                max_lag = lags[k];
                at = k;
            }
            k = k + 1;
        }
        if max_lag >= n {
            return Err(
                TelemetryError::InvalidParameter(
                    "Lag is too large for the time series".to_string(),
                ),
            );
        }
        let mut features: Vec<Vec<Fixed>> = Vec::new();
        let mut k: usize = 0;
        while k < lags.len()
            invariant
                k <= lags.len(),
                n == ts.values.len(),
                forall|j: int| 0 <= j < lags@.len() ==> lags@[j] < n,
                features@.len() == k,
                forall|j: int|
                    0 <= j < k ==> (#[trigger] features@[j])@ == ts.values@.subrange(
                        0,
                        n - lags@[j],
                    ),
            decreases lags.len() - k,
        {
            features.push(copied_range(&ts.values, 0, n - lags[k]));
            k = k + 1;
        }
        Ok(features)
    }

    /// Calculate rolling statistics (mean, std, min, max) of every run of
    /// `window` consecutive values.
    pub fn rolling_statistics(ts: &TimeSeries, window: usize) -> (r: Result<
        RollingStats,
        TelemetryError,
    >)
        ensures
            match r {
                Ok(stats) => {
                    let count = ts.values.len() - window + 1;
                    &&& 0 < window <= ts.values.len()
                    &&& stats.means@ == Seq::new(
                        count as nat,
                        |i: int| mean_spec(window_at(ts.values@, window as int, i), window as int),
                    )
                    &&& stats.stds@ == Seq::new(
                        count as nat,
                        |i: int| std_dev_spec(window_at(ts.values@, window as int, i)),
                    )
                    &&& stats.mins@ == Seq::new(
                        count as nat,
                        |i: int| least(window_at(ts.values@, window as int, i)),
                    )
                    &&& stats.maxs@ == Seq::new(
                        count as nat,
                        |i: int| greatest(window_at(ts.values@, window as int, i)),
                    )
                },
                Err(e) => if window == 0 {
                    e is InvalidParameter
                } else {
                    window > ts.values.len() && e is InsufficientData
                },
            },
    {
        if window == 0 {
            return Err(
                TelemetryError::InvalidParameter("Window size must be greater than 0".to_string()),
            );
        }
        if window > ts.len() {
            return Err(
                TelemetryError::InsufficientData(
                    "Window size is larger than series length".to_string(),
                ),
            );
        }
        let last: usize = ts.values.len() - window;
        let mut means: Vec<Fixed> = Vec::new();
        let mut stds: Vec<Fixed> = Vec::new();
        let mut mins: Vec<Fixed> = Vec::new();
        let mut maxs: Vec<Fixed> = Vec::new();
        let mut i: usize = 0;
        while i <= last
            invariant
                i <= last + 1,
                last == ts.values.len() - window,
                0 < window <= ts.values.len(),
                means@.len() == i,
                stds@.len() == i,
                mins@.len() == i,
                maxs@.len() == i,
                forall|k: int|
                    0 <= k < i ==> means@[k] == mean_spec(
                        window_at(ts.values@, window as int, k),
                        window as int,
                    ),
                forall|k: int|
                    0 <= k < i ==> stds@[k] == std_dev_spec(window_at(ts.values@, window as int, k)),
                forall|k: int|
                    0 <= k < i ==> mins@[k] == least(window_at(ts.values@, window as int, k)),
                forall|k: int|
                    0 <= k < i ==> maxs@[k] == greatest(window_at(ts.values@, window as int, k)),
            decreases last + 1 - i,
        {
            means.push(mean_of_range(&ts.values, i, i + window, window));
            stds.push(std_dev_of_range(&ts.values, i, i + window));
            let (low, high) = extremes_of_range(&ts.values, i, i + window);
            mins.push(low);
            maxs.push(high);
            i = i + 1;
        }
        let ghost count = (last + 1) as nat;
        assert(means@ =~= Seq::new(
            count,
            |i: int| mean_spec(window_at(ts.values@, window as int, i), window as int),
        ));
        assert(stds@ =~= Seq::new(
            count,
            |i: int| std_dev_spec(window_at(ts.values@, window as int, i)),
        ));
        assert(mins@ =~= Seq::new(count, |i: int| least(window_at(ts.values@, window as int, i))));
        assert(maxs@ =~= Seq::new(
            count,
            |i: int| greatest(window_at(ts.values@, window as int, i)),
        ));
        Ok(RollingStats { means, stds, mins, maxs })
    }

    /// Extract trend features using linear regression: the slope of every
    /// run of `window` consecutive values. The window must be at least 2
    /// and no longer than the series.
    pub fn trend_features(ts: &TimeSeries, window: usize) -> (r: Result<Vec<Fixed>, TelemetryError>)
        requires
            window >= 2 ==> window <= ts.values.len(),
        ensures
            match r {
                Ok(trends) => window >= 2 && trends@ == Seq::new(
                    (ts.values.len() - window + 1) as nat,
                    |i: int| slope_spec(window_at(ts.values@, window as int, i)),
                ),
                Err(e) => window < 2 && e is InvalidParameter,
            },
    {
        if window < 2 {
            return Err(
                TelemetryError::InvalidParameter(
                    "Window size must be at least 2 for trend calculation".to_string(),
                ),
            );
        }
        let last: usize = ts.values.len() - window;
        let mut trends: Vec<Fixed> = Vec::new();
        let mut i: usize = 0;
        while i <= last
            invariant
                i <= last + 1,
                last == ts.values.len() - window,
                2 <= window <= ts.values.len(),
                trends@.len() == i,
                forall|k: int|
                    0 <= k < i ==> trends@[k] == slope_spec(window_at(ts.values@, window as int, k)),
            decreases last + 1 - i,
        {
            let window_data = copied_range(&ts.values, i, i + window);
            let slope = Self::calculate_slope(&window_data);
            trends.push(slope);
            i = i + 1;
        }
        assert(trends@ =~= Seq::new(
            (last + 1) as nat,
            |i: int| slope_spec(window_at(ts.values@, window as int, i)),
        ));
        Ok(trends)
    }

    /// Calculate slope using simple linear regression.
    fn calculate_slope(data: &Vec<Fixed>) -> (slope: Fixed)
        ensures
            slope == slope_spec(data@),
    {
        let len: usize = data.len();
        if len <= 1 {
            proof {
                let n = data@.len() as int;
                assert(n == len);
                assert(offset_squares_total(n, 0) == 0);
                if n == 1 {
                    let o = doubled_offset(1, 0);
                    assert(o == 0);
                    assert(o * o == 0) by (nonlinear_arith)
                        requires
                            o == 0,
                    ;
                    assert(offset_squares_total(1, 1) == offset_squares_total(1, 0) + o * o);
                    assert(offset_squares_total(1, 1) == 0);
                }
                assert(offset_squares_total(n, n) == 0);
                assert(slope_spec(data@) == fixed_of(0));
            }
            return Fixed::from_nanos(0);
        }
        proof {
            // the first position alone makes the total of squares positive
            reveal_with_fuel(offset_squares_total, 2);
            let first = doubled_offset(len as int, 0);
            assert(first * first > 0) by (nonlinear_arith)
                requires
                    first < 0,
            ;
            lemma_moments_grow(data@, 1, len as int);
        }
        let n: i128 = len as i128;
        let mut numerator: i128 = 0;
        let mut sizes: i128 = 0;
        let mut denominator: i128 = 0;
        let mut i: usize = 0;
        while i < len
            invariant
                i <= len,
                len == data.len(),
                n == len,
                forall|k: int| 0 <= k < i ==> (#[trigger] data@[k]).defined(),
                numerator == moments_total(data@, i as int),
                sizes == moment_sizes_total(data@, i as int),
                denominator == offset_squares_total(len as int, i as int),
                0 <= sizes <= WIDE,
                0 <= denominator <= WIDE,
                -sizes <= numerator <= sizes,
                offset_squares_total(len as int, len as int) > 0,
            decreases len - i,
        {
            let offset: i128 = 2 * (i as i128) - (n - 1);
            let y: i64 = match data[i].nanos {
                Some(y) => y,
                None => {
                    assert(!all_defined(data@)) by {
                        if all_defined(data@) {
                            assert(data@[i as int].defined());
                        }
                    }
                    return Fixed::undefined();
                },
            };
            proof {
                lemma_moments_grow(data@, i + 1, len as int);
            }
            let product: i128 = match offset.checked_mul(y as i128) {
                Some(p) => p,
                None => { return Fixed::undefined(); },
            };
            let square: i128 = match offset.checked_mul(offset) {
                Some(q) => q,
                None => { return Fixed::undefined(); },
            };
            assert(square >= 0) by (nonlinear_arith)
                requires
                    square == offset * offset,
            ;
            if product == i128::MIN {
                return Fixed::undefined();
            }
            let size: i128 = if product < 0 {
                -product
            } else {
                product
            };
            if size > WIDE || square > WIDE || sizes + size > WIDE || denominator + square > WIDE {
                return Fixed::undefined();
            }
            sizes = sizes + size;
            denominator = denominator + square;
            numerator = numerator + product;
            i = i + 1;
        }
        Fixed::from_wide(wide_quot(2 * numerator, denominator))
    }

    /// Extract rate of change features: the relative change over
    /// `periods` steps, zero where the earlier value is zero. The number
    /// of periods must be greater than 0 and less than the length of the
    /// series.
    pub fn rate_of_change(ts: &TimeSeries, periods: usize) -> (r: Result<Vec<Fixed>, TelemetryError>)
        ensures
            match r {
                Ok(roc) => 0 < periods < ts.values.len() && roc@ == rate_of_change_spec(
                    ts.values@,
                    periods as int,
                ),
                Err(e) => if periods == 0 {
                    e is InvalidParameter
                } else {
                    periods >= ts.values.len() && e is InsufficientData
                },
            },
    {
        if periods == 0 {
            return Err(
                TelemetryError::InvalidParameter("Periods must be greater than 0".to_string()),
            );
        }
        if periods >= ts.len() {
            return Err(
                TelemetryError::InsufficientData(
                    "Periods is too large for the time series".to_string(),
                ),
            );
        }
        let n: usize = ts.values.len();
        let mut roc: Vec<Fixed> = Vec::new();
        let mut i: usize = periods;
        while i < n
            invariant
                0 < periods <= i <= n,
                n == ts.values.len(),
                roc@.len() == i - periods,
                forall|k: int|
                    0 <= k < i - periods ==> roc@[k] == relative_change(
                        ts.values@[k],
                        ts.values@[k + periods],
                    ),
            decreases n - i,
        {
            roc.push(change_between(ts.values[i - periods], ts.values[i]));
            i = i + 1;
        }
        assert(roc@ =~= rate_of_change_spec(ts.values@, periods as int));
        Ok(roc)
    }
}

} // verus!
