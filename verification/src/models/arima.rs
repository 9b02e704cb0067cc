//! ARIMA (AutoRegressive Integrated Moving Average) model.
//!
//! The model is deliberately simple: each autoregressive coefficient is a
//! one-lag least-squares ratio, the moving-average coefficients are fixed
//! small values, and forecasts stay on the differenced scale: they are not
//! integrated back to the scale of the series.

use vstd::prelude::*;
use crate::fixed::{
    fixed_of,
    lemma_mul_one,
    magnitude,
    quot,
    scaled_quot,
    undefined,
    wide,
    wide_product,
    Fixed,
    SCALE,
    WIDE,
};
use crate::forecasting::{
    bounds_around,
    lemma_bounds_defined,
    lemma_bounds_enclose,
    lowered,
    raised,
    z_score,
    z_score_spec,
    ForecastResult,
    Forecaster,
};
use crate::series::{copied, differences, first_differences, sum_of_range, sum_spec};
use crate::time_series::TimeSeries;
use crate::TelemetryError;

verus! {

/// ARIMA model parameters.
#[derive(Debug, Clone, Copy)]
pub struct ARIMAParams {
    /// AR order (p)
    pub p: usize,
    /// Differencing order (d)
    pub d: usize,
    /// MA order (q)
    pub q: usize,
}

/// ARIMA model.
pub struct ARIMA {
    params: ARIMAParams,
    ar_coeffs: Vec<Fixed>,
    ma_coeffs: Vec<Fixed>,
    fitted: bool,
    differenced_data: Vec<Fixed>,
}

/// First differences taken `d` times.
pub open spec fn differenced(s: Seq<Fixed>, d: nat) -> Seq<Fixed>
    decreases d,
{
    if d == 0 {
        s
    } else {
        differences(differenced(s, (d - 1) as nat))
    }
}

/// The running sums of `s` from `start`: `start`, then each sum plus the
/// next element.
pub open spec fn running_sums(start: Fixed, s: Seq<Fixed>) -> Seq<Fixed>
    decreases s.len(),
{
    if s.len() == 0 {
        seq![start]
    } else {
        running_sums(start, s.drop_last()).push(
            running_sums(start, s.drop_last()).last().add_spec(s.last()),
        )
    }
}

/// Running sums taken `d` times.
pub open spec fn integrated(s: Seq<Fixed>, start: Fixed, d: nat) -> Seq<Fixed>
    decreases d,
{
    if d == 0 {
        s
    } else {
        running_sums(start, integrated(s, start, (d - 1) as nat))
    }
}

/// Whether every value that has a value `lag` places before it is
/// defined, and that earlier value too.
pub open spec fn pairs_defined(x: Seq<Fixed>, lag: int) -> bool {
    forall|j: int| lag <= j < x.len() ==> (#[trigger] x[j]).defined() && x[j - lag].defined()
}

/// Exact total of the products of each value below place `n` with the
/// value `lag` places before it.
pub open spec fn products_total(x: Seq<Fixed>, lag: int, n: int) -> int
    decreases n,
{
    if n <= lag || n <= 0 {
        0
    } else {
        products_total(x, lag, n - 1) + x[n - 1].val() * x[n - 1 - lag].val()
    }
}

/// Exact total of the magnitudes of those products.
pub open spec fn magnitudes_total(x: Seq<Fixed>, lag: int, n: int) -> int
    decreases n,
{
    if n <= lag || n <= 0 {
        0
    } else {
        magnitudes_total(x, lag, n - 1) + magnitude(x[n - 1].val() * x[n - 1 - lag].val())
    }
}

/// Exact total of the squares of the values that have a value `lag`
/// places after them below place `n`.
pub open spec fn lagged_squares_total(x: Seq<Fixed>, lag: int, n: int) -> int
    decreases n,
{
    if n <= lag || n <= 0 {
        0
    } else {
        lagged_squares_total(x, lag, n - 1) + x[n - 1 - lag].val() * x[n - 1 - lag].val()
    }
}

/// The autoregressive coefficient for `lag`: the total of the lagged
/// products over the total of the lagged squares, zero when the latter is
/// zero. The totals are exact; only the ratio is narrowed. Undefined when
/// a value is, or when the magnitudes of the products or the squares
/// total more than the range that is kept exactly.
pub open spec fn ar_coefficient(x: Seq<Fixed>, lag: int) -> Fixed {
    let n = x.len() as int;
    if !pairs_defined(x, lag) || !wide(magnitudes_total(x, lag, n)) || !wide(
        lagged_squares_total(x, lag, n),
    ) {
        undefined()
    } else if lagged_squares_total(x, lag, n) == 0 {
        fixed_of(0)
    } else {
        fixed_of(quot(products_total(x, lag, n) * SCALE, lagged_squares_total(x, lag, n)))
    }
}

/// Totals of magnitudes and of squares do not shrink as more values are
/// taken in.
pub proof fn lemma_totals_grow(x: Seq<Fixed>, lag: int, j: int, n: int)
    requires
        j <= n,
    ensures
        0 <= magnitudes_total(x, lag, j) <= magnitudes_total(x, lag, n),
        0 <= lagged_squares_total(x, lag, j) <= lagged_squares_total(x, lag, n),
        magnitude(products_total(x, lag, j)) <= magnitudes_total(x, lag, j),
    decreases n - j, j,
{
    if j < n {
        lemma_totals_grow(x, lag, j, n - 1);
        if !(n <= lag || n <= 0) {
            let b = x[n - 1 - lag].val();
            assert(b * b >= 0) by (nonlinear_arith);
        }
    } else if !(j <= lag || j <= 0) {
        lemma_totals_grow(x, lag, j - 1, j - 1);
        let b = x[j - 1 - lag].val();
        assert(b * b >= 0) by (nonlinear_arith);
    }
}

/// The coefficients for the lags 1 to `p`.
pub open spec fn ar_coefficients(x: Seq<Fixed>, p: nat) -> Seq<Fixed> {
    Seq::new(p, |i: int| ar_coefficient(x, i + 1))
}

/// The moving-average coefficient at index `i` of `q`: `0.1 * (i + 1) / q`.
pub open spec fn ma_coefficient(i: int, q: int) -> Fixed {
    fixed_of(100_000_000).mul_spec(fixed_of(i * SCALE).add_spec(fixed_of(SCALE as int))).div_spec(
        fixed_of(q * SCALE),
    )
}

/// The `q` moving-average coefficients.
pub open spec fn ma_coefficients(q: nat) -> Seq<Fixed> {
    Seq::new(q, |i: int| ma_coefficient(i, q as int))
}

/// The terms of one prediction: each coefficient times the value as many
/// places before the end of the history as the coefficient's index, for as
/// many lags as the history has values.
pub open spec fn ar_terms(coeffs: Seq<Fixed>, history: Seq<Fixed>) -> Seq<Fixed> {
    Seq::new(
        if coeffs.len() <= history.len() {
            coeffs.len()
        } else {
            history.len()
        },
        |i: int| coeffs[i].mul_spec(history[history.len() - 1 - i]),
    )
}

/// The prediction that follows `history`.
pub open spec fn next_prediction(coeffs: Seq<Fixed>, history: Seq<Fixed>) -> Fixed {
    sum_spec(ar_terms(coeffs, history))
}

/// `history` extended by `steps` predictions, each computed from all that
/// precedes it.
pub open spec fn extended(coeffs: Seq<Fixed>, history: Seq<Fixed>, steps: nat) -> Seq<Fixed>
    decreases steps,
{
    if steps == 0 {
        history
    } else {
        extended(coeffs, history, (steps - 1) as nat).push(
            next_prediction(coeffs, extended(coeffs, history, (steps - 1) as nat)),
        )
    }
}

/// An extended history is as long as the history and the steps together.
pub proof fn lemma_extended_len(coeffs: Seq<Fixed>, history: Seq<Fixed>, steps: nat)
    ensures
        extended(coeffs, history, steps).len() == history.len() + steps,
    decreases steps,
{
    if steps > 0 {
        lemma_extended_len(coeffs, history, (steps - 1) as nat);
    }
}

/// Running sums of `data` from `start`.
fn cumulative(start: Fixed, data: &Vec<Fixed>) -> (r: Vec<Fixed>)
    ensures
        r@ == running_sums(start, data@),
{
    let n: usize = data.len();
    let mut r: Vec<Fixed> = Vec::new();
    r.push(start);
    let mut last = start;
    let mut i: usize = 0;
    assert(data@.take(0) =~= Seq::<Fixed>::empty());
    assert(r@ =~= running_sums(start, data@.take(0)));
    while i < n
        invariant
            i <= n,
            n == data.len(),
            r@ == running_sums(start, data@.take(i as int)),
            r@.len() == i + 1,
            last == r@.last(),
        decreases n - i,
    {
        proof {
            assert(data@.take(i + 1).drop_last() =~= data@.take(i as int));
        }
        last = last.add(data[i]);
        r.push(last);
        i = i + 1;
    }
    assert(data@.take(n as int) =~= data@);
    r
}

impl ARIMA {
    #[verifier::type_invariant]
    spec fn well_formed(self) -> bool {
        &&& self.ar_coeffs.len() == self.params.p
        &&& self.ma_coeffs.len() == self.params.q
    }

    /// The orders of the model.
    pub closed spec fn params_spec(self) -> ARIMAParams {
        self.params
    }

    /// The autoregressive coefficients.
    pub closed spec fn ar_spec(self) -> Seq<Fixed> {
        self.ar_coeffs@
    }

    /// The moving-average coefficients.
    pub closed spec fn ma_spec(self) -> Seq<Fixed> {
        self.ma_coeffs@
    }

    /// The differenced series of the last fit.
    pub closed spec fn history_spec(self) -> Seq<Fixed> {
        self.differenced_data@
    }

    /// Whether the model has been fitted.
    pub closed spec fn is_fitted(self) -> bool {
        self.fitted
    }

    /// Create a new ARIMA model, with `p` and `q` coefficients that are
    /// all zero.
    pub fn new(p: usize, d: usize, q: usize) -> (m: ARIMA)
        ensures
            m.params_spec() == (ARIMAParams { p, d, q }),
            m.ar_spec() == Seq::new(p as nat, |i: int| fixed_of(0)),
            m.ma_spec() == Seq::new(q as nat, |i: int| fixed_of(0)),
            m.history_spec() == Seq::<Fixed>::empty(),
            !m.is_fitted(),
    {
        ARIMA {
            params: ARIMAParams { p, d, q },
            ar_coeffs: crate::forecasting::repeated(Fixed::from_nanos(0), p),
            ma_coeffs: crate::forecasting::repeated(Fixed::from_nanos(0), q),
            fitted: false,
            differenced_data: Vec::new(),
        }
    }

    /// The orders of the model.
    pub fn params(&self) -> (r: &ARIMAParams)
        ensures
            *r == self.params_spec(),
    {
        &self.params
    }

    /// The autoregressive coefficients, one for each lag.
    pub fn ar_coefficients(&self) -> (r: &Vec<Fixed>)
        ensures
            r@ == self.ar_spec(),
    {
        &self.ar_coeffs
    }

    /// The moving-average coefficients.
    pub fn ma_coefficients(&self) -> (r: &Vec<Fixed>)
        ensures
            r@ == self.ma_spec(),
    {
        &self.ma_coeffs
    }

    /// Difference the time series d times.
    pub fn difference(&self, data: &Vec<Fixed>) -> (r: Vec<Fixed>)
        ensures
            r@ == differenced(data@, self.params_spec().d as nat),
    {
        let mut result = copied(data);
        let mut k: usize = 0;
        while k < self.params.d
            invariant
                k <= self.params.d,
                result@ == differenced(data@, k as nat),
            decreases self.params.d - k,
        {
            result = first_differences(&result);
            k = k + 1;
        }
        result
    }

    /// Integrate (cumulative sum) the differenced data d times. Each pass
    /// starts from the last value of `series` when d is 1, and from 0
    /// otherwise.
    pub fn integrate(&self, differenced: &Vec<Fixed>, series: &Vec<Fixed>) -> (r: Vec<Fixed>)
        requires
            self.params_spec().d == 1 ==> series.len() > 0,
        ensures
            r@ == integrated(
                differenced@,
                if self.params_spec().d == 1 {
                    series@.last()
                } else {
                    fixed_of(0)
                },
                self.params_spec().d as nat,
            ),
    {
        let start = if self.params.d == 1 {
            series[series.len() - 1]
        } else {
            Fixed::from_nanos(0)
        };
        let mut result = copied(differenced);
        let mut k: usize = 0;
        while k < self.params.d
            invariant
                k <= self.params.d,
                result@ == integrated(differenced@, start, k as nat),
            decreases self.params.d - k,
        {
            result = cumulative(start, &result);
            k = k + 1;
        }
        result
    }

    /// Simple AR coefficient estimation: for each lag, the ratio of the
    /// lagged products to the lagged squares.
    fn estimate_ar_coeffs(data: &Vec<Fixed>, p: usize) -> (r: Result<Vec<Fixed>, TelemetryError>)
        ensures
            match r {
                Ok(coeffs) => data.len() > p && coeffs@ == ar_coefficients(data@, p as nat),
                Err(e) => data.len() <= p && e is InsufficientData,
            },
    {
        if data.len() <= p {
            return Err(
                TelemetryError::InsufficientData("Not enough data for AR estimation".to_string()),
            );
        }
        let n: usize = data.len();
        let mut coeffs: Vec<Fixed> = Vec::new();
        let mut i: usize = 0;
        while i < p
            invariant
                i <= p < n,
                n == data.len(),
                coeffs@.len() == i,
                forall|k: int| 0 <= k < i ==> coeffs@[k] == ar_coefficient(data@, k + 1),
            decreases p - i,
        {
            let coeff = ARIMA::estimate_lag(data, i + 1);
            coeffs.push(coeff);
            i = i + 1;
        }
        assert(coeffs@ =~= ar_coefficients(data@, p as nat));
        Ok(coeffs)
    }

    /// The coefficient for one lag.
    fn estimate_lag(data: &Vec<Fixed>, lag: usize) -> (coeff: Fixed)
        requires
            1 <= lag <= data.len(),
        ensures
            coeff == ar_coefficient(data@, lag as int),
    {
        let n: usize = data.len();
        let mut sum_xy: i128 = 0;
        let mut sum_x2: i128 = 0;
        let mut sizes: i128 = 0;
        let mut j: usize = lag;
        while j < n
            invariant
                1 <= lag <= j <= n,
                n == data.len(),
                forall|k: int| lag <= k < j ==> (#[trigger] data@[k]).defined() && data@[k
                    - lag].defined(),
                sum_xy == products_total(data@, lag as int, j as int),
                sum_x2 == lagged_squares_total(data@, lag as int, j as int),
                sizes == magnitudes_total(data@, lag as int, j as int),
                0 <= sum_x2 <= WIDE,
                0 <= sizes <= WIDE,
                -sizes <= sum_xy <= sizes,
            decreases n - j,
        {
            match (data[j].nanos, data[j - lag].nanos) {
                (Some(a), Some(b)) => {
                    let product: i128 = wide_product(a, b);
                    let square: i128 = wide_product(b, b);
                    let size: i128 = if product < 0 {
                        -product
                    } else {
                        product
                    };
                    assert(square >= 0) by (nonlinear_arith)
                        requires
                            square == b * b,
                    ;
                    assert(size <= 0x4000_0000_0000_0000_0000_0000_0000_0000 && square
                        <= 0x4000_0000_0000_0000_0000_0000_0000_0000) by (nonlinear_arith)
                        requires
                            size == a * b || size == -(a * b),
                            square == b * b,
                            -0x8000_0000_0000_0000 <= a <= 0x7fff_ffff_ffff_ffff,
                            -0x8000_0000_0000_0000 <= b <= 0x7fff_ffff_ffff_ffff,
                    ;
                    if sizes + size > WIDE || sum_x2 + square > WIDE {
                        proof {
                            lemma_totals_grow(data@, lag as int, j + 1, n as int);
                        }
                        return Fixed::undefined();
                    }
                    sizes = sizes + size;
                    sum_x2 = sum_x2 + square;
                    sum_xy = sum_xy + product;
                },
                _ => {
                    assert(!pairs_defined(data@, lag as int)) by {
                        if pairs_defined(data@, lag as int) {
                            assert(data@[j as int].defined());
                        }
                    }
                    return Fixed::undefined();
                },
            }
            j = j + 1;
        }
        if sum_x2 == 0 {
            Fixed::from_nanos(0)
        } else {
            scaled_quot(sum_xy, sum_x2)
        }
    }

    /// Simple MA coefficient estimation: fixed small values.
    fn estimate_ma_coeffs(q: usize) -> (coeffs: Vec<Fixed>)
        ensures
            coeffs@ == ma_coefficients(q as nat),
    {
        let mut coeffs: Vec<Fixed> = Vec::new();
        let mut i: usize = 0;
        while i < q
            invariant
                i <= q,
                coeffs@.len() == i,
                forall|k: int| 0 <= k < i ==> coeffs@[k] == ma_coefficient(k, q as int),
            decreases q - i,
        {
            let step = Fixed::from_count(i).add(Fixed::from_nanos(1_000_000_000));
            coeffs.push(Fixed::from_nanos(100_000_000).mul(step).div(Fixed::from_count(q)));
            i = i + 1;
        }
        assert(coeffs@ =~= ma_coefficients(q as nat));
        coeffs
    }
}

impl Forecaster for ARIMA {
    open spec fn fitted(&self) -> bool {
        self.is_fitted()
    }

    /// The values that extend the differenced history. They stay on the
    /// differenced scale.
    open spec fn predictions_spec(&self, steps: int) -> Seq<Fixed> {
        extended(self.ar_spec(), self.history_spec(), steps as nat).subrange(
            self.history_spec().len() as int,
            self.history_spec().len() + steps,
        )
    }

    open spec fn confidence_spec(&self) -> Fixed {
        fixed_of(750_000_000)
    }

    /// The score of the level times a standard deviation of one.
    open spec fn margin_spec(&self, confidence_level: Fixed) -> Fixed {
        z_score_spec(confidence_level).mul_spec(fixed_of(SCALE as int))
    }

    /// Fits on a series of at least `p + d + q + 1` values; a shorter one
    /// is insufficient data.
    fn fit(&mut self, ts: &TimeSeries) -> (r: Result<(), TelemetryError>)
        ensures
            final(self).params_spec() == old(self).params_spec(),
            match r {
                Ok(_) => {
                    let params = old(self).params_spec();
                    &&& ts.values.len() >= params.p + params.d + params.q + 1
                    &&& final(self).history_spec() == differenced(ts.values@, params.d as nat)
                    &&& final(self).ar_spec() == ar_coefficients(
                        final(self).history_spec(),
                        params.p as nat,
                    )
                    &&& final(self).ma_spec() == ma_coefficients(params.q as nat)
                },
                Err(e) => {
                    let params = old(self).params_spec();
                    ts.values.len() < params.p + params.d + params.q + 1 && e is InsufficientData
                },
            },
    {
        proof {
            use_type_invariant(&*self);
        }
        let need: u128 = self.params.p as u128 + self.params.d as u128 + self.params.q as u128 + 1;
        if (ts.len() as u128) < need {
            return Err(
                TelemetryError::InsufficientData("Insufficient data for ARIMA model".to_string()),
            );
        }

        // Difference the data
        let differenced_data = self.difference(&ts.values);
        proof {
            lemma_differenced_len(ts.values@, self.params.d as nat);
        }

        // Estimate AR coefficients
        let ar_coeffs = match ARIMA::estimate_ar_coeffs(&differenced_data, self.params.p) {
            Ok(c) => c,
            Err(e) => { return Err(e); },
        };

        // Estimate MA coefficients
        let ma_coeffs = ARIMA::estimate_ma_coeffs(self.params.q);

        self.ar_coeffs = ar_coeffs;
        self.ma_coeffs = ma_coeffs;
        self.differenced_data = differenced_data;
        self.fitted = true;
        Ok(())
    }

    fn forecast(&self, steps: usize) -> (r: Result<ForecastResult, TelemetryError>) {
        proof {
            use_type_invariant(self);
        }
        if !self.fitted {
            return Err(
                TelemetryError::ModelError("Model must be fitted before forecasting".to_string()),
            );
        }
        let base: usize = self.differenced_data.len();
        let mut predictions: Vec<Fixed> = Vec::new();
        let mut history = copied(&self.differenced_data);
        let mut k: usize = 0;
        while k < steps
            invariant
                k <= steps,
                base == self.differenced_data.len(),
                history@ == extended(self.ar_coeffs@, self.differenced_data@, k as nat),
                history@.len() == base + k,
                predictions@ == history@.subrange(base as int, base + k),
            decreases steps - k,
        {
            // AR component
            let pred = ARIMA::predict(&self.ar_coeffs, &history);
            predictions.push(pred);
            history.push(pred);
            k = k + 1;
            assert(predictions@ =~= history@.subrange(base as int, base + k));
        }

        // Predictions stay on the differenced scale.
        Ok(
            ForecastResult {
                predictions,
                lower_bound: None,
                upper_bound: None,
                confidence: Fixed::from_nanos(750_000_000),
            },
        )
    }

    fn forecast_with_confidence(&self, steps: usize, confidence_level: Fixed) -> (r: Result<
        ForecastResult,
        TelemetryError,
    >) {
        let base_forecast = match self.forecast(steps) {
            Ok(f) => f,
            Err(e) => { return Err(e); },
        };

        // Simple confidence interval calculation
        let std_dev = Fixed::from_nanos(1_000_000_000);
        let margin = z_score(confidence_level).mul(std_dev);
        let (lower_bound, upper_bound) = bounds_around(&base_forecast.predictions, margin);
        Ok(
            ForecastResult {
                predictions: base_forecast.predictions,
                lower_bound: Some(lower_bound),
                upper_bound: Some(upper_bound),
                confidence: confidence_level,
            },
        )
    }
}

impl ARIMA {
    /// The prediction that follows `history`.
    fn predict(coeffs: &Vec<Fixed>, history: &Vec<Fixed>) -> (pred: Fixed)
        ensures
            pred == next_prediction(coeffs@, history@),
    {
        let lags: usize = if coeffs.len() <= history.len() {
            coeffs.len()
        } else {
            history.len()
        };
        let mut terms: Vec<Fixed> = Vec::new();
        let mut i: usize = 0;
        while i < lags
            invariant
                i <= lags,
                lags <= coeffs.len(),
                lags <= history.len(),
                terms@.len() == i,
                forall|k: int|
                    0 <= k < i ==> terms@[k] == coeffs@[k].mul_spec(
                        history@[history@.len() - 1 - k],
                    ),
            decreases lags - i,
        {
            terms.push(coeffs[i].mul(history[history.len() - 1 - i]));
            i = i + 1;
        }
        proof {
            assert(terms@ =~= ar_terms(coeffs@, history@));
            assert(terms@.subrange(0, lags as int) =~= terms@);
        }
        sum_of_range(&terms, 0, lags)
    }
}

/// Each pass of differencing shortens a series by one value, down to none.
pub proof fn lemma_differenced_len(s: Seq<Fixed>, d: nat)
    ensures
        differenced(s, d).len() == if d <= s.len() {
            s.len() - d
        } else {
            0
        },
    decreases d,
{
    if d > 0 {
        lemma_differenced_len(s, (d - 1) as nat);
    }
}

/// The bounds of the ARIMA model enclose each prediction.
pub proof fn lemma_arima_bounds_ordered(model: ARIMA, steps: int, confidence_level: Fixed, i: int)
    requires
        model.fitted(),
        0 <= i < steps,
    ensures
        ({
            let p = model.predictions_spec(steps);
            let m = model.margin_spec(confidence_level);
            &&& lowered(p, m)[i].defined() ==> lowered(p, m)[i].le_spec(p[i])
            &&& raised(p, m)[i].defined() ==> p[i].le_spec(raised(p, m)[i])
        }),
{
    lemma_extended_len(model.ar_spec(), model.history_spec(), steps as nat);
    lemma_mul_one(z_score_spec(confidence_level));
    lemma_bounds_enclose(model.predictions_spec(steps), model.margin_spec(confidence_level), i);
}

/// Wherever a prediction of the ARIMA model is defined and at least two
/// units inside the representable range, both bounds are defined and
/// enclose it.
pub proof fn lemma_arima_bounds_enclose(model: ARIMA, steps: int, confidence_level: Fixed, i: int)
    requires
        model.fitted(),
        0 <= i < steps,
        model.predictions_spec(steps)[i].defined(),
        i64::MIN + 2 * SCALE <= model.predictions_spec(steps)[i].val() <= i64::MAX - 2 * SCALE,
    ensures
        ({
            let p = model.predictions_spec(steps);
            let m = model.margin_spec(confidence_level);
            &&& lowered(p, m)[i].le_spec(p[i])
            &&& p[i].le_spec(raised(p, m)[i])
        }),
{
    lemma_extended_len(model.ar_spec(), model.history_spec(), steps as nat);
    lemma_mul_one(z_score_spec(confidence_level));
    lemma_bounds_defined(model.predictions_spec(steps), model.margin_spec(confidence_level), i);
}

} // verus!
