//! Forecasting models and algorithms.

use vstd::prelude::*;
use crate::fixed::{
    fixed_of,
    lemma_mul_nonnegative,
    lemma_mul_one,
    lemma_mul_zero,
    quot,
    Fixed,
    SCALE,
};
use crate::series::{
    all_defined,
    within,
    copied,
    mean_of_range,
    mean_spec,
    smoothed,
    std_dev_of_range,
    lemma_mean_within,
    lemma_std_dev_nonnegative,
    lemma_std_dev_within,
    std_dev_spec,
};
use crate::time_series::TimeSeries;
use crate::TelemetryError;

verus! {

/// Result of a forecast operation.
#[derive(Debug, Clone)]
pub struct ForecastResult {
    /// Predicted values
    pub predictions: Vec<Fixed>,
    /// Lower confidence bound (if available)
    pub lower_bound: Option<Vec<Fixed>>,
    /// Upper confidence bound (if available)
    pub upper_bound: Option<Vec<Fixed>>,
    /// Model confidence/accuracy metrics
    pub confidence: Fixed,
}

/// Every prediction lowered by `margin`.
pub open spec fn lowered(predictions: Seq<Fixed>, margin: Fixed) -> Seq<Fixed> {
    Seq::new(predictions.len(), |i: int| predictions[i].sub_spec(margin))
}

/// Every prediction raised by `margin`.
pub open spec fn raised(predictions: Seq<Fixed>, margin: Fixed) -> Seq<Fixed> {
    Seq::new(predictions.len(), |i: int| predictions[i].add_spec(margin))
}

/// The score that scales a standard deviation into a margin: 1.96 from a
/// confidence level of 0.95 on, 1.645 below it or when the level is
/// undefined.
pub open spec fn z_score_spec(confidence_level: Fixed) -> Fixed {
    if fixed_of(950_000_000).le_spec(confidence_level) {
        fixed_of(1_960_000_000)
    } else {
        fixed_of(1_645_000_000)
    }
}

/// Forecaster trait for different forecasting models.
///
/// A model is fitted to a series and then asked for predictions; asking
/// before a successful fit is an error.
pub trait Forecaster: Sized {
    /// Whether the model has been fitted.
    spec fn fitted(&self) -> bool;

    /// The predictions of a fitted model for `steps` steps ahead.
    spec fn predictions_spec(&self, steps: int) -> Seq<Fixed>;

    /// The confidence that the model reports with a plain forecast.
    spec fn confidence_spec(&self) -> Fixed;

    /// The distance of both bounds from a prediction at a confidence level.
    spec fn margin_spec(&self, confidence_level: Fixed) -> Fixed;

    /// Fit the model to historical data. A failed fit leaves the model as
    /// it was.
    fn fit(&mut self, ts: &TimeSeries) -> (r: Result<(), TelemetryError>)
        ensures
            r is Ok ==> final(self).fitted(),
            r is Err ==> *final(self) == *old(self),
    ;

    /// Forecast n steps ahead.
    fn forecast(&self, steps: usize) -> (r: Result<ForecastResult, TelemetryError>)
        ensures
            match r {
                Ok(f) => {
                    &&& self.fitted()
                    &&& f.predictions@ == self.predictions_spec(steps as int)
                    &&& f.predictions@.len() == steps
                    &&& f.lower_bound is None
                    &&& f.upper_bound is None
                    &&& f.confidence == self.confidence_spec()
                },
                Err(e) => !self.fitted() && e is ModelError,
            },
    ;

    /// Forecast with confidence intervals: the predictions of `forecast`,
    /// with bounds at the model's margin below and above each of them.
    fn forecast_with_confidence(&self, steps: usize, confidence_level: Fixed) -> (r: Result<
        ForecastResult,
        TelemetryError,
    >)
        ensures
            match r {
                Ok(f) => {
                    &&& self.fitted()
                    &&& f.predictions@ == self.predictions_spec(steps as int)
                    &&& f.predictions@.len() == steps
                    &&& f.lower_bound matches Some(lower) && lower@ == lowered(
                        f.predictions@,
                        self.margin_spec(confidence_level),
                    )
                    &&& f.upper_bound matches Some(upper) && upper@ == raised(
                        f.predictions@,
                        self.margin_spec(confidence_level),
                    )
                    &&& f.confidence == confidence_level
                },
                Err(e) => !self.fitted() && e is ModelError,
            },
    ;
}

/// `n` copies of `value`.
pub(crate) fn repeated(value: Fixed, n: usize) -> (v: Vec<Fixed>)
    ensures
        v@ == Seq::new(n as nat, |i: int| value),
{
    let mut v: Vec<Fixed> = Vec::new();
    let mut i: usize = 0;
    while i < n
        invariant
            i <= n,
            v@.len() == i,
            forall|k: int| 0 <= k < i ==> v@[k] == value,
        decreases n - i,
    {
        v.push(value);
        i = i + 1;
    }
    assert(v@ =~= Seq::new(n as nat, |i: int| value));
    v
}

/// The bounds at `margin` below and above each prediction.
pub(crate) fn bounds_around(predictions: &Vec<Fixed>, margin: Fixed) -> (r: (Vec<Fixed>, Vec<Fixed>))
    ensures
        r.0@ == lowered(predictions@, margin),
        r.1@ == raised(predictions@, margin),
{
    let n: usize = predictions.len();
    let mut lower: Vec<Fixed> = Vec::new();
    let mut upper: Vec<Fixed> = Vec::new();
    let mut i: usize = 0;
    while i < n
        invariant
            i <= n,
            n == predictions.len(),
            lower@.len() == i,
            upper@.len() == i,
            forall|k: int| 0 <= k < i ==> lower@[k] == predictions@[k].sub_spec(margin),
            forall|k: int| 0 <= k < i ==> upper@[k] == predictions@[k].add_spec(margin),
        decreases n - i,
    {
        lower.push(predictions[i].sub(margin));
        upper.push(predictions[i].add(margin));
        i = i + 1;
    }
    assert(lower@ =~= lowered(predictions@, margin));
    assert(upper@ =~= raised(predictions@, margin));
    (lower, upper)
}

/// The score that scales a standard deviation into a margin.
pub(crate) fn z_score(confidence_level: Fixed) -> (z: Fixed)
    ensures
        z == z_score_spec(confidence_level),
{
    if Fixed::from_nanos(950_000_000).le(confidence_level) {
        Fixed::from_nanos(1_960_000_000)
    } else {
        Fixed::from_nanos(1_645_000_000)
    }
}

/// Simple exponential smoothing forecaster.
pub struct ExponentialSmoothing {
    alpha: Fixed,
    last_value: Option<Fixed>,
    fitted: bool,
}

impl ExponentialSmoothing {
    #[verifier::type_invariant]
    spec fn well_formed(self) -> bool {
        self.fitted ==> self.last_value is Some
    }

    /// The smoothing factor.
    pub closed spec fn alpha_spec(self) -> Fixed {
        self.alpha
    }

    /// The final smoothed value of the last fit, if any.
    pub closed spec fn level_spec(self) -> Option<Fixed> {
        if self.fitted {
            self.last_value
        } else {
            None
        }
    }

    /// Create a new exponential smoothing model. The smoothing factor
    /// must be greater than 0 and at most 1.
    pub fn new(alpha: Fixed) -> (r: Result<ExponentialSmoothing, TelemetryError>)
        ensures
            match r {
                Ok(m) => {
                    &&& alpha.defined()
                    &&& 0 < alpha.val() <= SCALE
                    &&& m.alpha_spec() == alpha
                    &&& m.level_spec() is None
                },
                Err(e) => !(alpha.defined() && 0 < alpha.val() <= SCALE) && e is InvalidParameter,
            },
    {
        if !(Fixed::from_nanos(0).lt(alpha) && alpha.le(Fixed::from_nanos(1_000_000_000))) {
            return Err(
                TelemetryError::InvalidParameter("Alpha must be between 0 and 1".to_string()),
            );
        }
        Ok(ExponentialSmoothing { alpha, last_value: None, fitted: false })
    }
}

impl Forecaster for ExponentialSmoothing {
    open spec fn fitted(&self) -> bool {
        self.level_spec() is Some
    }

    /// A flat line at the final smoothed value.
    open spec fn predictions_spec(&self, steps: int) -> Seq<Fixed> {
        Seq::new(steps as nat, |i: int| self.level_spec().unwrap())
    }

    open spec fn confidence_spec(&self) -> Fixed {
        fixed_of(700_000_000)
    }

    /// Half of the final smoothed value times one minus the level.
    open spec fn margin_spec(&self, confidence_level: Fixed) -> Fixed {
        self.level_spec().unwrap().mul_spec(
            fixed_of(SCALE as int).sub_spec(confidence_level),
        ).mul_spec(fixed_of(500_000_000))
    }

    /// Fits on a non-empty series; an empty one is insufficient data.
    fn fit(&mut self, ts: &TimeSeries) -> (r: Result<(), TelemetryError>)
        ensures
            final(self).alpha_spec() == old(self).alpha_spec(),
            match r {
                Ok(_) => ts.values.len() > 0 && final(self).level_spec() == Some(
                    smoothed(old(self).alpha_spec(), ts.values@),
                ),
                Err(e) => ts.values.len() == 0 && e is InsufficientData,
            },
    {
        if ts.is_empty() {
            return Err(
                TelemetryError::InsufficientData("Cannot fit on empty time series".to_string()),
            );
        }

        // Calculate the final smoothed value
        let n: usize = ts.values.len();
        let one = Fixed::from_nanos(1_000_000_000);
        let mut value = ts.values[0];
        let mut i: usize = 1;
        assert(ts.values@.take(1).len() == 1);
        while i < n
            invariant
                1 <= i <= n,
                n == ts.values.len(),
                one == fixed_of(SCALE as int),
                value == smoothed(self.alpha, ts.values@.take(i as int)),
            decreases n - i,
        {
            proof {
                assert(ts.values@.take(i + 1).drop_last() =~= ts.values@.take(i as int));
            }
            value = self.alpha.mul(ts.values[i]).add(one.sub(self.alpha).mul(value));
            i = i + 1;
        }
        assert(ts.values@.take(n as int) =~= ts.values@);
        self.last_value = Some(value);
        self.fitted = true;
        Ok(())
    }

    fn forecast(&self, steps: usize) -> (r: Result<ForecastResult, TelemetryError>) {
        proof {
            use_type_invariant(self);
        }
        if !self.fitted {
            return Err(
                TelemetryError::ModelError("Model must be fitted before forecasting".to_string()),
            );
        }
        let last_value = self.last_value.unwrap();
        let predictions = repeated(last_value, steps);
        Ok(
            ForecastResult {
                predictions,
                lower_bound: None,
                upper_bound: None,
                confidence: Fixed::from_nanos(700_000_000),
            },
        )
    }

    fn forecast_with_confidence(&self, steps: usize, confidence_level: Fixed) -> (r: Result<
        ForecastResult,
        TelemetryError,
    >) {
        proof {
            use_type_invariant(self);
        }
        let base_forecast = match self.forecast(steps) {
            Ok(f) => f,
            Err(e) => { return Err(e); },
        };
        let last_value = self.last_value.unwrap();

        // Simple confidence interval based on confidence level
        let margin = last_value.mul(Fixed::from_nanos(1_000_000_000).sub(confidence_level)).mul(
            Fixed::from_nanos(500_000_000),
        );
        let (lower_bound, upper_bound) = bounds_around(&base_forecast.predictions, margin);
        Ok(
            ForecastResult {
                predictions: base_forecast.predictions,
                lower_bound: Some(lower_bound),
                upper_bound: Some(upper_bound),
                confidence: confidence_level,
            },
        )
    }
}

/// The last `window` values of `history`.
pub open spec fn recent(history: Seq<Fixed>, window: int) -> Seq<Fixed> {
    history.subrange(history.len() - window, history.len() as int)
}

/// Moving average forecaster.
pub struct MovingAverageForecaster {
    window: usize,
    history: Option<Vec<Fixed>>,
}

impl MovingAverageForecaster {
    #[verifier::type_invariant]
    spec fn well_formed(self) -> bool {
        &&& self.window > 0
        &&& self.history matches Some(h) ==> h.len() >= self.window
    }

    /// The number of trailing values that are averaged.
    pub closed spec fn window_spec(self) -> usize {
        self.window
    }

    /// The series of the last fit, if any.
    pub closed spec fn history_spec(self) -> Option<Seq<Fixed>> {
        match self.history {
            Some(h) => Some(h@),
            None => None,
        }
    }

    /// Create a new moving average forecaster. The window must not be 0.
    pub fn new(window: usize) -> (r: Result<MovingAverageForecaster, TelemetryError>)
        ensures
            match r {
                Ok(m) => window > 0 && m.window_spec() == window && m.history_spec() is None,
                Err(e) => window == 0 && e is InvalidParameter,
            },
    {
        if window == 0 {
            return Err(
                TelemetryError::InvalidParameter("Window size must be greater than 0".to_string()),
            );
        }
        Ok(MovingAverageForecaster { window, history: None })
    }
}

impl Forecaster for MovingAverageForecaster {
    open spec fn fitted(&self) -> bool {
        self.history_spec() is Some
    }

    /// A flat line at the average of the last `window` values.
    open spec fn predictions_spec(&self, steps: int) -> Seq<Fixed> {
        Seq::new(
            steps as nat,
            |i: int|
                mean_spec(
                    recent(self.history_spec().unwrap(), self.window_spec() as int),
                    self.window_spec() as int,
                ),
        )
    }

    open spec fn confidence_spec(&self) -> Fixed {
        fixed_of(600_000_000)
    }

    /// The score of the level times the population standard deviation of
    /// the last `window` values.
    open spec fn margin_spec(&self, confidence_level: Fixed) -> Fixed {
        z_score_spec(confidence_level).mul_spec(
            std_dev_spec(recent(self.history_spec().unwrap(), self.window_spec() as int)),
        )
    }

    /// Retains the series; one shorter than the window is insufficient
    /// data.
    fn fit(&mut self, ts: &TimeSeries) -> (r: Result<(), TelemetryError>)
        ensures
            final(self).window_spec() == old(self).window_spec(),
            match r {
                Ok(_) => ts.values.len() >= old(self).window_spec() && final(self).history_spec()
                    == Some(ts.values@),
                Err(e) => ts.values.len() < old(self).window_spec() && e is InsufficientData,
            },
    {
        proof {
            use_type_invariant(&*self);
        }
        if ts.len() < self.window {
            return Err(TelemetryError::InsufficientData(need_window_message(self.window)));
        }
        self.history = Some(copied(&ts.values));
        Ok(())
    }

    fn forecast(&self, steps: usize) -> (r: Result<ForecastResult, TelemetryError>) {
        proof {
            use_type_invariant(self);
        }
        let history = match &self.history {
            Some(h) => h,
            None => {
                return Err(
                    TelemetryError::ModelError(
                        "Model must be fitted before forecasting".to_string(),
                    ),
                );
            },
        };

        // Use last 'window' values to predict
        let avg = mean_of_range(history, history.len() - self.window, history.len(), self.window);
        let predictions = repeated(avg, steps);
        Ok(
            ForecastResult {
                predictions,
                lower_bound: None,
                upper_bound: None,
                confidence: Fixed::from_nanos(600_000_000),
            },
        )
    }

    fn forecast_with_confidence(&self, steps: usize, confidence_level: Fixed) -> (r: Result<
        ForecastResult,
        TelemetryError,
    >) {
        proof {
            use_type_invariant(self);
        }
        let base_forecast = match self.forecast(steps) {
            Ok(f) => f,
            Err(e) => { return Err(e); },
        };
        let history = self.history.as_ref().unwrap();

        // Calculate std dev of recent values
        let std_dev = std_dev_of_range(history, history.len() - self.window, history.len());

        // Use std dev for confidence intervals
        let margin = z_score(confidence_level).mul(std_dev);
        let (lower_bound, upper_bound) = bounds_around(&base_forecast.predictions, margin);
        Ok(
            ForecastResult {
                predictions: base_forecast.predictions,
                lower_bound: Some(lower_bound),
                upper_bound: Some(upper_bound),
                confidence: confidence_level,
            },
        )
    }
}

/// Text of the error for a series shorter than the window, formatted by
/// `std::format!`; nothing is claimed of the text.
#[verifier::external_body]
fn need_window_message(window: usize) -> String {
    format!("Need at least {} data points", window)
}

/// With a margin that is not negative, each lower bound that is defined
/// is at most its prediction, and each upper bound that is defined is at
/// least its prediction.
pub proof fn lemma_bounds_enclose(predictions: Seq<Fixed>, margin: Fixed, i: int)
    requires
        0 <= i < predictions.len(),
        margin.defined() ==> margin.val() >= 0,
    ensures
        lowered(predictions, margin)[i].defined() ==> lowered(predictions, margin)[i].le_spec(
            predictions[i],
        ),
        raised(predictions, margin)[i].defined() ==> predictions[i].le_spec(
            raised(predictions, margin)[i],
        ),
{
}

/// With smoothing factor one, smoothing a series of defined values ends
/// at its last value.
pub proof fn lemma_unit_alpha_passes_last_value(s: Seq<Fixed>)
    requires
        s.len() > 0,
        all_defined(s),
    ensures
        smoothed(fixed_of(SCALE as int), s) == s.last(),
    decreases s.len(),
{
    if s.len() > 1 {
        let one = fixed_of(SCALE as int);
        let prev = s.drop_last();
        assert(all_defined(prev)) by {
            assert forall|i: int| 0 <= i < prev.len() implies (#[trigger] prev[i]).defined() by {
                assert(s[i].defined());
            }
        }
        lemma_unit_alpha_passes_last_value(prev);
        assert(prev.last().defined());
        assert(s.last().defined());
        lemma_mul_one(s.last());
        lemma_mul_zero(prev.last());
        assert(one.sub_spec(one) == fixed_of(0));
    }
}

/// After a fit with smoothing factor one on defined values, every
/// prediction is the last value of the series.
pub proof fn lemma_unit_alpha_forecast(model: ExponentialSmoothing, s: Seq<Fixed>, steps: int, i: int)
    requires
        s.len() > 0,
        all_defined(s),
        model.level_spec() == Some(smoothed(fixed_of(SCALE as int), s)),
        0 <= i < steps,
    ensures
        model.predictions_spec(steps)[i] == s.last(),
{
    lemma_unit_alpha_passes_last_value(s);
}

/// The bounds of exponential smoothing enclose each prediction when the
/// smoothed value is not negative and the confidence level is at most one.
pub proof fn lemma_smoothing_bounds_ordered(
    model: ExponentialSmoothing,
    steps: int,
    confidence_level: Fixed,
    i: int,
)
    requires
        model.fitted(),
        model.level_spec().unwrap().defined() ==> model.level_spec().unwrap().val() >= 0,
        confidence_level.defined() ==> confidence_level.val() <= SCALE,
        0 <= i < steps,
    ensures
        ({
            let p = model.predictions_spec(steps);
            let m = model.margin_spec(confidence_level);
            &&& lowered(p, m)[i].defined() ==> lowered(p, m)[i].le_spec(p[i])
            &&& raised(p, m)[i].defined() ==> p[i].le_spec(raised(p, m)[i])
        }),
{
    let level = model.level_spec().unwrap();
    let rest = fixed_of(SCALE as int).sub_spec(confidence_level);
    lemma_mul_nonnegative(level, rest);
    lemma_mul_nonnegative(level.mul_spec(rest), fixed_of(500_000_000));
    lemma_bounds_enclose(model.predictions_spec(steps), model.margin_spec(confidence_level), i);
}

/// The bounds of the moving-average forecaster enclose each prediction.
pub proof fn lemma_moving_average_bounds_ordered(
    model: MovingAverageForecaster,
    steps: int,
    confidence_level: Fixed,
    i: int,
)
    requires
        model.fitted(),
        0 <= i < steps,
    ensures
        ({
            let p = model.predictions_spec(steps);
            let m = model.margin_spec(confidence_level);
            &&& lowered(p, m)[i].defined() ==> lowered(p, m)[i].le_spec(p[i])
            &&& raised(p, m)[i].defined() ==> p[i].le_spec(raised(p, m)[i])
        }),
{
    let window = recent(model.history_spec().unwrap(), model.window_spec() as int);
    lemma_std_dev_nonnegative(window);
    lemma_mul_nonnegative(z_score_spec(confidence_level), std_dev_spec(window));
    lemma_bounds_enclose(model.predictions_spec(steps), model.margin_spec(confidence_level), i);
}

/// Where a prediction less and plus a margin that is not negative are
/// representable, both bounds are defined and enclose the prediction.
pub proof fn lemma_bounds_defined(predictions: Seq<Fixed>, margin: Fixed, i: int)
    requires
        0 <= i < predictions.len(),
        predictions[i].defined(),
        margin.defined(),
        margin.val() >= 0,
        i64::MIN <= predictions[i].val() - margin.val(),
        predictions[i].val() + margin.val() <= i64::MAX,
    ensures
        lowered(predictions, margin)[i].le_spec(predictions[i]),
        predictions[i].le_spec(raised(predictions, margin)[i]),
{
}

/// For a history within a bound of a fifth of the representable range,
/// the prediction of the moving-average forecaster and both of its bounds
/// are defined, and the bounds enclose the prediction.
pub proof fn lemma_moving_average_bounds_enclose(
    model: MovingAverageForecaster,
    steps: int,
    confidence_level: Fixed,
    bound: int,
    i: int,
)
    requires
        model.history_spec() matches Some(history) && within(history, bound) && 0
            < model.window_spec() <= history.len(),
        0 <= bound,
        5 * bound <= i64::MAX,
        0 <= i < steps,
    ensures
        ({
            let p = model.predictions_spec(steps);
            let m = model.margin_spec(confidence_level);
            &&& p[i].defined()
            &&& lowered(p, m)[i].le_spec(p[i])
            &&& p[i].le_spec(raised(p, m)[i])
        }),
{
    let history = model.history_spec().unwrap();
    let window = recent(history, model.window_spec() as int);
    assert(within(window, bound)) by {
        assert forall|k: int| 0 <= k < window.len() implies (#[trigger] window[k]).defined()
            && -bound <= window[k].val() <= bound by {
            assert(history[history.len() - model.window_spec() + k].defined());
        }
    }
    lemma_mean_within(window, bound);
    lemma_std_dev_within(window, bound);
    let z = z_score_spec(confidence_level);
    let deviation = std_dev_spec(window);
    assert(0 <= quot(z.val() * deviation.val(), SCALE as int) <= 2 * deviation.val())
        by (nonlinear_arith)
        requires
            0 <= z.val() <= 2 * SCALE,
            0 <= deviation.val(),
            SCALE == 1_000_000_000,
            quot(z.val() * deviation.val(), SCALE as int) == if z.val() * deviation.val() >= 0 {
                (z.val() * deviation.val()) / (SCALE as int)
            } else {
                -((-(z.val() * deviation.val())) / (SCALE as int))
            },
    ;
    lemma_bounds_defined(model.predictions_spec(steps), model.margin_spec(confidence_level), i);
}

} // verus!
