//! Core time series data structure and operations.

use vstd::prelude::*;
use vstd::slice::slice_to_vec;
use crate::fixed::{fixed_of, Fixed, SCALE};
use crate::ranking::{lemma_ascending, order_statistic, sorted};
use crate::series::{
    all_defined,
    change_between,
    copied_range,
    differences,
    extremes_of_range,
    first_differences,
    greatest,
    least,
    mean_of_range,
    mean_spec,
    relative_change,
    smoothed,
    std_dev_of_range,
    std_dev_spec,
};
use crate::TelemetryError;

verus! {

/// A point in time in UTC: whole seconds since the Unix epoch and the
/// nanoseconds into that second.
#[derive(Debug, Clone, Copy, PartialEq, Eq)]
pub struct Timestamp {
    pub seconds: i64,
    pub nanos: u32,
}

/// Represents a time series with optional timestamps.
#[derive(Debug, Clone)]
pub struct TimeSeries {
    /// Data values
    pub values: Vec<Fixed>,
    /// Optional timestamps (if None, assumes regular intervals)
    pub timestamps: Option<Vec<Timestamp>>,
    /// Optional name/label for the series
    pub name: Option<String>,
}

/// The averages of every run of `window` consecutive values.
pub open spec fn moving_average_spec(values: Seq<Fixed>, window: int) -> Seq<Fixed> {
    Seq::new(
        (values.len() - window + 1) as nat,
        |i: int| mean_spec(values.subrange(i, i + window), window),
    )
}

/// The exponentially smoothed value at every position.
pub open spec fn exponential_average_spec(alpha: Fixed, values: Seq<Fixed>) -> Seq<Fixed> {
    Seq::new(values.len(), |i: int| smoothed(alpha, values.take(i + 1)))
}

/// The relative change from each value to the next.
pub open spec fn percent_changes(values: Seq<Fixed>) -> Seq<Fixed> {
    if values.len() < 2 {
        Seq::empty()
    } else {
        Seq::new((values.len() - 1) as nat, |i: int| relative_change(values[i], values[i + 1]))
    }
}

/// The part of optional timestamps from `start` to `end`.
pub open spec fn timestamps_between(timestamps: Option<Vec<Timestamp>>, start: int, end: int) -> Option<
    Seq<Timestamp>,
> {
    match timestamps {
        Some(t) => Some(t@.subrange(start, end)),
        None => None,
    }
}

/// The timestamps of a series as a sequence.
pub open spec fn timestamps_of(ts: TimeSeries) -> Option<Seq<Timestamp>> {
    match ts.timestamps {
        Some(t) => Some(t@),
        None => None,
    }
}

impl TimeSeries {
    /// Create a new time series with just values.
    pub fn new(values: Vec<Fixed>) -> (ts: TimeSeries)
        ensures
            ts.values == values,
            ts.timestamps is None,
            ts.name is None,
    {
        TimeSeries { values, timestamps: None, name: None }
    }

    /// Create a time series with timestamps; there must be as many
    /// timestamps as values.
    pub fn with_timestamps(values: Vec<Fixed>, timestamps: Vec<Timestamp>) -> (r: Result<
        TimeSeries,
        TelemetryError,
    >)
        ensures
            match r {
                Ok(ts) => values.len() == timestamps.len() && ts.values == values
                    && ts.timestamps == Some(timestamps) && ts.name is None,
                Err(e) => values.len() != timestamps.len() && e is InvalidData,
            },
    {
        if values.len() != timestamps.len() {
            return Err(
                TelemetryError::InvalidData(
                    "Values and timestamps must have the same length".to_string(),
                ),
            );
        }
        Ok(TimeSeries { values, timestamps: Some(timestamps), name: None })
    }

    /// Set the name of the time series.
    pub fn with_name(self, name: String) -> (ts: TimeSeries)
        ensures
            ts.values == self.values,
            ts.timestamps == self.timestamps,
            ts.name == Some(name),
    {
        TimeSeries { values: self.values, timestamps: self.timestamps, name: Some(name) }
    }

    /// Get the length of the time series.
    pub fn len(&self) -> (n: usize)
        ensures
            n == self.values.len(),
    {
        self.values.len()
    }

    /// Check if the time series is empty.
    pub fn is_empty(&self) -> (b: bool)
        ensures
            b == (self.values.len() == 0),
    {
        self.values.len() == 0
    }

    /// Calculate simple moving average: one average for every run of
    /// `window` consecutive values.
    pub fn moving_average(&self, window: usize) -> (r: Result<Vec<Fixed>, TelemetryError>)
        ensures
            match r {
                Ok(v) => 0 < window <= self.values.len() && v@ == moving_average_spec(
                    self.values@,
                    window as int,
                ),
                Err(e) => if window == 0 {
                    e is InvalidParameter
                } else {
                    window > self.values.len() && e is InsufficientData
                },
            },
    {
        if window == 0 {
            return Err(
                TelemetryError::InvalidParameter("Window size must be greater than 0".to_string()),
            );
        }
        if window > self.values.len() {
            return Err(
                TelemetryError::InsufficientData(
                    window_too_large_message(window, self.values.len()),
                ),
            );
        }
        let last: usize = self.values.len() - window;
        let mut result: Vec<Fixed> = Vec::new();
        let mut i: usize = 0;
        while i <= last
            invariant
                i <= last + 1,
                last == self.values.len() - window,
                0 < window <= self.values.len(),
                result@.len() == i,
                forall|k: int|
                    0 <= k < i ==> result@[k] == mean_spec(
                        self.values@.subrange(k, k + window),
                        window as int,
                    ),
            decreases last + 1 - i,
        {
            result.push(mean_of_range(&self.values, i, i + window, window));
            i = i + 1;
        }
        assert(result@ =~= moving_average_spec(self.values@, window as int));
        Ok(result)
    }

    /// Calculate exponential moving average with a factor greater than 0
    /// and at most 1: the first value, then at each further value
    /// `alpha * value + (1 - alpha) * previous`.
    pub fn exponential_moving_average(&self, alpha: Fixed) -> (r: Result<Vec<Fixed>, TelemetryError>)
        ensures
            match r {
                Ok(v) => alpha.defined() && 0 < alpha.val() <= SCALE && self.values.len() > 0 && v@
                    == exponential_average_spec(alpha, self.values@),
                Err(e) => if !(alpha.defined() && 0 < alpha.val() <= SCALE) {
                    e is InvalidParameter
                } else {
                    self.values.len() == 0 && e is InsufficientData
                },
            },
    {
        if !(Fixed::from_nanos(0).lt(alpha) && alpha.le(Fixed::from_nanos(1_000_000_000))) {
            return Err(
                TelemetryError::InvalidParameter("Alpha must be between 0 and 1".to_string()),
            );
        }
        if self.is_empty() {
            return Err(
                TelemetryError::InsufficientData(
                    "Cannot calculate EMA on empty series".to_string(),
                ),
            );
        }
        let n: usize = self.values.len();
        let one = Fixed::from_nanos(1_000_000_000);
        let mut result: Vec<Fixed> = Vec::new();
        let mut value = self.values[0];
        result.push(value);
        let mut i: usize = 1;
        assert(self.values@.take(1).len() == 1);
        while i < n
            invariant
                1 <= i <= n,
                n == self.values.len(),
                one == fixed_of(SCALE as int),
                result@.len() == i,
                value == smoothed(alpha, self.values@.take(i as int)),
                forall|k: int|
                    0 <= k < i ==> result@[k] == smoothed(alpha, self.values@.take(k + 1)),
            decreases n - i,
        {
            proof {
                assert(self.values@.take(i + 1).drop_last() =~= self.values@.take(i as int));
            }
            value = alpha.mul(self.values[i]).add(one.sub(alpha).mul(value));
            result.push(value);
            i = i + 1;
        }
        assert(result@ =~= exponential_average_spec(alpha, self.values@));
        Ok(result)
    }

    /// Calculate first difference.
    pub fn diff(&self) -> (r: Vec<Fixed>)
        ensures
            r@ == differences(self.values@),
    {
        first_differences(&self.values)
    }

    /// Calculate percentage change: the change from each value to the
    /// next as a fraction of the first, zero where the first is zero.
    pub fn pct_change(&self) -> (r: Vec<Fixed>)
        ensures
            r@ == percent_changes(self.values@),
    {
        let n: usize = self.values.len();
        let mut r: Vec<Fixed> = Vec::new();
        if n < 2 {
            assert(r@ =~= percent_changes(self.values@));
            return r;
        }
        let mut i: usize = 0;
        while i < n - 1
            invariant
                n == self.values.len(),
                n >= 2,
                i <= n - 1,
                r@.len() == i,
                forall|k: int|
                    0 <= k < i ==> r@[k] == relative_change(self.values@[k], self.values@[k + 1]),
            decreases n - 1 - i,
        {
            r.push(change_between(self.values[i], self.values[i + 1]));
            i = i + 1;
        }
        assert(r@ =~= percent_changes(self.values@));
        r
    }

    /// Get a slice of the time series: the values, and the timestamps if
    /// any, from `start` up to but not including `end`, under the same
    /// name.
    pub fn slice(&self, start: usize, end: usize) -> (r: Result<TimeSeries, TelemetryError>)
        requires
            self.timestamps matches Some(t) ==> (start < end <= self.values.len() ==> end
                <= t.len()),
        ensures
            match r {
                Ok(ts) => {
                    &&& start < end <= self.values.len()
                    &&& ts.values@ == self.values@.subrange(start as int, end as int)
                    &&& timestamps_of(ts) == timestamps_between(
                        self.timestamps,
                        start as int,
                        end as int,
                    )
                    &&& ts.name == self.name
                },
                Err(e) => !(start < end <= self.values.len()) && e is InvalidParameter,
            },
    {
        if start >= end || end > self.values.len() {
            return Err(TelemetryError::InvalidParameter("Invalid slice indices".to_string()));
        }
        let values = copied_range(&self.values, start, end);
        let timestamps = match &self.timestamps {
            Some(all) => {
                let mut part: Vec<Timestamp> = Vec::new();
                let mut i: usize = start;
                while i < end
                    invariant
                        start <= i <= end <= all.len(),
                        part@.len() == i - start,
                        forall|k: int| 0 <= k < i - start ==> part@[k] == all@[start + k],
                    decreases end - i,
                {
                    part.push(all[i]);
                    i = i + 1;
                }
                assert(part@ =~= all@.subrange(start as int, end as int));
                Some(part)
            },
            None => None,
        };
        let name = match &self.name {
            Some(n) => Some(n.clone()),
            None => None,
        };
        Ok(TimeSeries { values, timestamps, name })
    }

    /// Calculate basic statistics.
    pub fn statistics(&self) -> (r: Statistics)
        ensures
            r == statistics_spec(self.values@),
    {
        Statistics::from_values(self.values.as_slice())
    }
}

/// Basic statistics for a time series.
#[derive(Debug, Clone, Copy)]
pub struct Statistics {
    pub mean: Fixed,
    pub median: Fixed,
    pub std_dev: Fixed,
    pub min: Fixed,
    pub max: Fixed,
    pub count: usize,
}

/// The median: the middle value in ascending order, or half the sum of
/// the two middle values. Undefined when a value is.
pub open spec fn median_spec(s: Seq<Fixed>) -> Fixed {
    let n = s.len() as int;
    if n % 2 == 0 {
        order_statistic(s, n / 2 - 1).add_spec(order_statistic(s, n / 2)).div_spec(
            fixed_of(2 * SCALE),
        )
    } else {
        order_statistic(s, n / 2)
    }
}

/// The statistics of a sequence of values; all zero for an empty one.
pub open spec fn statistics_spec(s: Seq<Fixed>) -> Statistics {
    if s.len() == 0 {
        Statistics {
            mean: fixed_of(0),
            median: fixed_of(0),
            std_dev: fixed_of(0),
            min: fixed_of(0),
            max: fixed_of(0),
            count: 0,
        }
    } else {
        Statistics {
            mean: mean_spec(s, s.len() as int),
            median: median_spec(s),
            std_dev: std_dev_spec(s),
            min: least(s),
            max: greatest(s),
            count: s.len() as usize,
        }
    }
}

impl Statistics {
    /// The statistics of `values`: mean, median, population standard
    /// deviation, least and greatest value, and their number.
    pub fn from_values(values: &[Fixed]) -> (r: Statistics)
        ensures
            r == statistics_spec(values@),
    {
        let values: Vec<Fixed> = slice_to_vec(values);
        let count: usize = values.len();
        if count == 0 {
            return Statistics {
                mean: Fixed::from_nanos(0),
                median: Fixed::from_nanos(0),
                std_dev: Fixed::from_nanos(0),
                min: Fixed::from_nanos(0),
                max: Fixed::from_nanos(0),
                count: 0,
            };
        }
        assert(values@.subrange(0, count as int) =~= values@);
        let mean = mean_of_range(&values, 0, count, count);
        let std_dev = std_dev_of_range(&values, 0, count);
        let ordered = sorted(&values);
        proof {
            lemma_ascending(values@);
        }

        // `mean` is defined exactly when every value is
        if !mean.is_defined() {
            assert(!all_defined(values@)) by {
                if all_defined(values@) {
                    crate::series::lemma_mean_defined(values@);
                }
            }
            let (min, max) = extremes_of_range(&values, 0, count);
            return Statistics { mean, median: Fixed::undefined(), std_dev, min, max, count };
        }
        let median = if count % 2 == 0 {
            ordered[count / 2 - 1].add(ordered[count / 2]).div(Fixed::from_nanos(2_000_000_000))
        } else {
            ordered[count / 2]
        };
        let (min, max) = extremes_of_range(&values, 0, count);
        Statistics { mean, median, std_dev, min, max, count }
    }
}

/// Text of the error for a window longer than the series, formatted by
/// `std::format!`; nothing is claimed of the text.
#[verifier::external_body]
fn window_too_large_message(window: usize, len: usize) -> String {
    format!("Window size {} is larger than data length {}", window, len)
}

} // verus!
