//! Time series analysis for telemetry data: descriptive statistics,
//! smoothing, anomaly detection, seasonal decomposition, feature extraction
//! and short-horizon forecasting.
//!
//! All numbers are fixed-point values with nine decimal places (see
//! [`fixed::Fixed`]); a value that cannot be computed is *undefined* rather
//! than an error, and undefinedness propagates through arithmetic.

use vstd::prelude::*;

pub mod anomaly;
pub mod decomposition;
pub mod features;
pub mod fixed;
pub mod forecasting;
pub mod models;
pub mod ranking;
pub mod series;
pub mod time_series;

pub use anomaly::{AnomalyDetector, AnomalyType};
pub use decomposition::{Decomposer, DecompositionType};
pub use features::FeatureExtractor;
pub use fixed::Fixed;
pub use forecasting::{ExponentialSmoothing, ForecastResult, Forecaster, MovingAverageForecaster};
pub use time_series::TimeSeries;

verus! {

/// Common error type for the library.
#[derive(Debug)]
pub enum TelemetryError {
    /// Invalid input data
    InvalidData(String),
    /// Insufficient data points
    InsufficientData(String),
    /// Model fitting error
    ModelError(String),
    /// Invalid parameter
    InvalidParameter(String),
}

impl TelemetryError {
    /// The message that the error carries.
    pub open spec fn message_spec(self) -> Seq<char> {
        match self {
            TelemetryError::InvalidData(msg) => msg@,
            TelemetryError::InsufficientData(msg) => msg@,
            TelemetryError::ModelError(msg) => msg@,
            TelemetryError::InvalidParameter(msg) => msg@,
        }
    }

    /// The words that name the kind of the error.
    pub open spec fn prefix_spec(self) -> Seq<char> {
        match self {
            TelemetryError::InvalidData(_) => "Invalid data: "@,
            TelemetryError::InsufficientData(_) => "Insufficient data: "@,
            TelemetryError::ModelError(_) => "Model error: "@,
            TelemetryError::InvalidParameter(_) => "Invalid parameter: "@,
        }
    }

    /// The error as text: the kind, then the message.
    pub fn to_string(&self) -> (text: String)
        ensures
            text@ == self.prefix_spec() + self.message_spec(),
    {
        match self {
            TelemetryError::InvalidData(msg) => String::from_str("Invalid data: ").concat(
                msg.as_str(),
            ),
            TelemetryError::InsufficientData(msg) => String::from_str(
                "Insufficient data: ",
            ).concat(msg.as_str()),
            TelemetryError::ModelError(msg) => String::from_str("Model error: ").concat(
                msg.as_str(),
            ),
            TelemetryError::InvalidParameter(msg) => String::from_str(
                "Invalid parameter: ",
            ).concat(msg.as_str()),
        }
    }
}

} // verus!
