//! Statistical models for time series.

pub mod arima;

// Re-export commonly used types
pub use arima::ARIMA;
