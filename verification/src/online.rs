//! Transactional streaming statistics and recursive least squares.

pub mod accumulator;
pub mod autocorrelation;
pub mod common;
pub mod exponentially_weighted;
pub mod least_squares;
pub mod linear_regression;
pub mod mean_accuracy;
pub mod moment_accuracy;
pub mod moments;
pub mod score_accuracy;
pub mod spread;
pub mod variance_threshold;
pub mod weighted_accuracy;
