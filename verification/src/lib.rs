//! Incremental estimators over IEEE-754 binary64 arithmetic.

pub mod accuracy;
pub mod constants;
pub mod data;
pub mod double;
pub mod errors;
pub mod exact;
pub mod functions;
pub mod online;
pub mod quality;
pub mod rounding;
pub mod scaling;
pub mod streaming;
