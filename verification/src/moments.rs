//! The estimators: each owns the one before it and adds one power sum.

pub mod arithmetic;
pub mod mean;
pub mod variance;
pub mod skewness;
pub mod kurtosis;
pub mod laws;
pub mod constant;
pub mod exact;
