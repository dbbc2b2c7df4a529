//! Online estimators of the first four moments of a population of binary64
//! numbers, with the arithmetic they run on.
//!
//! Every number is an IEEE 754 binary64 value held as its bit pattern, and
//! every operation on it is integer code whose result is stated, bit for bit,
//! by a spec function. The formulas of the estimators are stated over any
//! arithmetic: in binary64 they are what the estimators compute, and in exact
//! arithmetic they are proved to give the moments themselves.

pub mod binary64;
pub mod moments;

pub use crate::binary64::format::Binary64;
pub use crate::moments::kurtosis::Kurtosis;
pub use crate::moments::mean::Mean;
pub use crate::moments::skewness::Skewness;
pub use crate::moments::variance::Variance;
