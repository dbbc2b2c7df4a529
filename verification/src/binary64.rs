//! IEEE 754 binary64 arithmetic on bit patterns, rounding to nearest with ties
//! to even.

pub mod format;
pub mod powers;
pub mod rounding;
pub mod arith;
pub mod root;
pub mod facts;
