//! Transfer entropy between discretized time series: the integer core.
//!
//! The library counts how often binned states of two series occur together,
//! builds the joint and marginal count tables that a histogram-based transfer
//! entropy estimate is computed from, and provides the seeded permutation and
//! the rank statistic of a shuffle-based significance test.
//!
//! - [`counting`]: counts and finite sums over index ranges, with their laws.
//! - [`estimator`]: bins and the joint histogram of two binned series.
//! - [`entropy`]: the count tables of TE(Y→X), and conditional TE.
//! - [`marginals`]: how the tables relate (marginal sums, totals, bounds).
//! - [`term_laws`]: what the terms of the estimate are in terms of the series.
//! - [`significance`]: the seeded shuffle and the p-value counts.

pub mod counting;
pub mod entropy;
pub mod estimator;
pub mod marginals;
pub mod significance;
pub mod term_laws;

pub use entropy::{ConditionalTE, CountTables, TeTerm, TransferEntropy};
pub use estimator::ProbabilityEstimator;
pub use significance::SignificanceTest;
