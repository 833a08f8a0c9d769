//! An algebra of completion-time distributions for composable outcomes:
//! operations that succeed after some random delay.
//!
//! The distribution engine (`cdf`) holds an immutable cumulative distribution
//! function discretized into fixed-width time bins of 16-bit fixed-point
//! probabilities, with validated construction, four combinators — weighted
//! mixture, independent conjunction and disjunction, and convolution for
//! sequential composition — and a stochastic-dominance partial order. The
//! expression model (`delta_q`) is a tree of named references, literal
//! distributions and the four composition operators, with a recursive
//! evaluator and the algebra's symbolic display form.
//!
//! Every real-valued input — bin values, bin sizes, mixture fractions, choice
//! weights — is an exact rational or decimal (`frac`), so each operation
//! carries a precise mathematical contract, the fixed-point arithmetic is
//! proved free of overflow or reports it, and every distribution the library
//! hands out is provably a CDF.

pub mod cdf;
pub mod delta_q;
pub mod frac;
pub mod text;

pub use cdf::{CDFError, CDF};
pub use delta_q::DeltaQ;
pub use frac::{Frac, Weight};
