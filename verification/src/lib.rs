//! Univariate polynomials over a small prime coefficient field, as used by a
//! sum-check prover: interpolation from evaluations at the canonical points
//! `0..n-1`, evaluation, exact long division, a hint-based compression scheme
//! that drops the linear coefficient, and an order-sensitive transcript
//! appender.

pub mod field;
pub mod poly;
pub mod solver;
pub mod transcript;
