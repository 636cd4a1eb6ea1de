//! A small numerical optimization engine built on exact rational arithmetic:
//! a statically-dimensioned matrix/vector kernel, a regularized exact inverter,
//! a damped Gauss-Newton / Levenberg-Marquardt step with backtracking line
//! search, and a recursive flow-based approximate inverse.
//!
//! Every scalar is a rational number held in lowest terms, so the arithmetic
//! is exact; an operation whose reduced result does not fit in 64 bits reports
//! `Overflow` instead of silently losing precision.

pub mod approx;
pub mod gauss_newton;
pub mod laws;
pub mod matrix;
pub mod rat;
