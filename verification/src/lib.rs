//! Polynomial least-squares fitting over IEEE 754 binary64 numbers, carried
//! as their 64-bit encodings and computed with integer arithmetic only.
//!
//! `format` says what a word means, `rounding` what rounding to nearest is,
//! and `arith` gives the four operations, each proved to round the exact
//! result. `identities` collects the cases in which they are exact. On top
//! of them, `solver` solves dense linear systems by Gaussian elimination
//! with partial pivoting, `polynomial` evaluates polynomials, `fit` builds
//! and solves the ridge-regularised normal equations of a polynomial fit,
//! and `record` puts a fit and one evaluation together. `grid` keeps
//! matrices and vectors in `ndarray` arrays; `single` converts the binary32
//! samples.

pub mod arith;
pub mod fit;
pub mod format;
pub mod grid;
pub mod identities;
pub mod polynomial;
pub mod record;
pub mod rounding;
pub mod single;
pub mod solver;
