//! The result of a fit: the coefficients, a query point and the value of the
//! fitted polynomial there.

use crate::fit::{fit_polynomial, fitted, FitError};
use crate::grid::{fits, shape_fits};
use crate::polynomial::{evaluate_polynomial, evaluated};
use vstd::prelude::*;

verus! {

/// Coefficients, lowest power first, with one point and the value there.
#[derive(Debug)]
pub struct CircomInput {
    pub coeffs: Vec<u64>,
    pub x: u64,
    pub y: u64,
}

/// Fits a polynomial to the samples, which are binary32 words, and
/// evaluates it at `x`, a binary64 word.
///
/// The coefficients belong to positions scaled to the interval from 0 to 1,
/// while `x` is taken as it is given: it is not scaled before the polynomial
/// is evaluated.
pub fn fit_and_evaluate(samples: &[u32], degree: usize, x: u64) -> (r: Result<
    CircomInput,
    FitError,
>)
    requires
        fits(samples@.len(), (degree + 1) as nat),
        fits((degree + 1) as nat, (degree + 1) as nat),
    ensures
        samples@.len() == 0 ==> r is Err && r->Err_0 == FitError::EmptyInput,
        samples@.len() > 0 ==> match fitted(samples@, degree as nat) {
            Some(c) => r is Ok && r->Ok_0.coeffs@ == c && r->Ok_0.x == x && r->Ok_0.y
                == evaluated(c, x, c.len() as int),
            None => r is Err && r->Err_0 == FitError::SingularMatrix,
        },
{
    match fit_polynomial(samples, degree) {
        Ok(coeffs) => {
            let y = evaluate_polynomial(coeffs.as_slice(), x);
            Ok(CircomInput { coeffs, x, y })
        },
        Err(e) => Err(e),
    }
}

/// The matrices of a fit of this many samples and this degree can be
/// allocated.
pub open spec fn fit_fits(samples: nat, degree: nat) -> bool {
    fits(samples, degree + 1) && fits(degree + 1, degree + 1)
}

/// Fits and evaluates as `fit_and_evaluate` does, for any input: `None`
/// where the matrices of the fit would not fit in memory.
pub fn try_fit_and_evaluate(samples: &[u32], degree: usize, x: u64) -> (r: Option<
    Result<CircomInput, FitError>,
>)
    ensures
        r is Some <==> fit_fits(samples@.len(), degree as nat),
        r is Some && samples@.len() == 0 ==> r->Some_0 is Err && r->Some_0->Err_0
            == FitError::EmptyInput,
        r is Some && samples@.len() > 0 ==> match fitted(samples@, degree as nat) {
            Some(c) => r->Some_0 is Ok && r->Some_0->Ok_0.coeffs@ == c && r->Some_0->Ok_0.x == x
                && r->Some_0->Ok_0.y == evaluated(c, x, c.len() as int),
            None => r->Some_0 is Err && r->Some_0->Err_0 == FitError::SingularMatrix,
        },
{
    if degree == usize::MAX {
        return None;
    }
    if shape_fits(samples.len(), degree + 1) && shape_fits(degree + 1, degree + 1) {
        Some(fit_and_evaluate(samples, degree, x))
    } else {
        None
    }
}

} // verus!
