//! Integer powers of a number, and the value of a polynomial at a point.

use crate::arith::{plus, product, sum, times};
use crate::format::{is_finite, is_nan, lemma_units_zero, NEGATIVE_ZERO, ONE, ZERO};
use crate::identities::{
    lemma_product_by_one, lemma_product_by_zero, lemma_sum_with_zero, lemma_units_one,
};
use vstd::prelude::*;

verus! {

/// `acc * base^exponent` by squaring: the lowest bit of the exponent says
/// whether the base goes into the product, then the base is squared for the
/// next bit. Every product is rounded.
pub open spec fn raised(acc: u64, base: u64, exponent: nat) -> u64
    decreases exponent,
{
    let taken = if exponent % 2 == 1 {
        product(acc, base)
    } else {
        acc
    };
    if exponent / 2 == 0 {
        taken
    } else {
        raised(taken, product(base, base), exponent / 2)
    }
}

/// `x^exponent` by squaring; `x^0` is 1 for every `x`.
pub open spec fn power(x: u64, exponent: nat) -> u64 {
    raised(ONE, x, exponent)
}

/// The sum of the terms `coeffs[i] * x^i` for `i` below `upto`, added in
/// that order to -0, which leaves the first term as it is.
pub open spec fn evaluated(coeffs: Seq<u64>, x: u64, upto: int) -> u64
    decreases upto,
{
    if upto <= 0 {
        NEGATIVE_ZERO
    } else {
        sum(
            evaluated(coeffs, x, upto - 1),
            product(coeffs[upto - 1], power(x, (upto - 1) as nat)),
        )
    }
}

/// The power 0 of any word is 1, and the power 1 of a number is the number.
pub proof fn lemma_low_powers(x: u64)
    ensures
        power(x, 0) == ONE,
        !is_nan(x) ==> power(x, 1) == x,
        power(x, 2) == product(ONE, product(x, x)),
{
    if !is_nan(x) {
        lemma_product_by_one(x);
    }
    assert(power(x, 2) == raised(ONE, product(x, x), 1)) by {
        assert(2nat / 2 == 1 && 2nat % 2 == 0);
    }
}

/// The polynomial with the coefficients 1, 0, 0 has the value 1 wherever the
/// square of the point is finite. (Where it is not, zero times the square
/// is not a number, and neither is the value.)
pub proof fn lemma_constant_one(x: u64)
    requires
        is_finite(product(x, x)),
    ensures
        evaluated(seq![ONE, ZERO, ZERO], x, 3) == ONE,
{
    let coeffs = seq![ONE, ZERO, ZERO];
    lemma_low_powers(x);
    lemma_units_one();
    lemma_product_by_one(ONE);
    lemma_product_by_one(x);
    lemma_product_by_one(product(x, x));
    let constant = product(coeffs[0], power(x, 0));
    let linear = product(coeffs[1], power(x, 1));
    let square = product(coeffs[2], power(x, 2));
    assert(constant == ONE);
    lemma_product_by_zero(ZERO, x);
    lemma_product_by_zero(ZERO, product(x, x));
    lemma_sum_with_zero(ONE, NEGATIVE_ZERO);
    lemma_sum_with_zero(ONE, linear);
    lemma_sum_with_zero(ONE, square);
    assert(evaluated(coeffs, x, 0) == NEGATIVE_ZERO);
    assert(evaluated(coeffs, x, 1) == sum(NEGATIVE_ZERO, constant));
    assert(evaluated(coeffs, x, 2) == sum(evaluated(coeffs, x, 1), linear));
    assert(evaluated(coeffs, x, 3) == sum(evaluated(coeffs, x, 2), square));
}

/// The polynomial with the coefficients 0, 1 has at every point the value of
/// the point, except at -0, where the sum of +0 and -0 is +0, and where the
/// point is not a number.
pub proof fn lemma_identity(x: u64)
    requires
        !is_nan(x),
        x != NEGATIVE_ZERO,
    ensures
        evaluated(seq![ZERO, ONE], x, 2) == x,
{
    let coeffs = seq![ZERO, ONE];
    lemma_low_powers(x);
    lemma_units_one();
    lemma_product_by_one(x);
    lemma_product_by_zero(ZERO, ONE);
    let constant = product(coeffs[0], power(x, 0));
    let linear = product(coeffs[1], power(x, 1));
    assert(constant == ZERO);
    assert(linear == x);
    assert(evaluated(coeffs, x, 0) == NEGATIVE_ZERO);
    assert(evaluated(coeffs, x, 1) == sum(NEGATIVE_ZERO, constant));
    assert(evaluated(coeffs, x, 1) == ZERO);
    assert(evaluated(coeffs, x, 2) == sum(ZERO, linear));
    if is_finite(x) && x != ZERO {
        lemma_sum_with_zero(x, ZERO);
    } else if x == ZERO {
        lemma_units_zero();
    }
}

/// Raises a number to a whole power.
pub fn powi(x: u64, exponent: usize) -> (r: u64)
    ensures
        r == power(x, exponent as nat),
{
    let mut acc: u64 = ONE;
    let mut base: u64 = x;
    let mut left: usize = exponent;
    loop
        invariant
            raised(acc, base, left as nat) == power(x, exponent as nat),
        decreases left,
    {
        if left % 2 == 1 {
            acc = times(acc, base);
        }
        left = left / 2;
        if left == 0 {
            return acc;
        }
        base = times(base, base);
    }
}

/// The value at `x` of the polynomial whose coefficient of `x^i` is
/// `coeffs[i]`, each term computed by itself and the terms added from the
/// constant one up.
pub fn evaluate_polynomial(coeffs: &[u64], x: u64) -> (y: u64)
    ensures
        y == evaluated(coeffs@, x, coeffs@.len() as int),
{
    let mut y: u64 = NEGATIVE_ZERO;
    let mut i: usize = 0;
    while i < coeffs.len()
        invariant
            0 <= i <= coeffs@.len(),
            y == evaluated(coeffs@, x, i as int),
        decreases coeffs@.len() - i,
    {
        y = plus(y, times(coeffs[i], powi(x, i)));
        i = i + 1;
    }
    y
}

} // verus!
