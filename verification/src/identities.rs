//! Cases in which rounded arithmetic is exact, and the order that it keeps.

use crate::arith::{difference, negated, of_nat, product, quotient, sum};
use crate::format::{
    is_finite, is_nan, is_negative, is_zero, lemma_units_of_pattern, lemma_units_order,
    lemma_units_zero, magnitude, signed_units, units, with_sign, HIDDEN, INFINITE,
    NEGATIVE_ZERO, ONE, ZERO,
};
use crate::rounding::{
    lemma_pow2_below, lemma_rounded_exact, lemma_rounded_is_pattern, lemma_rounded_monotone,
    rounded,
};
use vstd::arithmetic::power2::*;
use vstd::prelude::*;

verus! {

/// The number 1 is 2^1074 units.
pub proof fn lemma_units_one()
    ensures
        units(ONE as nat) == pow2(1074),
        magnitude(ONE) == ONE,
        !is_negative(ONE),
{
    lemma_units_of_pattern(1022, HIDDEN as nat);
    assert(1022 * (HIDDEN as nat) + HIDDEN == ONE);
    lemma_pow2_below(0, 0);
    lemma_pow2_adds(52, 1022);
}

/// A word is its sign and its magnitude put together.
pub proof fn lemma_with_sign_of_parts(a: u64)
    ensures
        with_sign(is_negative(a), magnitude(a)) == a,
{
}

/// Whole numbers that a machine word holds convert to finite numbers that
/// are not negative: 0 to +0, all others to at least 1.
pub proof fn lemma_of_nat(n: nat)
    requires
        n <= u64::MAX,
    ensures
        is_finite(of_nat(n)),
        !is_negative(of_nat(n)),
        of_nat(n) == rounded(n * pow2(1074), 1),
        n == 0 ==> of_nat(n) == ZERO,
        n >= 1 ==> of_nat(n) >= ONE,
{
    let c = pow2(1074);
    let top = (1086 * (HIDDEN as nat) + HIDDEN) as nat;
    lemma_pow2_pos(1074);
    lemma_pow2_below(0, 0);
    lemma_units_one();
    // 2^64 is the value of a finite pattern.
    lemma_units_of_pattern(1086, HIDDEN as nat);
    lemma_pow2_adds(52, 1086);
    lemma_pow2_adds(64, 1074);
    assert(units(top) == pow2(64) * c);
    assert((n * c) * 1 <= (units(top) * 1) * 1) by (nonlinear_arith)
        requires
            n <= pow2(64),
            units(top) == pow2(64) * c,
            c > 0,
    ;
    lemma_rounded_monotone(n * c, 1, units(top) * 1, 1);
    lemma_rounded_exact(top, units(top) * 1, 1);
    if n == 0 {
        lemma_units_zero();
        assert(0 * c == 0) by (nonlinear_arith);
        assert(units(0) * 1 == 0);
        lemma_rounded_exact(0, 0, 1);
    } else {
        assert((c * 1) * 1 <= (n * c) * 1) by (nonlinear_arith)
            requires
                n >= 1,
                c > 0,
        ;
        lemma_rounded_monotone(c * 1, 1, n * c, 1);
        lemma_rounded_exact(ONE as nat, c * 1, 1);
    }
}

/// A larger whole number does not convert to a smaller number.
pub proof fn lemma_of_nat_monotone(i: nat, n: nat)
    requires
        i <= n <= u64::MAX,
    ensures
        of_nat(i) <= of_nat(n),
{
    let c = pow2(1074);
    lemma_pow2_pos(1074);
    lemma_of_nat(i);
    lemma_of_nat(n);
    assert((i * c) * 1 <= (n * c) * 1) by (nonlinear_arith)
        requires
            i <= n,
            c > 0,
    ;
    lemma_rounded_monotone(i * c, 1, n * c, 1);
}

/// Taking +0 away from a finite number that is not negative leaves it as it
/// is.
pub proof fn lemma_difference_with_zero(a: u64)
    requires
        is_finite(a),
        !is_negative(a),
    ensures
        difference(a, ZERO) == a,
{
    lemma_units_zero();
    lemma_units_order(0, a as nat);
    assert(negated(ZERO) == NEGATIVE_ZERO);
    assert(signed_units(NEGATIVE_ZERO) == 0);
    if a != 0 {
        assert(units(a as nat) * 1 == units(a as nat)) by (nonlinear_arith);
        lemma_rounded_exact(a as nat, units(a as nat), 1);
    }
}

/// Adding a zero to a finite number that is not zero leaves it as it is.
pub proof fn lemma_sum_with_zero(a: u64, z: u64)
    requires
        is_finite(a),
        !is_zero(a),
        is_zero(z),
    ensures
        sum(a, z) == a,
        sum(z, a) == a,
{
    let m = magnitude(a);
    lemma_units_zero();
    lemma_units_order(0, m);
    assert(units(m) * 1 == units(m)) by (nonlinear_arith);
    lemma_rounded_exact(m, units(m), 1);
    lemma_with_sign_of_parts(a);
}

/// 1 times a number is that number, unless it is not a number.
pub proof fn lemma_product_by_one(a: u64)
    requires
        !is_nan(a),
    ensures
        product(ONE, a) == a,
        product(a, ONE) == a,
{
    lemma_units_one();
    lemma_with_sign_of_parts(a);
    if is_finite(a) {
        let m = magnitude(a);
        let c = pow2(1074);
        lemma_pow2_pos(1074);
        assert(c * units(m) == units(m) * c) by (nonlinear_arith);
        lemma_rounded_exact(m, units(m) * c, c);
    }
}

/// Zero times a finite number is a zero, negative where one factor only is.
pub proof fn lemma_product_by_zero(z: u64, a: u64)
    requires
        is_zero(z),
        is_finite(a),
    ensures
        is_zero(product(z, a)),
        is_zero(product(a, z)),
        product(z, a) == with_sign(is_negative(z) != is_negative(a), 0),
        product(a, z) == product(z, a),
{
    let c = pow2(1074);
    lemma_pow2_pos(1074);
    lemma_units_zero();
    assert(0 * units(magnitude(a)) == 0 && units(magnitude(a)) * 0 == 0) by (nonlinear_arith);
    assert(units(0) * c == 0) by (nonlinear_arith)
        requires
            units(0) == 0,
    ;
    lemma_rounded_exact(0, 0, c);
}

/// Among finite numbers that are not negative, with a divisor that is not
/// zero: zero divided is +0, a number divided by itself is 1, and a number
/// divided by one that is not smaller is at most 1.
pub proof fn lemma_quotient_within_one(a: u64, b: u64)
    requires
        is_finite(a),
        is_finite(b),
        !is_negative(a),
        !is_negative(b),
        !is_zero(b),
        a <= b,
    ensures
        ZERO <= quotient(a, b) <= ONE,
        a == 0 ==> quotient(a, b) == ZERO,
        a == b ==> quotient(a, b) == ONE,
{
    let c = pow2(1074);
    let ua = units(a as nat);
    let ub = units(b as nat);
    lemma_pow2_pos(1074);
    lemma_units_zero();
    lemma_units_one();
    lemma_units_order(0, b as nat);
    lemma_units_order(a as nat, b as nat);
    assert((ua * c) * ub <= (ub * c) * ub) by (nonlinear_arith)
        requires
            ua <= ub,
            c > 0,
            ub > 0,
    ;
    lemma_rounded_monotone(ua * c, ub, ub * c, ub);
    assert(ub * c == units(ONE as nat) * ub) by (nonlinear_arith)
        requires
            units(ONE as nat) == c,
    ;
    lemma_rounded_exact(ONE as nat, ub * c, ub);
    lemma_rounded_is_pattern(ua * c, ub);
    if a == 0 {
        assert(0 * c == 0) by (nonlinear_arith);
        assert(units(0) * ub == 0) by (nonlinear_arith)
            requires
                units(0) == 0,
        ;
        lemma_rounded_exact(0, 0, ub);
    }
}

/// A product does not depend on the order of its factors.
pub proof fn lemma_product_commutes(a: u64, b: u64)
    ensures
        product(a, b) == product(b, a),
{
    let ua = units(magnitude(a));
    let ub = units(magnitude(b));
    assert(ua * ub == ub * ua) by (nonlinear_arith);
}

/// A number, or +infinity, that is not negative.
pub open spec fn is_nonnegative(a: u64) -> bool {
    a <= INFINITE
}

/// The sum of two numbers that are not negative is not negative, and is not
/// smaller than the second where that is finite.
pub proof fn lemma_sum_of_nonnegatives(a: u64, b: u64)
    requires
        is_nonnegative(a),
        is_nonnegative(b),
    ensures
        is_nonnegative(sum(a, b)),
        is_finite(b) ==> sum(a, b) >= b,
{
    if is_finite(a) && is_finite(b) {
        let ua = units(a as nat);
        let ub = units(b as nat);
        let total = ua + ub;
        lemma_units_zero();
        lemma_units_order(0, a as nat);
        lemma_units_order(0, b as nat);
        if total > 0 {
            lemma_rounded_is_pattern(total, 1);
            assert((ub * 1) * 1 <= total * 1) by (nonlinear_arith)
                requires
                    ub <= total,
            ;
            lemma_rounded_monotone(ub * 1, 1, total, 1);
            lemma_rounded_exact(b as nat, ub * 1, 1);
        }
    }
}

/// Adding 1 times a word adds the word: where the word is not a number,
/// neither sum is.
pub proof fn lemma_sum_of_unit_multiple(acc: u64, a: u64)
    ensures
        sum(acc, product(ONE, a)) == sum(acc, a),
{
    if !is_nan(a) {
        lemma_product_by_one(a);
    } else {
        lemma_units_one();
    }
}

} // verus!
