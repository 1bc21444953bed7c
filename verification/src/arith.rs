//! Sum, difference, product and quotient of binary64 numbers, each rounded
//! to nearest with ties to even, as IEEE 754 defines them.
//!
//! Each operation is stated over the exact values of its operands, counted
//! in units of 2^-1074, and computed on significands and exponents with
//! integer arithmetic. An operation without a result (infinity less
//! infinity, zero times infinity, zero by zero, infinity by infinity, or any
//! operand that is not a number) gives the one word `NOT_A_NUMBER`, whatever
//! the operands held.

use crate::format::{
    is_finite, is_infinite, is_nan, is_negative, is_zero, join, lemma_units_order,
    lemma_units_zero, magnitude,
    parts, signed_units, split, units, with_sign, HIDDEN, INFINITE, NOT_A_NUMBER, SIGN,
};
use crate::rounding::{
    lemma_packed_is_rounded, lemma_pow2_below, lemma_rounded_exact, pack, power_of_two, rounded,
    widen,
};
use vstd::arithmetic::div_mod::{
    lemma_basic_div, lemma_div_is_ordered_by_denominator, lemma_fundamental_div_mod,
    lemma_small_mod,
};
use vstd::arithmetic::power2::*;
use vstd::prelude::*;

verus! {

/// The number with the other sign.
pub open spec fn negated(a: u64) -> u64 {
    if a >= SIGN {
        (a - SIGN) as u64
    } else {
        (a + SIGN) as u64
    }
}

/// The word for a finite, exactly known sum of `total` units. A zero sum is
/// negative only where both terms were.
pub open spec fn of_signed_units(total: int, both_negative: bool) -> u64 {
    if total == 0 {
        with_sign(both_negative, 0)
    } else if total > 0 {
        with_sign(false, rounded(total as nat, 1))
    } else {
        with_sign(true, rounded((-total) as nat, 1))
    }
}

/// `a + b`, rounded. Infinities of opposite sign have no sum.
pub open spec fn sum(a: u64, b: u64) -> u64 {
    if is_nan(a) || is_nan(b) {
        NOT_A_NUMBER
    } else if is_infinite(a) {
        if is_infinite(b) && is_negative(a) != is_negative(b) {
            NOT_A_NUMBER
        } else {
            a
        }
    } else if is_infinite(b) {
        b
    } else {
        of_signed_units(signed_units(a) + signed_units(b), is_negative(a) && is_negative(b))
    }
}

/// `a - b`, rounded: the sum of `a` and the negated `b`.
pub open spec fn difference(a: u64, b: u64) -> u64 {
    sum(a, negated(b))
}

/// `a * b`, rounded. Zero times infinity has no product.
pub open spec fn product(a: u64, b: u64) -> u64 {
    let negative = is_negative(a) != is_negative(b);
    if is_nan(a) || is_nan(b) {
        NOT_A_NUMBER
    } else if is_infinite(a) || is_infinite(b) {
        if is_zero(a) || is_zero(b) {
            NOT_A_NUMBER
        } else {
            with_sign(negative, INFINITE as nat)
        }
    } else {
        with_sign(negative, rounded(units(magnitude(a)) * units(magnitude(b)), pow2(1074)))
    }
}

/// `a / b`, rounded. Zero by zero and infinity by infinity have no quotient;
/// another number by zero gives infinity.
pub open spec fn quotient(a: u64, b: u64) -> u64 {
    let negative = is_negative(a) != is_negative(b);
    if is_nan(a) || is_nan(b) {
        NOT_A_NUMBER
    } else if is_infinite(a) {
        if is_infinite(b) {
            NOT_A_NUMBER
        } else {
            with_sign(negative, INFINITE as nat)
        }
    } else if is_infinite(b) {
        with_sign(negative, 0)
    } else if is_zero(b) {
        if is_zero(a) {
            NOT_A_NUMBER
        } else {
            with_sign(negative, INFINITE as nat)
        }
    } else {
        with_sign(negative, rounded(units(magnitude(a)) * pow2(1074), units(magnitude(b))))
    }
}

/// The number nearest to the whole number `n`.
pub open spec fn of_nat(n: nat) -> u64 {
    rounded(n * pow2(1074), 1) as u64
}

/// `|a| > |b|` as numbers: false where either is not a number.
pub open spec fn outweighs(a: u64, b: u64) -> bool {
    !is_nan(a) && !is_nan(b) && units(magnitude(a)) > units(magnitude(b))
}

/// Negates a number.
pub fn negate(a: u64) -> (r: u64)
    ensures
        r == negated(a),
{
    if a >= SIGN {
        a - SIGN
    } else {
        a + SIGN
    }
}

/// Whether `a` is +0 or -0.
pub fn equals_zero(a: u64) -> (r: bool)
    ensures
        r == is_zero(a),
{
    a == 0 || a == SIGN
}

/// Whether `|a| > |b|`.
pub fn is_larger(a: u64, b: u64) -> (r: bool)
    ensures
        r == outweighs(a, b),
{
    let (_, pa) = split(a);
    let (_, pb) = split(b);
    proof {
        lemma_units_order(pa as nat, pb as nat);
    }
    pa <= INFINITE && pb <= INFINITE && pa > pb
}

/// Multiplies two numbers.
pub fn times(a: u64, b: u64) -> (r: u64)
    ensures
        r == product(a, b),
{
    let (na, pa) = split(a);
    let (nb, pb) = split(b);
    let negative = na != nb;
    if pa > INFINITE || pb > INFINITE {
        return NOT_A_NUMBER;
    }
    if pa == INFINITE || pb == INFINITE {
        if pa == 0 || pb == 0 {
            return NOT_A_NUMBER;
        }
        return join(negative, INFINITE);
    }
    let (sa, ea) = parts(pa);
    let (sb, eb) = parts(pb);
    let ghost den = pow2(1074);
    let ghost num = units(pa as nat) * units(pb as nat);
    proof {
        lemma_pow2_pos(1074);
    }
    if sa == 0 || sb == 0 {
        proof {
            lemma_units_zero();
            assert(num == 0) by (nonlinear_arith)
                requires
                    num == units(pa as nat) * units(pb as nat),
                    units(pa as nat) == 0 || units(pb as nat) == 0,
            ;
            lemma_units_zero();
            assert(units(0) * den == 0);
            lemma_rounded_exact(0, 0, den);
        }
        return join(negative, 0);
    }
    proof {
        assert(1 <= sa * sb < 0x400_0000_0000_0000_0000_0000_0000) by (nonlinear_arith)
            requires
                1 <= sa < 0x20_0000_0000_0000,
                1 <= sb < 0x20_0000_0000_0000,
        ;
    }
    let wide: u128 = (sa as u128) * (sb as u128);
    let (sig, doubled) = widen(wide);
    let scale: i64 = ea as i64 + eb as i64 - 1074 - doubled as i64;
    let pattern = pack(sig, scale, false);
    proof {
        let x = pow2(ea as nat) as int;
        let y = pow2(eb as nat) as int;
        let k = pow2(doubled as nat) as int;
        let c = den as int;
        lemma_pow2_adds(ea as nat, eb as nat);
        lemma_pow2_adds(1074, doubled as nat);
        assert(((sa * x) * (sb * y)) * (c * k) == (((sa * sb) * k) * (x * y)) * c)
            by (nonlinear_arith);
        lemma_packed_is_rounded(
            num,
            den,
            sig as nat,
            (ea + eb) as nat,
            (1074 + doubled) as nat,
            false,
        );
    }
    join(negative, pattern)
}

/// Divides one number by another.
pub fn over(a: u64, b: u64) -> (r: u64)
    ensures
        r == quotient(a, b),
{
    let (na, pa) = split(a);
    let (nb, pb) = split(b);
    let negative = na != nb;
    if pa > INFINITE || pb > INFINITE {
        return NOT_A_NUMBER;
    }
    if pa == INFINITE {
        if pb == INFINITE {
            return NOT_A_NUMBER;
        }
        return join(negative, INFINITE);
    }
    if pb == INFINITE {
        return join(negative, 0);
    }
    if pb == 0 {
        if pa == 0 {
            return NOT_A_NUMBER;
        }
        return join(negative, INFINITE);
    }
    let (sa, ea) = parts(pa);
    let (sb, eb) = parts(pb);
    let ghost num = units(pa as nat) * pow2(1074);
    let ghost den = units(pb as nat);
    proof {
        lemma_pow2_pos(1074);
        lemma_pow2_pos(eb as nat);
        assert(den > 0) by (nonlinear_arith)
            requires
                den == sb * pow2(eb as nat),
                sb > 0,
                pow2(eb as nat) > 0,
        ;
    }
    if sa == 0 {
        proof {
            lemma_units_zero();
            assert(num == 0) by (nonlinear_arith)
                requires
                    num == units(pa as nat) * pow2(1074),
                    units(pa as nat) == 0,
            ;
            lemma_units_zero();
            assert(units(0) * den == 0);
            lemma_rounded_exact(0, 0, den);
        }
        return join(negative, 0);
    }
    let (top, doubled) = widen(sa as u128);
    proof {
        lemma_pow2_below(0, 0);
        assert(sa * 1 == sa) by (nonlinear_arith);
        assert(top < 0x1_0000_0000_0000_0000);
    }
    let dividend: u128 = top * 0x20_0000_0000_0000;
    let sig: u128 = dividend / (sb as u128);
    let rest: u128 = dividend % (sb as u128);
    let sticky = rest != 0;
    let scale: i64 = ea as i64 + 1074 - doubled as i64 - 53 - eb as i64;
    proof {
        lemma_div_is_ordered_by_denominator(dividend as int, sb as int, 0x20_0000_0000_0000);
        lemma_fundamental_div_mod(dividend as int, sb as int);
    }
    let pattern = pack(sig, scale, sticky);
    proof {
        let x = pow2(ea as nat) as int;
        let y = pow2(eb as nat) as int;
        let k = pow2(doubled as nat) as int;
        let c = pow2(1074) as int;
        let t = 0x20_0000_0000_0000int;
        lemma_pow2_adds(ea as nat, 1074);
        lemma_pow2_adds(doubled as nat, 53);
        lemma_pow2_adds((doubled + 53) as nat, eb as nat);
        lemma_pow2_pos(ea as nat);
        lemma_pow2_pos(doubled as nat);
        let raise = (ea + 1074) as nat;
        let lower = (doubled + 53 + eb) as nat;
        assert(pow2(raise) == x * c);
        assert(pow2(lower) == (k * t) * y);
        let scaled = num * pow2(lower);
        let grid = (x * c) * y;
        assert(grid > 0) by (nonlinear_arith)
            requires
                grid == (x * c) * y,
                x > 0,
                c > 0,
                y > 0,
        ;
        assert(scaled == dividend * grid) by (nonlinear_arith)
            requires
                scaled == ((sa * x) * c) * ((k * t) * y),
                dividend == (sa * k) * t,
                grid == (x * c) * y,
        ;
        assert(sig * pow2(raise) * den == (sig * sb) * grid) by (nonlinear_arith)
            requires
                pow2(raise) == x * c,
                den == sb * y,
                grid == (x * c) * y,
        ;
        assert((sig + 1) * pow2(raise) * den == (sig * sb + sb) * grid) by (nonlinear_arith)
            requires
                pow2(raise) == x * c,
                den == sb * y,
                grid == (x * c) * y,
        ;
        assert(dividend == sig * sb + rest) by (nonlinear_arith)
            requires
                dividend == sb * sig + rest,
        ;
        if sticky {
            assert((sig * sb) * grid < dividend * grid < (sig * sb + sb) * grid)
                by (nonlinear_arith)
                requires
                    dividend == sig * sb + rest,
                    0 < rest < sb,
                    grid > 0,
            ;
        }
        lemma_packed_is_rounded(num, den, sig as nat, raise, lower, sticky);
    }
    join(negative, pattern)
}

/// The signed value of a sign and a magnitude pattern, in units.
pub open spec fn signed(negative: bool, pattern: nat) -> int {
    if negative {
        -(units(pattern) as int)
    } else {
        units(pattern) as int
    }
}

/// Adds two finite numbers that are not zero, the one of larger magnitude
/// first.
fn plus_ordered(nx: bool, px: u64, ny: bool, py: u64) -> (r: u64)
    requires
        0 < py <= px < INFINITE,
    ensures
        r == of_signed_units(signed(nx, px as nat) + signed(ny, py as nat), nx && ny),
{
    let (sx, ex) = parts(px);
    let (sy, ey) = parts(py);
    let ghost ux = units(px as nat);
    let ghost uy = units(py as nat);
    let ghost x = pow2(ex as nat) as int;
    let ghost y = pow2(ey as nat) as int;
    proof {
        lemma_units_order(py as nat, px as nat);
        lemma_units_order(0, py as nat);
        lemma_units_zero();
        lemma_pow2_pos(ex as nat);
        lemma_pow2_pos(ey as nat);
        lemma_pow2_below(0, 0);
        assert(ey <= ex) by {
            vstd::arithmetic::div_mod::lemma_div_is_ordered(
                py as int,
                px as int,
                HIDDEN as int,
            );
        }
    }
    let same = nx == ny;
    let gap = ex - ey;
    let base: u128 = (sx as u128) * 0x1_0000_0000_0000_0000;
    if gap <= 64 {
        let lift = power_of_two((64 - gap) as u32);
        proof {
            lemma_pow2_below((64 - gap) as nat, 64);
            assert(sy * lift < 0x20_0000_0000_0000_0000_0000_0000_0000) by (nonlinear_arith)
                requires
                    0 <= sy < 0x20_0000_0000_0000,
                    0 <= lift <= 0x1_0000_0000_0000_0000,
            ;
        }
        let minor: u128 = (sy as u128) * lift;
        proof {
            let g = pow2(gap as nat) as int;
            lemma_pow2_pos(gap as nat);
            lemma_pow2_adds(ey as nat, gap as nat);
            lemma_pow2_adds((64 - gap) as nat, gap as nat);
            assert(x == y * g);
            assert(lift * g == 0x1_0000_0000_0000_0000);
            // The two terms on the common scale 2^ex / 2^64.
            assert(base * x == 0x1_0000_0000_0000_0000 * ux) by (nonlinear_arith)
                requires
                    base == sx * 0x1_0000_0000_0000_0000,
                    ux == sx * x,
            ;
            assert(minor * x == 0x1_0000_0000_0000_0000 * uy) by (nonlinear_arith)
                requires
                    minor == sy * lift,
                    uy == sy * y,
                    x == y * g,
                    lift * g == 0x1_0000_0000_0000_0000,
            ;
            assert(minor <= base) by (nonlinear_arith)
                requires
                    minor * x == 0x1_0000_0000_0000_0000 * uy,
                    base * x == 0x1_0000_0000_0000_0000 * ux,
                    uy <= ux,
                    x > 0,
            ;
            assert(minor == base ==> ux == uy) by (nonlinear_arith)
                requires
                    minor * x == 0x1_0000_0000_0000_0000 * uy,
                    base * x == 0x1_0000_0000_0000_0000 * ux,
            ;
        }
        let total: u128 = if same {
            base + minor
        } else {
            base - minor
        };
        if total == 0 {
            return 0;
        }
        let (sig, doubled) = widen(total);
        let pattern = pack(sig, ex as i64 - 64 - doubled as i64, false);
        proof {
            let k = pow2(doubled as nat) as int;
            let num: int = if same {
                (ux + uy) as int
            } else {
                ux - uy
            };
            lemma_pow2_adds(64, doubled as nat);
            assert(total * x == 0x1_0000_0000_0000_0000 * num) by (nonlinear_arith)
                requires
                    base * x == 0x1_0000_0000_0000_0000 * ux,
                    minor * x == 0x1_0000_0000_0000_0000 * uy,
                    same ==> total == base + minor && num == ux + uy,
                    !same ==> total == base - minor && num == ux - uy,
            ;
            assert(num > 0) by (nonlinear_arith)
                requires
                    total * x == 0x1_0000_0000_0000_0000 * num,
                    total > 0,
                    x > 0,
            ;
            assert(num * (0x1_0000_0000_0000_0000 * k) == ((total * k) * x) * 1)
                by (nonlinear_arith)
                requires
                    total * x == 0x1_0000_0000_0000_0000 * num,
            ;
            lemma_packed_is_rounded(
                num as nat,
                1,
                sig as nat,
                ex as nat,
                (64 + doubled) as nat,
                false,
            );
        }
        join(nx, pattern)
    } else {
        // The smaller term lies wholly below the last of the 64 added bits.
        let below = gap - 64;
        let cut = power_of_two(if below < 60 {
            below as u32
        } else {
            60
        });
        proof {
            lemma_pow2_pos(if below < 60 {
                below as nat
            } else {
                60
            });
        }
        let minor: u128 = (sy as u128) / cut;
        let rest: u128 = (sy as u128) % cut;
        let sticky = rest != 0;
        let sig: u128 = if same {
            base + minor
        } else if sticky {
            base - minor - 1
        } else {
            base - minor
        };
        let pattern = pack(sig, ex as i64 - 64, sticky);
        proof {
            let b = pow2(below as nat) as int;
            lemma_pow2_pos(below as nat);
            if below >= 60 {
                lemma_pow2_below(60, below as nat);
            }
            lemma_pow2_below(53, 60);
            lemma_pow2_adds(ey as nat, 64);
            lemma_pow2_adds((ey + 64) as nat, below as nat);
            assert(x == (y * 0x1_0000_0000_0000_0000) * b);
            // The division that was made is the division by 2^below.
            assert(sy == minor * b + rest && 0 <= rest < b) by {
                if below < 60 {
                    lemma_fundamental_div_mod(sy as int, b);
                    assert(b * minor == minor * b) by (nonlinear_arith);
                } else {
                    lemma_basic_div(sy as int, cut as int);
                    lemma_small_mod(sy as nat, cut as nat);
                    assert(0 * b == 0) by (nonlinear_arith);
                }
            }
            let num: int = if same {
                (ux + uy) as int
            } else {
                ux - uy
            };
            let part = rest * (y * 0x1_0000_0000_0000_0000);
            assert(0x1_0000_0000_0000_0000 * uy == minor * x + part) by (nonlinear_arith)
                requires
                    uy == sy * y,
                    sy == minor * b + rest,
                    x == (y * 0x1_0000_0000_0000_0000) * b,
                    part == rest * (y * 0x1_0000_0000_0000_0000),
            ;
            assert(0 <= part < x && (rest == 0 <==> part == 0)) by (nonlinear_arith)
                requires
                    part == rest * (y * 0x1_0000_0000_0000_0000),
                    x == (y * 0x1_0000_0000_0000_0000) * b,
                    0 <= rest < b,
                    y > 0,
            ;
            assert(base * x == 0x1_0000_0000_0000_0000 * ux) by (nonlinear_arith)
                requires
                    base == sx * 0x1_0000_0000_0000_0000,
                    ux == sx * x,
            ;
            assert(num * 0x1_0000_0000_0000_0000 == if same {
                sig * x + part
            } else if sticky {
                sig * x + (x - part)
            } else {
                sig * x
            }) by (nonlinear_arith)
                requires
                    base * x == 0x1_0000_0000_0000_0000 * ux,
                    0x1_0000_0000_0000_0000 * uy == minor * x + part,
                    same ==> sig == base + minor && num == ux + uy,
                    !same && sticky ==> sig == base - minor - 1 && num == ux - uy,
                    !same && !sticky ==> sig == base - minor && num == ux - uy,
                    sticky <==> part != 0,
            ;
            assert((sig + 1) * x == sig * x + x) by (nonlinear_arith);
            assert(num > 0) by (nonlinear_arith)
                requires
                    num * 0x1_0000_0000_0000_0000 >= sig * x,
                    sig > 0,
                    x > 0,
            ;
            assert(sig * pow2(ex as nat) * 1 == sig * x) by (nonlinear_arith)
                requires
                    x == pow2(ex as nat),
            ;
            assert((sig + 1) * pow2(ex as nat) * 1 == (sig + 1) * x) by (nonlinear_arith)
                requires
                    x == pow2(ex as nat),
            ;
            lemma_packed_is_rounded(num as nat, 1, sig as nat, ex as nat, 64, sticky);
        }
        join(nx, pattern)
    }
}

/// Adds two numbers.
pub fn plus(a: u64, b: u64) -> (r: u64)
    ensures
        r == sum(a, b),
{
    let (na, pa) = split(a);
    let (nb, pb) = split(b);
    if pa > INFINITE || pb > INFINITE {
        return NOT_A_NUMBER;
    }
    if pa == INFINITE {
        if pb == INFINITE && na != nb {
            return NOT_A_NUMBER;
        }
        return a;
    }
    if pb == INFINITE {
        return b;
    }
    proof {
        lemma_units_zero();
        lemma_units_order(0, pa as nat);
        lemma_units_order(0, pb as nat);
    }
    if pa == 0 && pb == 0 {
        return join(na && nb, 0);
    }
    if pb == 0 {
        proof {
            assert(units(pa as nat) * 1 == units(pa as nat)) by (nonlinear_arith);
            lemma_rounded_exact(pa as nat, units(pa as nat), 1);
        }
        return a;
    }
    if pa == 0 {
        proof {
            assert(units(pb as nat) * 1 == units(pb as nat)) by (nonlinear_arith);
            lemma_rounded_exact(pb as nat, units(pb as nat), 1);
        }
        return b;
    }
    if pa >= pb {
        plus_ordered(na, pa, nb, pb)
    } else {
        plus_ordered(nb, pb, na, pa)
    }
}

/// Subtracts one number from another.
pub fn minus(a: u64, b: u64) -> (r: u64)
    ensures
        r == difference(a, b),
{
    plus(a, negate(b))
}

/// The number nearest to a count.
pub fn from_count(n: u64) -> (r: u64)
    ensures
        r == of_nat(n as nat),
        is_finite(r),
        !is_negative(r),
{
    if n == 0 {
        proof {
            lemma_units_zero();
            assert(0 * pow2(1074) == 0) by (nonlinear_arith);
            assert(units(0) * 1 == 0);
            lemma_rounded_exact(0, 0, 1);
        }
        return 0;
    }
    let (sig, doubled) = widen(n as u128);
    let pattern = pack(sig, 1074 - doubled as i64, false);
    proof {
        let k = pow2(doubled as nat) as int;
        let c = pow2(1074) as int;
        assert((n * c) * k == ((n * k) * c) * 1) by (nonlinear_arith);
        lemma_packed_is_rounded(
            n as nat * pow2(1074),
            1,
            sig as nat,
            1074,
            doubled as nat,
            false,
        );
    }
    pattern
}

} // verus!
