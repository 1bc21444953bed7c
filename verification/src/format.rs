//! The binary64 interchange format: how a 64-bit word encodes a number.
//!
//! A word holds a sign bit, eleven exponent bits and fifty-two fraction bits.
//! The word without its sign bit is the *magnitude pattern*. Every finite
//! magnitude is a whole number of *units*, one unit being 2^-1074, the
//! smallest positive value of the format.

use vstd::arithmetic::power2::*;
use vstd::prelude::*;

verus! {

/// The sign bit.
pub const SIGN: u64 = 0x8000_0000_0000_0000;

/// The magnitude pattern of infinity; patterns above it are not numbers.
pub const INFINITE: u64 = 0x7FF0_0000_0000_0000;

/// 2^52: the weight of the implicit leading bit of a normal significand.
pub const HIDDEN: u64 = 0x0010_0000_0000_0000;

/// The one encoding this library produces for "not a number".
pub const NOT_A_NUMBER: u64 = 0x7FF8_0000_0000_0000;

/// The encoding of +0.
pub const ZERO: u64 = 0;

/// The encoding of -0.
pub const NEGATIVE_ZERO: u64 = 0x8000_0000_0000_0000;

/// The encoding of 1.
pub const ONE: u64 = 0x3FF0_0000_0000_0000;

/// The word without its sign bit.
pub open spec fn magnitude(bits: u64) -> nat {
    if bits >= SIGN {
        (bits - SIGN) as nat
    } else {
        bits as nat
    }
}

/// The sign bit is set (also on a zero, an infinity or a NaN).
pub open spec fn is_negative(bits: u64) -> bool {
    bits >= SIGN
}

/// The word encodes no number: its magnitude pattern lies above that of
/// infinity.
pub open spec fn is_nan(bits: u64) -> bool {
    magnitude(bits) > INFINITE
}

/// +infinity or -infinity.
pub open spec fn is_infinite(bits: u64) -> bool {
    magnitude(bits) == INFINITE
}

/// A number that is not infinite: zero, subnormal or normal.
pub open spec fn is_finite(bits: u64) -> bool {
    magnitude(bits) < INFINITE
}

/// +0 or -0.
pub open spec fn is_zero(bits: u64) -> bool {
    magnitude(bits) == 0
}

/// The word with the given sign and magnitude pattern.
pub open spec fn with_sign(negative: bool, pattern: nat) -> u64
    recommends
        pattern < SIGN,
{
    if negative {
        (pattern + SIGN) as u64
    } else {
        pattern as u64
    }
}

/// The exponent, in units, of the last place of a magnitude pattern:
/// consecutive patterns with this exponent field differ by `2^last_place`
/// units.
pub open spec fn last_place(pattern: nat) -> nat {
    let e = pattern / (HIDDEN as nat);
    if e == 0 {
        0
    } else {
        (e - 1) as nat
    }
}

/// The significand of a magnitude pattern, the implicit bit included.
pub open spec fn significand(pattern: nat) -> nat {
    let e = pattern / (HIDDEN as nat);
    let f = pattern % (HIDDEN as nat);
    if e == 0 {
        f
    } else {
        HIDDEN as nat + f
    }
}

/// The value of a magnitude pattern, in units of 2^-1074. The pattern of
/// infinity counts as 2^1024, the value that would follow the largest finite
/// one.
pub open spec fn units(pattern: nat) -> nat {
    significand(pattern) * pow2(last_place(pattern))
}

/// The signed value of a finite word, in units of 2^-1074.
pub open spec fn signed_units(bits: u64) -> int {
    if is_negative(bits) {
        -(units(magnitude(bits)) as int)
    } else {
        units(magnitude(bits)) as int
    }
}

/// The pattern of all zeros has the value zero.
pub proof fn lemma_units_zero()
    ensures
        units(0) == 0,
{
    assert(0 * pow2(last_place(0)) == 0) by (nonlinear_arith);
}

/// The next pattern is one last place further.
pub proof fn lemma_units_step(pattern: nat)
    ensures
        units(pattern + 1) == units(pattern) + pow2(last_place(pattern)),
{
    let h = HIDDEN as nat;
    let e = pattern / h;
    let f = pattern % h;
    let next = (pattern + 1) as nat;
    let p = pow2(last_place(pattern));
    assert(pow2(0) == 1) by {
        lemma2_to64();
    }
    assert(pattern == e * h + f) by {
        vstd::arithmetic::div_mod::lemma_fundamental_div_mod(pattern as int, h as int);
    }
    if f + 1 < h {
        assert(next / h == e && next % h == f + 1) by {
            vstd::arithmetic::div_mod::lemma_fundamental_div_mod_converse(
                next as int,
                h as int,
                e as int,
                f as int + 1,
            );
        }
        assert(last_place(next) == last_place(pattern));
        assert(significand(next) == significand(pattern) + 1);
        assert((significand(pattern) + 1) * p == significand(pattern) * p + p)
            by (nonlinear_arith);
    } else {
        assert(f == h - 1);
        assert(next / h == e + 1 && next % h == 0) by {
            vstd::arithmetic::div_mod::lemma_fundamental_div_mod_converse(
                next as int,
                h as int,
                e as int + 1,
                0,
            );
        }
        assert(significand(next) == h);
        if e == 0 {
            assert(last_place(next) == 0);
            assert(significand(pattern) == h - 1);
            assert(h * p == (h - 1) * p + p) by (nonlinear_arith);
        } else {
            assert(last_place(next) == e);
            assert(pow2(e) == 2 * p) by {
                lemma_pow2_unfold(e);
            }
            assert(significand(pattern) == h + (h - 1));
            assert(h * (2 * p) == (h + (h - 1)) * p + p) by (nonlinear_arith);
        }
    }
}

/// A larger pattern has a larger value.
pub proof fn lemma_units_increasing(low: nat, high: nat)
    requires
        low < high,
    ensures
        units(low) < units(high),
    decreases high - low,
{
    lemma_units_step(low);
    lemma_pow2_pos(last_place(low));
    if low + 1 < high {
        lemma_units_increasing(low + 1, high);
    }
}

/// Value and pattern order the magnitudes alike.
pub proof fn lemma_units_order(a: nat, b: nat)
    ensures
        a < b <==> units(a) < units(b),
        a == b <==> units(a) == units(b),
{
    if a < b {
        lemma_units_increasing(a, b);
    } else if b < a {
        lemma_units_increasing(b, a);
    }
}

/// The pattern built from an exponent of the last place and a significand
/// that fits it has the value `significand * 2^place`.
pub proof fn lemma_units_of_pattern(place: nat, sig: nat)
    requires
        sig <= 2 * HIDDEN,
        place == 0 || sig >= HIDDEN,
    ensures
        units(place * (HIDDEN as nat) + sig) == sig * pow2(place),
{
    let h = HIDDEN as nat;
    let pattern = place * h + sig;
    if sig < h {
        assert(place == 0);
        assert(pattern / h == 0 && pattern % h == sig);
        assert(pow2(0) == 1) by {
            lemma2_to64();
        }
    } else if sig < 2 * h {
        assert(pattern / h == place + 1 && pattern % h == sig - h) by {
            vstd::arithmetic::div_mod::lemma_fundamental_div_mod_converse(
                pattern as int,
                h as int,
                place as int + 1,
                sig as int - h as int,
            );
        }
    } else {
        assert(pattern / h == place + 2 && pattern % h == 0) by {
            vstd::arithmetic::div_mod::lemma_fundamental_div_mod_converse(
                pattern as int,
                h as int,
                place as int + 2,
                0,
            );
        }
        let p = pow2(place);
        assert(pow2(place + 1) == 2 * p) by {
            lemma_pow2_unfold(place + 1);
        }
        assert(h * (2 * p) == (2 * h) * p) by (nonlinear_arith);
    }
}

/// Splits a word into its sign and its magnitude pattern.
pub fn split(bits: u64) -> (r: (bool, u64))
    ensures
        r.0 == is_negative(bits),
        r.1 == magnitude(bits),
        r.1 < SIGN,
{
    if bits >= SIGN {
        (true, bits - SIGN)
    } else {
        (false, bits)
    }
}

/// Puts a sign and a magnitude pattern together.
pub fn join(negative: bool, pattern: u64) -> (r: u64)
    requires
        pattern < SIGN,
    ensures
        r == with_sign(negative, pattern as nat),
        is_negative(r) == negative,
        magnitude(r) == pattern,
{
    if negative {
        pattern + SIGN
    } else {
        pattern
    }
}

/// The significand of a magnitude pattern and the exponent of its last place.
pub fn parts(pattern: u64) -> (r: (u64, u64))
    requires
        pattern < SIGN,
    ensures
        r.0 == significand(pattern as nat),
        r.1 == last_place(pattern as nat),
        r.0 < 2 * HIDDEN,
        r.1 <= 2046,
        r.0 == 0 <==> pattern == 0,
        r.1 > 0 ==> r.0 >= HIDDEN,
        units(pattern as nat) == r.0 * pow2(r.1 as nat),
{
    let e = pattern / HIDDEN;
    let f = pattern % HIDDEN;
    proof {
        lemma_units_zero();
    }
    if e == 0 {
        (f, 0)
    } else {
        (HIDDEN + f, e - 1)
    }
}

} // verus!
