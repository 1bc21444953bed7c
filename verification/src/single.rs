//! Binary32 words, the format in which samples arrive, and their exact
//! conversion to binary64.

use crate::format::{
    is_finite, is_negative, join, lemma_units_of_pattern, lemma_units_zero, magnitude, units,
    with_sign, HIDDEN, INFINITE, NOT_A_NUMBER,
};
use crate::rounding::{
    lemma_packed_is_rounded, lemma_pow2_below, lemma_rounded_exact, pack, rounded, widen,
};
use vstd::arithmetic::power2::*;
use vstd::prelude::*;

verus! {

/// The sign bit of a binary32 word.
pub const SINGLE_SIGN: u32 = 0x8000_0000;

/// The magnitude pattern of the binary32 infinity.
pub const SINGLE_INFINITE: u32 = 0x7F80_0000;

/// 2^23: the weight of the implicit leading bit of a binary32 significand.
pub const SINGLE_HIDDEN: u32 = 0x0080_0000;

/// The binary32 word without its sign bit.
pub open spec fn single_magnitude(bits: u32) -> nat {
    if bits >= SINGLE_SIGN {
        (bits - SINGLE_SIGN) as nat
    } else {
        bits as nat
    }
}

/// The significand of a binary32 magnitude pattern, the implicit bit
/// included.
pub open spec fn single_significand(pattern: nat) -> nat {
    if pattern / (SINGLE_HIDDEN as nat) == 0 {
        pattern % (SINGLE_HIDDEN as nat)
    } else {
        SINGLE_HIDDEN as nat + pattern % (SINGLE_HIDDEN as nat)
    }
}

/// The exponent of the last place of a binary32 magnitude pattern, counted
/// from the smallest binary32 value, 2^-149.
pub open spec fn single_last_place(pattern: nat) -> nat {
    if pattern / (SINGLE_HIDDEN as nat) == 0 {
        0
    } else {
        (pattern / (SINGLE_HIDDEN as nat) - 1) as nat
    }
}

/// The value of a finite binary32 magnitude pattern in the units of
/// binary64, 2^-1074: the smallest binary32 value is 2^925 of them.
pub open spec fn single_units(pattern: nat) -> nat {
    single_significand(pattern) * pow2(single_last_place(pattern) + 925)
}

/// The binary64 word for a binary32 word.
pub open spec fn widened(bits: u32) -> u64 {
    let pattern = single_magnitude(bits);
    if pattern > SINGLE_INFINITE {
        NOT_A_NUMBER
    } else if pattern == SINGLE_INFINITE {
        with_sign(bits >= SINGLE_SIGN, INFINITE as nat)
    } else {
        with_sign(bits >= SINGLE_SIGN, rounded(single_units(pattern), 1))
    }
}

/// The binary64 words for a sequence of binary32 words.
pub open spec fn all_widened(samples: Seq<u32>) -> Seq<u64> {
    Seq::new(samples.len(), |i: int| widened(samples[i]))
}

/// A significand that fits in fifty-three bits can be doubled until it fills
/// them.
proof fn lemma_fills(sig: nat) -> (doubled: nat)
    requires
        0 < sig < 2 * HIDDEN,
    ensures
        doubled <= 52,
        HIDDEN <= sig * pow2(doubled) < 2 * HIDDEN,
    decreases 2 * HIDDEN - sig,
{
    lemma_pow2_below(0, 0);
    if sig >= HIDDEN {
        assert(sig * 1 == sig) by (nonlinear_arith);
        0
    } else {
        let rest = lemma_fills(2 * sig);
        lemma_pow2_unfold(rest + 1);
        assert(sig * (2 * pow2(rest)) == (2 * sig) * pow2(rest)) by (nonlinear_arith);
        if rest >= 52 {
            lemma_pow2_below(52, rest);
            assert((2 * sig) * pow2(rest) >= 2 * pow2(rest)) by (nonlinear_arith)
                requires
                    sig >= 1,
            ;
            assert(false);
        }
        rest + 1
    }
}

/// Widening is exact: a finite binary32 word and its binary64 word have the
/// same sign and the same value.
pub proof fn lemma_widened_is_exact(bits: u32)
    requires
        single_magnitude(bits) < SINGLE_INFINITE,
    ensures
        is_finite(widened(bits)),
        is_negative(widened(bits)) == (bits >= SINGLE_SIGN),
        units(magnitude(widened(bits))) == single_units(single_magnitude(bits)),
{
    let pattern = single_magnitude(bits);
    let sig = single_significand(pattern);
    let place = single_last_place(pattern) + 925;
    let value = single_units(pattern);
    if sig == 0 {
        lemma_units_zero();
        assert(value == 0) by (nonlinear_arith)
            requires
                value == sig * pow2(place),
                sig == 0,
        ;
        assert(units(0) * 1 == 0);
        lemma_rounded_exact(0, 0, 1);
    } else {
        let doubled = lemma_fills(sig);
        let full = sig * pow2(doubled);
        let low = (place - doubled) as nat;
        let target = low * (HIDDEN as nat) + full;
        lemma_units_of_pattern(low, full);
        lemma_pow2_adds(doubled, low);
        assert(units(target) == value) by (nonlinear_arith)
            requires
                units(target) == full * pow2(low),
                full == sig * pow2(doubled),
                pow2(place) == pow2(doubled) * pow2(low),
                value == sig * pow2(place),
        ;
        assert(low <= 1200);
        assert(target < INFINITE) by (nonlinear_arith)
            requires
                target == low * (HIDDEN as nat) + full,
                low <= 1200,
                full < 2 * HIDDEN,
                HIDDEN == 0x0010_0000_0000_0000,
                INFINITE == 0x7FF0_0000_0000_0000,
        ;
        assert(units(target) * 1 == value);
        lemma_rounded_exact(target, value, 1);
    }
}

/// Converts a binary32 word to the binary64 word of the same value.
pub fn widen_single(bits: u32) -> (r: u64)
    ensures
        r == widened(bits),
{
    let negative = bits >= SINGLE_SIGN;
    let pattern: u32 = if negative {
        bits - SINGLE_SIGN
    } else {
        bits
    };
    if pattern > SINGLE_INFINITE {
        return NOT_A_NUMBER;
    }
    if pattern == SINGLE_INFINITE {
        return join(negative, INFINITE);
    }
    let e = pattern / SINGLE_HIDDEN;
    let f = pattern % SINGLE_HIDDEN;
    let sig: u32 = if e == 0 {
        f
    } else {
        SINGLE_HIDDEN + f
    };
    let place: u32 = if e == 0 {
        0
    } else {
        e - 1
    };
    let ghost value = single_units(pattern as nat);
    if sig == 0 {
        proof {
            lemma_units_zero();
            assert(value == 0) by (nonlinear_arith)
                requires
                    value == sig * pow2((place + 925) as nat),
                    sig == 0,
            ;
            assert(units(0) * 1 == 0);
            lemma_rounded_exact(0, 0, 1);
        }
        return join(negative, 0);
    }
    let (wide, doubled) = widen(sig as u128);
    let word = pack(wide, place as i64 + 925 - doubled as i64, false);
    proof {
        let k = pow2(doubled as nat) as int;
        let p = pow2((place + 925) as nat) as int;
        assert((sig * p) * k == ((sig * k) * p) * 1) by (nonlinear_arith);
        lemma_packed_is_rounded(
            value,
            1,
            wide as nat,
            (place + 925) as nat,
            doubled as nat,
            false,
        );
    }
    join(negative, word)
}

/// Converts binary32 words to binary64 words.
pub fn widen_samples(samples: &[u32]) -> (r: Vec<u64>)
    ensures
        r@ == all_widened(samples@),
{
    let mut r: Vec<u64> = Vec::new();
    let mut i: usize = 0;
    while i < samples.len()
        invariant
            0 <= i <= samples@.len(),
            r@.len() == i,
            forall|k: int| 0 <= k < i ==> r@[k] == widened(samples@[k]),
        decreases samples@.len() - i,
    {
        r.push(widen_single(samples[i]));
        i = i + 1;
    }
    assert(r@ =~= all_widened(samples@));
    r
}

} // verus!
