//! Rounding to nearest, ties to even: which magnitude pattern stands for a
//! non-negative rational number of units.

use crate::format::{
    lemma_units_increasing, lemma_units_of_pattern, lemma_units_zero, units, HIDDEN, INFINITE,
};
use vstd::arithmetic::div_mod::{
    lemma_basic_div, lemma_div_denominator, lemma_div_is_ordered_by_denominator,
    lemma_fundamental_div_mod, lemma_small_mod,
};
use vstd::arithmetic::power2::*;
use vstd::prelude::*;

verus! {

/// The value of `pattern` is at most `num / den` units.
pub open spec fn reaches(pattern: nat, num: nat, den: nat) -> bool {
    units(pattern) * den <= num
}

/// `pattern` is the last one whose value is at most `num / den` units.
pub open spec fn is_floor(pattern: nat, num: nat, den: nat) -> bool {
    reaches(pattern, num, den) && !reaches(pattern + 1, num, den)
}

/// Of `floor` and the pattern after it, the one nearer to `num / den` units;
/// halfway between the two, the even one.
pub open spec fn nearer(floor: nat, num: nat, den: nat) -> nat {
    let twice_middle = units(floor) + units(floor + 1);
    if 2 * num < twice_middle * den {
        floor
    } else if 2 * num > twice_middle * den {
        floor + 1
    } else if floor % 2 == 0 {
        floor
    } else {
        floor + 1
    }
}

/// The magnitude pattern nearest to `num / den` units, ties to even; the
/// pattern of infinity from halfway between the largest finite value and
/// 2^1024 on.
pub open spec fn rounded(num: nat, den: nat) -> nat {
    if reaches(INFINITE as nat, num, den) {
        INFINITE as nat
    } else {
        nearer(choose|m: nat| is_floor(m, num, den), num, den)
    }
}

/// `a * c` and `b * c` compare as `a` and `b` do, for positive `c`.
pub proof fn lemma_scaled_order(a: int, b: int, c: int)
    requires
        c > 0,
    ensures
        a < b <==> a * c < b * c,
        a == b <==> a * c == b * c,
        a <= b <==> a * c <= b * c,
{
    assert(a < b ==> a * c < b * c) by (nonlinear_arith)
        requires
            c > 0,
    ;
    assert(b < a ==> b * c < a * c) by (nonlinear_arith)
        requires
            c > 0,
    ;
}

/// There is one floor only, and it decides the rounding.
pub proof fn lemma_rounded_from_floor(floor: nat, num: nat, den: nat)
    requires
        den > 0,
        is_floor(floor, num, den),
    ensures
        rounded(num, den) == if floor >= INFINITE {
            INFINITE as nat
        } else {
            nearer(floor, num, den)
        },
{
    let inf = INFINITE as nat;
    if floor >= inf {
        if floor > inf {
            lemma_units_increasing(inf, floor);
        }
        lemma_scaled_order(units(inf) as int, units(floor) as int + 1, den as int);
        assert(units(inf) * den <= units(floor) * den) by (nonlinear_arith)
            requires
                units(inf) <= units(floor),
                den > 0,
        ;
    } else {
        if floor + 1 < inf {
            lemma_units_increasing(floor + 1, inf);
        }
        assert(units(floor + 1) * den <= units(inf) * den) by (nonlinear_arith)
            requires
                units(floor + 1) <= units(inf),
                den > 0,
        ;
        assert(!reaches(inf, num, den));
        let chosen = choose|m: nat| is_floor(m, num, den);
        assert(is_floor(chosen, num, den));
        if chosen < floor {
            if chosen + 1 < floor {
                lemma_units_increasing(chosen + 1, floor);
            }
            assert(units(chosen + 1) * den <= units(floor) * den) by (nonlinear_arith)
                requires
                    units(chosen + 1) <= units(floor),
                    den > 0,
            ;
            assert(false);
        }
        if floor < chosen {
            if floor + 1 < chosen {
                lemma_units_increasing(floor + 1, chosen);
            }
            assert(units(floor + 1) * den <= units(chosen) * den) by (nonlinear_arith)
                requires
                    units(floor + 1) <= units(chosen),
                    den > 0,
            ;
            assert(false);
        }
        assert(chosen == floor);
    }
}

/// A value that is a pattern's own rounds to that pattern.
pub proof fn lemma_rounded_exact(pattern: nat, num: nat, den: nat)
    requires
        den > 0,
        pattern <= INFINITE,
        num == units(pattern) * den,
    ensures
        rounded(num, den) == pattern,
{
    lemma_units_increasing(pattern, pattern + 1);
    let lo = units(pattern);
    let hi = units(pattern + 1);
    assert(lo * den < hi * den) by (nonlinear_arith)
        requires
            lo < hi,
            den > 0,
    ;
    assert(is_floor(pattern, num, den));
    lemma_rounded_from_floor(pattern, num, den);
    assert(2 * (lo * den) < (lo + hi) * den) by (nonlinear_arith)
        requires
            lo < hi,
            den > 0,
    ;
}

/// Below a pattern that the value does not reach there is a floor.
pub proof fn lemma_floor_exists(num: nat, den: nat, upper: nat)
    requires
        den > 0,
        !reaches(upper, num, den),
    ensures
        exists|m: nat| m < upper && is_floor(m, num, den),
    decreases upper,
{
    if upper == 0 {
        lemma_units_zero();
        assert(units(0) * den == 0) by (nonlinear_arith)
            requires
                units(0) == 0,
        ;
        assert(false);
    } else if reaches((upper - 1) as nat, num, den) {
        assert(is_floor((upper - 1) as nat, num, den));
    } else {
        lemma_floor_exists(num, den, (upper - 1) as nat);
    }
}

/// Rounding gives a pattern up to that of infinity.
pub proof fn lemma_rounded_is_pattern(num: nat, den: nat)
    requires
        den > 0,
    ensures
        rounded(num, den) <= INFINITE,
{
    if !reaches(INFINITE as nat, num, den) {
        lemma_floor_exists(num, den, INFINITE as nat);
        let m = choose|m: nat| m < INFINITE && is_floor(m, num, den);
        lemma_rounded_from_floor(m, num, den);
    }
}

/// What holds of `n1 / d1` against a whole number holds of any `n2 / d2` that
/// is at least as large.
pub proof fn lemma_cross(a: int, n1: int, d1: int, n2: int, d2: int)
    requires
        d1 > 0,
        d2 > 0,
        n1 * d2 <= n2 * d1,
    ensures
        a * d1 <= n1 ==> a * d2 <= n2,
        a * d1 < n1 ==> a * d2 < n2,
{
    if a * d1 <= n1 {
        assert((a * d2) * d1 <= n1 * d2) by (nonlinear_arith)
            requires
                a * d1 <= n1,
                d2 > 0,
        ;
        lemma_scaled_order(a * d2, n2, d1);
    }
    if a * d1 < n1 {
        assert((a * d2) * d1 < n1 * d2) by (nonlinear_arith)
            requires
                a * d1 < n1,
                d2 > 0,
        ;
        lemma_scaled_order(a * d2, n2, d1);
    }
}

/// Rounding keeps the order: a value that is not smaller does not round to
/// a smaller pattern.
pub proof fn lemma_rounded_monotone(n1: nat, d1: nat, n2: nat, d2: nat)
    requires
        d1 > 0,
        d2 > 0,
        n1 * d2 <= n2 * d1,
    ensures
        rounded(n1, d1) <= rounded(n2, d2),
{
    let inf = INFINITE as nat;
    lemma_rounded_is_pattern(n1, d1);
    if !reaches(inf, n2, d2) {
        lemma_cross(units(inf) as int, n1 as int, d1 as int, n2 as int, d2 as int);
        lemma_floor_exists(n1, d1, inf);
        lemma_floor_exists(n2, d2, inf);
        let m1 = choose|m: nat| m < inf && is_floor(m, n1, d1);
        let m2 = choose|m: nat| m < inf && is_floor(m, n2, d2);
        lemma_rounded_from_floor(m1, n1, d1);
        lemma_rounded_from_floor(m2, n2, d2);
        lemma_cross(units(m1) as int, n1 as int, d1 as int, n2 as int, d2 as int);
        if m2 < m1 {
            if m2 + 1 < m1 {
                lemma_units_increasing(m2 + 1, m1);
            }
            assert(units(m2 + 1) * d2 <= units(m1) * d2) by (nonlinear_arith)
                requires
                    units(m2 + 1) <= units(m1),
                    d2 > 0,
            ;
            assert(false);
        }
        if m1 == m2 {
            let middle = (units(m1) + units(m1 + 1)) as int;
            assert((2 * n1) * d2 <= (2 * n2) * d1) by (nonlinear_arith)
                requires
                    n1 * d2 <= n2 * d1,
            ;
            lemma_cross(middle, (2 * n1) as int, d1 as int, (2 * n2) as int, d2 as int);
        }
    }
}

/// How many low bits a significand has beyond the fifty-three that a pattern
/// holds.
pub open spec fn excess_bits(sig: nat) -> nat
    decreases sig,
{
    if sig < 2 * HIDDEN {
        0
    } else {
        1 + excess_bits(sig / 2)
    }
}

/// Without its excess bits a significand fits in fifty-three bits, and fills
/// them if it had any excess.
pub proof fn lemma_excess_bits(sig: nat)
    ensures
        sig / pow2(excess_bits(sig)) < 2 * HIDDEN,
        excess_bits(sig) > 0 ==> sig / pow2(excess_bits(sig)) >= HIDDEN,
        sig >= 2 * HIDDEN ==> excess_bits(sig) > 0,
    decreases sig,
{
    if sig < 2 * HIDDEN {
        assert(pow2(0) == 1) by {
            lemma2_to64();
        }
    } else {
        let rest = excess_bits(sig / 2);
        lemma_excess_bits(sig / 2);
        lemma_pow2_pos(rest);
        lemma_pow2_unfold(rest + 1);
        lemma_div_denominator(sig as int, 2, pow2(rest) as int);
        assert(pow2(rest + 1) == 2 * pow2(rest));
        assert(sig / pow2(rest + 1) == (sig / 2) / pow2(rest));
        if rest == 0 {
            assert(pow2(0) == 1) by {
                lemma2_to64();
            }
        }
    }
}

/// The number of low bits that rounding drops from `sig * 2^scale` units.
pub open spec fn dropped_bits(sig: nat, scale: int) -> nat {
    if excess_bits(sig) >= -scale {
        excess_bits(sig)
    } else {
        (-scale) as nat
    }
}

/// The pattern that rounding by hand gives for a value of at least
/// `sig * 2^scale` units and less than `(sig + 1) * 2^scale`: exactly the
/// former unless `sticky`. The bits to drop are split off; the rest goes up
/// by one where the dropped part is more than half a last place, or half of
/// one with the rest odd.
pub open spec fn packed(sig: nat, scale: int, sticky: bool) -> nat {
    let drop = dropped_bits(sig, scale);
    let place = (scale + drop) as nat;
    let kept = sig / pow2(drop);
    let rest = sig % pow2(drop);
    let up: nat = if 2 * rest > pow2(drop) || (2 * rest == pow2(drop) && (sticky || kept % 2
        == 1)) {
        1
    } else {
        0
    };
    let pattern = place * (HIDDEN as nat) + kept + up;
    if pattern >= INFINITE {
        INFINITE as nat
    } else {
        pattern
    }
}

/// Rounding by hand is rounding to nearest, ties to even. The value is
/// `num / den` units; `sig`, `raise - lower` and `sticky` bracket it.
pub proof fn lemma_packed_is_rounded(
    num: nat,
    den: nat,
    sig: nat,
    raise: nat,
    lower: nat,
    sticky: bool,
)
    requires
        den > 0,
        sig >= 2 * HIDDEN,
        !sticky ==> num * pow2(lower) == sig * pow2(raise) * den,
        sticky ==> sig * pow2(raise) * den < num * pow2(lower) < (sig + 1) * pow2(raise) * den,
    ensures
        rounded(num, den) == packed(sig, raise - lower, sticky),
{
    let h = HIDDEN as nat;
    let scale = raise - lower;
    let drop = dropped_bits(sig, scale);
    let place = (scale + drop) as nat;
    let p = pow2(drop);
    let kept = sig / p;
    let rest = sig % p;
    let u = pow2(raise);
    let d = pow2(lower);
    let t = pow2(place);
    lemma_pow2_pos(drop);
    lemma_pow2_pos(raise);
    lemma_pow2_pos(lower);
    lemma_pow2_pos(place);
    lemma_excess_bits(sig);
    assert(drop >= 1);
    assert(p == 2 * pow2((drop - 1) as nat)) by {
        lemma_pow2_unfold(drop);
    }
    assert(sig == kept * p + rest && rest < p) by {
        lemma_fundamental_div_mod(sig as int, p as int);
        assert(p * kept == kept * p) by (nonlinear_arith);
    }
    // What is kept fits a pattern with this last place.
    assert(kept < 2 * h && (place == 0 || kept >= h)) by {
        let ex = excess_bits(sig);
        lemma_pow2_pos(ex);
        if drop > ex {
            lemma_pow2_strictly_increases(ex, drop);
            lemma_div_is_ordered_by_denominator(sig as int, pow2(ex) as int, p as int);
        }
    }
    // Both scalings meet: 2^drop * 2^raise == 2^place * 2^lower.
    assert(p * u == t * d) by {
        lemma_pow2_adds(drop, raise);
        lemma_pow2_adds(place, lower);
        assert(drop + raise == place + lower);
    }
    let w = u * den;
    let g = p * w;
    let q = num * d;
    assert(w > 0) by (nonlinear_arith)
        requires
            w == u * den,
            u > 0,
            den > 0,
    ;
    assert(g == t * den * d) by (nonlinear_arith)
        requires
            p * u == t * d,
            w == u * den,
            g == p * w,
    ;
    assert(sig * w == kept * g + rest * w) by (nonlinear_arith)
        requires
            sig == kept * p + rest,
            g == p * w,
    ;
    assert((sig + 1) * w <= kept * g + g) by (nonlinear_arith)
        requires
            sig == kept * p + rest,
            rest + 1 <= p,
            g == p * w,
            w > 0,
    ;
    assert(sig * u * den == sig * w && (sig + 1) * u * den == (sig + 1) * w) by (nonlinear_arith)
        requires
            w == u * den,
    ;
    assert(sig * w <= q < (sig + 1) * w) by (nonlinear_arith)
        requires
            !sticky ==> q == sig * w,
            sticky ==> sig * w < q < (sig + 1) * w,
            w > 0,
    ;
    let floor = place * h + kept;
    lemma_units_of_pattern(place, kept);
    lemma_units_of_pattern(place, kept + 1);
    assert(floor + 1 == place * h + (kept + 1));
    let below = units(floor) * den;
    let above = units(floor + 1) * den;
    assert(below * d == kept * g && above * d == kept * g + g) by (nonlinear_arith)
        requires
            below == (kept * t) * den,
            above == ((kept + 1) * t) * den,
            g == t * den * d,
    ;
    lemma_scaled_order(below as int, num as int, d as int);
    lemma_scaled_order(num as int, above as int, d as int);
    assert(rest * w >= 0) by (nonlinear_arith)
        requires
            rest >= 0,
            w > 0,
    ;
    assert(is_floor(floor, num, den));
    lemma_rounded_from_floor(floor, num, den);
    // The middle between the floor and the pattern after it.
    let twice_middle = units(floor) + units(floor + 1);
    let middle = twice_middle * den;
    assert(middle * d == 2 * (kept * g) + g) by (nonlinear_arith)
        requires
            middle == (units(floor) + units(floor + 1)) * den,
            below == units(floor) * den,
            above == units(floor + 1) * den,
            below * d == kept * g,
            above * d == kept * g + g,
    ;
    lemma_scaled_order((2 * num) as int, middle as int, d as int);
    lemma_scaled_order(middle as int, (2 * num) as int, d as int);
    assert((2 * num) * d == 2 * q) by (nonlinear_arith)
        requires
            q == num * d,
    ;
    if 2 * rest > p {
        assert(2 * (rest * w) > g) by (nonlinear_arith)
            requires
                2 * rest > p,
                g == p * w,
                w > 0,
        ;
        assert(2 * q > middle * d);
    } else if 2 * rest == p {
        assert(2 * (rest * w) == g) by (nonlinear_arith)
            requires
                2 * rest == p,
                g == p * w,
        ;
        if sticky {
            assert(2 * q > middle * d);
        } else {
            assert(2 * q == middle * d);
        }
    } else {
        assert(2 * (rest + 1) <= p);
        assert(2 * ((rest + 1) * w) <= g) by (nonlinear_arith)
            requires
                2 * (rest + 1) <= p,
                g == p * w,
                w > 0,
        ;
        assert((sig + 1) * w == kept * g + (rest + 1) * w) by (nonlinear_arith)
            requires
                sig * w == kept * g + rest * w,
        ;
        assert(2 * q < middle * d);
    }
    assert(floor % 2 == kept % 2) by {
        assert(h == 2 * 0x8_0000_0000_0000);
        assert(place * h == 2 * (place * 0x8_0000_0000_0000)) by (nonlinear_arith)
            requires
                h == 2 * 0x8_0000_0000_0000,
        ;
    }
}

/// Shifting 1 to the left by `k` places gives 2^k.
pub proof fn lemma_shifted_one(k: u32)
    requires
        k <= 127,
    ensures
        (1u128 << k) == pow2(k as nat),
    decreases k,
{
    if k == 0 {
        assert((1u128 << 0u32) == 1) by (bit_vector);
        lemma_pow2_below(0, 0);
    } else {
        let j = (k - 1) as u32;
        lemma_shifted_one(j);
        lemma_pow2_unfold(k as nat);
        lemma_pow2_below(j as nat, 126);
        assert((1u128 << k) == 2 * (1u128 << j)) by (bit_vector)
            requires
                0 < k <= 127,
                j == k - 1,
        ;
    }
}

/// 2^k, for an exponent that a 128-bit word can hold.
pub fn power_of_two(k: u32) -> (r: u128)
    requires
        k <= 127,
    ensures
        r == pow2(k as nat),
{
    proof {
        lemma_shifted_one(k);
    }
    1u128 << k
}

/// 2^127, and that smaller exponents give smaller powers.
pub proof fn lemma_pow2_below(e: nat, limit: nat)
    requires
        e <= limit,
    ensures
        pow2(e) <= pow2(limit),
        pow2(0) == 1,
        pow2(127) == 0x8000_0000_0000_0000_0000_0000_0000_0000,
        pow2(126) == 0x4000_0000_0000_0000_0000_0000_0000_0000,
        pow2(64) == 0x1_0000_0000_0000_0000,
        pow2(63) == 0x8000_0000_0000_0000,
        pow2(60) == 0x1000_0000_0000_0000,
        pow2(53) == 0x20_0000_0000_0000,
        pow2(52) == 0x10_0000_0000_0000,
{
    if e < limit {
        lemma_pow2_strictly_increases(e, limit);
    }
    lemma2_to64();
    lemma2_to64_rest();
    lemma_pow2_adds(64, 63);
    lemma_pow2_adds(63, 63);
}

/// Dropping `k` low bits from a significand that stays above fifty-two bits
/// takes `k` from its excess.
pub proof fn lemma_excess_bits_drop(sig: nat, k: nat)
    requires
        sig >= pow2(52 + k),
    ensures
        excess_bits(sig) == k + excess_bits(sig / pow2(k)),
    decreases k,
{
    lemma_pow2_below(0, 0);
    if k > 0 {
        let less = (k - 1) as nat;
        lemma_pow2_below(53, 52 + k);
        lemma_pow2_unfold(52 + k);
        lemma_pow2_unfold(k);
        lemma_pow2_pos(less);
        assert(pow2(52 + k) == 2 * pow2(52 + less));
        assert(sig / 2 >= pow2(52 + less));
        lemma_excess_bits_drop(sig / 2, less);
        lemma_div_denominator(sig as int, 2, pow2(less) as int);
        assert(sig / pow2(k) == (sig / 2) / pow2(less));
        assert(excess_bits(sig) == 1 + excess_bits(sig / 2));
    } else {
        assert(sig / 1 == sig);
    }
}

/// Counts the excess bits of a significand.
pub fn count_excess(sig: u128) -> (r: u32)
    ensures
        r == excess_bits(sig as nat),
        r < 128,
{
    let mut rest: u128 = sig;
    let mut count: u32 = 0;
    let mut k: u32 = 64;
    proof {
        lemma_pow2_below(0, 0);
        lemma_pow2_adds(64, 64);
        lemma_pow2_adds(128, 52);
    }
    while k > 0
        invariant
            k == 64 || k == 32 || k == 16 || k == 8 || k == 4 || k == 2 || k == 1 || k == 0,
            excess_bits(sig as nat) == count + excess_bits(rest as nat),
            k > 0 ==> rest < pow2((52 + 2 * k) as nat) && count + 2 * k <= 128,
            k == 0 ==> rest < pow2(53) && count < 128,
        decreases k,
    {
        let limit = power_of_two(52 + k);
        if rest >= limit {
            let by = power_of_two(k);
            proof {
                lemma_pow2_pos(k as nat);
                lemma_excess_bits_drop(rest as nat, k as nat);
                lemma_pow2_adds((52 + k) as nat, k as nat);
                let p = pow2(k as nat) as int;
                let q = pow2((52 + k) as nat) as int;
                lemma_fundamental_div_mod(rest as int, p);
                assert(rest / by < q) by (nonlinear_arith)
                    requires
                        rest < q * p,
                        rest == p * (rest / by) + rest % by,
                        rest % by >= 0,
                        p > 0,
                ;
            }
            rest = rest / by;
            count = count + k;
        }
        k = k / 2;
    }
    count
}

/// Rounds a value of at least `sig * 2^scale` units and less than
/// `(sig + 1) * 2^scale`, exactly the former unless `sticky`, to a magnitude
/// pattern.
pub fn pack(sig: u128, scale: i64, sticky: bool) -> (r: u64)
    requires
        2 * HIDDEN <= sig < 0x4000_0000_0000_0000_0000_0000_0000_0000,
        -0x1_0000_0000 <= scale <= 0x1_0000_0000,
    ensures
        r == packed(sig as nat, scale as int, sticky),
        r <= INFINITE,
        scale < 1900 ==> r < INFINITE,
{
    let excess = count_excess(sig);
    let drop: i64 = if excess as i64 >= -scale {
        excess as i64
    } else {
        -scale
    };
    proof {
        lemma_excess_bits(sig as nat);
        lemma_pow2_below(0, 0);
        lemma_pow2_pos(drop as nat);
        assert(drop == dropped_bits(sig as nat, scale as int));
    }
    if drop >= 128 {
        proof {
            let p = pow2(drop as nat);
            lemma_pow2_below(128, drop as nat);
            lemma_pow2_unfold(128);
            lemma_basic_div(sig as int, p as int);
            lemma_small_mod(sig as nat, p);
        }
        return 0;
    }
    let p = power_of_two(drop as u32);
    let kept = sig / p;
    let rest = sig % p;
    proof {
        let ex = excess_bits(sig as nat);
        lemma_pow2_pos(ex);
        lemma_pow2_below(drop as nat, 127);
        if drop > ex {
            lemma_pow2_strictly_increases(ex, drop as nat);
            lemma_div_is_ordered_by_denominator(sig as int, pow2(ex) as int, p as int);
        }
        assert(kept < 2 * HIDDEN);
    }
    let up: u64 = if 2 * rest > p || (2 * rest == p && (sticky || kept % 2 == 1)) {
        1
    } else {
        0
    };
    let place = scale + drop;
    if place >= 2047 {
        proof {
            assert(place * (HIDDEN as nat) >= INFINITE) by (nonlinear_arith)
                requires
                    place >= 2047,
                    HIDDEN == 0x0010_0000_0000_0000,
                    INFINITE == 0x7FF0_0000_0000_0000,
            ;
        }
        return INFINITE;
    }
    proof {
        assert(place * (HIDDEN as nat) <= 2046 * HIDDEN) by (nonlinear_arith)
            requires
                0 <= place <= 2046,
        ;
        assert(place < 2028 ==> place * (HIDDEN as nat) <= 2027 * HIDDEN) by (nonlinear_arith)
            requires
                0 <= place,
        ;
    }
    let pattern = (place as u64) * HIDDEN + (kept as u64) + up;
    if pattern >= INFINITE {
        INFINITE
    } else {
        pattern
    }
}

/// Doubles a significand until it fills sixty-four bits.
pub fn widen(sig: u128) -> (r: (u128, u32))
    requires
        0 < sig < 0x4000_0000_0000_0000_0000_0000_0000_0000,
    ensures
        r.0 == sig * pow2(r.1 as nat),
        0x8000_0000_0000_0000 <= r.0 < 0x4000_0000_0000_0000_0000_0000_0000_0000,
        r.1 <= 63,
        r.1 > 0 ==> r.0 < 0x1_0000_0000_0000_0000,
{
    let mut wide: u128 = sig;
    let mut doubled: u32 = 0;
    let mut k: u32 = 32;
    proof {
        lemma_pow2_below(0, 0);
        assert(sig * 1 == sig) by (nonlinear_arith);
    }
    while k > 0
        invariant
            k == 32 || k == 16 || k == 8 || k == 4 || k == 2 || k == 1 || k == 0,
            wide == sig * pow2(doubled as nat),
            0 < wide < 0x4000_0000_0000_0000_0000_0000_0000_0000,
            doubled > 0 ==> wide < 0x1_0000_0000_0000_0000,
            k > 0 ==> wide >= pow2((64 - 2 * k) as nat) && doubled + 2 * k <= 64,
            k == 0 ==> wide >= 0x8000_0000_0000_0000 && doubled <= 63,
        decreases k,
    {
        let limit = power_of_two(64 - k);
        proof {
            lemma_pow2_below(0, 0);
        }
        if wide < limit {
            let by = power_of_two(k);
            proof {
                lemma_pow2_pos(k as nat);
                let p = pow2(doubled as nat) as int;
                let low = pow2((64 - 2 * k) as nat) as int;
                lemma_pow2_adds((64 - k) as nat, k as nat);
                lemma_pow2_adds((64 - 2 * k) as nat, k as nat);
                lemma_pow2_adds(doubled as nat, k as nat);
                assert(wide * by < limit * by && wide * by >= low * by) by (nonlinear_arith)
                    requires
                        low <= wide < limit,
                        by > 0,
                ;
                assert((sig * p) * by == sig * (p * by)) by (nonlinear_arith);
            }
            wide = wide * by;
            doubled = doubled + k;
        }
        k = k / 2;
    }
    (wide, doubled)
}

} // verus!
