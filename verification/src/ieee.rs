//! IEEE-754 bit patterns as plain integers: the two roundings that a preset
//! table needs, a quotient of small integers to a double and a double to a
//! single, both to nearest with ties to even.

use vstd::arithmetic::power2::{lemma2_to64, lemma_pow2_pos, lemma_pow2_unfold, pow2};
use vstd::prelude::*;

verus! {

/// One past the largest mantissa field of a double.
pub const DOUBLE_ONE: u64 = 0x10_0000_0000_0000;

/// The magnitude of the single infinity.
pub const SINGLE_INFINITY: u64 = 0x7F80_0000;

/// The magnitude of the quiet single NaN.
pub const SINGLE_NAN: u64 = 0x7FC0_0000;

/// `v` in whole `unit`s, rounded to the nearest, a tie to the even one.
pub open spec fn nearest_even(v: int, unit: int) -> int {
    let (q, r) = (v / unit, v % unit);
    if 2 * r > unit || (2 * r == unit && q % 2 == 1) {
        q + 1
    } else {
        q
    }
}

/// How often `v` is doubled until it reaches `least`.
pub open spec fn doublings(v: nat, least: nat) -> nat
    decreases
            if v < least {
                least - v
            } else {
                0
            },
{
    if v == 0 || v >= least {
        0
    } else {
        1 + doublings(2 * v, least)
    }
}

/// The bit pattern of the double nearest to `n / d`: the quotient is scaled
/// until its whole part fills the 53 significant bits, and each doubling
/// lowers the exponent by one.
pub open spec fn quotient_bits(n: nat, d: nat) -> int {
    let k = doublings(n, d * 0x10_0000_0000_0000);
    (1074 - k) * 0x10_0000_0000_0000 + nearest_even((n * pow2(k)) as int, d as int)
}

/// The exponent field of a double.
pub open spec fn exponent_of(bits: u64) -> int {
    bits as int / 0x10_0000_0000_0000 % 2048
}

/// The mantissa field of a double.
pub open spec fn mantissa_of(bits: u64) -> int {
    bits as int % 0x10_0000_0000_0000
}

/// The magnitude (every bit but the sign) of the single nearest to a double.
///
/// A single's magnitude counts units of its last place, so that rounding up
/// past the largest finite value lands on infinity. Below the smallest normal
/// single the unit stays the same while the double's shrinks.
pub open spec fn narrow_magnitude(exponent: int, mantissa: int) -> int {
    if exponent == 2047 {
        if mantissa == 0 {
            SINGLE_INFINITY as int
        } else {
            SINGLE_NAN as int
        }
    } else if exponent == 0 {
        nearest_even(mantissa, pow2(925) as int)
    } else if exponent < 897 {
        nearest_even(0x10_0000_0000_0000 + mantissa, pow2((926 - exponent) as nat) as int)
    } else {
        let units = nearest_even(
            (exponent - 896) * 0x10_0000_0000_0000 + mantissa,
            0x2000_0000,
        );
        if units < SINGLE_INFINITY {
            units
        } else {
            SINGLE_INFINITY as int
        }
    }
}

/// The bit pattern of the single nearest to a double given by its bits.
pub open spec fn narrowed(bits: u64) -> int {
    bits as int / 0x8000_0000_0000_0000 * 0x8000_0000 + narrow_magnitude(
        exponent_of(bits),
        mantissa_of(bits),
    )
}

/// Rounds `v / unit` to nearest, ties to even.
fn round_even(v: u128, unit: u128) -> (units: u128)
    requires
        0 < unit <= 0x1_0000_0000_0000_0000_0000_0000,
        v <= 0x1_0000_0000_0000_0000_0000_0000,
    ensures
        units == nearest_even(v as int, unit as int),
        units <= v / unit + 1,
        units >= v / unit,
{
    let q: u128 = v / unit;
    let r: u128 = v % unit;
    proof {
        vstd::arithmetic::div_mod::lemma_div_is_ordered_by_denominator(v as int, 1, unit as int);
    }
    if 2 * r > unit || (2 * r == unit && q % 2 == 1) {
        q + 1
    } else {
        q
    }
}

/// The bit pattern of the double nearest to `n / d`.
pub fn quotient(n: u32, d: u32) -> (bits: u64)
    requires
        n > 0,
        d > 0,
    ensures
        bits == quotient_bits(n as nat, d as nat),
{
    let least: u128 = (d as u128) * 0x10_0000_0000_0000u128;
    let mut v: u128 = n as u128;
    let mut k: u64 = 0;
    proof {
        lemma2_to64();
        assert(n * pow2(0) == n);
    }
    while v < least
        invariant
            n > 0,
            d > 0,
            least == d * 0x10_0000_0000_0000,
            v == n * pow2(k as nat),
            v < 2 * least,
            v >= 1 + k,
            k <= 1000,
            k <= 84 || v >= least,
            pow2(k as nat) <= v,
            doublings(n as nat, least as nat) == k + doublings(v as nat, least as nat),
        decreases
                if v < least {
                    least - v
                } else {
                    0
                },
    {
        proof {
            lemma_pow2_unfold((k + 1) as nat);
            assert(n * (2 * pow2(k as nat)) == 2 * (n * pow2(k as nat))) by (nonlinear_arith);
            if k >= 84 {
                lemma_large_power(k as nat);
            }
        }
        v = 2 * v;
        k = k + 1;
    }
    proof {
        assert(doublings(v as nat, least as nat) == 0);
        assert(d * 0x10_0000_0000_0000 <= v < 2 * (d * 0x10_0000_0000_0000));
        assert(v as int / d as int >= 0x10_0000_0000_0000 && (v as int / d as int)
            < 0x20_0000_0000_0000) by (nonlinear_arith)
            requires
                d > 0,
                d * 0x10_0000_0000_0000 <= v < 2 * (d * 0x10_0000_0000_0000),
        ;
    }
    let units: u64 = round_even(v, d as u128) as u64;
    (1074 - k) * 0x10_0000_0000_0000 + units
}

/// Two to the 84th and beyond exceeds every product of a `u32` with 2^52.
proof fn lemma_large_power(k: nat)
    requires
        k >= 84,
    ensures
        pow2(k) >= 0xFFFF_FFFF * 0x10_0000_0000_0000,
{
    lemma2_to64();
    vstd::arithmetic::power2::lemma_pow2_adds(32, 52);
    vstd::arithmetic::power2::lemma2_to64_rest();
    assert(pow2(84) == 0x1_0000_0000 * 0x10_0000_0000_0000);
    if k > 84 {
        vstd::arithmetic::power2::lemma_pow2_strictly_increases(84, k);
    }
}

/// A significand far below its unit rounds to zero.
proof fn lemma_vanishes(v: int, shift: nat)
    requires
        0 <= v < 0x20_0000_0000_0000,
        shift >= 55,
    ensures
        nearest_even(v, pow2(shift) as int) == 0,
{
    vstd::arithmetic::power2::lemma2_to64_rest();
    if shift > 55 {
        vstd::arithmetic::power2::lemma_pow2_strictly_increases(55, shift);
    }
    vstd::arithmetic::div_mod::lemma_basic_div(v, pow2(shift) as int);
    vstd::arithmetic::div_mod::lemma_small_mod(v as nat, pow2(shift));
}

/// Rounds a significand to units of `2^shift`.
fn round_shifted(v: u64, shift: u64) -> (units: u64)
    requires
        v < 0x20_0000_0000_0000,
    ensures
        units == nearest_even(v as int, pow2(shift as nat) as int),
        units <= v + 1,
{
    if shift >= 55 {
        proof {
            lemma_vanishes(v as int, shift as nat);
        }
        return 0;
    }
    let mut unit: u128 = 1;
    let mut k: u64 = 0;
    proof {
        lemma2_to64();
    }
    while k < shift
        invariant
            k <= shift < 55,
            unit == pow2(k as nat),
            unit <= 0x80_0000_0000_0000,
            k < shift ==> unit <= 0x40_0000_0000_0000,
        decreases shift - k,
    {
        proof {
            lemma_pow2_unfold((k + 1) as nat);
            vstd::arithmetic::power2::lemma2_to64_rest();
            if k + 1 < 54 {
                vstd::arithmetic::power2::lemma_pow2_strictly_increases((k + 1) as nat, 54);
            }
        }
        unit = 2 * unit;
        k = k + 1;
    }
    proof {
        lemma_pow2_pos(shift as nat);
        vstd::arithmetic::div_mod::lemma_div_is_ordered_by_denominator(v as int, 1, unit as int);
    }
    round_even(v as u128, unit) as u64
}

/// The bit pattern of the single nearest to a double given by its bits. Every
/// NaN becomes the quiet NaN of its sign.
pub fn narrow(bits: u64) -> (single: u32)
    ensures
        single == narrowed(bits),
{
    let exponent: u64 = bits / 0x10_0000_0000_0000 % 2048;
    let mantissa: u64 = bits % 0x10_0000_0000_0000;
    let sign: u64 = bits / 0x8000_0000_0000_0000;
    let magnitude: u64 = if exponent == 2047 {
        if mantissa == 0 {
            SINGLE_INFINITY
        } else {
            SINGLE_NAN
        }
    } else if exponent == 0 {
        proof {
            lemma_vanishes(mantissa as int, 925);
        }
        round_shifted(mantissa, 925)
    } else if exponent < 897 {
        let units: u64 = round_shifted(0x10_0000_0000_0000 + mantissa, 926 - exponent);
        proof {
            lemma_below_normal(0x10_0000_0000_0000 + mantissa, (926 - exponent) as nat);
        }
        units
    } else {
        let units: u64 = round_even(
            ((exponent - 896) * 0x10_0000_0000_0000 + mantissa) as u128,
            0x2000_0000,
        ) as u64;
        if units < SINGLE_INFINITY {
            units
        } else {
            SINGLE_INFINITY
        }
    };
    (sign * 0x8000_0000 + magnitude) as u32
}

/// Below the smallest normal single, a rounded significand fits a single's
/// magnitude.
proof fn lemma_below_normal(v: int, shift: nat)
    requires
        0 <= v < 0x20_0000_0000_0000,
        shift >= 30,
    ensures
        0 <= nearest_even(v, pow2(shift) as int) <= 0x100_0000,
{
    lemma2_to64();
    if shift > 30 {
        vstd::arithmetic::power2::lemma_pow2_strictly_increases(30, shift);
    }
    let unit = pow2(shift) as int;
    vstd::arithmetic::div_mod::lemma_div_is_ordered_by_denominator(v, 0x4000_0000, unit);
    vstd::arithmetic::div_mod::lemma_div_pos_is_pos(v, unit);
    assert(v / 0x4000_0000 < 0x80_0000);
}

/// The distance of two numbers.
pub open spec fn apart(a: int, b: int) -> int {
    if a < b {
        b - a
    } else {
        a - b
    }
}

/// A rounded count is nearest, and even where two are.
proof fn lemma_nearest(v: int, unit: int)
    requires
        v >= 0,
        unit > 0,
    ensures
        2 * apart(v, nearest_even(v, unit) * unit) <= unit,
        2 * apart(v, nearest_even(v, unit) * unit) == unit ==> nearest_even(v, unit) % 2 == 0,
        nearest_even(v, unit) >= 0,
{
    vstd::arithmetic::div_mod::lemma_fundamental_div_mod(v, unit);
    let (q, r) = (v / unit, v % unit);
    assert(unit * q == q * unit && (q + 1) * unit == q * unit + unit) by (nonlinear_arith);
    vstd::arithmetic::div_mod::lemma_div_pos_is_pos(v, unit);
}

/// Doubling a number until it reaches another stops within twice that.
proof fn lemma_doublings(v: nat, least: nat)
    requires
        v > 0,
        least > 0,
    ensures
        v >= least ==> doublings(v, least) == 0,
        v < least ==> least <= v * pow2(doublings(v, least)) < 2 * least,
    decreases
            if v < least {
                least - v
            } else {
                0
            },
{
    lemma2_to64();
    if v < least {
        let k = doublings(2 * v, least);
        lemma_doublings(2 * v, least);
        lemma_pow2_unfold((k + 1) as nat);
        assert(v * (2 * pow2(k)) == (2 * v) * pow2(k)) by (nonlinear_arith);
        if 2 * v >= least {
            assert(k == 0 && (2 * v) * 1 == 2 * v);
        }
    }
}

/// The double of a quotient is the nearest there is: its significand, 53 bits
/// long, times the divisor differs from the scaled dividend by no more than half
/// the divisor, and where that is a tie the significand is even.
pub proof fn lemma_quotient_is_nearest(n: u32, d: u32)
    requires
        n > 0,
        d > 0,
    ensures
        ({
            let bits = quotient_bits(n as nat, d as nat);
            let exponent = bits / 0x10_0000_0000_0000;
            let significand = 0x10_0000_0000_0000 + bits % 0x10_0000_0000_0000;
            let scale = pow2((1075 - exponent) as nat);
            &&& 0 < exponent <= 1075
            &&& 2 * apart(n * scale, significand * d) <= d
            &&& 2 * apart(n * scale, significand * d) == d ==> significand % 2 == 0
        }),
{
    let least = (d * 0x10_0000_0000_0000) as nat;
    let k = doublings(n as nat, least);
    let v = n * pow2(k);
    lemma2_to64();
    lemma_doublings(n as nat, least);
    assert(n < least) by (nonlinear_arith)
        requires
            n <= 0xFFFF_FFFF,
            d >= 1,
            least == d * 0x10_0000_0000_0000,
    ;
    assert(k <= 84) by {
        if k > 84 {
            lemma_large_power((k - 1) as nat);
            lemma_pow2_unfold(k);
            assert(n * pow2(k) >= pow2(k)) by (nonlinear_arith)
                requires
                    n >= 1,
                    pow2(k) >= 0,
            ;
            assert(least <= 0xFFFF_FFFF * 0x10_0000_0000_0000) by (nonlinear_arith)
                requires
                    d <= 0xFFFF_FFFF,
                    least == d * 0x10_0000_0000_0000,
            ;
        }
    }
    let u = nearest_even(v, d as int);
    lemma_nearest(v, d as int);
    assert(0x10_0000_0000_0000 <= u <= 0x20_0000_0000_0000) by (nonlinear_arith)
        requires
            d > 0,
            d * 0x10_0000_0000_0000 <= v < 2 * (d * 0x10_0000_0000_0000),
            2 * apart(v, u * d) <= d,
    ;
    assert(k > 0) by {
        if k == 0 {
            assert(n * 1 == n);
        }
    }
    let bits = quotient_bits(n as nat, d as nat);
    assert(bits == (1074 - k) * 0x10_0000_0000_0000 + u);
    if u < 0x20_0000_0000_0000 {
        assert(bits / 0x10_0000_0000_0000 == 1075 - k);
        assert(bits % 0x10_0000_0000_0000 == u - 0x10_0000_0000_0000);
    } else {
        assert(bits / 0x10_0000_0000_0000 == 1076 - k);
        assert(bits % 0x10_0000_0000_0000 == 0);
        let half = pow2((k - 1) as nat);
        lemma_pow2_unfold(k);
        assert(n * (2 * half) == 2 * (n * half)) by (nonlinear_arith);
        assert(u * d == 2 * (0x10_0000_0000_0000 * d)) by (nonlinear_arith)
            requires
                u == 0x20_0000_0000_0000,
        ;
        assert(apart(n * half, 0x10_0000_0000_0000 * d) * 2 == apart(v, u * d));
    }
}

/// A double narrows to the nearest single, the even one of two: between normal
/// singles their significands differ by no more than half a unit of the last of
/// 24 bits, and below the smallest normal single by no more than half of its unit.
/// What rounds past the largest single is infinite, infinities stay, what is no
/// number becomes the quiet one, and the sign stays.
pub proof fn lemma_narrowing_is_nearest(bits: u64)
    ensures
        ({
            let single = narrowed(bits);
            let (e, m) = (bits as int / 0x10_0000_0000_0000 % 2048, bits as int
                % 0x10_0000_0000_0000);
            let magnitude = single % 0x8000_0000;
            let (f, k) = (magnitude / 0x80_0000, magnitude % 0x80_0000);
            &&& 0 <= single <= 0xFFFF_FFFF
            &&& single >= 0x8000_0000 <==> bits >= 0x8000_0000_0000_0000
            &&& e == 2047 && m == 0 ==> magnitude == 0x7F80_0000
            &&& e == 2047 && m != 0 ==> magnitude == 0x7FC0_0000
            &&& 897 <= e < 2047 && (e > 1150 || (e == 1150 && m >= 0xF_FFFF_F000_0000))
                ==> magnitude == 0x7F80_0000
            &&& 897 <= e && (e < 1150 || (e == 1150 && m < 0xF_FFFF_F000_0000)) ==> {
                &&& f == e - 896 || (f == e - 895 && k == 0)
                &&& f == e - 896 ==> 2 * apart(
                    0x10_0000_0000_0000 + m,
                    (0x80_0000 + k) * 0x2000_0000,
                ) <= 0x2000_0000
                &&& f == e - 896 && 2 * apart(
                    0x10_0000_0000_0000 + m,
                    (0x80_0000 + k) * 0x2000_0000,
                ) == 0x2000_0000 ==> k % 2 == 0
                &&& f == e - 895 ==> 0x10_0000_0000_0000 - m <= 0x1000_0000
            }
            &&& 1 <= e < 897 ==> {
                let unit = pow2((926 - e) as nat);
                &&& 2 * apart(0x10_0000_0000_0000 + m, magnitude * unit) <= unit
                &&& 2 * apart(0x10_0000_0000_0000 + m, magnitude * unit) == unit ==> magnitude % 2
                    == 0
            }
            &&& e == 0 ==> magnitude == 0
        }),
{
    let (e, m) = (bits as int / 0x10_0000_0000_0000 % 2048, bits as int % 0x10_0000_0000_0000);
    let magnitude = narrow_magnitude(e, m);
    if e == 0 {
        lemma_vanishes(m, 925);
    } else if e < 897 {
        let shift = (926 - e) as nat;
        lemma_pow2_pos(shift);
        lemma_nearest(0x10_0000_0000_0000 + m, pow2(shift) as int);
        lemma_below_normal(0x10_0000_0000_0000 + m, shift);
    } else if e < 2047 {
        let v = (e - 896) * 0x10_0000_0000_0000 + m;
        lemma_nearest(v, 0x2000_0000);
        let units = nearest_even(v, 0x2000_0000);
        lemma_normal_parts(e, m, units);
    }
    assert(0 <= magnitude < 0x8000_0000);
}

/// How a rounded count of units splits into an exponent and a fraction.
proof fn lemma_normal_parts(e: int, m: int, units: int)
    requires
        897 <= e < 2047,
        0 <= m < 0x10_0000_0000_0000,
        units == nearest_even((e - 896) * 0x10_0000_0000_0000 + m, 0x2000_0000),
    ensures
        ({
            let (f, k) = (units / 0x80_0000, units % 0x80_0000);
            &&& units >= 0x7F80_0000 <==> e > 1150 || (e == 1150 && m >= 0xF_FFFF_F000_0000)
            &&& f == e - 896 || (f == e - 895 && k == 0)
            &&& f == e - 896 ==> 2 * apart(
                0x10_0000_0000_0000 + m,
                (0x80_0000 + k) * 0x2000_0000,
            ) <= 0x2000_0000
            &&& f == e - 896 && 2 * apart(
                0x10_0000_0000_0000 + m,
                (0x80_0000 + k) * 0x2000_0000,
            ) == 0x2000_0000 ==> k % 2 == 0
            &&& f == e - 895 ==> 0x10_0000_0000_0000 - m <= 0x1000_0000
        }),
{
    let v = (e - 896) * 0x10_0000_0000_0000 + m;
    let q = m / 0x2000_0000;
    let r = m % 0x2000_0000;
    assert(v / 0x2000_0000 == (e - 896) * 0x80_0000 + q);
    assert(v % 0x2000_0000 == r);
    assert(0 <= q < 0x80_0000);
    let up = 2 * r > 0x2000_0000 || (2 * r == 0x2000_0000 && q % 2 == 1);
    assert(((e - 896) * 0x80_0000 + q) % 2 == q % 2);
    if up {
        assert(units == (e - 896) * 0x80_0000 + (q + 1));
        if q + 1 < 0x80_0000 {
            assert(units / 0x80_0000 == e - 896 && units % 0x80_0000 == q + 1);
        } else {
            assert(units / 0x80_0000 == e - 895 && units % 0x80_0000 == 0);
        }
    } else {
        assert(units == (e - 896) * 0x80_0000 + q);
        assert(units / 0x80_0000 == e - 896 && units % 0x80_0000 == q);
    }
}

} // verus!
