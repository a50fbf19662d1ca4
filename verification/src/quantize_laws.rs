//! What quantization does, said of the numbers that bit patterns stand for.

use crate::quantize::{
    half_byte, half_value, law_quantized_ends, law_quantized_monotone, lemma_spacing_range,
    nearest_quotient, quantized, rounded, single_byte, single_value,
};
use vstd::arithmetic::power2::{lemma_pow2_pos, lemma_pow2_unfold, pow2};
use vstd::prelude::*;

verus! {

/// `r` is the multiple of `2^k` nearest to `n`, an even one where two are as near, and
/// `n` has 24 significant bits above that unit (or fewer, where the unit is one).
pub open spec fn is_rounded(n: int, r: int, k: nat, q: int) -> bool {
    &&& r == q * pow2(k)
    &&& n < 0x100_0000 * pow2(k)
    &&& k > 0 ==> 0x80_0000 * pow2(k) <= n
    &&& 2 * (n - r) <= pow2(k)
    &&& 2 * (r - n) <= pow2(k)
    &&& 2 * (n - r) == pow2(k) || 2 * (r - n) == pow2(k) ==> q % 2 == 0
}

/// Rounding goes to the nearest number of 24 significant bits, ties to even.
pub proof fn law_rounded(n: int)
    requires
        0 <= n,
    ensures
        exists|k: nat, q: int| is_rounded(n, rounded(n), k, q),
{
    let k = lemma_spacing_range(n);
    let u = pow2(k) as int;
    lemma_pow2_pos(k);
    let q = n / u;
    let r = n % u;
    vstd::arithmetic::div_mod::lemma_fundamental_div_mod(n, u);
    vstd::arithmetic::div_mod::lemma_mod_bound(n, u);
    let near = nearest_quotient(n, u);
    assert(u * q == q * u) by (nonlinear_arith);
    assert((q + 1) * u == q * u + u) by (nonlinear_arith);
    assert(rounded(n) == near * u);
    if near == q {
        assert(n - rounded(n) == r);
    } else {
        assert(near == q + 1);
        assert(rounded(n) - n == u - r);
        if 2 * r == u {
            assert(q % 2 != 0);
            assert((q + 1) % 2 == 0);
        }
    }
    assert(is_rounded(n, rounded(n), k, near));
}

/// The byte of a number in units of `2^-149`: nothing at -1 or below; otherwise the
/// number plus one, rounded, times 127.5, rounded, and then to the nearest integer with
/// halves upward, but no more than 255.
pub proof fn law_quantized(x: int)
    ensures
        x <= -(pow2(149) as int) ==> quantized(x) == 0,
        x > -(pow2(149) as int) ==> {
            let product = rounded(255 * rounded(x + pow2(149)));
            let one = 2 * pow2(149);
            &&& product >= 255 * one ==> quantized(x) == 255
            &&& product < 255 * one ==> one * quantized(x) <= product + pow2(149) < one * (
            quantized(x) + 1)
        },
{
    law_quantized_ends(x);
    lemma_pow2_pos(149);
    lemma_pow2_unfold(150);
    let one = pow2(150) as int;
    let half = pow2(149) as int;
    assert(one == 2 * half);
    if x > -half {
        let product = rounded(255 * rounded(x + half));
        let full = 255 * one;
        if product < full {
            vstd::arithmetic::div_mod::lemma_fundamental_div_mod(product + half, one);
            vstd::arithmetic::div_mod::lemma_mod_bound(product + half, one);
            let b = quantized(x);
            assert(b == (product + half) / one);
            assert(one * (b + 1) == one * b + one) by (nonlinear_arith);
        } else {
            vstd::arithmetic::div_mod::lemma_fundamental_div_mod_converse(
                full + half,
                one,
                255,
                half,
            );
        }
    }
}

/// The number that a single-precision pattern stands for, by sign, exponent and fraction.
pub proof fn law_single_value(negative: bool, exponent: int, fraction: int, bits: u32)
    requires
        0 <= exponent < 255,
        0 <= fraction < 0x80_0000,
        bits == (if negative {
            0x8000_0000int
        } else {
            0
        }) + exponent * 0x80_0000 + fraction,
    ensures
        exponent == 0 && !negative ==> single_value(bits) == fraction,
        exponent == 0 && negative ==> single_value(bits) == -fraction,
        exponent > 0 && !negative ==> single_value(bits) == (0x80_0000 + fraction) * pow2(
            (exponent - 1) as nat,
        ),
        exponent > 0 && negative ==> single_value(bits) == -((0x80_0000 + fraction) * pow2(
            (exponent - 1) as nat,
        )),
        single_byte(bits) == quantized(single_value(bits)),
{
    let mag = bits as int % 0x8000_0000;
    assert(mag == exponent * 0x80_0000 + fraction);
    assert(mag / 0x80_0000 == exponent);
    assert(mag % 0x80_0000 == fraction);
}

/// The number that a half-precision pattern stands for, by sign, exponent and fraction.
pub proof fn law_half_value(negative: bool, exponent: int, fraction: int, bits: u16)
    requires
        0 <= exponent < 31,
        0 <= fraction < 0x400,
        bits == (if negative {
            0x8000int
        } else {
            0
        }) + exponent * 0x400 + fraction,
    ensures
        exponent == 0 && !negative ==> half_value(bits) == fraction,
        exponent == 0 && negative ==> half_value(bits) == -fraction,
        exponent > 0 && !negative ==> half_value(bits) == (0x400 + fraction) * pow2(
            (exponent - 1) as nat,
        ),
        exponent > 0 && negative ==> half_value(bits) == -((0x400 + fraction) * pow2(
            (exponent - 1) as nat,
        )),
        half_byte(bits) == quantized(half_value(bits) * pow2(125)),
{
    let mag = bits as int % 0x8000;
    assert(mag == exponent * 0x400 + fraction);
    assert(mag / 0x400 == exponent);
    assert(mag % 0x400 == fraction);
}

/// Patterns that stand for no finite number: the infinities go to the ends of the scale,
/// what is no number goes to 0.
pub proof fn law_not_finite(single: u32, half: u16)
    ensures
        0x7f80_0000 < single < 0x8000_0000 || 0xff80_0000 < single ==> single_byte(single) == 0,
        single_byte(0x7f80_0000) == 255,
        single_byte(0xff80_0000) == 0,
        0x7c00 < half < 0x8000 || 0xfc00 < half ==> half_byte(half) == 0,
        half_byte(0x7c00) == 255,
        half_byte(0xfc00) == 0,
{
}

/// A larger component never goes to a smaller byte.
pub proof fn law_bytes_ordered(a: u32, b: u32)
    requires
        a % 0x8000_0000 < 0x7f80_0000,
        b % 0x8000_0000 < 0x7f80_0000,
        single_value(a) <= single_value(b),
    ensures
        0 <= single_byte(a) <= single_byte(b) <= 255,
{
    law_quantized_monotone(single_value(a), single_value(b));
}

} // verus!
