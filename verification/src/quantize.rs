//! Quantization of vector components to a byte: -1 goes to 0, 1 to 255.
//!
//! The byte is `round((v + 1.0) * 127.5)`, clamped, in single-precision arithmetic.
//! Here the sum and the product are rounded in integers, as the hardware rounds
//! them: to 24 significant bits, ties to even.

use vstd::arithmetic::div_mod::{lemma_fundamental_div_mod, lemma_fundamental_div_mod_converse};
use vstd::arithmetic::power2::{
    lemma2_to64, lemma_pow2_adds, lemma_pow2_pos, lemma_pow2_strictly_increases,
    lemma_pow2_unfold, pow2,
};
use vstd::prelude::*;

verus! {

/// The spacing of single-precision numbers around `n`, in units in which the
/// smallest ones are integers: 1 below `2^24`, and twice as much for each doubling.
pub open spec fn spacing(n: int) -> int
    decreases n,
{
    if n < 0x100_0000 {
        1
    } else {
        2 * spacing(n / 2)
    }
}

/// The integer nearest to `n / u`, the even one where two are as near.
pub open spec fn nearest_quotient(n: int, u: int) -> int {
    let q = n / u;
    let r = n % u;
    if 2 * r < u || (2 * r == u && q % 2 == 0) {
        q
    } else {
        q + 1
    }
}

/// `n` rounded to 24 significant bits, ties to even.
pub open spec fn rounded(n: int) -> int {
    nearest_quotient(n, spacing(n)) * spacing(n)
}

/// The byte of a number that is given in units of `2^-149`, the smallest positive
/// single-precision number: one is added and the sum rounded; the sum is multiplied
/// by 255 halves and the product rounded (in units of `2^-150`); the product is
/// clamped and rounded to the nearest integer, halves upward.
pub open spec fn quantized(x: int) -> int {
    let sum = x + pow2(149);
    if sum <= 0 {
        0
    } else {
        let product = rounded(255 * rounded(sum));
        let full = 255 * pow2(150) as int;
        let clamped = if product < full {
            product
        } else {
            full
        };
        (clamped + pow2(149)) / (pow2(150) as int)
    }
}

/// Value of a finite single-precision bit pattern in units of `2^-149`.
pub open spec fn single_value(bits: u32) -> int {
    let mag = bits as int % 0x8000_0000;
    let exponent = mag / 0x80_0000;
    let fraction = mag % 0x80_0000;
    let size = if exponent == 0 {
        fraction
    } else {
        (0x80_0000 + fraction) * pow2((exponent - 1) as nat)
    };
    if bits >= 0x8000_0000 {
        -size
    } else {
        size
    }
}

/// Value of a finite half-precision bit pattern in units of `2^-24`, the smallest
/// positive half-precision number.
pub open spec fn half_value(bits: u16) -> int {
    let mag = bits as int % 0x8000;
    let exponent = mag / 0x400;
    let fraction = mag % 0x400;
    let size = if exponent == 0 {
        fraction
    } else {
        (0x400 + fraction) * pow2((exponent - 1) as nat)
    };
    if bits >= 0x8000 {
        -size
    } else {
        size
    }
}

/// Byte of a single-precision bit pattern: 0 for what is not a number, 0 and 255
/// for the infinities, [`quantized`] otherwise.
pub open spec fn single_byte(bits: u32) -> int {
    let mag = bits as int % 0x8000_0000;
    if mag > 0x7f80_0000 {
        0
    } else if mag == 0x7f80_0000 {
        if bits >= 0x8000_0000 {
            0
        } else {
            255
        }
    } else {
        quantized(single_value(bits))
    }
}

/// Byte of a half-precision bit pattern, as [`single_byte`].
pub open spec fn half_byte(bits: u16) -> int {
    let mag = bits as int % 0x8000;
    if mag > 0x7c00 {
        0
    } else if mag == 0x7c00 {
        if bits >= 0x8000 {
            0
        } else {
            255
        }
    } else {
        quantized(half_value(bits) * pow2(125))
    }
}

/// Scaling both sides of a division leaves its nearest quotient.
proof fn lemma_scaled_quotient(n: int, u: int, c: int)
    requires
        0 <= n,
        0 < u,
        0 < c,
    ensures
        nearest_quotient(c * n, c * u) == nearest_quotient(n, u),
{
    let q = n / u;
    let r = n % u;
    lemma_fundamental_div_mod(n, u);
    assert(0 < c * u) by (nonlinear_arith)
        requires
            0 < u,
            0 < c,
    ;
    assert(c * n == q * (c * u) + c * r) by (nonlinear_arith)
        requires
            n == u * q + r,
    ;
    assert(0 <= c * r < c * u) by (nonlinear_arith)
        requires
            0 <= r < u,
            0 < c,
    ;
    lemma_fundamental_div_mod_converse(c * n, c * u, q, c * r);
    assert((2 * r < u) == (2 * (c * r) < c * u)) by (nonlinear_arith)
        requires
            0 < c,
    ;
    assert((2 * r == u) == (2 * (c * r) == c * u)) by (nonlinear_arith)
        requires
            0 < c,
    ;
}

/// Adding an even multiple of the divisor adds it to the nearest quotient.
proof fn lemma_shifted_quotient(n: int, u: int, k: int)
    requires
        0 < u,
        k % 2 == 0,
    ensures
        nearest_quotient(k * u + n, u) == k + nearest_quotient(n, u),
{
    let q = n / u;
    let r = n % u;
    lemma_fundamental_div_mod(n, u);
    assert(k * u + n == (k + q) * u + r) by (nonlinear_arith)
        requires
            n == u * q + r,
    ;
    lemma_fundamental_div_mod_converse(k * u + n, u, k + q, r);
}

/// Subtracting from an even multiple of the divisor reflects the nearest quotient.
proof fn lemma_reflected_quotient(n: int, u: int, k: int)
    requires
        0 < u,
        k % 2 == 0,
    ensures
        nearest_quotient(k * u - n, u) == k - nearest_quotient(n, u),
{
    let q = n / u;
    let r = n % u;
    lemma_fundamental_div_mod(n, u);
    if r == 0 {
        assert(k * u - n == (k - q) * u) by (nonlinear_arith)
            requires
                n == u * q,
        ;
        lemma_fundamental_div_mod_converse(k * u - n, u, k - q, 0);
    } else {
        assert(k * u - n == (k - q - 1) * u + (u - r)) by (nonlinear_arith)
            requires
                n == u * q + r,
        ;
        lemma_fundamental_div_mod_converse(k * u - n, u, k - q - 1, u - r);
    }
}

/// The spacing between consecutive powers of two.
proof fn lemma_spacing(n: int, k: nat)
    requires
        0x80_0000 * pow2(k) <= n < 0x100_0000 * pow2(k),
    ensures
        spacing(n) == pow2(k),
    decreases k,
{
    lemma2_to64();
    if k > 0 {
        lemma_pow2_unfold(k);
        lemma_pow2_pos((k - 1) as nat);
        lemma_spacing(n / 2, (k - 1) as nat);
    }
}

/// The spacing is positive.
proof fn lemma_spacing_pos(n: int)
    ensures
        spacing(n) > 0,
    decreases n,
{
    if n >= 0x100_0000 {
        lemma_spacing_pos(n / 2);
    }
}

/// Numbers of at most 24 bits are not rounded.
proof fn lemma_exact(n: int)
    requires
        0 <= n < 0x100_0000,
    ensures
        rounded(n) == n,
{
}

/// Rounding commutes with scaling by a power of two.
proof fn lemma_rounded_scaled(n: int, k: nat)
    requires
        0 <= n,
    ensures
        rounded(n * pow2(k)) == rounded(n) * pow2(k),
    decreases k,
{
    lemma2_to64();
    if k > 0 {
        let half = (k - 1) as nat;
        lemma_rounded_scaled(n, half);
        lemma_pow2_unfold(k);
        lemma_pow2_pos(half);
        let m = n * pow2(half);
        assert(0 <= m) by (nonlinear_arith)
            requires
                0 <= n,
                m == n * pow2(half),
        ;
        assert(n * pow2(k) == 2 * m) by (nonlinear_arith)
            requires
                m == n * pow2(half),
                pow2(k) == 2 * pow2(half),
        ;
        lemma_rounded_doubled(m);
        assert(rounded(n) * pow2(k) == 2 * (rounded(n) * pow2(half))) by (nonlinear_arith)
            requires
                pow2(k) == 2 * pow2(half),
        ;
    } else {
        assert(n * pow2(0) == n);
        assert(rounded(n) * pow2(0) == rounded(n));
    }
}

/// Rounding commutes with doubling.
proof fn lemma_rounded_doubled(n: int)
    requires
        0 <= n,
    ensures
        rounded(2 * n) == 2 * rounded(n),
{
    if 2 * n < 0x100_0000 {
        lemma_exact(2 * n);
        lemma_exact(n);
    } else {
        let u = spacing(n);
        lemma_spacing_pos(n);
        assert((2 * n) / 2 == n);
        assert(spacing(2 * n) == 2 * u);
        lemma_scaled_quotient(n, u, 2);
        let q = nearest_quotient(n, u);
        assert(q * (2 * u) == 2 * (q * u)) by (nonlinear_arith);
    }
}

/// One plus a number below one, rounded, in units of `2^-24`. The number is
/// `m * 2^(e - 150)`.
proof fn lemma_sum_above(m: int, e: nat)
    requires
        0 <= m < 0x100_0000,
        1 <= e <= 126,
    ensures
        rounded(pow2(149) + m * pow2((e - 1) as nat)) == (0x100_0000 + 2 * nearest_quotient(
            m,
            pow2((127 - e) as nat) as int,
        )) * pow2(125),
{
    let c = pow2((e - 1) as nat) as int;
    let w = pow2((127 - e) as nat) as int;
    let n = pow2(149) + m * c;
    lemma2_to64();
    lemma_pow2_pos((e - 1) as nat);
    lemma_pow2_pos((127 - e) as nat);
    lemma_pow2_adds((e - 1) as nat, (127 - e) as nat);
    lemma_pow2_adds(23, 126);
    lemma_pow2_unfold(126);
    assert(pow2(126) == c * w);
    assert(pow2(149) == 0x80_0000 * pow2(126));
    assert(0 <= m * c < 0x100_0000 * pow2(125)) by {
        if e - 1 < 125 {
            lemma_pow2_strictly_increases((e - 1) as nat, 125);
        }
        assert(0 <= m * c < 0x100_0000 * pow2(125)) by (nonlinear_arith)
            requires
                0 <= m < 0x100_0000,
                0 < c <= pow2(125),
        ;
    }
    lemma_spacing(n, 126);
    assert(n == c * (0x80_0000 * w + m)) by (nonlinear_arith)
        requires
            n == 0x80_0000 * (c * w) + m * c,
    ;
    assert(0 <= 0x80_0000 * w + m);
    lemma_scaled_quotient(0x80_0000 * w + m, w, c);
    lemma_shifted_quotient(m, w, 0x80_0000);
    let q = nearest_quotient(m, w);
    assert((0x80_0000 + q) * pow2(126) == (0x100_0000 + 2 * q) * pow2(125)) by (nonlinear_arith)
        requires
            pow2(126) == 2 * pow2(125),
    ;
}

/// One minus a number below one, rounded, in units of `2^-24`.
proof fn lemma_sum_below(m: int, e: nat)
    requires
        0 < m < 0x100_0000,
        1 <= e <= 126,
    ensures
        rounded(pow2(149) - m * pow2((e - 1) as nat)) == (0x100_0000 - nearest_quotient(
            m,
            pow2((126 - e) as nat) as int,
        )) * pow2(125),
        pow2(149) - m * pow2((e - 1) as nat) > 0,
{
    let c = pow2((e - 1) as nat) as int;
    let w = pow2((126 - e) as nat) as int;
    let n = pow2(149) - m * c;
    lemma2_to64();
    lemma_pow2_pos((e - 1) as nat);
    lemma_pow2_pos((126 - e) as nat);
    lemma_pow2_adds((e - 1) as nat, (126 - e) as nat);
    lemma_pow2_adds(24, 125);
    assert(pow2(125) == c * w);
    assert(pow2(149) == 0x100_0000 * pow2(125));
    assert(n == c * (0x100_0000 * w - m)) by (nonlinear_arith)
        requires
            n == 0x100_0000 * (c * w) - m * c,
    ;
    assert(0x100_0000 * w - m > 0);
    assert(n > 0) by (nonlinear_arith)
        requires
            n == c * (0x100_0000 * w - m),
            0 < c,
            0x100_0000 * w - m > 0,
    ;
    if e == 126 {
        assert(n == (0x100_0000 - m) * pow2(125)) by (nonlinear_arith)
            requires
                n == c * (0x100_0000 * w - m),
                w == 1,
                c == pow2(125),
        ;
        lemma_rounded_scaled(0x100_0000 - m, 125);
        lemma_exact(0x100_0000 - m);
    } else {
        lemma_pow2_unfold(125);
        if e - 1 < 124 {
            lemma_pow2_strictly_increases((e - 1) as nat, 124);
        }
        assert(0 < m * c < 0x100_0000 * pow2(124)) by (nonlinear_arith)
            requires
                0 < m < 0x100_0000,
                0 < c <= pow2(124),
        ;
        lemma_spacing(n, 125);
        lemma_scaled_quotient(0x100_0000 * w - m, w, c);
        lemma_reflected_quotient(m, w, 0x100_0000);
    }
}

/// From the rounded sum in units of `2^-24` to the byte.
proof fn lemma_byte(x: int, s: int)
    requires
        x + pow2(149) > 0,
        rounded(x + pow2(149)) == s * pow2(125),
        0 <= s,
    ensures
        quantized(x) == ({
            let product = rounded(255 * s);
            let clamped = if product < 255 * 0x200_0000 {
                product
            } else {
                255 * 0x200_0000int
            };
            (clamped + 0x100_0000) / 0x200_0000
        }),
{
    let c = pow2(125) as int;
    lemma2_to64();
    lemma_pow2_pos(125);
    lemma_pow2_adds(24, 125);
    lemma_pow2_adds(25, 125);
    assert(255 * (s * c) == (255 * s) * c) by (nonlinear_arith);
    lemma_rounded_scaled(255 * s, 125);
    let product = rounded(255 * s);
    assert((product * c < (255 * 0x200_0000) * c) == (product < 255 * 0x200_0000))
        by (nonlinear_arith)
        requires
            0 < c,
    ;
    let clamped = if product < 255 * 0x200_0000 {
        product
    } else {
        255 * 0x200_0000int
    };
    lemma_spacing_pos(255 * s);
    assert(0 <= product) by {
        let u = spacing(255 * s);
        lemma_fundamental_div_mod(255 * s, u);
        assert((255 * s) / u >= 0) by (nonlinear_arith)
            requires
                0 <= s,
                0 < u,
        ;
        assert(product == nearest_quotient(255 * s, u) * u);
        assert(0 <= product) by (nonlinear_arith)
            requires
                product == nearest_quotient(255 * s, u) * u,
                nearest_quotient(255 * s, u) >= 0,
                0 < u,
        ;
    }
    let top = clamped + 0x100_0000;
    assert(clamped * c + 0x100_0000 * c == top * c) by (nonlinear_arith)
        requires
            top == clamped + 0x100_0000,
    ;
    let q = top / 0x200_0000;
    let r = top % 0x200_0000;
    assert(top * c == q * (0x200_0000 * c) + r * c) by (nonlinear_arith)
        requires
            top == 0x200_0000 * q + r,
    ;
    assert(0 <= r * c < 0x200_0000 * c) by (nonlinear_arith)
        requires
            0 <= r < 0x200_0000,
            0 < c,
    ;
    lemma_fundamental_div_mod_converse(top * c, 0x200_0000 * c, q, r * c);
    assert(pow2(149) == 0x100_0000 * c);
    assert(pow2(150) == 0x200_0000 * c);
    let full = 255 * pow2(150) as int;
    assert(full == (255 * 0x200_0000) * c) by (nonlinear_arith)
        requires
            full == 255 * pow2(150),
            pow2(150) == 0x200_0000 * c,
    ;
    let scaled = if product * c < full {
        product * c
    } else {
        full
    };
    assert(scaled == clamped * c);
    assert(quantized(x) == (scaled + pow2(149)) / (pow2(150) as int));
}

/// The spacing around `n` is a power of two that fits `n` between 23 and 24 bits
/// (or is 1).
pub proof fn lemma_spacing_range(n: int) -> (k: nat)
    requires
        0 <= n,
    ensures
        spacing(n) == pow2(k),
        n < 0x100_0000 * pow2(k),
        k > 0 ==> 0x80_0000 * pow2(k) <= n,
    decreases n,
{
    lemma2_to64();
    if n < 0x100_0000 {
        0
    } else {
        let k = lemma_spacing_range(n / 2);
        lemma_pow2_unfold(k + 1);
        k + 1
    }
}

/// The nearest quotient grows with the dividend.
proof fn lemma_quotient_grows(a: int, b: int, u: int)
    requires
        0 <= a <= b,
        0 < u,
    ensures
        nearest_quotient(a, u) <= nearest_quotient(b, u),
{
    lemma_fundamental_div_mod(a, u);
    lemma_fundamental_div_mod(b, u);
    vstd::arithmetic::div_mod::lemma_div_is_ordered(a, b, u);
}

/// A multiple of the divisor is its own nearest.
proof fn lemma_quotient_exact(q: int, u: int)
    requires
        0 < u,
    ensures
        nearest_quotient(q * u, u) == q,
{
    lemma_fundamental_div_mod_converse(q * u, u, q, 0);
}

/// Rounding preserves order.
pub proof fn law_rounded_monotone(a: int, b: int)
    requires
        0 <= a <= b,
    ensures
        0 <= rounded(a) <= rounded(b),
{
    let j = lemma_spacing_range(a);
    let k = lemma_spacing_range(b);
    let u = pow2(j) as int;
    let w = pow2(k) as int;
    lemma_pow2_pos(j);
    lemma_pow2_pos(k);
    let p = nearest_quotient(a, u);
    let q = nearest_quotient(b, w);
    lemma_quotient_exact(0, u);
    lemma_quotient_grows(0, a, u);
    assert(0 <= p * u) by (nonlinear_arith)
        requires
            0 <= p,
            0 < u,
    ;
    if j == k {
        lemma_quotient_grows(a, b, u);
        assert(p * u <= q * u) by (nonlinear_arith)
            requires
                p <= q,
                0 < u,
        ;
    } else if j < k {
        lemma_quotient_exact(0x100_0000, u);
        lemma_quotient_grows(a, 0x100_0000 * u, u);
        lemma_quotient_exact(0x80_0000, w);
        lemma_quotient_grows(0x80_0000 * w, b, w);
        lemma_pow2_unfold(k);
        if j < k - 1 {
            lemma_pow2_strictly_increases(j, (k - 1) as nat);
        }
        assert(p * u <= 0x100_0000 * u) by (nonlinear_arith)
            requires
                p <= 0x100_0000,
                0 < u,
        ;
        assert(0x80_0000 * w <= q * w) by (nonlinear_arith)
            requires
                0x80_0000 <= q,
                0 < w,
        ;
    } else {
        lemma_pow2_unfold(j);
        if k < j - 1 {
            lemma_pow2_strictly_increases(k, (j - 1) as nat);
        }
        assert(false);
    }
}

/// Quantization preserves order and gives bytes.
pub proof fn law_quantized_monotone(x: int, y: int)
    requires
        x <= y,
    ensures
        0 <= quantized(x) <= quantized(y) <= 255,
{
    lemma_pow2_pos(149);
    lemma_pow2_pos(150);
    lemma_pow2_unfold(150);
    let one = pow2(150) as int;
    let half = pow2(149) as int;
    if y + half > 0 {
        if x + half > 0 {
            law_rounded_monotone(x + half, y + half);
            law_rounded_monotone(255 * rounded(x + half), 255 * rounded(y + half));
            lemma_level(rounded(255 * rounded(x + half)), rounded(255 * rounded(y + half)), half);
        } else {
            law_rounded_monotone(y + half, y + half);
            law_rounded_monotone(255 * rounded(y + half), 255 * rounded(y + half));
            lemma_level(0, rounded(255 * rounded(y + half)), half);
        }
    }
}

/// Clamping and rounding to an integer preserve order.
proof fn lemma_level(a: int, b: int, half: int)
    requires
        0 <= a <= b,
        half > 0,
    ensures
        ({
            let one = 2 * half;
            let full = 255 * one;
            let p = (if a < full {
                a
            } else {
                full
            }) + half;
            let q = (if b < full {
                b
            } else {
                full
            }) + half;
            0 <= p / one <= q / one <= 255
        }),
{
    let one = 2 * half;
    let full = 255 * one;
    let p = (if a < full {
        a
    } else {
        full
    }) + half;
    let q = (if b < full {
        b
    } else {
        full
    }) + half;
    vstd::arithmetic::div_mod::lemma_div_is_ordered(0, p, one);
    vstd::arithmetic::div_mod::lemma_div_is_ordered(p, q, one);
    vstd::arithmetic::div_mod::lemma_div_is_ordered(q, full + half, one);
    lemma_fundamental_div_mod_converse(0, one, 0, 0);
    lemma_fundamental_div_mod_converse(full + half, one, 255, half);
}

/// The ends of the scale: -1 and everything below go to 0, 1 and everything above
/// to 255; 0 goes to 128.
pub proof fn law_quantized_ends(x: int)
    ensures
        x <= -(pow2(149) as int) ==> quantized(x) == 0,
        x >= pow2(149) ==> quantized(x) == 255,
        quantized(0) == 128,
{
    let half = pow2(149) as int;
    lemma2_to64();
    lemma_pow2_pos(149);
    lemma_pow2_pos(125);
    lemma_pow2_unfold(150);
    lemma_pow2_adds(24, 125);
    lemma_pow2_adds(25, 125);
    assert(pow2(149) == 0x100_0000 * pow2(125));
    assert(pow2(150) == 0x200_0000 * pow2(125));
    lemma_rounded_scaled(0x100_0000, 125);
    lemma_rounded_scaled(0x200_0000, 125);
    lemma_exact(1);
    lemma_rounded_scaled(1, 24);
    lemma_rounded_scaled(1, 25);
    lemma_byte(half, 0x200_0000);
    lemma_byte(0, 0x100_0000);
    lemma_exact(255);
    lemma_rounded_scaled(255, 24);
    lemma_rounded_scaled(255, 25);
    if x >= half {
        law_quantized_monotone(half, x);
    }
}

/// A power of two.
fn power(k: u32) -> (r: u64)
    requires
        k < 64,
    ensures
        r == pow2(k as nat),
{
    let mut r: u64 = 1;
    proof {
        lemma2_to64();
    }
    for i in 0..k
        invariant
            k < 64,
            r == pow2(i as nat),
    {
        proof {
            lemma_pow2_unfold((i + 1) as nat);
            lemma2_to64();
            vstd::arithmetic::power2::lemma2_to64_rest();
            if i + 1 < 63 {
                lemma_pow2_strictly_increases((i + 1) as nat, 63);
            }
        }
        r = r * 2;
    }
    r
}

/// The integer nearest to `n / u`, the even one where two are as near.
fn nearest_div(n: u64, u: u64) -> (r: u64)
    requires
        0 < u <= 0x4000_0000_0000_0000,
        n < 0x8000_0000_0000_0000,
    ensures
        r == nearest_quotient(n as int, u as int),
{
    let q: u64 = n / u;
    let r: u64 = n % u;
    assert(q <= n) by (nonlinear_arith)
        requires
            q == n as int / u as int,
            0 < u,
            0 <= n,
    ;
    if 2 * r < u || (2 * r == u && q % 2 == 0) {
        q
    } else {
        q + 1
    }
}

/// The integer nearest to `m / 2^k`, the even one where two are as near.
fn nearest_shift(m: u64, k: u32) -> (r: u64)
    requires
        m < 0x100_0000,
        k < 200,
    ensures
        r == nearest_quotient(m as int, pow2(k as nat) as int),
{
    if k >= 40 {
        proof {
            let w = pow2(k as nat) as int;
            lemma2_to64();
            vstd::arithmetic::power2::lemma2_to64_rest();
            if k > 40 {
                lemma_pow2_strictly_increases(40, k as nat);
            }
            lemma_fundamental_div_mod_converse(m as int, w, 0, m as int);
        }
        0
    } else {
        proof {
            lemma2_to64();
            vstd::arithmetic::power2::lemma2_to64_rest();
            lemma_pow2_pos(k as nat);
            lemma_pow2_strictly_increases(k as nat, 40);
        }
        nearest_div(m, power(k))
    }
}

/// The byte of a rounded sum that is given in units of `2^-24`.
fn byte_of_sum(s: u64) -> (r: u8)
    requires
        s <= 0x200_0000,
    ensures
        r as int == ({
            let product = rounded(255 * s);
            let clamped = if product < 255 * 0x200_0000 {
                product
            } else {
                255 * 0x200_0000int
            };
            (clamped + 0x100_0000) / 0x200_0000
        }),
{
    let p: u64 = 255 * s;
    let mut u: u64 = 1;
    let mut t: u64 = p;
    while t >= 0x100_0000
        invariant
            p <= 255 * 0x200_0000,
            spacing(p as int) == u * spacing(t as int),
            t <= p,
            0 < u,
            u * t <= p,
        decreases t,
    {
        assert((2 * u) * (t / 2) <= u * t) by (nonlinear_arith)
            requires
                0 < u,
                0 <= t,
        ;
        assert(u * 0x100_0000 <= u * t) by (nonlinear_arith)
            requires
                0 < u,
                t >= 0x100_0000,
        ;
        assert(u * (2 * spacing(t as int / 2)) == (2 * u) * spacing(t as int / 2))
            by (nonlinear_arith);
        t = t / 2;
        u = u * 2;
    }
    assert(u * 1 == u);
    assert(u <= 0x1000) by {
        assert(u == spacing(p as int));
        lemma_spacing_small(p as int);
    }
    let q: u64 = nearest_div(p, u);
    proof {
        lemma_quotient_bound(p as int, u as int);
        law_rounded_monotone(0, p as int);
        lemma_exact(0);
    }
    let product: u64 = q * u;
    let full: u64 = 255 * 0x200_0000;
    let clamped: u64 = if product < full {
        product
    } else {
        full
    };
    ((clamped + 0x100_0000) / 0x200_0000) as u8
}

/// The spacing of the products that [`byte_of_sum`] rounds.
proof fn lemma_spacing_small(p: int)
    requires
        0 <= p <= 255 * 0x200_0000,
    ensures
        1 <= spacing(p) <= 0x1000,
{
    let k = lemma_spacing_range(p);
    lemma2_to64();
    lemma_pow2_pos(k);
    if k > 12 {
        lemma_pow2_strictly_increases(12, k);
    }
}

/// A nearest quotient times its divisor exceeds the dividend by less than the
/// divisor.
proof fn lemma_quotient_bound(n: int, u: int)
    requires
        0 <= n,
        0 < u,
    ensures
        0 <= nearest_quotient(n, u) * u <= n + u,
{
    let q = n / u;
    lemma_fundamental_div_mod(n, u);
    assert(q >= 0) by (nonlinear_arith)
        requires
            0 <= n,
            0 < u,
            q == n / u,
    ;
    assert(0 <= q * u && q * u == u * q && (q + 1) * u == q * u + u) by (nonlinear_arith)
        requires
            q >= 0,
            0 < u,
    ;
}

/// Quantizes a single-precision bit pattern.
pub fn quantize_single(bits: u32) -> (r: u8)
    ensures
        r == single_byte(bits),
{
    let negative: bool = bits >= 0x8000_0000;
    let mag: u32 = bits % 0x8000_0000;
    if mag > 0x7f80_0000 {
        return 0;
    }
    if mag >= 0x3f80_0000 {
        proof {
            if mag < 0x7f80_0000 {
                lemma_at_least_one(bits);
                law_quantized_ends(single_value(bits));
            }
        }
        return if negative {
            0
        } else {
            255
        };
    }
    let exponent: u32 = mag / 0x80_0000;
    let fraction: u32 = mag % 0x80_0000;
    let e: u32 = if exponent == 0 {
        1
    } else {
        exponent
    };
    let m: u64 = if exponent == 0 {
        fraction as u64
    } else {
        0x80_0000 + fraction as u64
    };
    proof {
        lemma2_to64();
        lemma_pow2_pos(149);
        lemma_pow2_pos((e - 1) as nat);
        assert(m * pow2((e - 1) as nat) >= 0) by (nonlinear_arith);
        if exponent == 0 {
            assert(m * pow2(0) == m);
        }
        assert(single_value(bits) == if negative {
            -(m * pow2((e - 1) as nat))
        } else {
            m * pow2((e - 1) as nat)
        });
    }
    let s: u64 = if negative && m > 0 {
        let q: u64 = nearest_shift(m, 126 - e);
        proof {
            lemma_sum_below(m as int, e as nat);
            lemma_pow2_pos((126 - e) as nat);
            lemma_quotient_small(m as int, pow2((126 - e) as nat) as int);
        }
        0x100_0000 - q
    } else {
        let q: u64 = nearest_shift(m, 127 - e);
        proof {
            lemma_sum_above(m as int, e as nat);
            lemma_pow2_unfold((127 - e) as nat);
            lemma_pow2_pos((126 - e) as nat);
            lemma_quotient_half(m as int, pow2((126 - e) as nat) as int);
        }
        0x100_0000 + 2 * q
    };
    proof {
        lemma_byte(single_value(bits), s as int);
    }
    byte_of_sum(s)
}

/// Patterns of one and above write numbers of at least one.
proof fn lemma_at_least_one(bits: u32)
    requires
        0x3f80_0000 <= bits as int % 0x8000_0000 < 0x7f80_0000,
    ensures
        bits >= 0x8000_0000 ==> single_value(bits) <= -(pow2(149) as int),
        bits < 0x8000_0000 ==> single_value(bits) >= pow2(149),
{
    let mag = bits as int % 0x8000_0000;
    let exponent = mag / 0x80_0000;
    let fraction = mag % 0x80_0000;
    lemma2_to64();
    lemma_pow2_adds(23, 126);
    if exponent > 127 {
        lemma_pow2_strictly_increases(126, (exponent - 1) as nat);
    }
    assert((0x80_0000 + fraction) * pow2((exponent - 1) as nat) >= 0x80_0000 * pow2(126))
        by (nonlinear_arith)
        requires
            pow2((exponent - 1) as nat) >= pow2(126),
            fraction >= 0,
    ;
}

/// A quotient of at most 24 bits.
proof fn lemma_quotient_small(m: int, w: int)
    requires
        0 <= m < 0x100_0000,
        0 < w,
    ensures
        0 <= nearest_quotient(m, w) <= 0x100_0000,
{
    lemma_fundamental_div_mod(m, w);
    let q = m / w;
    assert(0 <= q <= m) by (nonlinear_arith)
        requires
            q == m / w,
            0 <= m,
            0 < w,
    ;
}

/// A quotient by an even divisor has at most 23 bits, or is the next number.
proof fn lemma_quotient_half(m: int, w: int)
    requires
        0 <= m < 0x100_0000,
        0 < w,
    ensures
        0 <= nearest_quotient(m, 2 * w) <= 0x80_0000,
{
    lemma_quotient_exact(0, 2 * w);
    lemma_quotient_grows(0, m, 2 * w);
    lemma_quotient_exact(0x80_0000, 2 * w);
    assert(m <= 0x80_0000 * (2 * w));
    lemma_quotient_grows(m, 0x80_0000 * (2 * w), 2 * w);
}

/// Quantizes a half-precision bit pattern.
pub fn quantize_half(bits: u16) -> (r: u8)
    ensures
        r == half_byte(bits),
{
    let negative: bool = bits >= 0x8000;
    let mag: u16 = bits % 0x8000;
    if mag > 0x7c00 {
        return 0;
    }
    if mag == 0x7c00 {
        return if negative {
            0
        } else {
            255
        };
    }
    let exponent: u32 = (mag / 0x400) as u32;
    let fraction: u64 = (mag % 0x400) as u64;
    proof {
        lemma2_to64();
        lemma_pow2_pos(125);
        lemma_pow2_adds(24, 125);
        if 1 < exponent < 31 {
            lemma_pow2_strictly_increases((exponent - 1) as nat, 30);
        }
    }
    let m: u64 = if exponent == 0 {
        fraction
    } else {
        let scale: u64 = power(exponent - 1);
        assert((0x400 + fraction) * scale <= 0x800 * 0x4000_0000) by (nonlinear_arith)
            requires
                fraction < 0x400,
                scale <= 0x4000_0000,
        ;
        (0x400 + fraction) * scale
    };
    let ghost x = half_value(bits) * pow2(125);
    if m >= 0x100_0000 {
        proof {
            if negative {
                assert(x <= -0x100_0000 * pow2(125)) by (nonlinear_arith)
                    requires
                        x == -m * pow2(125),
                        m >= 0x100_0000,
                ;
            } else {
                assert(x >= 0x100_0000 * pow2(125)) by (nonlinear_arith)
                    requires
                        x == m * pow2(125),
                        m >= 0x100_0000,
                ;
            }
            law_quantized_ends(x);
        }
        return if negative {
            0
        } else {
            255
        };
    }
    let s: u64 = if negative && m > 0 {
        proof {
            lemma_half_below(m as int);
            assert(x == -(m * pow2(125))) by (nonlinear_arith)
                requires
                    x == (-m) * pow2(125),
            ;
            lemma_byte(x, 0x100_0000 - m);
        }
        0x100_0000 - m
    } else {
        let q: u64 = nearest_div(m, 2);
        proof {
            lemma_sum_above(m as int, 126);
            lemma_quotient_half(m as int, 1);
            assert(x == m * pow2(125));
            assert(m * pow2(125) >= 0) by (nonlinear_arith);
            lemma_byte(x, 0x100_0000 + 2 * q);
        }
        0x100_0000 + 2 * q
    };
    byte_of_sum(s)
}

/// One minus a half-precision number below one is exact.
proof fn lemma_half_below(m: int)
    requires
        0 < m < 0x100_0000,
    ensures
        rounded(pow2(149) - m * pow2(125)) == (0x100_0000 - m) * pow2(125),
        pow2(149) - m * pow2(125) > 0,
{
    lemma2_to64();
    lemma_sum_below(m, 126);
    lemma_quotient_exact(m, 1);
    assert(m * 1 == m);
}

} // verus!
