//! Fixed-point numbers.
//!
//! Every quantity that the library computes with is an integer that counts
//! units of 2^-30: the components of an embedding, similarities, importances,
//! activation energies, thresholds and decay factors. [`ONE`] is the integer
//! that stands for 1.0. Edge weights are stored more coarsely, as one of the
//! 65536 levels between 0.0 and 1.0.

use vstd::arithmetic::div_mod::{lemma_fundamental_div_mod, lemma_fundamental_div_mod_converse};
use vstd::prelude::*;

verus! {

/// The fixed-point number 1.0.
pub const ONE: u32 = 0x4000_0000;

/// The highest weight level; it stands for the weight 1.0.
pub const TOP_LEVEL: u16 = 65535;

/// `w` limited to the range from 0.0 to 1.0.
pub open spec fn clamp_unit(w: int) -> int {
    if w < 0 {
        0
    } else if w > ONE {
        ONE as int
    } else {
        w
    }
}

/// The weight level nearest to `w` once `w` is limited to the unit range:
/// `round(clamp(w, 0, 1) * 65535)`. A value halfway between two levels goes
/// to the upper one.
pub open spec fn quantized(w: int) -> int {
    (clamp_unit(w) * 65535 + 0x2000_0000) / 0x4000_0000
}

/// The fixed-point number nearest to `level / 65535`.
pub open spec fn dequantized(level: int) -> int {
    (level * 0x4000_0000 + 32767) / 65535
}

/// A weight level is at most the top level.
pub proof fn lemma_quantized_range(w: int)
    ensures
        0 <= quantized(w) <= 65535,
        w <= 0 ==> quantized(w) == 0,
        w >= ONE ==> quantized(w) == 65535,
{
    let c = clamp_unit(w);
    assert(0 <= c * 65535 <= 0x4000_0000 * 65535) by (nonlinear_arith)
        requires
            0 <= c <= 0x4000_0000,
    ;
}

/// A larger weight never gets a lower level.
pub proof fn lemma_quantized_monotonic(a: int, b: int)
    requires
        a <= b,
    ensures
        quantized(a) <= quantized(b),
{
    let ca = clamp_unit(a);
    let cb = clamp_unit(b);
    assert(ca * 65535 <= cb * 65535) by (nonlinear_arith)
        requires
            ca <= cb,
    ;
    assert((ca * 65535 + 0x2000_0000) / 0x4000_0000 <= (cb * 65535 + 0x2000_0000) / 0x4000_0000)
        by (nonlinear_arith)
        requires
            ca * 65535 <= cb * 65535,
    ;
}

/// A dequantized level lies in the unit range.
pub proof fn lemma_dequantized_range(level: int)
    requires
        0 <= level <= 65535,
    ensures
        0 <= dequantized(level) <= ONE,
{
    assert(0 <= level * 0x4000_0000 <= 65535 * 0x4000_0000) by (nonlinear_arith)
        requires
            0 <= level <= 65535,
    ;
}

/// Storing a weight of the unit range as a level and reading it back moves it
/// by at most 1/65535: with `d` the value read back, `|d - w| * 65535 <= 1.0`.
pub proof fn lemma_quantize_round_trip(w: int)
    requires
        0 <= w <= ONE,
    ensures
        (dequantized(quantized(w)) - w) * 65535 <= ONE,
        (w - dequantized(quantized(w))) * 65535 <= ONE,
{
    let q = quantized(w);
    let d = dequantized(q);
    lemma_quantized_range(w);
    assert(0 <= w * 65535) by (nonlinear_arith)
        requires
            0 <= w,
    ;
    assert(q * 0x4000_0000 <= w * 65535 + 0x2000_0000 < (q + 1) * 0x4000_0000) by (nonlinear_arith)
        requires
            q == (w * 65535 + 0x2000_0000) / 0x4000_0000,
            0 <= w * 65535,
    ;
    assert(0 <= q * 0x4000_0000) by (nonlinear_arith)
        requires
            0 <= q,
    ;
    assert(d * 65535 <= q * 0x4000_0000 + 32767 < (d + 1) * 65535) by (nonlinear_arith)
        requires
            d == (q * 0x4000_0000 + 32767) / 65535,
            0 <= q * 0x4000_0000,
    ;
    assert((d - w) * 65535 == d * 65535 - w * 65535) by (nonlinear_arith);
    assert((w - d) * 65535 == w * 65535 - d * 65535) by (nonlinear_arith);
}

/// Turns a fixed-point weight into a weight level. Weights below 0.0 count as
/// 0.0 and weights above 1.0 as 1.0.
pub fn quantize(weight: i64) -> (level: u16)
    ensures
        level == quantized(weight as int),
{
    proof {
        lemma_quantized_range(weight as int);
    }
    if weight <= 0 {
        0
    } else if weight >= ONE as i64 {
        TOP_LEVEL
    } else {
        let scaled: u64 = weight as u64 * 65535 + 0x2000_0000;
        (scaled / 0x4000_0000) as u16
    }
}

/// Turns a weight level back into a fixed-point weight.
pub fn dequantize(level: u16) -> (weight: u32)
    ensures
        weight == dequantized(level as int),
        weight <= ONE,
{
    proof {
        lemma_dequantized_range(level as int);
    }
    let scaled: u64 = level as u64 * 0x4000_0000 + 32767;
    (scaled / 65535) as u32
}

/// Limits a fixed-point number to the range from 0.0 to 1.0.
pub fn clamp_to_unit(value: i64) -> (clamped: u32)
    ensures
        clamped == clamp_unit(value as int),
        clamped <= ONE,
{
    if value < 0 {
        0
    } else if value > ONE as i64 {
        ONE
    } else {
        value as u32
    }
}

/// Division that rounds down, also for a negative dividend.
pub fn floor_div(x: i128, d: i128) -> (q: i128)
    requires
        d > 0,
        x > i128::MIN,
    ensures
        q == x as int / d as int,
{
    if x >= 0 {
        x / d
    } else {
        let n = -x;
        let q = n / d;
        let r = n % d;
        proof {
            lemma_fundamental_div_mod(n as int, d as int);
            if r == 0 {
                assert(x as int == (-q) * d + 0) by (nonlinear_arith)
                    requires
                        n == d * q + r,
                        r == 0,
                        x == -n,
                ;
                lemma_fundamental_div_mod_converse(x as int, d as int, -q as int, 0);
            } else {
                assert(x as int == (-q - 1) * d + (d - r)) by (nonlinear_arith)
                    requires
                        n == d * q + r,
                        x == -n,
                ;
                lemma_fundamental_div_mod_converse(
                    x as int,
                    d as int,
                    (-q - 1) as int,
                    (d - r) as int,
                );
            }
        }
        if r == 0 {
            -q
        } else {
            -q - 1
        }
    }
}

} // verus!
