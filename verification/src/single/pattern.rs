//! The bit patterns of singles.
//!
//! The top bit of a pattern is the sign; the other 31 bits are the
//! magnitude: eight bits of exponent field `e` above 23 bits of fraction
//! `f`.  A magnitude below that of infinity encodes the number
//! `f * 2^-149` where `e` is 0 and `(2^23 + f) * 2^(e - 150)` otherwise, so
//! that every finite single is a whole number of units of `2^-149` and a
//! greater magnitude encodes a greater number.

use vstd::prelude::*;
use vstd::arithmetic::power2::{
    lemma2_to64,
    lemma2_to64_rest,
    lemma_pow2_adds,
    lemma_pow2_pos,
    lemma_pow2_strictly_increases,
    lemma_pow2_unfold,
    pow2,
};
use crate::single::number::{Number, number_of, signed};

verus! {

/// Bit pattern of the sign bit alone.
pub const SIGN_BIT: u32 = 0x8000_0000;

/// Bit pattern of positive infinity: the largest magnitude of a number.
pub const INFINITY_BITS: u32 = 0x7f80_0000;

/// Two to the 23rd: the weight of the exponent field in a bit pattern.
pub const EXPONENT_UNIT: u32 = 0x80_0000;

/// Bit pattern of a quiet pattern that is no number.
pub const NAN_BITS: u32 = 0x7fc0_0000;

/// Bit pattern of the single 0.5.
pub const HALF_BITS: u32 = 0x3f00_0000;

/// Bit pattern of the single 1.
pub const ONE_BITS: u32 = 0x3f80_0000;

/// The pattern without its sign bit.
pub open spec fn magnitude_of(bits: u32) -> int {
    if bits >= SIGN_BIT {
        bits - SIGN_BIT
    } else {
        bits as int
    }
}

/// The number that a magnitude below that of infinity encodes, times two
/// to the 149th.  With exponent field `e` and fraction `f` the number is
/// `f * 2^-149` where `e` is 0, and `(2^23 + f) * 2^(e - 150)` otherwise.
pub open spec fn magnitude_value(magnitude: int) -> int {
    let e = magnitude / (EXPONENT_UNIT as int);
    let f = magnitude % (EXPONENT_UNIT as int);
    if e == 0 {
        f
    } else {
        (EXPONENT_UNIT + f) * pow2((e - 1) as nat)
    }
}

/// A greater magnitude encodes a greater number.
pub proof fn lemma_magnitude_value_increases(low: int, high: int)
    requires
        0 <= low < high,
    ensures
        0 <= magnitude_value(low) < magnitude_value(high),
{
    let e1 = low / 0x80_0000;
    let f1 = low % 0x80_0000;
    let e2 = high / 0x80_0000;
    let f2 = high % 0x80_0000;
    assert(e1 <= e2);
    if e2 > 0 {
        let p2 = pow2((e2 - 1) as nat);
        lemma_pow2_pos((e2 - 1) as nat);
        assert((0x80_0000 + f2) * p2 >= 0x80_0000 * p2 >= 0x80_0000) by (nonlinear_arith)
            requires
                p2 >= 1,
                f2 >= 0,
        ;
        if e1 == e2 {
            assert((0x80_0000 + f1) * p2 < (0x80_0000 + f2) * p2) by (nonlinear_arith)
                requires
                    p2 >= 1,
                    f1 < f2,
            ;
            assert((0x80_0000 + f1) * p2 >= 0) by (nonlinear_arith)
                requires
                    p2 >= 1,
                    f1 >= 0,
            ;
        } else if e1 > 0 {
            let p1 = pow2((e1 - 1) as nat);
            lemma_pow2_pos((e1 - 1) as nat);
            lemma_pow2_unfold(e1 as nat);
            if e1 < e2 - 1 {
                lemma_pow2_strictly_increases(e1 as nat, (e2 - 1) as nat);
            }
            assert(2 * p1 <= p2);
            assert(0 <= (0x80_0000 + f1) * p1 < 0x80_0000 * (2 * p1)) by (nonlinear_arith)
                requires
                    p1 >= 1,
                    0 <= f1 < 0x80_0000,
            ;
            assert(0x80_0000 * (2 * p1) <= 0x80_0000 * p2) by (nonlinear_arith)
                requires
                    2 * p1 <= p2,
            ;
        }
    }
}

/// Whether `q` can be the significand of a magnitude whose numbers are
/// spaced `2^g` units apart: below `2^24` in the lowest range, and from
/// `2^23` to `2^24` above it.  The upper end `2^24` stands for the first
/// magnitude of the next range.
pub open spec fn is_significand(g: int, q: int) -> bool {
    &&& 0 <= g <= 253
    &&& 0 <= q <= 0x100_0000
    &&& g >= 1 ==> q >= 0x80_0000
}

/// The magnitude with spacing `2^g` and significand `q` encodes `q * 2^g`
/// units.
pub proof fn lemma_pattern_value(g: int, q: int)
    requires
        is_significand(g, q),
    ensures
        magnitude_value(g * 0x80_0000 + q) == q * pow2(g as nat),
        0 <= g * 0x80_0000 + q <= INFINITY_BITS,
{
    let p = g * 0x80_0000 + q;
    lemma2_to64();
    if q < 0x80_0000 {
        assert(p / 0x80_0000 == 0);
        assert(q * pow2(0) == q) by (nonlinear_arith)
            requires
                pow2(0) == 1,
        ;
    } else if q < 0x100_0000 {
        assert(p / 0x80_0000 == g + 1);
        assert(p % 0x80_0000 == q - 0x80_0000);
    } else {
        assert(p / 0x80_0000 == g + 2);
        assert(p % 0x80_0000 == 0);
        lemma_pow2_unfold((g + 1) as nat);
        assert(0x80_0000 * (2 * pow2(g as nat)) == 0x100_0000 * pow2(g as nat))
            by (nonlinear_arith);
    }
}

/// The magnitude whose number is two to the power of `e - 149`, for an
/// `e` from 23 to 276.
pub open spec fn power_pattern(e: int) -> int {
    (e - 23) * 0x80_0000 + 0x80_0000
}

/// `power_pattern(e)` encodes `2^e` units.
pub(crate) proof fn lemma_power_pattern(e: int)
    requires
        23 <= e <= 276,
    ensures
        magnitude_value(power_pattern(e)) == pow2(e as nat),
        0 < power_pattern(e) < INFINITY_BITS,
{
    lemma_pattern_value(e - 23, 0x80_0000);
    lemma_pow2_adds(23, (e - 23) as nat);
    lemma2_to64();
}

/// The parts of a pattern that stands for a finite number.
pub(crate) struct Parts {
    /// Whether the sign bit is set.
    pub negative: bool,
    /// The significand, below `2^24`.
    pub significand: u32,
    /// The exponent of the spacing: the number is `significand * 2^spacing`
    /// units.
    pub spacing: u32,
}

/// Whether a pattern stands for a finite number.
pub(crate) fn is_finite(bits: u32) -> (finite: bool)
    ensures
        finite == (magnitude_of(bits) < INFINITY_BITS),
{
    if bits >= SIGN_BIT {
        bits - SIGN_BIT < INFINITY_BITS
    } else {
        bits < INFINITY_BITS
    }
}

/// Takes a finite pattern apart.
pub(crate) fn unpack(bits: u32) -> (parts: Parts)
    requires
        magnitude_of(bits) < INFINITY_BITS,
    ensures
        parts.negative == (bits >= SIGN_BIT),
        is_significand(parts.spacing as int, parts.significand as int),
        parts.significand < 0x100_0000,
        magnitude_of(bits) == parts.spacing * 0x80_0000 + parts.significand,
        magnitude_value(magnitude_of(bits)) == parts.significand * pow2(parts.spacing as nat),
        number_of(bits) == (Number::Finite {
            units: signed(parts.negative, parts.significand * pow2(parts.spacing as nat)),
        }),
{
    let negative = bits >= SIGN_BIT;
    let magnitude: u32 = if negative {
        bits - SIGN_BIT
    } else {
        bits
    };
    let e: u32 = magnitude / EXPONENT_UNIT;
    let f: u32 = magnitude % EXPONENT_UNIT;
    let parts = if e == 0 {
        Parts { negative, significand: f, spacing: 0 }
    } else {
        Parts { negative, significand: EXPONENT_UNIT + f, spacing: e - 1 }
    };
    proof {
        lemma_pattern_value(parts.spacing as int, parts.significand as int);
    }
    parts
}

/// Puts a sign on a magnitude.
pub(crate) fn with_sign(negative: bool, magnitude: u32) -> (bits: u32)
    requires
        magnitude <= INFINITY_BITS,
    ensures
        magnitude_of(bits) == magnitude,
        (bits >= SIGN_BIT) == negative,
{
    if negative {
        SIGN_BIT + magnitude
    } else {
        magnitude
    }
}

/// Two to the power of `e`.
pub(crate) fn power_of_two(e: u32) -> (power: u64)
    requires
        e <= 63,
    ensures
        power == pow2(e as nat),
{
    let mut power: u64 = 1;
    let mut i: u32 = 0;
    proof {
        lemma2_to64();
    }
    while i < e
        invariant
            i <= e <= 63,
            power == pow2(i as nat),
        decreases e - i,
    {
        proof {
            lemma_pow2_unfold((i + 1) as nat);
            lemma2_to64_rest();
            if i + 1 < 63 {
                lemma_pow2_strictly_increases((i + 1) as nat, 63);
            }
        }
        power = power * 2;
        i += 1;
    }
    power
}

/// Number of binary digits of `sig`.
pub(crate) fn bit_length(sig: u64) -> (len: u32)
    requires
        0 < sig < 0x4000_0000_0000_0000,
    ensures
        1 <= len <= 62,
        pow2((len - 1) as nat) <= sig < pow2(len as nat),
{
    let mut len: u32 = 1;
    let mut top: u64 = 2;
    proof {
        lemma2_to64();
        lemma2_to64_rest();
    }
    while top <= sig
        invariant
            1 <= len <= 62,
            top == pow2(len as nat),
            pow2((len - 1) as nat) <= sig < 0x4000_0000_0000_0000,
            pow2(62) == 0x4000_0000_0000_0000,
        decreases 63 - len,
    {
        proof {
            lemma_pow2_unfold((len + 1) as nat);
            if len == 62 {
                assert(false);
            }
            if len + 1 < 62 {
                lemma_pow2_strictly_increases((len + 1) as nat, 62);
            }
        }
        top = top * 2;
        len += 1;
    }
    len
}

/// A significand moved up until its leading digit is the 24th.
pub(crate) fn normalize_significand(significand: u32) -> (moved: (u32, u32))
    requires
        0 < significand < 0x100_0000,
    ensures
        moved.0 <= 23,
        moved.1 == significand * pow2(moved.0 as nat),
        0x80_0000 <= moved.1 < 0x100_0000,
{
    let len: u32 = bit_length(significand as u64);
    proof {
        lemma2_to64();
        if len > 24 {
            lemma_pow2_strictly_increases(24, (len - 1) as nat);
        }
    }
    let shift: u32 = 24 - len;
    let scale: u64 = power_of_two(shift);
    proof {
        lemma_pow2_adds(len as nat, shift as nat);
        lemma_pow2_adds((len - 1) as nat, shift as nat);
        lemma_pow2_pos(shift as nat);
        assert(pow2(23) <= significand * scale < pow2(24)) by (nonlinear_arith)
            requires
                pow2((len - 1) as nat) <= significand < pow2(len as nat),
                scale > 0,
                pow2(len as nat) * scale == pow2(24),
                pow2((len - 1) as nat) * scale == pow2(23),
        ;
    }
    (shift, (significand as u64 * scale) as u32)
}

/// The pattern of a whole number of at most `2^24`.
pub(crate) fn pack_whole(whole: u32) -> (p: u32)
    requires
        whole <= 0x100_0000,
    ensures
        p < INFINITY_BITS,
        magnitude_value(p as int) == whole * pow2(149),
{
    proof {
        lemma2_to64();
    }
    if whole == 0 {
        assert(magnitude_value(0) == 0);
        assert(0 * pow2(149) == 0) by (nonlinear_arith);
        return 0;
    }
    if whole >= EXPONENT_UNIT {
        proof {
            lemma_pattern_value(149, whole as int);
        }
        return 149 * EXPONENT_UNIT + whole;
    }
    let len: u32 = bit_length(whole as u64);
    proof {
        if len > 23 {
            lemma_pow2_strictly_increases(23, (len - 1) as nat);
        }
    }
    let shift: u32 = 24 - len;
    let scale: u64 = power_of_two(shift);
    proof {
        lemma_pow2_adds(len as nat, shift as nat);
        lemma_pow2_adds((len - 1) as nat, shift as nat);
        lemma_pow2_pos(shift as nat);
        assert(pow2(23) <= whole * scale < pow2(24)) by (nonlinear_arith)
            requires
                pow2((len - 1) as nat) <= whole < pow2(len as nat),
                scale > 0,
                pow2(len as nat) * scale == pow2(24),
                pow2((len - 1) as nat) * scale == pow2(23),
        ;
    }
    let q: u32 = (whole as u64 * scale) as u32;
    let g: u32 = 149 - shift;
    proof {
        lemma_pattern_value(g as int, q as int);
        lemma_pow2_adds(shift as nat, g as nat);
        assert(q * pow2(g as nat) == whole * pow2(149)) by (nonlinear_arith)
            requires
                q == whole * scale,
                scale * pow2(g as nat) == pow2(149),
        ;
    }
    g * EXPONENT_UNIT + q
}

/// A product of three powers of two.
pub(crate) proof fn lemma_pow2_adds3(a: nat, b: nat, c: nat)
    ensures
        pow2(a) * pow2(b) * pow2(c) == pow2(a + b + c),
        pow2(a + b + c) > 0,
{
    lemma_pow2_adds(a, b);
    lemma_pow2_adds(a + b, c);
    lemma_pow2_pos(a + b + c);
}

/// Multiplication may be regrouped.
pub(crate) proof fn lemma_mul_assoc(a: int, b: int, c: int)
    ensures
        (a * b) * c == a * (b * c),
{
    assert((a * b) * c == a * (b * c)) by (nonlinear_arith);
}

/// A product of two products may be regrouped.
pub(crate) proof fn lemma_mul_regroup(a: int, b: int, c: int, d: int)
    ensures
        (a * b) * (c * d) == (a * c) * (b * d),
{
    assert((a * b) * (c * d) == (a * c) * (b * d)) by (nonlinear_arith);
}

} // verus!
