//! The scale between a picture and its scaled copy.
//!
//! One number stands for the scale in both directions: the quotient of the
//! two diagonals, taken as the square root of the quotient of their
//! squares.  Every step is rounded as single-precision arithmetic rounds
//! it.

use vstd::prelude::*;
use vstd::arithmetic::power2::{
    lemma2_to64,
    lemma2_to64_rest,
    lemma_pow2_adds,
    lemma_pow2_pos,
    lemma_pow2_unfold,
    pow2,
};
use crate::single::arithmetic::{from_count, multiply, plus};
use crate::single::division::divide_positive;
use crate::single::number::{is_nan, is_negative, 
    lemma_round_units_between,
    lemma_round_units_zero,
    Number,
    number_of,
    of_count,
    product,
    quotient,
    quotient_units,
    ratio,
    sum,
};
use crate::single::pattern::{
    INFINITY_BITS,
    lemma_magnitude_value_increases,
    lemma_power_pattern,
    magnitude_value,
    NAN_BITS,
    ONE_BITS,
    power_pattern,
    SIGN_BIT,
};
use crate::single::root::{lemma_root_exact, root, root_positive, root_units};
use crate::single::rounding::lemma_round_exact;

verus! {

/// The square of the diagonal of a rectangle of whole sides.
pub open spec fn diagonal_squared(width: u32, height: u32) -> Number {
    sum(
        product(of_count(width), of_count(width)),
        product(of_count(height), of_count(height)),
    )
}

/// The scale between a picture of `width` by `height` pixels and its copy
/// of `resized_width` by `resized_height` pixels.
pub open spec fn scale(width: u32, height: u32, resized_width: u32, resized_height: u32) -> Number {
    root(ratio(diagonal_squared(width, height), diagonal_squared(resized_width, resized_height)))
}

/// Computes `diagonal_squared`; a zero comes without a sign.
fn diagonal(width: u32, height: u32) -> (bits: u32)
    ensures
        number_of(bits) == diagonal_squared(width, height),
        bits != SIGN_BIT,
{
    let w = from_count(width);
    let h = from_count(height);
    let bits = plus(multiply(w, w), multiply(h, h));
    if bits == SIGN_BIT {
        0
    } else {
        bits
    }
}

/// Computes `scale`: the bit pattern of the square root of
/// `(width^2 + height^2) / (resized_width^2 + resized_height^2)`.
pub fn resize_factor(width: u32, height: u32, resized_width: u32, resized_height: u32) -> (bits:
    u32)
    ensures
        number_of(bits) == scale(width, height, resized_width, resized_height),
        !is_negative(bits),
        is_nan(bits) ==> bits == NAN_BITS,
{
    let above = diagonal(width, height);
    let below = diagonal(resized_width, resized_height);
    proof {
        // both are finite and not negative
        lemma_diagonal_is_finite(width, height);
        lemma_diagonal_is_finite(resized_width, resized_height);
        lemma2_to64();
        lemma_pow2_pos(149);
        assert(magnitude_value(0) == 0);
        if 0 < above < INFINITY_BITS {
            lemma_magnitude_value_increases(0, above as int);
        }
        if 0 < below < INFINITY_BITS {
            lemma_magnitude_value_increases(0, below as int);
        }
        if SIGN_BIT < above < SIGN_BIT + INFINITY_BITS {
            lemma_magnitude_value_increases(0, above - SIGN_BIT);
        }
        if SIGN_BIT < below < SIGN_BIT + INFINITY_BITS {
            lemma_magnitude_value_increases(0, below - SIGN_BIT);
        }
    }
    if below == 0 {
        return if above == 0 {
            NAN_BITS
        } else {
            INFINITY_BITS
        };
    }
    let quotient = divide_positive(above, below);
    if quotient == INFINITY_BITS {
        return INFINITY_BITS;
    }
    root_positive(quotient)
}

/// The square of a whole number below `2^32` is zero for zero, and else a
/// finite number from 1 to `2^64`.
proof fn lemma_square_is_finite(count: u32)
    ensures
        (product(of_count(count), of_count(count)) matches Number::Finite { units } && (count == 0
            ==> units == 0) && (count >= 1 ==> pow2(149) <= units <= pow2(213))),
{
    lemma2_to64();
    lemma_pow2_pos(149);
    if count == 0 {
        assert(count * pow2(149) == 0) by (nonlinear_arith)
            requires
                count == 0,
        ;
        lemma_round_units_zero(1);
        assert(0 * 0 == 0) by (nonlinear_arith);
        lemma_round_units_zero(pow2(149) as int);
    } else {
        let one = pow2(149) as int;
        lemma_pow2_adds(32, 149);
        lemma2_to64_rest();
        assert(pow2(149) * 1 <= count * one <= pow2(181) * 1) by (nonlinear_arith)
            requires
                1 <= count <= pow2(32),
                one == pow2(149),
                pow2(32) * one == pow2(181),
                one > 0,
        ;
        lemma_round_units_between(count * one, 1, 149, 181);
        let u = of_count(count)->units;
        lemma_pow2_adds(149, 149);
        lemma_pow2_adds(181, 181);
        lemma_pow2_adds(213, 149);
        assert(pow2(149) * one <= u * u <= pow2(213) * one) by (nonlinear_arith)
            requires
                one <= u <= pow2(181),
                one == pow2(149),
                pow2(181) * pow2(181) == pow2(213) * one,
                one > 0,
        ;
        lemma_round_units_between(u * u, one, 149, 213);
    }
}

/// The square of the diagonal is a finite number; it is zero where both
/// sides are, and else at least one.
pub proof fn lemma_diagonal_is_finite(width: u32, height: u32)
    ensures
        (diagonal_squared(width, height) matches Number::Finite { units } && (width == 0 && height
            == 0 ==> units == 0) && (width >= 1 || height >= 1 ==> pow2(149) <= units <= pow2(
            214,
        ))),
{
    lemma_square_is_finite(width);
    lemma_square_is_finite(height);
    let a = product(of_count(width), of_count(width))->units;
    let b = product(of_count(height), of_count(height))->units;
    lemma_pow2_pos(149);
    lemma_pow2_unfold(214);
    if width == 0 && height == 0 {
        lemma_round_units_zero(1);
    } else {
        assert(pow2(149) * 1 <= a + b <= pow2(214) * 1);
        lemma_round_units_between(a + b, 1, 149, 214);
    }
}

/// A picture that is not scaled has the scale one.
pub proof fn lemma_same_size_has_scale_one(width: u32, height: u32)
    requires
        width >= 1 || height >= 1,
    ensures
        scale(width, height, width, height) == (Number::Finite { units: pow2(149) as int }),
        scale(width, height, width, height) == number_of(ONE_BITS),
{
    lemma_diagonal_is_finite(width, height);
    let u = diagonal_squared(width, height)->units;
    let one = pow2(149) as int;
    lemma_pow2_pos(149);
    // u / u is one
    lemma_power_pattern(149);
    lemma_pow2_adds(23, 126);
    lemma2_to64();
    assert(u * one == 0x80_0000 * pow2(126) * u) by (nonlinear_arith)
        requires
            one == 0x80_0000 * pow2(126),
    ;
    lemma_round_exact(126, 0x80_0000, u * one, u);
    assert(u * one >= 0) by (nonlinear_arith)
        requires
            u > 0,
            one > 0,
    ;
    assert(quotient_units(u, u) == (Number::Finite { units: one }));
    // the square root of one is one
    lemma_root_exact(power_pattern(149), one * one);
    assert(root_units(one) == (Number::Finite { units: one }));
    assert(ONE_BITS == power_pattern(149));
}

} // verus!
