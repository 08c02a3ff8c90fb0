//! What a bit pattern stands for, and what the operations on singles give.

use vstd::prelude::*;
use vstd::arithmetic::power2::{lemma2_to64, lemma_pow2_pos, pow2};
use crate::single::pattern::{
    INFINITY_BITS,
    lemma_magnitude_value_increases,
    lemma_power_pattern,
    magnitude_of,
    magnitude_value,
    power_pattern,
    SIGN_BIT,
};
use crate::single::rounding::{
    gap_sum,
    is_rounding,
    lemma_round_exact,
    lemma_rounded,
    lemma_rounding_is_monotone,
    lemma_rounding_is_unique,
    rounded,
};

verus! {

/// What a bit pattern stands for.
pub enum Number {
    /// Nothing: the pattern is no number.
    NotANumber,
    /// An infinity.
    Infinite { negative: bool },
    /// A finite number, in units of `2^-149`.  Both zeros are `units: 0`.
    Finite { units: int },
}

/// Whether the sign bit of a pattern is set.
pub open spec fn is_negative(bits: u32) -> bool {
    bits >= SIGN_BIT
}

/// Whether a pattern is one of the two zeros.
pub open spec fn is_zero(bits: u32) -> bool {
    magnitude_of(bits) == 0
}

/// Whether a pattern is no number.
pub open spec fn is_nan(bits: u32) -> bool {
    magnitude_of(bits) > INFINITY_BITS
}

/// `value` with the given sign.
pub open spec fn signed(negative: bool, value: int) -> int {
    if negative {
        -value
    } else {
        value
    }
}

/// The distance of `value` from zero.
pub open spec fn absolute(value: int) -> int {
    if value < 0 {
        -value
    } else {
        value
    }
}

/// What the pattern `bits` stands for.
pub open spec fn number_of(bits: u32) -> Number {
    let magnitude = magnitude_of(bits);
    if magnitude > INFINITY_BITS {
        Number::NotANumber
    } else if magnitude == INFINITY_BITS {
        Number::Infinite { negative: bits >= SIGN_BIT }
    } else {
        Number::Finite { units: signed(bits >= SIGN_BIT, magnitude_value(magnitude)) }
    }
}

/// The single that the exact `n / d` units rounds to, for a positive `d`.
pub open spec fn round_units(n: int, d: int) -> Number {
    let p = rounded(absolute(n), d);
    if p == INFINITY_BITS {
        Number::Infinite { negative: n < 0 }
    } else {
        Number::Finite { units: signed(n < 0, magnitude_value(p)) }
    }
}

/// The rounded difference `a - b`.
pub open spec fn difference(a: Number, b: Number) -> Number {
    match (a, b) {
        (Number::NotANumber, _) => Number::NotANumber,
        (_, Number::NotANumber) => Number::NotANumber,
        (Number::Infinite { negative: x }, Number::Infinite { negative: y }) => if x == y {
            Number::NotANumber
        } else {
            a
        },
        (Number::Infinite { .. }, Number::Finite { .. }) => a,
        (Number::Finite { .. }, Number::Infinite { negative }) => Number::Infinite {
            negative: !negative,
        },
        (Number::Finite { units: x }, Number::Finite { units: y }) => round_units(x - y, 1),
    }
}

/// The rounded sum `a + b`.
pub open spec fn sum(a: Number, b: Number) -> Number {
    match (a, b) {
        (Number::NotANumber, _) => Number::NotANumber,
        (_, Number::NotANumber) => Number::NotANumber,
        (Number::Infinite { negative: x }, Number::Infinite { negative: y }) => if x == y {
            a
        } else {
            Number::NotANumber
        },
        (Number::Infinite { .. }, Number::Finite { .. }) => a,
        (Number::Finite { .. }, Number::Infinite { .. }) => b,
        (Number::Finite { units: x }, Number::Finite { units: y }) => round_units(x + y, 1),
    }
}

/// The rounded product `a * b`.
pub open spec fn product(a: Number, b: Number) -> Number {
    match (a, b) {
        (Number::NotANumber, _) => Number::NotANumber,
        (_, Number::NotANumber) => Number::NotANumber,
        (Number::Infinite { negative: x }, Number::Infinite { negative: y }) => Number::Infinite {
            negative: x != y,
        },
        (Number::Infinite { negative }, Number::Finite { units }) => if units == 0 {
            Number::NotANumber
        } else {
            Number::Infinite { negative: negative != (units < 0) }
        },
        (Number::Finite { units }, Number::Infinite { negative }) => if units == 0 {
            Number::NotANumber
        } else {
            Number::Infinite { negative: negative != (units < 0) }
        },
        (Number::Finite { units: x }, Number::Finite { units: y }) => round_units(
            x * y,
            pow2(149) as int,
        ),
    }
}

/// The rounded quotient of `x` units by `y` units, for a positive `y`.
pub open spec fn quotient_units(x: int, y: int) -> Number {
    round_units(x * pow2(149), y)
}

/// The rounded quotient of two finite numbers that are not negative.  A
/// zero divided by a zero is no number.  For a number that is negative or
/// not finite `ratio` is not meant; it then stands for no number.
pub open spec fn ratio(a: Number, b: Number) -> Number {
    match (a, b) {
        (Number::Finite { units: x }, Number::Finite { units: y }) => if x >= 0 && y > 0 {
            quotient_units(x, y)
        } else if x > 0 && y == 0 {
            Number::Infinite { negative: false }
        } else {
            Number::NotANumber
        },
        _ => Number::NotANumber,
    }
}

/// The rounded quotient of the singles with the patterns `a` and `b`.
/// The patterns, not only their numbers, decide: a number divided by a
/// zero is the infinity whose sign is the product of the two signs.
pub open spec fn quotient(a: u32, b: u32) -> Number {
    let negative = (a >= SIGN_BIT) != (b >= SIGN_BIT);
    match (number_of(a), number_of(b)) {
        (Number::NotANumber, _) => Number::NotANumber,
        (_, Number::NotANumber) => Number::NotANumber,
        (Number::Infinite { .. }, Number::Infinite { .. }) => Number::NotANumber,
        (Number::Infinite { .. }, Number::Finite { .. }) => Number::Infinite { negative },
        (Number::Finite { .. }, Number::Infinite { .. }) => Number::Finite { units: 0 },
        (Number::Finite { units: x }, Number::Finite { units: y }) => if y != 0 {
            round_units(signed(negative, absolute(x) * pow2(149)), absolute(y))
        } else if x != 0 {
            Number::Infinite { negative }
        } else {
            Number::NotANumber
        },
    }
}

/// The whole number nearest to `a`; of two equally near, the one farther
/// from zero.
pub open spec fn nearest_whole(a: Number) -> Number {
    match a {
        Number::Finite { units } => Number::Finite {
            units: signed(
                units < 0,
                ((absolute(units) + pow2(148)) / (pow2(149) as int)) * pow2(149),
            ),
        },
        _ => a,
    }
}

/// `a` without its fraction as a 32-bit integer: the nearest integer of
/// that type where `a` is beyond its range, and 0 where `a` is no number.
pub open spec fn truncated(a: Number) -> int {
    match a {
        Number::NotANumber => 0,
        Number::Infinite { negative } => if negative {
            i32::MIN as int
        } else {
            i32::MAX as int
        },
        Number::Finite { units } => {
            let whole = signed(units < 0, absolute(units) / (pow2(149) as int));
            if whole < i32::MIN {
                i32::MIN as int
            } else if whole > i32::MAX {
                i32::MAX as int
            } else {
                whole
            }
        },
    }
}

/// The single nearest to the whole number `count`.
pub open spec fn of_count(count: u32) -> Number {
    round_units(count * pow2(149), 1)
}

/// What the result of an operation stands for, when the operation has
/// rounded the exact `n / d` units to the magnitude `p` and given it the
/// sign `negative`.
pub(crate) proof fn lemma_rounded_result(bits: u32, negative: bool, p: int, n: int, d: int)
    requires
        d > 0,
        is_rounding(p, absolute(n), d),
        magnitude_of(bits) == p,
        (bits >= SIGN_BIT) == negative,
        n != 0 ==> negative == (n < 0),
    ensures
        number_of(bits) == round_units(n, d),
{
    lemma_rounded(p, absolute(n), d);
    if n == 0 {
        lemma2_to64();
        assert(magnitude_value(0) == 0);
        assert(magnitude_value(1) == 1);
        assert(gap_sum(0) * d == d) by (nonlinear_arith)
            requires
                gap_sum(0) == 1,
        ;
        assert(is_rounding(0, 0, d));
        lemma_rounding_is_unique(p, 0, 0, d);
    }
}

/// Zero rounds to zero.
pub(crate) proof fn lemma_round_units_zero(d: int)
    requires
        d > 0,
    ensures
        round_units(0, d) == (Number::Finite { units: 0 }),
{
    lemma2_to64();
    lemma_pow2_pos(0);
    assert(0 == 0 * pow2(0) * d) by (nonlinear_arith);
    lemma_round_exact(0, 0, 0, d);
    assert(magnitude_value(0) == 0);
}

/// A number between two powers of two rounds to a finite number between
/// them.
pub(crate) proof fn lemma_round_units_between(n: int, d: int, low: int, high: int)
    requires
        d > 0,
        23 <= low <= high <= 276,
        pow2(low as nat) * d <= n <= pow2(high as nat) * d,
    ensures
        (round_units(n, d) matches Number::Finite { units } && pow2(low as nat) <= units <= pow2(
            high as nat,
        )),
{
    lemma_power_pattern(low);
    lemma_power_pattern(high);
    lemma_pow2_pos(low as nat);
    assert(n >= 0) by (nonlinear_arith)
        requires
            pow2(low as nat) * d <= n,
            pow2(low as nat) > 0,
            d > 0,
    ;
    assert(absolute(n) == n);
    lemma_rounding_is_monotone(n, d, power_pattern(low));
    lemma_rounding_is_monotone(n, d, power_pattern(high));
    let p = rounded(n, d);
    if power_pattern(low) < p {
        lemma_magnitude_value_increases(power_pattern(low), p);
    }
    if p < power_pattern(high) {
        lemma_magnitude_value_increases(p, power_pattern(high));
    }
}

/// Only the pattern of the single 1 stands for the number one.
pub proof fn lemma_number_is_one(bits: u32)
    requires
        number_of(bits) == number_of(0x3f80_0000),
    ensures
        bits == 0x3f80_0000,
{
    lemma2_to64();
    assert(magnitude_value(0) == 0);
    lemma_magnitude_value_increases(0, 0x3f80_0000);
    let magnitude = magnitude_of(bits);
    if 0 < magnitude {
        lemma_magnitude_value_increases(0, magnitude);
    }
    if magnitude < 0x3f80_0000 {
        lemma_magnitude_value_increases(magnitude, 0x3f80_0000);
    } else if magnitude > 0x3f80_0000 {
        lemma_magnitude_value_increases(0x3f80_0000, magnitude);
    }
}

} // verus!
