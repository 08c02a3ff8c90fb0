//! Square roots of singles.

use vstd::prelude::*;
use vstd::arithmetic::power2::{lemma2_to64, lemma_pow2_adds, lemma_pow2_pos, pow2};
use crate::single::number::{is_nan, is_negative, is_zero, Number, number_of};
use crate::single::pattern::{
    EXPONENT_UNIT,
    INFINITY_BITS,
    is_significand,
    lemma_magnitude_value_increases,
    lemma_mul_assoc,
    lemma_pattern_value,
    magnitude_value,
    NAN_BITS,
    normalize_significand,
    power_of_two,
    SIGN_BIT,
    unpack,
};
use crate::single::rounding::gap_sum;

verus! {

/// Whether the square root of `s` is not nearer to the magnitude below
/// `p` than to `p`, and not equally near unless `p` is even.  `s` is in
/// squares of the unit.
pub open spec fn root_not_below(p: int, s: int) -> bool {
    p == 0 || gap_sum(p - 1) * gap_sum(p - 1) < 4 * s || (gap_sum(p - 1) * gap_sum(p - 1) == 4
        * s && p % 2 == 0)
}

/// Whether the square root of `s` is not nearer to the magnitude above
/// `p` than to `p`, and not equally near unless `p` is even.
pub open spec fn root_not_above(p: int, s: int) -> bool {
    p == INFINITY_BITS || 4 * s < gap_sum(p) * gap_sum(p) || (4 * s == gap_sum(p) * gap_sum(p)
        && p % 2 == 0)
}

/// Whether the magnitude `p` is what the square root of `s` rounds to.
pub open spec fn is_root_rounding(p: int, s: int) -> bool {
    &&& 0 <= p <= INFINITY_BITS
    &&& root_not_below(p, s)
    &&& root_not_above(p, s)
}

/// The magnitude that the square root of the non-negative `s` rounds to.
pub open spec fn root_rounded(s: int) -> int {
    choose|p: int| is_root_rounding(p, s)
}

/// The rounded square root of `x` units, for an `x` that is not negative.
pub open spec fn root_units(x: int) -> Number {
    let p = root_rounded(x * pow2(149));
    if p == INFINITY_BITS {
        Number::Infinite { negative: false }
    } else {
        Number::Finite { units: magnitude_value(p) }
    }
}

/// The rounded square root.
pub open spec fn root(a: Number) -> Number {
    match a {
        Number::Finite { units } => if units >= 0 {
            root_units(units)
        } else {
            Number::NotANumber
        },
        Number::Infinite { negative } => if negative {
            Number::NotANumber
        } else {
            a
        },
        Number::NotANumber => a,
    }
}

/// A square root that is not above a magnitude is below every greater one.
pub(crate) proof fn lemma_root_above_excludes(p: int, other: int, s: int)
    requires
        0 <= p < other <= INFINITY_BITS,
        root_not_above(p, s),
    ensures
        !root_not_below(other, s),
{
    let low = gap_sum(p);
    let high = gap_sum(other - 1);
    lemma2_to64();
    assert(magnitude_value(0) == 0);
    if p > 0 {
        lemma_magnitude_value_increases(0, p);
    }
    lemma_magnitude_value_increases(p, p + 1);
    if p < other - 1 {
        lemma_magnitude_value_increases(p, other - 1);
        lemma_magnitude_value_increases(p + 1, other);
        assert(low * low < high * high) by (nonlinear_arith)
            requires
                0 <= low < high,
        ;
    }
}

/// A square root rounds to one magnitude only.
pub proof fn lemma_root_rounding_is_unique(p: int, other: int, s: int)
    requires
        is_root_rounding(p, s),
        is_root_rounding(other, s),
    ensures
        p == other,
{
    if p < other {
        lemma_root_above_excludes(p, other, s);
    } else if other < p {
        lemma_root_above_excludes(other, p, s);
    }
}

/// The square root of the square of a magnitude's number rounds to that
/// magnitude.
pub proof fn lemma_root_exact(p: int, s: int)
    requires
        0 <= p <= INFINITY_BITS,
        s == magnitude_value(p) * magnitude_value(p),
    ensures
        is_root_rounding(p, s),
        root_rounded(s) == p,
{
    let v = magnitude_value(p);
    lemma2_to64();
    assert(magnitude_value(0) == 0);
    if p > 0 {
        lemma_magnitude_value_increases(0, p);
        lemma_magnitude_value_increases(p - 1, p);
        if p - 1 > 0 {
            lemma_magnitude_value_increases(0, p - 1);
        }
        let low = gap_sum(p - 1);
        assert(low * low < 4 * (v * v)) by (nonlinear_arith)
            requires
                0 <= low < 2 * v,
        ;
    }
    if p < INFINITY_BITS {
        lemma_magnitude_value_increases(p, p + 1);
        let high = gap_sum(p);
        assert(4 * (v * v) < high * high) by (nonlinear_arith)
            requires
                0 <= 2 * v < high,
        ;
    }
    assert(is_root_rounding(p, s));
    lemma_root_rounding_is_unique(p, root_rounded(s), s);
}

/// Rounding the square root of `a * 4^g` squared units, where the root of
/// `a` lies between the significands `q0` and `q0 + 1`.  It rounds up
/// where `a` exceeds the square of `q0 + 1/2`.
pub(crate) proof fn lemma_root_between(g: int, q0: int, a: int, round_up: bool)
    requires
        is_significand(g, q0),
        g >= 1,
        q0 < 0x100_0000,
        q0 * q0 <= a < (q0 + 1) * (q0 + 1),
        round_up <==> a - q0 * q0 > q0,
    ensures
        is_root_rounding(
            g * 0x80_0000 + q0 + if round_up {
                1int
            } else {
                0int
            },
            a * (pow2(g as nat) * pow2(g as nat)),
        ),
{
    let q = q0 + if round_up {
        1int
    } else {
        0int
    };
    let p = g * 0x80_0000 + q;
    let space = pow2(g as nat) as int;
    let s = a * (space * space);
    lemma_pow2_pos(g as nat);
    lemma_pattern_value(g, q);
    let v = magnitude_value(p);
    assert(q0 * q0 + 2 * q0 + 1 == (q0 + 1) * (q0 + 1)) by (nonlinear_arith);
    assert(v * v == (q * q) * (space * space)) by (nonlinear_arith)
        requires
            v == q * space,
    ;
    assert(magnitude_value(0) == 0) by {
        lemma2_to64();
    }
    lemma_magnitude_value_increases(0, p);
    if q > 0x80_0000 {
        lemma_pattern_value(g, q - 1);
        let low = gap_sum(p - 1);
        assert(low * low == ((2 * q - 1) * (2 * q - 1)) * (space * space)) by (nonlinear_arith)
            requires
                low == (q - 1) * space + q * space,
        ;
        assert((2 * q - 1) * (2 * q - 1) == 4 * (q * q) - 4 * q + 1) by (nonlinear_arith);
        assert(q * q == q0 * q0 + if round_up {
            2 * q0 + 1
        } else {
            0
        }) by (nonlinear_arith)
            requires
                q == q0 + if round_up {
                    1int
                } else {
                    0int
                },
        ;
        assert((2 * q - 1) * (2 * q - 1) < 4 * a);
        assert(((2 * q - 1) * (2 * q - 1)) * (space * space) < (4 * a) * (space * space))
            by (nonlinear_arith)
            requires
                (2 * q - 1) * (2 * q - 1) < 4 * a,
                space > 0,
        ;
        assert((4 * a) * (space * space) == 4 * s) by (nonlinear_arith)
            requires
                s == a * (space * space),
        ;
    } else {
        lemma_magnitude_value_increases(p - 1, p);
        if p - 1 > 0 {
            lemma_magnitude_value_increases(0, p - 1);
        }
        let low = gap_sum(p - 1);
        assert(low * low < (2 * v) * (2 * v)) by (nonlinear_arith)
            requires
                0 <= low < 2 * v,
        ;
        assert((2 * v) * (2 * v) <= 4 * s) by (nonlinear_arith)
            requires
                v * v == (q * q) * (space * space),
                s == a * (space * space),
                q * q <= a,
                space > 0,
        ;
    }
    if p < INFINITY_BITS {
        if q < 0x100_0000 {
            lemma_pattern_value(g, q + 1);
            let high = gap_sum(p);
            assert(high * high == ((2 * q + 1) * (2 * q + 1)) * (space * space))
                by (nonlinear_arith)
                requires
                    high == q * space + (q + 1) * space,
            ;
            assert((2 * q + 1) * (2 * q + 1) == 4 * (q * q) + 4 * q + 1) by (nonlinear_arith);
            assert(q * q == q0 * q0 + if round_up {
                2 * q0 + 1
            } else {
                0
            }) by (nonlinear_arith)
                requires
                    q == q0 + if round_up {
                        1int
                    } else {
                        0int
                    },
            ;
            assert(4 * a < (2 * q + 1) * (2 * q + 1));
            assert((4 * a) * (space * space) < ((2 * q + 1) * (2 * q + 1)) * (space * space))
                by (nonlinear_arith)
                requires
                    4 * a < (2 * q + 1) * (2 * q + 1),
                    space > 0,
            ;
            assert((4 * a) * (space * space) == 4 * s) by (nonlinear_arith)
                requires
                    s == a * (space * space),
            ;
        } else {
            lemma_magnitude_value_increases(p, p + 1);
            let high = gap_sum(p);
            assert((2 * v) * (2 * v) < high * high) by (nonlinear_arith)
                requires
                    0 <= 2 * v < high,
            ;
            assert(a < q * q) by (nonlinear_arith)
                requires
                    a < (q0 + 1) * (q0 + 1),
                    q == q0 + 1,
            ;
            assert(4 * s < (2 * v) * (2 * v)) by (nonlinear_arith)
                requires
                    v * v == (q * q) * (space * space),
                    s == a * (space * space),
                    a < q * q,
                    space > 0,
            ;
        }
    }
}

/// The whole part of the square root of `a`.
pub(crate) fn whole_root(a: u64) -> (q: u64)
    requires
        0x4000_0000_0000 <= a < 0x1_0000_0000_0000,
    ensures
        0x80_0000 <= q < 0x100_0000,
        q * q <= a < (q + 1) * (q + 1),
{
    let mut low: u64 = 0x80_0000;
    let mut high: u64 = 0x100_0000;
    while high - low > 1
        invariant
            0x80_0000 <= low < high <= 0x100_0000,
            low * low <= a < high * high,
        decreases high - low,
    {
        let middle: u64 = (low + high) / 2;
        assert(middle * middle <= 0x100_0000 * 0x100_0000) by (nonlinear_arith)
            requires
                0 <= middle <= 0x100_0000,
        ;
        if middle * middle <= a {
            low = middle;
        } else {
            high = middle;
        }
    }
    low
}

/// The rounded square root of a finite single that is not negative.
pub(crate) fn root_positive(a: u32) -> (result: u32)
    requires
        a < INFINITY_BITS,
    ensures
        number_of(result) == root_units(magnitude_value(a as int)),
        result < INFINITY_BITS,
        result == 0 <==> a == 0,
{
    let x = unpack(a);
    let ghost xv = magnitude_value(a as int);
    let ghost s = xv * pow2(149);
    proof {
        lemma2_to64();
        lemma_pow2_pos(149);
        lemma_pow2_pos(x.spacing as nat);
    }
    if x.significand == 0 {
        proof {
            assert(s == 0) by (nonlinear_arith)
                requires
                    s == xv * pow2(149),
                    xv == x.significand * pow2(x.spacing as nat),
                    x.significand == 0,
            ;
            assert(magnitude_value(0) == 0);
            assert(magnitude_value(1) == 1);
            assert(is_root_rounding(0, s));
            lemma_root_rounding_is_unique(0, root_rounded(s), s);
        }
        return 0;
    }
    let (sa, m) = normalize_significand(x.significand);
    // the square root of m * 2^t
    let t: u32 = x.spacing + 149 - sa;
    let lift: u32 = if (t - 23) % 2 == 0 {
        23
    } else {
        24
    };
    proof {
        assert(m * pow2(lift as nat) < 0x1_0000_0000_0000 && m * pow2(lift as nat)
            >= 0x4000_0000_0000) by (nonlinear_arith)
            requires
                0x80_0000 <= m < 0x100_0000,
                0x80_0000 <= pow2(lift as nat) <= 0x100_0000,
        ;
    }
    let big: u64 = m as u64 * power_of_two(lift);
    let g: u32 = (t - lift) / 2;
    let q0: u64 = whole_root(big);
    let round_up: bool = big - q0 * q0 > q0;
    let q: u64 = if round_up {
        q0 + 1
    } else {
        q0
    };
    let p: u32 = g * EXPONENT_UNIT + q as u32;
    proof {
        assert(2 * g + lift == t);
        let space = pow2(g as nat) as int;
        lemma_root_between(g as int, q0 as int, big as int, round_up);
        lemma_pattern_value(g as int, q as int);
        // s == big * 4^g: both are x.significand * 2^(spacing + 149)
        lemma_pow2_adds(g as nat, g as nat);
        lemma_pow2_adds(sa as nat, lift as nat);
        lemma_pow2_adds((sa + lift) as nat, (2 * g) as nat);
        lemma_pow2_adds(x.spacing as nat, 149);
        let xs = x.significand as int;
        lemma_mul_assoc(xs, pow2(x.spacing as nat) as int, pow2(149) as int);
        assert(s == xs * pow2((x.spacing + 149) as nat));
        lemma_mul_assoc(xs, pow2(sa as nat) as int, pow2(lift as nat) as int);
        lemma_mul_assoc(xs, pow2((sa + lift) as nat) as int, space * space);
        assert(sa + lift + 2 * g == x.spacing + 149);
        assert(big * (space * space) == s);
        assert(is_root_rounding(p as int, s));
        lemma_root_rounding_is_unique(p as int, root_rounded(s), s);
    }
    p
}

/// The rounded square root of a single.
pub fn square_root(a: u32) -> (result: u32)
    ensures
        number_of(result) == root(number_of(a)),
        !is_nan(result) ==> is_negative(result) == (is_negative(a) && is_zero(a)),
        is_nan(result) ==> result == NAN_BITS,
{
    let negative = a >= SIGN_BIT;
    let magnitude: u32 = if negative {
        a - SIGN_BIT
    } else {
        a
    };
    if magnitude > INFINITY_BITS {
        return NAN_BITS;
    }
    proof {
        lemma2_to64();
        assert(magnitude_value(0) == 0);
        if 0 < magnitude < INFINITY_BITS {
            lemma_magnitude_value_increases(0, magnitude as int);
        }
    }
    if magnitude == 0 {
        proof {
            let s = 0 * pow2(149);
            assert(s == 0) by (nonlinear_arith)
                requires
                    s == 0 * pow2(149),
            ;
            assert(magnitude_value(1) == 1);
            assert(is_root_rounding(0, 0));
            lemma_root_rounding_is_unique(0, root_rounded(0), 0);
        }
        return a;
    }
    if negative {
        return NAN_BITS;
    }
    if magnitude == INFINITY_BITS {
        return a;
    }
    root_positive(a)
}

} // verus!
