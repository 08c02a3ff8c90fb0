//! Quotients of singles.

use vstd::prelude::*;
use vstd::arithmetic::div_mod::lemma_fundamental_div_mod;
use vstd::arithmetic::power2::{
    lemma2_to64,
    lemma2_to64_rest,
    lemma_pow2_adds,
    lemma_pow2_pos,
    lemma_pow2_strictly_increases,
    pow2,
};
use crate::single::number::{
    is_nan,
    is_negative,
    lemma_rounded_result,
    number_of,
    quotient,
    quotient_units,
    signed,
};
use crate::single::pattern::{
    EXPONENT_UNIT,
    INFINITY_BITS,
    lemma_magnitude_value_increases,
    lemma_mul_assoc,
    lemma_mul_regroup,
    lemma_pattern_value,
    magnitude_value,
    NAN_BITS,
    normalize_significand,
    power_of_two,
    SIGN_BIT,
    unpack,
    with_sign,
};
use crate::single::rounding::{
    is_rounding,
    lemma_round_overflow,
    lemma_round_within,
    lemma_round_zero,
    lemma_same_fraction,
};

verus! {

/// The two ways in which `divide_positive` writes its exact quotient are
/// the same fraction.
pub(crate) proof fn lemma_quotient_form(
    x: int,
    y: int,
    sa: nat,
    sb: nat,
    ga: nat,
    gb: nat,
    lift: nat,
    big: int,
    mb: int,
)
    requires
        big == x * pow2(sa) * pow2(lift),
        mb == y * pow2(sb),
    ensures
        (big * pow2(sb + ga + 149)) * (y * pow2(gb)) == (x * pow2(ga) * pow2(149)) * (mb * pow2(
            sa + gb + lift,
        )),
{
    let total = pow2(sa + lift + sb + ga + 149 + gb) as int;
    let a1 = pow2(sa) as int;
    let a2 = pow2(lift) as int;
    let a3 = pow2(sb + ga + 149) as int;
    let a4 = pow2(gb) as int;
    lemma_pow2_adds(sa, lift);
    lemma_pow2_adds(sa + lift, sb + ga + 149);
    lemma_pow2_adds(sa + lift + sb + ga + 149, gb);
    let t1 = a1 * a2;
    let t2 = t1 * a3;
    assert(t2 * a4 == total);
    lemma_mul_assoc(x, a1, a2);
    lemma_mul_assoc(x, t1, a3);
    lemma_mul_regroup(x, t2, y, a4);
    assert((big * a3) * (y * a4) == (x * y) * total);
    let b1 = pow2(ga) as int;
    let b2 = pow2(149) as int;
    let b3 = pow2(sb) as int;
    let b4 = pow2(sa + gb + lift) as int;
    lemma_pow2_adds(ga, 149);
    lemma_pow2_adds(sb, sa + gb + lift);
    lemma_pow2_adds(ga + 149, sb + sa + gb + lift);
    let s1 = b1 * b2;
    let s2 = b3 * b4;
    assert(s1 * s2 == total);
    lemma_mul_assoc(x, b1, b2);
    lemma_mul_assoc(y, b3, b4);
    lemma_mul_regroup(x, s1, y, s2);
    assert((x * b1 * b2) * (mb * b4) == (x * y) * total);
}

/// The rounded quotient of two finite singles that are not negative, the
/// second not zero.
pub(crate) fn divide_positive(a: u32, b: u32) -> (result: u32)
    requires
        a < INFINITY_BITS,
        0 < b < INFINITY_BITS,
    ensures
        number_of(result) == quotient_units(magnitude_value(a as int), magnitude_value(b as int)),
        is_rounding(
            result as int,
            magnitude_value(a as int) * pow2(149),
            magnitude_value(b as int),
        ),
        result <= INFINITY_BITS,
{
    let x = unpack(a);
    let y = unpack(b);
    let ghost xv = magnitude_value(a as int);
    let ghost yv = magnitude_value(b as int);
    let ghost n = xv * pow2(149);
    proof {
        lemma2_to64();
        assert(magnitude_value(0) == 0);
        lemma_magnitude_value_increases(0, b as int);
        lemma_pow2_pos(149);
        lemma_pow2_pos(x.spacing as nat);
        lemma_pow2_pos(y.spacing as nat);
        assert(y.significand > 0) by (nonlinear_arith)
            requires
                yv == y.significand * pow2(y.spacing as nat),
                yv > 0,
                y.significand >= 0,
        ;
    }
    if x.significand == 0 {
        proof {
            assert(xv == 0) by (nonlinear_arith)
                requires
                    xv == x.significand * pow2(x.spacing as nat),
                    x.significand == 0,
            ;
            assert(n == 0) by (nonlinear_arith)
                requires
                    n == xv * pow2(149),
                    xv == 0,
            ;
            lemma_round_zero(0, yv);
            lemma_rounded_result(0, false, 0, n, yv);
        }
        return 0;
    }
    let (sa, ma) = normalize_significand(x.significand);
    let (sb, mb) = normalize_significand(y.significand);
    let lift: u32 = if ma >= mb {
        23
    } else {
        24
    };
    proof {
        assert(ma * pow2(lift as nat) < 0x1_0000_0000_0000) by (nonlinear_arith)
            requires
                0 <= ma < 0x100_0000,
                0 < pow2(lift as nat) <= 0x100_0000,
        ;
    }
    let big: u64 = ma as u64 * power_of_two(lift);
    let g: i64 = x.spacing as i64 - sa as i64 - y.spacing as i64 + sb as i64 + 149 - lift as i64;
    let ghost u = pow2((sb + x.spacing + 149) as nat) as int;
    let ghost d = mb * pow2((sa + y.spacing + lift) as nat);
    proof {
        lemma_pow2_pos((sb + x.spacing + 149) as nat);
        lemma_pow2_pos((sa + y.spacing + lift) as nat);
        assert(d > 0) by (nonlinear_arith)
            requires
                d == mb * pow2((sa + y.spacing + lift) as nat),
                mb > 0,
                pow2((sa + y.spacing + lift) as nat) > 0,
        ;
        assert(0x80_0000 * mb <= big < 0x100_0000 * mb) by (nonlinear_arith)
            requires
                big == ma * pow2(lift as nat),
                lift == 23 ==> pow2(lift as nat) == 0x80_0000 && ma >= mb,
                lift == 24 ==> pow2(lift as nat) == 0x100_0000 && ma < mb,
                lift == 23 || lift == 24,
                0x80_0000 <= ma < 0x100_0000,
                0x80_0000 <= mb < 0x100_0000,
        ;
        lemma_quotient_form(
            x.significand as int,
            y.significand as int,
            sa as nat,
            sb as nat,
            x.spacing as nat,
            y.spacing as nat,
            lift as nat,
            big as int,
            mb as int,
        );
        assert((big * u) * yv == n * d);
    }
    if g >= 254 {
        proof {
            // big * u >= 2^(23+g) * d >= 2^277 * d
            let rest = pow2((sa + y.spacing + lift) as nat) as int;
            lemma_pow2_adds(g as nat, (sa + y.spacing + lift) as nat);
            lemma_pow2_adds(23, g as nat);
            lemma_pow2_pos(g as nat);
            if 23 + g > 277 {
                lemma_pow2_strictly_increases(277, (23 + g) as nat);
            }
            assert(big * u >= pow2(277) * d) by (nonlinear_arith)
                requires
                    big >= 0x80_0000 * mb,
                    u == pow2(g as nat) * rest,
                    0x80_0000 * pow2(g as nat) >= pow2(277),
                    d == mb * rest,
                    rest > 0,
                    mb > 0,
                    pow2(g as nat) > 0,
            ;
            lemma_round_overflow(big * u, d);
            lemma_same_fraction(INFINITY_BITS as int, big * u, d, n, yv);
            lemma_rounded_result(INFINITY_BITS, false, INFINITY_BITS as int, n, yv);
        }
        return INFINITY_BITS;
    }
    if g >= 1 {
        let q0: u64 = big / mb as u64;
        let r: u64 = big % mb as u64;
        let round_up: bool = 2 * r > mb as u64 || (2 * r == mb as u64 && q0 % 2 == 1);
        proof {
            lemma_fundamental_div_mod(big as int, mb as int);
            assert(big == q0 * mb + r) by (nonlinear_arith)
                requires
                    big == mb * q0 + r,
            ;
            assert(0x80_0000 <= q0 < 0x100_0000) by (nonlinear_arith)
                requires
                    big == q0 * mb + r,
                    0 <= r < mb,
                    0x80_0000 * mb <= big < 0x100_0000 * mb,
            ;
            lemma_pow2_adds(g as nat, (sa + y.spacing + lift) as nat);
            assert(pow2(g as nat) * d == mb * u) by (nonlinear_arith)
                requires
                    d == mb * pow2((sa + y.spacing + lift) as nat),
                    pow2(g as nat) * pow2((sa + y.spacing + lift) as nat) == u,
            ;
            lemma_round_within(
                g as int,
                q0 as int,
                r as int,
                mb as int,
                big as int,
                u,
                d,
                round_up,
            );
            let q = q0 + if round_up {
                1int
            } else {
                0int
            };
            lemma_pattern_value(g as int, q);
            lemma_same_fraction(g * 0x80_0000 + q, big * u, d, n, yv);
            lemma_rounded_result(
                (g * 0x80_0000 + q) as u32,
                false,
                g * 0x80_0000 + q,
                n,
                yv,
            );
        }
        let q: u64 = if round_up {
            q0 + 1
        } else {
            q0
        };
        return (g as u32) * EXPONENT_UNIT + q as u32;
    }
    let h: u32 = (-g) as u32;
    if h >= 38 {
        proof {
            // big * u * 2 < d
            let rest = pow2((sb + x.spacing + 149) as nat) as int;
            lemma_pow2_adds(h as nat, (sb + x.spacing + 149) as nat);
            lemma2_to64_rest();
            if h > 38 {
                lemma_pow2_strictly_increases(38, h as nat);
            }
            lemma_pow2_pos(h as nat);
            assert(2 * (big * u) < d) by (nonlinear_arith)
                requires
                    big < 0x100_0000 * mb,
                    u == rest,
                    d == mb * (pow2(h as nat) * rest),
                    pow2(h as nat) >= 0x40_0000_0000,
                    rest > 0,
                    mb > 0,
                    big >= 0,
            ;
            assert(big * u >= 0) by (nonlinear_arith)
                requires
                    big >= 0,
                    u > 0,
            ;
            lemma_round_zero(big * u, d);
            lemma_same_fraction(0, big * u, d, n, yv);
            lemma_rounded_result(0, false, 0, n, yv);
        }
        return 0;
    }
    let scale: u64 = power_of_two(h);
    proof {
        lemma2_to64_rest();
        lemma_pow2_pos(h as nat);
        if h < 37 {
            lemma_pow2_strictly_increases(h as nat, 37);
        }
        assert(0 < mb * scale < 0x2000_0000_0000_0000) by (nonlinear_arith)
            requires
                0 < mb < 0x100_0000,
                0 < scale <= 0x20_0000_0000,
        ;
    }
    let unit: u64 = mb as u64 * scale;
    let q0: u64 = big / unit;
    let r: u64 = big % unit;
    let round_up: bool = 2 * r > unit || (2 * r == unit && q0 % 2 == 1);
    proof {
        lemma_fundamental_div_mod(big as int, unit as int);
        assert(big == q0 * unit + r) by (nonlinear_arith)
            requires
                big == unit * q0 + r,
        ;
        assert(q0 < 0x100_0000) by (nonlinear_arith)
            requires
                big == q0 * unit + r,
                0 <= r,
                big < 0x100_0000 * mb,
                unit == mb * scale,
                scale >= 1,
                mb > 0,
                q0 >= 0,
        ;
        lemma_pow2_adds(h as nat, (sb + x.spacing + 149) as nat);
        assert(pow2(0) * d == unit * u) by (nonlinear_arith)
            requires
                pow2(0) == 1,
                d == mb * pow2((sa + y.spacing + lift) as nat),
                unit == mb * pow2(h as nat),
                pow2(h as nat) * u == pow2((sa + y.spacing + lift) as nat),
        ;
        lemma_round_within(0, q0 as int, r as int, unit as int, big as int, u, d, round_up);
        let q = q0 + if round_up {
            1int
        } else {
            0int
        };
        lemma_pattern_value(0, q);
        lemma_same_fraction(q, big * u, d, n, yv);
        lemma_rounded_result(q as u32, false, q, n, yv);
    }
    let q: u64 = if round_up {
        q0 + 1
    } else {
        q0
    };
    q as u32
}

/// The rounded quotient of two singles.
pub fn divide(a: u32, b: u32) -> (result: u32)
    ensures
        number_of(result) == quotient(a, b),
        !is_nan(result) ==> is_negative(result) == (is_negative(a) != is_negative(b)),
        is_nan(result) ==> result == NAN_BITS,
{
    let a_negative = a >= SIGN_BIT;
    let b_negative = b >= SIGN_BIT;
    let negative = a_negative != b_negative;
    let a_magnitude: u32 = if a_negative {
        a - SIGN_BIT
    } else {
        a
    };
    let b_magnitude: u32 = if b_negative {
        b - SIGN_BIT
    } else {
        b
    };
    if a_magnitude > INFINITY_BITS || b_magnitude > INFINITY_BITS {
        return NAN_BITS;
    }
    proof {
        lemma2_to64();
        assert(magnitude_value(0) == 0);
        if 0 < a_magnitude < INFINITY_BITS {
            lemma_magnitude_value_increases(0, a_magnitude as int);
        }
        if 0 < b_magnitude < INFINITY_BITS {
            lemma_magnitude_value_increases(0, b_magnitude as int);
        }
    }
    if a_magnitude == INFINITY_BITS {
        if b_magnitude == INFINITY_BITS {
            return NAN_BITS;
        }
        return with_sign(negative, INFINITY_BITS);
    }
    if b_magnitude == INFINITY_BITS {
        return with_sign(negative, 0);
    }
    if b_magnitude == 0 {
        if a_magnitude == 0 {
            return NAN_BITS;
        }
        return with_sign(negative, INFINITY_BITS);
    }
    let p = divide_positive(a_magnitude, b_magnitude);
    let result = with_sign(negative, p);
    proof {
        let x = magnitude_value(a_magnitude as int);
        let y = magnitude_value(b_magnitude as int);
        let n = x * pow2(149);
        lemma_pow2_pos(149);
        assert(n >= 0 && (x > 0 ==> n > 0)) by (nonlinear_arith)
            requires
                n == x * pow2(149),
                x >= 0,
                pow2(149) > 0,
        ;
        lemma_rounded_result(result, negative, p as int, signed(negative, n), y);
    }
    result
}

} // verus!
