//! Sums, differences and products of singles, and their whole parts.

use vstd::prelude::*;
use vstd::arithmetic::div_mod::{
    lemma_basic_div,
    lemma_fundamental_div_mod,
    lemma_fundamental_div_mod_converse,
};
use vstd::arithmetic::power2::{
    lemma2_to64,
    lemma_pow2_adds,
    lemma_pow2_pos,
    lemma_pow2_strictly_increases,
    lemma_pow2_unfold,
    pow2,
};
use crate::single::number::{
    absolute,
    difference,
    is_nan,
    is_negative,
    is_zero,
    lemma_rounded_result,
    nearest_whole,
    Number,
    number_of,
    of_count,
    product,
    round_units,
    signed,
    sum,
    truncated,
};
use crate::single::pattern::{
    EXPONENT_UNIT,
    INFINITY_BITS,
    is_finite,
    is_significand,
    lemma_magnitude_value_increases,
    magnitude_value,
    NAN_BITS,
    pack_whole,
    Parts,
    power_of_two,
    SIGN_BIT,
    unpack,
    with_sign,
};
use crate::single::rounding::{gap_sum, is_rounding, lemma_round_near, round_pack};

verus! {

/// The rounded product of two singles.
pub fn multiply(a: u32, b: u32) -> (result: u32)
    ensures
        number_of(result) == product(number_of(a), number_of(b)),
        !is_nan(result) ==> is_negative(result) == (is_negative(a) != is_negative(b)),
        is_nan(result) ==> result == NAN_BITS,
{
    let a_finite = is_finite(a);
    let b_finite = is_finite(b);
    let a_negative = a >= SIGN_BIT;
    let b_negative = b >= SIGN_BIT;
    let negative = a_negative != b_negative;
    let a_magnitude: u32 = if a_negative {
        a - SIGN_BIT
    } else {
        a
    };
    let b_magnitude: u32 = if b_negative {
        b - SIGN_BIT
    } else {
        b
    };
    if a_magnitude > INFINITY_BITS || b_magnitude > INFINITY_BITS {
        return NAN_BITS;
    }
    proof {
        lemma2_to64();
        assert(magnitude_value(0) == 0);
        if 0 < a_magnitude < INFINITY_BITS {
            lemma_magnitude_value_increases(0, a_magnitude as int);
        }
        if 0 < b_magnitude < INFINITY_BITS {
            lemma_magnitude_value_increases(0, b_magnitude as int);
        }
    }
    if !a_finite || !b_finite {
        if a_magnitude == 0 || b_magnitude == 0 {
            return NAN_BITS;
        }
        return with_sign(negative, INFINITY_BITS);
    }
    let x = unpack(a);
    let y = unpack(b);
    assert(x.significand * y.significand < 0x4000_0000_0000_0000) by (nonlinear_arith)
        requires
            x.significand < 0x100_0000,
            y.significand < 0x100_0000,
    ;
    let sig: u64 = x.significand as u64 * y.significand as u64;
    let p = round_pack(sig, x.spacing + y.spacing, 149);
    let result = with_sign(negative, p);
    proof {
        let xs = pow2(x.spacing as nat) as int;
        let ys = pow2(y.spacing as nat) as int;
        let xu = signed(x.negative, x.significand * xs);
        let yu = signed(y.negative, y.significand * ys);
        lemma_pow2_adds(x.spacing as nat, y.spacing as nat);
        lemma_pow2_pos(x.spacing as nat);
        lemma_pow2_pos(y.spacing as nat);
        let exact = xu * yu;
        let size = sig * pow2((x.spacing + y.spacing) as nat);
        assert(size == (x.significand * xs) * (y.significand * ys)) by (nonlinear_arith)
            requires
                size == (x.significand * y.significand) * (xs * ys),
        ;
        let xv = x.significand * xs;
        let yv = y.significand * ys;
        assert(xv >= 0 && yv >= 0 && (x.significand > 0 ==> xv > 0) && (y.significand > 0 ==> yv
            > 0)) by (nonlinear_arith)
            requires
                xv == x.significand * xs,
                yv == y.significand * ys,
                xs > 0,
                ys > 0,
                x.significand >= 0,
                y.significand >= 0,
        ;
        assert(absolute(exact) == xv * yv && (exact != 0 ==> (exact < 0) == negative))
            by (nonlinear_arith)
            requires
                exact == xu * yu,
                xu == signed(x.negative, xv),
                yu == signed(y.negative, yv),
                negative == (x.negative != y.negative),
                xv >= 0,
                yv >= 0,
        ;
        lemma_pow2_pos(149);
        lemma_rounded_result(result, negative, p as int, exact, pow2(149) as int);
    }
    result
}

/// The single nearest to a whole number.
pub fn from_count(count: u32) -> (result: u32)
    ensures
        number_of(result) == of_count(count),
        is_rounding(result as int, count * pow2(149), 1),
        !is_negative(result),
{
    let p = round_pack(count as u64, 149, 0);
    proof {
        lemma_pow2_pos(149);
        assert(count * pow2(149) >= 0) by (nonlinear_arith)
            requires
                count >= 0,
                pow2(149) > 0,
        ;
        lemma2_to64();
        assert(pow2(0) == 1);
        lemma_rounded_result(p, false, p as int, count * pow2(149), 1);
    }
    p
}

/// The rounded sum of two finite numbers, each given by its sign, its
/// significand and the exponent of its spacing.
pub(crate) fn add_parts(x: Parts, y: Parts) -> (result: u32)
    requires
        is_significand(x.spacing as int, x.significand as int),
        is_significand(y.spacing as int, y.significand as int),
        x.significand < 0x100_0000,
        y.significand < 0x100_0000,
        x.spacing >= y.spacing,
    ensures
        number_of(result) == round_units(
            signed(x.negative, x.significand * pow2(x.spacing as nat)) + signed(
                y.negative,
                y.significand * pow2(y.spacing as nat),
            ),
            1,
        ),
        !is_nan(result),
        is_zero(result) ==> is_negative(result) == (x.negative && y.negative),
{
    let ghost xv = x.significand * pow2(x.spacing as nat);
    let ghost yv = y.significand * pow2(y.spacing as nat);
    let ghost exact = signed(x.negative, xv) + signed(y.negative, yv);
    proof {
        lemma2_to64();
        lemma_pow2_pos(x.spacing as nat);
        lemma_pow2_pos(y.spacing as nat);
        assert(xv >= 0 && yv >= 0) by (nonlinear_arith)
            requires
                xv == x.significand * pow2(x.spacing as nat),
                yv == y.significand * pow2(y.spacing as nat),
                x.significand >= 0,
                y.significand >= 0,
                pow2(x.spacing as nat) > 0,
                pow2(y.spacing as nat) > 0,
        ;
    }
    let d: u32 = x.spacing - y.spacing;
    if d >= 32 {
        // the smaller number is lost in the rounding
        let p: u32 = x.spacing * EXPONENT_UNIT + x.significand;
        let result = with_sign(x.negative, p);
        proof {
            let far = pow2((x.spacing - 8) as nat) as int;
            lemma_pow2_adds(24, y.spacing as nat);
            if 24 + y.spacing < x.spacing - 8 {
                lemma_pow2_strictly_increases((24 + y.spacing) as nat, (x.spacing - 8) as nat);
            }
            assert(yv < far) by (nonlinear_arith)
                requires
                    yv == y.significand * pow2(y.spacing as nat),
                    y.significand < pow2(24),
                    pow2(y.spacing as nat) > 0,
                    pow2(24) * pow2(y.spacing as nat) <= far,
            ;
            lemma_pow2_adds(2, (x.spacing - 8) as nat);
            lemma_pow2_strictly_increases((x.spacing - 6) as nat, (x.spacing - 1) as nat);
            lemma_pow2_strictly_increases((x.spacing - 1) as nat, x.spacing as nat);
            assert(xv >= pow2(x.spacing as nat)) by (nonlinear_arith)
                requires
                    xv == x.significand * pow2(x.spacing as nat),
                    x.significand >= 1,
                    pow2(x.spacing as nat) > 0,
            ;
            assert(xv > yv);
            assert((exact < 0) == x.negative);
            assert(4 * absolute(absolute(exact) - xv) < pow2((x.spacing - 1) as nat));
            lemma_round_near(x.spacing as int, x.significand as int, absolute(exact));
            lemma_rounded_result(result, x.negative, p as int, exact, 1);
        }
        return result;
    }
    let scale: u64 = power_of_two(d);
    proof {
        lemma_pow2_pos(d as nat);
        if d < 31 {
            lemma_pow2_strictly_increases(d as nat, 31);
        }
        assert(x.significand * scale < 0x80_0000_0000_0000) by (nonlinear_arith)
            requires
                x.significand < 0x100_0000,
                0 < scale <= 0x8000_0000,
        ;
    }
    let big: u64 = x.significand as u64 * scale;
    let negative: bool;
    let sig: u64;
    if x.negative == y.negative {
        negative = x.negative;
        sig = big + y.significand as u64;
    } else if big == y.significand as u64 {
        negative = false;
        sig = 0;
    } else if big > y.significand as u64 {
        negative = x.negative;
        sig = big - y.significand as u64;
    } else {
        negative = y.negative;
        sig = y.significand as u64 - big;
    }
    let p = round_pack(sig, y.spacing, 0);
    let result = with_sign(negative, p);
    proof {
        let low = pow2(y.spacing as nat) as int;
        lemma_pow2_adds(d as nat, y.spacing as nat);
        assert(xv == big * low) by (nonlinear_arith)
            requires
                xv == x.significand * pow2(x.spacing as nat),
                big == x.significand * scale,
                scale * low == pow2(x.spacing as nat),
        ;
        assert(exact == signed(negative, sig * low)) by (nonlinear_arith)
            requires
                exact == signed(x.negative, big * low) + signed(y.negative, y.significand * low),
                x.negative == y.negative ==> negative == x.negative && sig == big
                    + y.significand,
                x.negative != y.negative && big == y.significand ==> sig == 0,
                x.negative != y.negative && big > y.significand ==> negative == x.negative
                    && sig == big - y.significand,
                x.negative != y.negative && big < y.significand ==> negative == y.negative
                    && sig == y.significand - big,
        ;
        assert(sig * low >= 0) by (nonlinear_arith)
            requires
                sig >= 0,
                low > 0,
        ;
        lemma_rounded_result(result, negative, p as int, exact, 1);
        if sig > 0 {
            // a sum that is not zero does not round to zero
            assert(sig * low >= 1) by (nonlinear_arith)
                requires
                    sig >= 1,
                    low >= 1,
            ;
            assert(magnitude_value(0) == 0);
            assert(magnitude_value(1) == 1);
            assert(gap_sum(0) * 1 == 1);
            assert(p != 0);
        }
    }
    result
}

/// The rounded sum of two singles.
pub fn plus(a: u32, b: u32) -> (result: u32)
    ensures
        number_of(result) == sum(number_of(a), number_of(b)),
        is_zero(result) ==> is_negative(result) == (is_negative(a) && is_negative(b)),
        is_nan(result) ==> result == NAN_BITS,
{
    let a_negative = a >= SIGN_BIT;
    let b_negative = b >= SIGN_BIT;
    let a_magnitude: u32 = if a_negative {
        a - SIGN_BIT
    } else {
        a
    };
    let b_magnitude: u32 = if b_negative {
        b - SIGN_BIT
    } else {
        b
    };
    if a_magnitude > INFINITY_BITS || b_magnitude > INFINITY_BITS {
        return NAN_BITS;
    }
    if a_magnitude == INFINITY_BITS {
        if b_magnitude == INFINITY_BITS && a_negative != b_negative {
            return NAN_BITS;
        }
        return a;
    }
    if b_magnitude == INFINITY_BITS {
        return b;
    }
    let x = unpack(a);
    let y = unpack(b);
    if x.spacing >= y.spacing {
        add_parts(x, y)
    } else {
        add_parts(y, x)
    }
}

/// The rounded difference of two singles.
pub fn subtract(a: u32, b: u32) -> (result: u32)
    ensures
        number_of(result) == difference(number_of(a), number_of(b)),
        is_zero(result) ==> is_negative(result) == (is_negative(a) && !is_negative(b)),
        is_nan(result) ==> result == NAN_BITS,
{
    let a_negative = a >= SIGN_BIT;
    let b_negative = b >= SIGN_BIT;
    let a_magnitude: u32 = if a_negative {
        a - SIGN_BIT
    } else {
        a
    };
    let b_magnitude: u32 = if b_negative {
        b - SIGN_BIT
    } else {
        b
    };
    if a_magnitude > INFINITY_BITS || b_magnitude > INFINITY_BITS {
        return NAN_BITS;
    }
    if a_magnitude == INFINITY_BITS {
        if b_magnitude == INFINITY_BITS && a_negative == b_negative {
            return NAN_BITS;
        }
        return a;
    }
    if b_magnitude == INFINITY_BITS {
        return with_sign(!b_negative, INFINITY_BITS);
    }
    let x = unpack(a);
    let y = unpack(b);
    let minus_y = Parts { negative: !y.negative, significand: y.significand, spacing: y.spacing };
    if x.spacing >= y.spacing {
        add_parts(x, minus_y)
    } else {
        add_parts(minus_y, x)
    }
}

/// Splitting off a common power of two: where `m == w * 2^t + r` with
/// `r < 2^t`, the quotient of `m * 2^g` by `2^(t+g)` is `w`.
pub(crate) proof fn lemma_scaled_quotient(m: int, w: int, r: int, t: nat, g: nat)
    requires
        m == w * pow2(t) + r,
        0 <= r < pow2(t),
    ensures
        (m * pow2(g)) / (pow2(t + g) as int) == w,
{
    let unit = pow2(t) as int;
    let space = pow2(g) as int;
    lemma_pow2_adds(t, g);
    lemma_pow2_pos(g);
    lemma_pow2_pos(t + g);
    assert(m * space == w * (unit * space) + r * space) by (nonlinear_arith)
        requires
            m == w * unit + r,
    ;
    assert(0 <= r * space < unit * space) by (nonlinear_arith)
        requires
            0 <= r < unit,
            space > 0,
    ;
    lemma_fundamental_div_mod_converse(m * space, unit * space, w, r * space);
}

/// The whole number nearest to a single; of two equally near, the one
/// farther from zero.
pub fn round_to_whole(a: u32) -> (result: u32)
    ensures
        number_of(result) == nearest_whole(number_of(a)),
        !is_nan(result) ==> is_negative(result) == is_negative(a),
        is_nan(result) ==> result == NAN_BITS,
{
    if !is_finite(a) {
        return if a == INFINITY_BITS || a == SIGN_BIT + INFINITY_BITS {
            a
        } else {
            NAN_BITS
        };
    }
    let x = unpack(a);
    let ghost size = x.significand * pow2(x.spacing as nat);
    proof {
        lemma2_to64();
        lemma_pow2_pos(x.spacing as nat);
        lemma_pow2_pos(149);
        lemma_pow2_unfold(149);
        assert(size >= 0 && (x.significand > 0 ==> size > 0)) by (nonlinear_arith)
            requires
                size == x.significand * pow2(x.spacing as nat),
                x.significand >= 0,
                pow2(x.spacing as nat) > 0,
        ;
    }
    if x.spacing >= 149 {
        proof {
            // already whole
            let k = (x.spacing - 149) as nat;
            let whole = x.significand * pow2(k);
            lemma_pow2_adds(k, 149);
            assert(size == whole * pow2(149)) by (nonlinear_arith)
                requires
                    whole == x.significand * pow2(k),
                    size == x.significand * (pow2(k) * pow2(149)),
            ;
            assert(size + pow2(148) == whole * pow2(149) + pow2(148));
            lemma_fundamental_div_mod_converse(
                size + pow2(148),
                pow2(149) as int,
                whole,
                pow2(148) as int,
            );
        }
        return a;
    }
    let t: u32 = 149 - x.spacing;
    if t >= 25 {
        proof {
            // below one half
            lemma_pow2_adds(24, x.spacing as nat);
            if 24 + x.spacing < 148 {
                lemma_pow2_strictly_increases((24 + x.spacing) as nat, 148);
            }
            assert(size < pow2(24) * pow2(x.spacing as nat)) by (nonlinear_arith)
                requires
                    size == x.significand * pow2(x.spacing as nat),
                    x.significand < pow2(24),
                    pow2(x.spacing as nat) > 0,
            ;
            lemma_basic_div(size + pow2(148), pow2(149) as int);
            assert(0 * pow2(149) == 0) by (nonlinear_arith);
            assert(magnitude_value(0) == 0);
        }
        return with_sign(x.negative, 0);
    }
    let half: u64 = power_of_two(t - 1);
    proof {
        lemma_pow2_unfold(t as nat);
        lemma_pow2_pos((t - 1) as nat);
        if t < 24 {
            lemma_pow2_strictly_increases(t as nat, 24);
        }
    }
    let unit: u64 = half * 2;
    let raised: u64 = x.significand as u64 + half;
    let whole: u32 = (raised / unit) as u32;
    proof {
        let r = raised % unit;
        assert(raised == whole * unit + r) by (nonlinear_arith)
            requires
                whole == raised / unit,
                r == raised % unit,
                unit > 0,
        ;
        lemma_scaled_quotient(raised as int, whole as int, r as int, t as nat, x.spacing as nat);
        lemma_pow2_adds((t - 1) as nat, x.spacing as nat);
        assert(raised * pow2(x.spacing as nat) == size + pow2(148)) by (nonlinear_arith)
            requires
                raised == x.significand + half,
                size == x.significand * pow2(x.spacing as nat),
                half * pow2(x.spacing as nat) == pow2(148),
        ;
        assert(whole <= 0x100_0000) by (nonlinear_arith)
            requires
                raised == whole * unit + r,
                r >= 0,
                raised < 0x100_0000 + half,
                unit == 2 * half,
                half > 0,
        ;
    }
    let p = pack_whole(whole);
    with_sign(x.negative, p)
}

/// `a` without its fraction as a 32-bit integer, as the cast of a single
/// to that type gives it.
pub fn truncate(a: u32) -> (whole: i32)
    ensures
        whole == truncated(number_of(a)),
{
    let negative = a >= SIGN_BIT;
    let magnitude: u32 = if negative {
        a - SIGN_BIT
    } else {
        a
    };
    if magnitude > INFINITY_BITS {
        return 0;
    }
    if magnitude == INFINITY_BITS {
        return if negative {
            i32::MIN
        } else {
            i32::MAX
        };
    }
    let x = unpack(a);
    let ghost size = x.significand * pow2(x.spacing as nat);
    proof {
        lemma_pow2_pos(x.spacing as nat);
        assert(size >= 0 && (x.significand > 0 ==> size > 0)) by (nonlinear_arith)
            requires
                size == x.significand * pow2(x.spacing as nat),
                x.significand >= 0,
                pow2(x.spacing as nat) > 0,
        ;
        lemma2_to64();
    }
    if x.spacing >= 149 {
        let k: u32 = x.spacing - 149;
        proof {
            lemma_pow2_adds(0, x.spacing as nat);
            assert(x.significand as int == x.significand * pow2(0) + 0) by (nonlinear_arith)
                requires
                    pow2(0) == 1,
            ;
        }
        if k >= 8 {
            proof {
                // the number is 2^31 or more
                let whole = x.significand * pow2(k as nat);
                lemma_scaled_quotient(whole, whole, 0, 0, 149);
                lemma_pow2_adds(k as nat, 149);
                assert(whole * pow2(149) == size) by (nonlinear_arith)
                    requires
                        whole == x.significand * pow2(k as nat),
                        size == x.significand * (pow2(k as nat) * pow2(149)),
                ;
                if k > 8 {
                    lemma_pow2_strictly_increases(8, k as nat);
                }
                assert(whole >= 0x8000_0000) by (nonlinear_arith)
                    requires
                        whole == x.significand * pow2(k as nat),
                        x.significand >= 0x80_0000,
                        pow2(k as nat) >= 0x100,
                ;
            }
            return if negative {
                i32::MIN
            } else {
                i32::MAX
            };
        }
        let scale: u64 = power_of_two(k);
        proof {
            if k < 7 {
                lemma_pow2_strictly_increases(k as nat, 7);
            }
            assert(x.significand * scale < 0x8000_0000) by (nonlinear_arith)
                requires
                    x.significand < 0x100_0000,
                    0 < scale <= 0x80,
            ;
            let whole = x.significand * pow2(k as nat);
            lemma_scaled_quotient(whole, whole, 0, 0, 149);
            lemma_pow2_adds(k as nat, 149);
            assert(whole * pow2(149) == size) by (nonlinear_arith)
                requires
                    whole == x.significand * pow2(k as nat),
                    size == x.significand * (pow2(k as nat) * pow2(149)),
            ;
            assert(whole >= 0) by (nonlinear_arith)
                requires
                    whole == x.significand * pow2(k as nat),
                    x.significand >= 0,
                    pow2(k as nat) > 0,
            ;
        }
        let whole: i64 = (x.significand as u64 * scale) as i64;
        return if negative {
            (-whole) as i32
        } else {
            whole as i32
        };
    }
    let t: u32 = 149 - x.spacing;
    if t >= 24 {
        proof {
            // the number is below one
            lemma_pow2_adds(24, x.spacing as nat);
            if 24 + x.spacing < 149 {
                lemma_pow2_strictly_increases((24 + x.spacing) as nat, 149);
            }
            assert(size < pow2(24) * pow2(x.spacing as nat)) by (nonlinear_arith)
                requires
                    size == x.significand * pow2(x.spacing as nat),
                    x.significand < pow2(24),
                    pow2(x.spacing as nat) > 0,
            ;
            lemma_basic_div(size, pow2(149) as int);
        }
        return 0;
    }
    let unit: u64 = power_of_two(t);
    proof {
        lemma_pow2_pos(t as nat);
        lemma_pow2_strictly_increases(t as nat, 24);
    }
    let whole: u32 = (x.significand as u64 / unit) as u32;
    proof {
        let r = x.significand as int % unit as int;
        lemma_fundamental_div_mod(x.significand as int, unit as int);
        assert(x.significand == whole * unit + r) by (nonlinear_arith)
            requires
                x.significand == unit * whole + r,
        ;
        lemma_scaled_quotient(
            x.significand as int,
            whole as int,
            r as int,
            t as nat,
            x.spacing as nat,
        );
        assert(pow2((t + x.spacing) as nat) == pow2(149));
        assert(size / (pow2(149) as int) == whole);
        let units = signed(negative, size);
        assert(number_of(a) == Number::Finite { units });
        assert(absolute(units) == size);
        assert(whole <= x.significand) by (nonlinear_arith)
            requires
                x.significand == whole * unit + r,
                r >= 0,
                unit >= 1,
                whole >= 0,
        ;
        assert(truncated(number_of(a)) == signed(units < 0, whole as int));
    }
    if negative {
        -(whole as i32)
    } else {
        whole as i32
    }
}

} // verus!
