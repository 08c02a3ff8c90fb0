//! Rounding to the nearest single.
//!
//! An exact result `n / d`, in units of `2^-149`, rounds to the magnitude
//! whose number is nearest to it; to the one with the even pattern where
//! two are equally near; and to infinity where the result lies at or
//! beyond the midpoint between the greatest finite single and `2^128`.

use vstd::prelude::*;
use vstd::arithmetic::power2::{
    lemma2_to64,
    lemma2_to64_rest,
    lemma_pow2_adds,
    lemma_pow2_pos,
    lemma_pow2_strictly_increases,
    lemma_pow2_unfold,
    pow2,
};
use crate::single::number::absolute;
use crate::single::pattern::{
    bit_length,
    EXPONENT_UNIT,
    INFINITY_BITS,
    is_significand,
    lemma_magnitude_value_increases,
    lemma_pattern_value,
    magnitude_value,
    power_of_two,
};

verus! {

/// Twice the midpoint between the numbers of the magnitudes `p` and
/// `p + 1`, in units.  The magnitude of infinity counts as `2^128`.
pub open spec fn gap_sum(p: int) -> int {
    magnitude_value(p) + magnitude_value(p + 1)
}

/// Whether `n / d` units, with `d` positive, is not nearer to the magnitude
/// below `p` than to `p`, and not equally near unless `p` is even.
pub open spec fn not_below(p: int, n: int, d: int) -> bool {
    p == 0 || gap_sum(p - 1) * d < 2 * n || (gap_sum(p - 1) * d == 2 * n && p % 2 == 0)
}

/// Whether `n / d` units, with `d` positive, is not nearer to the magnitude
/// above `p` than to `p`, and not equally near unless `p` is even.
pub open spec fn not_above(p: int, n: int, d: int) -> bool {
    p == INFINITY_BITS || 2 * n < gap_sum(p) * d || (2 * n == gap_sum(p) * d && p % 2 == 0)
}

/// Whether the magnitude `p` is what `n / d` units rounds to, for a
/// positive `d`.
pub open spec fn is_rounding(p: int, n: int, d: int) -> bool {
    &&& 0 <= p <= INFINITY_BITS
    &&& not_below(p, n, d)
    &&& not_above(p, n, d)
}

/// The magnitude that the non-negative `n / d` units rounds to.
pub open spec fn rounded(n: int, d: int) -> int {
    choose|p: int| is_rounding(p, n, d)
}

/// A number that is not above a magnitude is below every greater one.
pub(crate) proof fn lemma_above_excludes(p: int, other: int, n: int, d: int)
    requires
        0 <= p < other <= INFINITY_BITS,
        d > 0,
        not_above(p, n, d),
    ensures
        !not_below(other, n, d),
{
    if p < other - 1 {
        lemma_magnitude_value_increases(p, other - 1);
        lemma_magnitude_value_increases(p + 1, other);
        assert(gap_sum(p) * d < gap_sum(other - 1) * d) by (nonlinear_arith)
            requires
                gap_sum(p) < gap_sum(other - 1),
                d > 0,
        ;
    }
}

/// A number rounds to one magnitude only.
pub proof fn lemma_rounding_is_unique(p: int, other: int, n: int, d: int)
    requires
        d > 0,
        is_rounding(p, n, d),
        is_rounding(other, n, d),
    ensures
        p == other,
{
    if p < other {
        lemma_above_excludes(p, other, n, d);
    } else if other < p {
        lemma_above_excludes(other, p, n, d);
    }
}

/// What a number rounds to is what `rounded` names.
pub proof fn lemma_rounded(p: int, n: int, d: int)
    requires
        d > 0,
        is_rounding(p, n, d),
    ensures
        rounded(n, d) == p,
{
    lemma_rounding_is_unique(p, rounded(n, d), n, d);
}

/// Below a magnitude that a number is not above, there is one that the
/// number rounds to.
pub(crate) proof fn lemma_rounding_below(p: int, n: int, d: int)
    requires
        0 <= p <= INFINITY_BITS,
        d > 0,
        not_above(p, n, d),
    ensures
        exists|r: int| is_rounding(r, n, d),
    decreases p,
{
    if not_below(p, n, d) {
        assert(is_rounding(p, n, d));
    } else {
        lemma_rounding_below(p - 1, n, d);
    }
}

/// Every number rounds to some magnitude, which `rounded` names.
pub proof fn lemma_rounding_exists(n: int, d: int)
    requires
        d > 0,
    ensures
        is_rounding(rounded(n, d), n, d),
{
    lemma_rounding_below(INFINITY_BITS as int, n, d);
}

/// Rounding keeps the order: a number of at least the number of a
/// magnitude rounds to that magnitude or a greater one, and a number of at
/// most the number of a magnitude to that magnitude or a lesser one.
pub proof fn lemma_rounding_is_monotone(n: int, d: int, p: int)
    requires
        d > 0,
        0 <= p <= INFINITY_BITS,
    ensures
        n >= magnitude_value(p) * d ==> rounded(n, d) >= p,
        n <= magnitude_value(p) * d ==> rounded(n, d) <= p,
{
    lemma_rounding_exists(n, d);
    let r = rounded(n, d);
    let v = magnitude_value(p);
    if r < p {
        lemma_magnitude_value_increases(r, p);
        if r + 1 < p {
            lemma_magnitude_value_increases(r + 1, p);
        }
        assert(gap_sum(r) * d < 2 * (v * d)) by (nonlinear_arith)
            requires
                gap_sum(r) < 2 * v,
                d > 0,
        ;
    }
    if r > p {
        lemma_magnitude_value_increases(p, r);
        if p < r - 1 {
            lemma_magnitude_value_increases(p, r - 1);
        }
        assert(2 * (v * d) < gap_sum(r - 1) * d) by (nonlinear_arith)
            requires
                2 * v < gap_sum(r - 1),
                d > 0,
        ;
    }
}

/// A number that a magnitude encodes rounds to that magnitude.
pub proof fn lemma_round_exact(g: int, q: int, n: int, d: int)
    requires
        is_significand(g, q),
        d > 0,
        n == q * pow2(g as nat) * d,
    ensures
        is_rounding(g * 0x80_0000 + q, n, d),
        rounded(n, d) == g * 0x80_0000 + q,
{
    lemma_round_exact_is_rounding(g, q, n, d);
    lemma_rounded(g * 0x80_0000 + q, n, d);
}

/// A number that a magnitude encodes rounds to that magnitude.
pub(crate) proof fn lemma_round_exact_is_rounding(g: int, q: int, n: int, d: int)
    requires
        is_significand(g, q),
        d > 0,
        n == q * pow2(g as nat) * d,
    ensures
        is_rounding(g * 0x80_0000 + q, n, d),
{
    let p = g * 0x80_0000 + q;
    lemma_pattern_value(g, q);
    let v = magnitude_value(p);
    assert(n == v * d);
    if p > 0 {
        lemma_magnitude_value_increases(p - 1, p);
        assert(gap_sum(p - 1) * d < 2 * (v * d)) by (nonlinear_arith)
            requires
                gap_sum(p - 1) < 2 * v,
                d > 0,
        ;
    }
    if p < INFINITY_BITS {
        lemma_magnitude_value_increases(p, p + 1);
        assert(2 * (v * d) < gap_sum(p) * d) by (nonlinear_arith)
            requires
                2 * v < gap_sum(p),
                d > 0,
        ;
    }
}

/// A number below half a unit rounds to zero.
pub(crate) proof fn lemma_round_zero(n: int, d: int)
    requires
        0 <= 2 * n < d,
    ensures
        is_rounding(0, n, d),
{
    lemma2_to64();
    assert(magnitude_value(0) == 0);
    assert(magnitude_value(1) == 1);
    assert(gap_sum(0) * d == d) by (nonlinear_arith)
        requires
            gap_sum(0) == 1,
    ;
}

/// A number of at least `2^128` rounds to infinity.
pub(crate) proof fn lemma_round_overflow(n: int, d: int)
    requires
        d > 0,
        n >= pow2(277) * d,
    ensures
        is_rounding(INFINITY_BITS as int, n, d),
{
    lemma_pattern_value(253, 0x100_0000);
    lemma_pow2_adds(24, 253);
    lemma2_to64();
    let top = magnitude_value(INFINITY_BITS as int);
    assert(top == pow2(277));
    lemma_magnitude_value_increases(INFINITY_BITS - 1, INFINITY_BITS as int);
    assert(gap_sum(INFINITY_BITS - 1) * d < 2 * (top * d)) by (nonlinear_arith)
        requires
            gap_sum(INFINITY_BITS - 1) < 2 * top,
            d > 0,
    ;
}

/// Rounding a number that lies between two neighbouring magnitudes.
///
/// The number is `sig * u / d` units with `sig == q0 * unit + r`, where the
/// spacing `2^g` is `unit * u / d`, so that it lies `r / unit` of the way
/// from significand `q0` to the next.  It rounds up where that is more
/// than half, or half with `q0` odd.
pub(crate) proof fn lemma_round_within(
    g: int,
    q0: int,
    r: int,
    unit: int,
    sig: int,
    u: int,
    d: int,
    round_up: bool,
)
    requires
        is_significand(g, q0),
        q0 < 0x100_0000,
        unit > 0,
        u > 0,
        d > 0,
        sig == q0 * unit + r,
        0 <= r < unit,
        pow2(g as nat) * d == unit * u,
        round_up <==> (2 * r > unit || (2 * r == unit && q0 % 2 == 1)),
    ensures
        is_rounding(
            g * 0x80_0000 + q0 + if round_up {
                1int
            } else {
                0int
            },
            sig * u,
            d,
        ),
{
    let q = q0 + if round_up {
        1int
    } else {
        0int
    };
    let p = g * 0x80_0000 + q;
    let n = sig * u;
    let space = pow2(g as nat) as int;
    lemma_pow2_pos(g as nat);
    assert(space * d == unit * u);
    lemma_pattern_value(g, q);
    let v = magnitude_value(p);
    assert(v == q * space);
    let base = q0 * unit;
    assert(sig == base + r);
    // the number against the magnitude itself, both times 2^down
    assert(v * d == (q * unit) * u) by (nonlinear_arith)
        requires
            v == q * space,
            space * d == unit * u,
    ;
    assert(q * unit == base + if round_up {
        unit
    } else {
        0
    }) by (nonlinear_arith)
        requires
            base == q0 * unit,
            q == q0 + if round_up {
                1int
            } else {
                0int
            },
    ;
    if p > 0 {
        if q > 0x80_0000 || (g == 0 && q >= 1) {
            lemma_pattern_value(g, q - 1);
            assert(gap_sum(p - 1) == (2 * q - 1) * space) by (nonlinear_arith)
                requires
                    gap_sum(p - 1) == (q - 1) * space + q * space,
            ;
            assert(gap_sum(p - 1) * d == ((2 * q - 1) * unit) * u) by (nonlinear_arith)
                requires
                    gap_sum(p - 1) == (2 * q - 1) * space,
                    space * d == unit * u,
            ;
            assert((2 * q - 1) * unit == 2 * (q * unit) - unit) by (nonlinear_arith);
            let low = (2 * q - 1) * unit;
            assert(low <= 2 * sig);
            assert(low == 2 * sig ==> p % 2 == 0);
            assert(low * u <= (2 * sig) * u && (low < 2 * sig ==> low * u < (2 * sig) * u))
                by (nonlinear_arith)
                requires
                    low <= 2 * sig,
                    u > 0,
            ;
            assert((2 * sig) * u == 2 * n) by (nonlinear_arith)
                requires
                    n == sig * u,
            ;
        } else {
            lemma_magnitude_value_increases(p - 1, p);
            assert(q * unit <= sig);
            assert(gap_sum(p - 1) * d < 2 * (v * d)) by (nonlinear_arith)
                requires
                    gap_sum(p - 1) < 2 * v,
                    d > 0,
            ;
            assert((q * unit) * u <= sig * u) by (nonlinear_arith)
                requires
                    q * unit <= sig,
                    u > 0,
            ;
        }
    }
    if p < INFINITY_BITS {
        if q < 0x100_0000 {
            lemma_pattern_value(g, q + 1);
            assert(gap_sum(p) == (2 * q + 1) * space) by (nonlinear_arith)
                requires
                    gap_sum(p) == q * space + (q + 1) * space,
            ;
            assert(gap_sum(p) * d == ((2 * q + 1) * unit) * u) by (nonlinear_arith)
                requires
                    gap_sum(p) == (2 * q + 1) * space,
                    space * d == unit * u,
            ;
            assert((2 * q + 1) * unit == 2 * (q * unit) + unit) by (nonlinear_arith);
            let high = (2 * q + 1) * unit;
            assert(2 * sig <= high);
            assert(2 * sig == high ==> p % 2 == 0);
            assert((2 * sig) * u <= high * u && (2 * sig < high ==> (2 * sig) * u < high * u))
                by (nonlinear_arith)
                requires
                    2 * sig <= high,
                    u > 0,
            ;
            assert((2 * sig) * u == 2 * n) by (nonlinear_arith)
                requires
                    n == sig * u,
            ;
        } else {
            lemma_magnitude_value_increases(p, p + 1);
            assert(sig < q * unit);
            assert(2 * (v * d) < gap_sum(p) * d) by (nonlinear_arith)
                requires
                    2 * v < gap_sum(p),
                    d > 0,
            ;
            assert(sig * u < (q * unit) * u) by (nonlinear_arith)
                requires
                    sig < q * unit,
                    u > 0,
            ;
        }
    }
}

/// `lemma_round_within` for a number `sig * 2^up / 2^down` units with
/// `sig == q0 * 2^s + r`.
pub(crate) proof fn lemma_round_between(
    g: int,
    q0: int,
    r: int,
    s: nat,
    sig: int,
    up: nat,
    down: nat,
    round_up: bool,
)
    requires
        is_significand(g, q0),
        q0 < 0x100_0000,
        sig == q0 * pow2(s) + r,
        0 <= r < pow2(s),
        g + down == s + up,
        round_up <==> (2 * r > pow2(s) || (2 * r == pow2(s) && q0 % 2 == 1)),
    ensures
        is_rounding(
            g * 0x80_0000 + q0 + if round_up {
                1int
            } else {
                0int
            },
            sig * pow2(up),
            pow2(down) as int,
        ),
{
    lemma_pow2_pos(up);
    lemma_pow2_pos(down);
    lemma_pow2_pos(s);
    lemma_pow2_adds(g as nat, down);
    lemma_pow2_adds(s, up);
    lemma_round_within(
        g,
        q0,
        r,
        pow2(s) as int,
        sig,
        pow2(up) as int,
        pow2(down) as int,
        round_up,
    );
}

/// A number rounds as every other way of writing the same fraction.
pub(crate) proof fn lemma_same_fraction(p: int, n: int, d: int, m: int, e: int)
    requires
        d > 0,
        e > 0,
        is_rounding(p, n, d),
        n * e == m * d,
    ensures
        is_rounding(p, m, e),
{
    if p > 0 {
        let low = gap_sum(p - 1);
        assert((low * d < 2 * n ==> low * e < 2 * m) && (low * d == 2 * n ==> low * e == 2 * m))
            by (nonlinear_arith)
            requires
                d > 0,
                e > 0,
                n * e == m * d,
        ;
    }
    if p < INFINITY_BITS {
        let high = gap_sum(p);
        assert((2 * n < high * d ==> 2 * m < high * e) && (2 * n == high * d ==> 2 * m == high
            * e)) by (nonlinear_arith)
            requires
                d > 0,
                e > 0,
                n * e == m * d,
        ;
    }
}

/// A number that is much nearer to a magnitude than to its neighbours
/// rounds to it.
pub(crate) proof fn lemma_round_near(g: int, q: int, n: int)
    requires
        is_significand(g, q),
        g >= 1,
        q < 0x100_0000,
        4 * absolute(n - q * pow2(g as nat)) < pow2((g - 1) as nat),
    ensures
        is_rounding(g * 0x80_0000 + q, n, 1),
{
    let p = g * 0x80_0000 + q;
    let space = pow2(g as nat) as int;
    let lower = pow2((g - 1) as nat) as int;
    let v = q * space;
    lemma2_to64();
    lemma_pow2_unfold(g as nat);
    lemma_pow2_pos((g - 1) as nat);
    lemma_pattern_value(g, q);
    if q > 0x80_0000 {
        lemma_pattern_value(g, q - 1);
        assert((q - 1) * space == v - space) by (nonlinear_arith)
            requires
                v == q * space,
        ;
    } else {
        lemma_pattern_value(g - 1, 0x100_0000 - 1);
        assert((0x100_0000 - 1) * lower == v - lower) by (nonlinear_arith)
            requires
                v == 0x80_0000 * space,
                space == 2 * lower,
        ;
        assert(p - 1 == (g - 1) * 0x80_0000 + (0x100_0000 - 1));
    }
    lemma_pattern_value(g, q + 1);
    assert((q + 1) * space == v + space) by (nonlinear_arith)
        requires
            v == q * space,
    ;
}

/// Rounds `sig * 2^up / 2^down` units to a magnitude.
pub(crate) fn round_pack(sig: u64, up: u32, down: u32) -> (p: u32)
    requires
        sig < 0x4000_0000_0000_0000,
        up <= 1000,
        down <= 1000,
    ensures
        is_rounding(p as int, sig * pow2(up as nat), pow2(down as nat) as int),
        p <= INFINITY_BITS,
{
    if sig == 0 {
        proof {
            lemma_pow2_pos(down as nat);
            assert(sig * pow2(up as nat) == 0) by (nonlinear_arith)
                requires
                    sig == 0,
            ;
            lemma_round_zero(0, pow2(down as nat) as int);
        }
        return 0;
    }
    let len: u32 = bit_length(sig);
    let x: i64 = up as i64 - down as i64;
    let lead: i64 = x + len as i64 - 24;
    let g: i64 = if lead > 0 {
        lead
    } else {
        0
    };
    let ghost n = sig * pow2(up as nat);
    if g >= 254 {
        proof {
            // sig >= 2^(len-1), so n >= 2^(len-1+up) >= 2^(277+down)
            lemma_pow2_adds((len - 1) as nat, up as nat);
            assert(len - 1 + up >= 277 + down);
            if len - 1 + up > 277 + down {
                lemma_pow2_strictly_increases((277 + down) as nat, (len - 1 + up) as nat);
            }
            lemma_pow2_pos(up as nat);
            assert(pow2((len - 1) as nat) * pow2(up as nat) <= sig * pow2(up as nat))
                by (nonlinear_arith)
                requires
                    pow2((len - 1) as nat) <= sig,
                    pow2(up as nat) > 0,
            ;
            lemma_pow2_adds(277, down as nat);
            lemma_pow2_pos(down as nat);
            lemma_round_overflow(n, pow2(down as nat) as int);
        }
        return INFINITY_BITS;
    }
    let s: i64 = g - x;
    if s <= 0 {
        // the number is a multiple of the spacing: no rounding
        let shift: u32 = (-s) as u32;
        proof {
            lemma2_to64();
            lemma_pow2_adds(len as nat, shift as nat);
            lemma_pow2_adds((len - 1) as nat, shift as nat);
            lemma_pow2_pos(shift as nat);
            assert(shift <= 24);
            assert(len + shift <= 24);
            if len + shift < 24 {
                lemma_pow2_strictly_increases((len + shift) as nat, 24);
            }
            assert(sig * pow2(shift as nat) < pow2(len as nat) * pow2(shift as nat))
                by (nonlinear_arith)
                requires
                    sig < pow2(len as nat),
                    pow2(shift as nat) > 0,
            ;
            assert(pow2((len - 1) as nat) * pow2(shift as nat) <= sig * pow2(shift as nat))
                by (nonlinear_arith)
                requires
                    pow2((len - 1) as nat) <= sig,
                    pow2(shift as nat) > 0,
            ;
        }
        let q: u64 = sig * power_of_two(shift);
        proof {
            assert(g > 0 ==> len + shift == 24);
            assert(is_significand(g as int, q as int));
            // q * 2^g * 2^down == sig * 2^up
            lemma_pow2_adds(shift as nat, g as nat);
            lemma_pow2_adds((shift + g) as nat, down as nat);
            assert(shift + g + down == up);
            assert(q * pow2(g as nat) * pow2(down as nat) == sig * pow2(up as nat))
                by (nonlinear_arith)
                requires
                    q == sig * pow2(shift as nat),
                    pow2(shift as nat) * pow2(g as nat) == pow2((shift + g) as nat),
                    pow2((shift + g) as nat) * pow2(down as nat) == pow2(up as nat),
            ;
            lemma_pow2_pos(down as nat);
            lemma_round_exact(g as int, q as int, n, pow2(down as nat) as int);
            lemma_pattern_value(g as int, q as int);
        }
        return (g as u32) * EXPONENT_UNIT + q as u32;
    }
    if s >= 63 {
        // far below the least positive single
        proof {
            assert(g == 0);
            lemma2_to64_rest();
            if s > 63 {
                lemma_pow2_strictly_increases(63, s as nat);
            }
            lemma_pow2_adds(s as nat, up as nat);
            lemma_pow2_pos(up as nat);
            assert(2 * (sig * pow2(up as nat)) < pow2(s as nat) * pow2(up as nat))
                by (nonlinear_arith)
                requires
                    2 * sig < pow2(s as nat),
                    pow2(up as nat) > 0,
            ;
            assert(n >= 0) by (nonlinear_arith)
                requires
                    n == sig * pow2(up as nat),
                    sig >= 0,
                    pow2(up as nat) > 0,
            ;
            lemma_round_zero(n, pow2(down as nat) as int);
        }
        return 0;
    }
    let unit: u64 = power_of_two(s as u32);
    proof {
        lemma_pow2_pos(s as nat);
        lemma2_to64_rest();
        lemma_pow2_strictly_increases(s as nat, 63);
    }
    let q0: u64 = sig / unit;
    let r: u64 = sig % unit;
    let round_up: bool = 2 * r > unit || (2 * r == unit && q0 % 2 == 1);
    proof {
        lemma2_to64();
        lemma_pow2_pos(s as nat);
        assert(sig == q0 * unit + r) by (nonlinear_arith)
            requires
                q0 == sig / unit,
                r == sig % unit,
                unit > 0,
        ;
        // the size of q0
        if g > 0 {
            assert(len == 24 + s);
            lemma_pow2_adds(24, s as nat);
            lemma_pow2_adds(23, s as nat);
            assert(q0 < 0x100_0000) by (nonlinear_arith)
                requires
                    sig == q0 * unit + r,
                    r >= 0,
                    sig < 0x100_0000 * unit,
                    unit > 0,
            ;
            assert(q0 >= 0x80_0000) by (nonlinear_arith)
                requires
                    sig == q0 * unit + r,
                    r < unit,
                    sig >= 0x80_0000 * unit,
                    unit > 0,
            ;
        } else {
            assert(len <= 24 + s);
            lemma_pow2_adds(24, s as nat);
            if len < 24 + s {
                lemma_pow2_strictly_increases(len as nat, (24 + s) as nat);
            }
            assert(q0 < 0x100_0000) by (nonlinear_arith)
                requires
                    sig == q0 * unit + r,
                    r >= 0,
                    sig < 0x100_0000 * unit,
                    unit > 0,
            ;
        }
        lemma_round_between(
            g as int,
            q0 as int,
            r as int,
            s as nat,
            sig as int,
            up as nat,
            down as nat,
            round_up,
        );
        let q = q0 + if round_up {
            1int
        } else {
            0int
        };
        lemma_pattern_value(g as int, q);
    }
    let q: u64 = if round_up {
        q0 + 1
    } else {
        q0
    };
    (g as u32) * EXPONENT_UNIT + q as u32
}

} // verus!
