//! Normalising a colour byte to the unit interval.
//!
//! The network reads each colour byte as a single, divided by the single
//! 255: a number between zero and one.

use vstd::prelude::*;
use vstd::arithmetic::power2::{lemma2_to64, lemma_pow2_adds, lemma_pow2_pos, pow2};
use crate::single::arithmetic::from_count;
use crate::single::division::divide_positive;
use crate::single::number::{
    lemma_round_units_zero,
    Number,
    number_of,
    of_count,
    quotient_units,
    ratio,
};
use crate::single::pattern::{
    lemma_magnitude_value_increases,
    lemma_pattern_value,
    magnitude_value,
    ONE_BITS,
};
use crate::single::rounding::{
    lemma_round_exact,
    lemma_rounded,
    lemma_rounding_exists,
    lemma_rounding_is_monotone,
    rounded,
};

verus! {

/// The greatest colour byte, which is mapped to one.
pub const BYTE_MAX: u32 = 255;

/// Bit pattern of the single 255.
pub const BYTE_MAX_BITS: u32 = 0x437f_0000;

/// The single 255 in units.
pub open spec fn byte_max_units() -> int {
    BYTE_MAX * (pow2(149) as int)
}

/// The number that a colour byte becomes: the byte as a single, divided by
/// the single 255 and rounded.
pub open spec fn unit_number(byte: u8) -> Number {
    ratio(of_count(byte as u32), number_of(BYTE_MAX_BITS))
}

/// The pattern `BYTE_MAX_BITS` stands for 255, and a whole number of at
/// most 255 becomes a single of at most 255.
proof fn lemma_byte_is_small(byte: u8)
    ensures
        number_of(BYTE_MAX_BITS) == (Number::Finite { units: byte_max_units() }),
        (of_count(byte as u32) matches Number::Finite { units } && 0 <= units <= byte_max_units()
            && (byte == 0 ==> units == 0) && (byte == 255 ==> units == byte_max_units())),
        rounded(byte * pow2(149), 1) <= BYTE_MAX_BITS,
{
    lemma2_to64();
    lemma_pattern_value(133, 0xff_0000);
    lemma_pow2_adds(16, 133);
    lemma_pow2_pos(149);
    let top = byte_max_units();
    assert(0xff_0000 * pow2(133) == top) by (nonlinear_arith)
        requires
            0x1_0000 * pow2(133) == pow2(149),
            top == 255 * pow2(149),
    ;
    assert(133 * 0x80_0000 + 0xff_0000 == BYTE_MAX_BITS);
    assert(magnitude_value(BYTE_MAX_BITS as int) == top);
    let n = byte * pow2(149);
    assert(0 <= n <= top && (byte == 0 ==> n == 0) && (byte == 255 ==> n == top)) by (nonlinear_arith)
        requires
            n == byte * pow2(149),
            top == 255 * pow2(149),
            0 <= byte <= 255,
            pow2(149) > 0,
    ;
    assert(n <= magnitude_value(BYTE_MAX_BITS as int) * 1);
    lemma_rounding_is_monotone(n, 1, BYTE_MAX_BITS as int);
    let p = rounded(n, 1);
    lemma_rounding_exists(n, 1);
    assert(magnitude_value(0) == 0);
    if 0 < p {
        lemma_magnitude_value_increases(0, p);
    }
    if p < BYTE_MAX_BITS {
        lemma_magnitude_value_increases(p, BYTE_MAX_BITS as int);
    }
    if byte == 0 {
        lemma_round_units_zero(1);
    }
    if byte == 255 {
        assert(top == 0xff_0000 * pow2(133) * 1);
        lemma_round_exact(133, 0xff_0000, top, 1);
    }
}

/// A normalised byte lies between zero and one; the byte 0 becomes zero and
/// the byte 255 becomes one.
pub proof fn lemma_unit_number_is_in_unit_interval(byte: u8)
    ensures
        (unit_number(byte) matches Number::Finite { units } && 0 <= units <= pow2(149)),
        unit_number(0) == (Number::Finite { units: 0 }),
        unit_number(255) == number_of(ONE_BITS),
{
    lemma_unit_bounds(byte);
    lemma_unit_bounds(0);
    lemma_unit_bounds(255);
}

/// The normalised byte is the rounding of a quotient of at most one.
proof fn lemma_unit_bounds(byte: u8)
    ensures
        (unit_number(byte) matches Number::Finite { units } && 0 <= units <= pow2(149) && (byte
            == 0 ==> units == 0) && (byte == 255 ==> units == pow2(149))),
        number_of(ONE_BITS) == (Number::Finite { units: pow2(149) as int }),
        (of_count(byte as u32) matches Number::Finite { units } && unit_number(byte)
            == quotient_units(units, byte_max_units()) && rounded(
            units * pow2(149),
            byte_max_units(),
        ) <= ONE_BITS),
{
    lemma_byte_is_small(byte);
    lemma2_to64();
    lemma_pow2_pos(149);
    let one = pow2(149) as int;
    let top = byte_max_units();
    let a = of_count(byte as u32)->units;
    let n = a * one;
    lemma_pattern_value(126, 0x80_0000);
    lemma_pow2_adds(23, 126);
    assert(126 * 0x80_0000 + 0x80_0000 == ONE_BITS);
    assert(magnitude_value(ONE_BITS as int) == one);
    assert(0 <= n <= one * top && (a == 0 ==> n == 0)) by (nonlinear_arith)
        requires
            n == a * one,
            0 <= a <= top,
            one > 0,
    ;
    lemma_rounding_is_monotone(n, top, ONE_BITS as int);
    lemma_rounding_exists(n, top);
    let p = rounded(n, top);
    assert(magnitude_value(0) == 0);
    if 0 < p {
        lemma_magnitude_value_increases(0, p);
    }
    if p < ONE_BITS {
        lemma_magnitude_value_increases(p, ONE_BITS as int);
    }
    if byte == 0 {
        lemma_round_units_zero(top);
    }
    if byte == 255 {
        assert(n == 0x80_0000 * pow2(126) * top) by (nonlinear_arith)
            requires
                n == top * one,
                one == 0x80_0000 * pow2(126),
        ;
        lemma_round_exact(126, 0x80_0000, n, top);
    }
}

/// Normalises a colour byte: the bit pattern of the byte as a single
/// divided by 255.
pub fn normalize_byte(byte: u8) -> (bits: u32)
    ensures
        number_of(bits) == unit_number(byte),
        bits <= ONE_BITS,
{
    let count = from_count(byte as u32);
    proof {
        lemma_byte_is_small(byte);
        lemma_unit_bounds(byte);
        lemma2_to64();
        lemma_pow2_pos(149);
        lemma_rounded(count as int, byte * pow2(149), 1);
    }
    let bits = divide_positive(count, BYTE_MAX_BITS);
    proof {
        let a = magnitude_value(count as int);
        lemma_rounded(bits as int, a * pow2(149), byte_max_units());
    }
    bits
}

/// Normalises every byte of a buffer.
pub fn normalize_bytes(bytes: &Vec<u8>) -> (singles: Vec<u32>)
    ensures
        singles.len() == bytes.len(),
        forall|i: int|
            0 <= i < bytes.len() ==> number_of(#[trigger] singles[i]) == unit_number(bytes[i])
                && singles[i] <= ONE_BITS,
{
    let mut table: Vec<u32> = Vec::new();
    let mut byte: usize = 0;
    while byte < 256
        invariant
            byte <= 256,
            table.len() == byte,
            forall|b: int|
                0 <= b < byte ==> number_of(#[trigger] table[b]) == unit_number(b as u8)
                    && table[b] <= ONE_BITS,
        decreases 256 - byte,
    {
        table.push(normalize_byte(byte as u8));
        byte += 1;
    }
    let mut singles: Vec<u32> = Vec::new();
    let mut i: usize = 0;
    while i < bytes.len()
        invariant
            i <= bytes.len(),
            singles.len() == i,
            table.len() == 256,
            forall|b: int|
                0 <= b < 256 ==> number_of(#[trigger] table[b]) == unit_number(b as u8)
                    && table[b] <= ONE_BITS,
            forall|j: int|
                0 <= j < i ==> number_of(#[trigger] singles[j]) == unit_number(bytes[j])
                    && singles[j] <= ONE_BITS,
        decreases bytes.len() - i,
    {
        singles.push(table[bytes[i] as usize]);
        i += 1;
    }
    singles
}

} // verus!
