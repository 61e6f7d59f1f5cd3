//! Single-precision numbers, read off their bit patterns: their order,
//! and their rounding to whole numbers.
//!
//! Numbers travel through this library as their IEEE 754 binary32 bit
//! patterns: one sign bit, then eight exponent bits and twenty-three
//! fraction bits. Callers that compute with such numbers hand the patterns
//! in; the library compares them and cuts them to whole numbers, and does
//! no other arithmetic on them.

use vstd::prelude::*;
use vstd::arithmetic::div_mod::{
    lemma_basic_div, lemma_div_by_multiple, lemma_div_is_ordered,
    lemma_div_multiples_vanish_quotient, lemma_div_pos_is_pos,
};
use vstd::arithmetic::mul::{
    lemma_mul_inequality, lemma_mul_is_associative, lemma_mul_is_commutative,
    lemma_mul_strict_inequality, lemma_mul_upper_bound,
};
use vstd::arithmetic::power2::{
    lemma2_to64, lemma2_to64_rest, lemma_pow2_adds, lemma_pow2_pos, lemma_pow2_strictly_increases,
    pow2,
};
use vstd::bits::{lemma_u64_shl_is_mul, lemma_u64_shr_is_div};

verus! {

/// Positive zero.
pub const ZERO: u32 = 0;

/// Negative zero: the same number as `ZERO`, another pattern.
pub const NEGATIVE_ZERO: u32 = 0x8000_0000;

/// The number one.
pub const ONE: u32 = 0x3f80_0000;

/// The largest finite number.
pub const LARGEST: u32 = 0x7f7f_ffff;

/// Positive infinity; every pattern whose magnitude is greater is no number.
pub const INFINITY: u32 = 0x7f80_0000;

/// The pattern without its sign bit.
pub open spec fn magnitude(bits: u32) -> int {
    if bits >= 0x8000_0000 {
        bits - 0x8000_0000
    } else {
        bits as int
    }
}

/// The pattern encodes no number (a NaN).
pub open spec fn is_nan(bits: u32) -> bool {
    magnitude(bits) > 0x7f80_0000
}

/// Where the pattern's number stands among all numbers: the magnitude,
/// negated under a sign bit. Greater numbers have greater ranks, and both
/// zeros have rank zero.
pub open spec fn rank(bits: u32) -> int {
    if bits >= 0x8000_0000 {
        -magnitude(bits)
    } else {
        magnitude(bits)
    }
}

/// `a <= b` as numbers; false where either is no number.
pub open spec fn le(a: u32, b: u32) -> bool {
    !is_nan(a) && !is_nan(b) && rank(a) <= rank(b)
}

/// `a < b` as numbers; false where either is no number.
pub open spec fn lt(a: u32, b: u32) -> bool {
    !is_nan(a) && !is_nan(b) && rank(a) < rank(b)
}

/// `a == b` as numbers; false where either is no number.
pub open spec fn same(a: u32, b: u32) -> bool {
    !is_nan(a) && !is_nan(b) && rank(a) == rank(b)
}

/// The sign bit of the pattern turned round: the number negated.
pub open spec fn negated(bits: u32) -> u32 {
    if bits >= 0x8000_0000 {
        (bits - 0x8000_0000) as u32
    } else {
        (bits + 0x8000_0000) as u32
    }
}

/// The rank of a pattern that encodes a number, `None` for the others.
pub fn rank_of(bits: u32) -> (r: Option<i64>)
    ensures
        r is None <==> is_nan(bits),
        r matches Some(v) ==> v == rank(bits),
{
    let negative = bits >= 0x8000_0000;
    let magnitude: u32 = if negative {
        bits - 0x8000_0000
    } else {
        bits
    };
    if magnitude > 0x7f80_0000 {
        None
    } else if negative {
        Some(-(magnitude as i64))
    } else {
        Some(magnitude as i64)
    }
}

/// `a <= b` as numbers.
pub fn at_most(a: u32, b: u32) -> (r: bool)
    ensures
        r == le(a, b),
{
    match (rank_of(a), rank_of(b)) {
        (Some(ra), Some(rb)) => ra <= rb,
        _ => false,
    }
}

/// `a >= b` as numbers.
pub fn at_least(a: u32, b: u32) -> (r: bool)
    ensures
        r == le(b, a),
{
    at_most(b, a)
}

/// The order of numbers is total on the patterns that encode one, and
/// negation turns it round.
pub proof fn lemma_order(a: u32, b: u32, c: u32)
    ensures
        !is_nan(a) ==> le(a, a),
        le(a, b) && le(b, c) ==> le(a, c),
        !is_nan(a) && !is_nan(b) ==> le(a, b) || le(b, a),
        le(a, b) && le(b, a) <==> same(a, b),
        lt(a, b) <==> le(a, b) && !le(b, a),
        is_nan(negated(a)) == is_nan(a),
        rank(negated(a)) == -rank(a),
        le(a, b) == le(negated(b), negated(a)),
{
}

/// The exponent field of the pattern.
pub open spec fn exponent(bits: u32) -> int {
    magnitude(bits) / 0x80_0000
}

/// The fraction field of the pattern.
pub open spec fn fraction(bits: u32) -> int {
    magnitude(bits) % 0x80_0000
}

/// The digits of the number as a whole number: the fraction, with a one in
/// front of it unless the exponent field is zero.
pub open spec fn significand(bits: u32) -> int {
    if exponent(bits) == 0 {
        fraction(bits)
    } else {
        0x80_0000 + fraction(bits)
    }
}

/// The power of two that the significand is scaled by, counted from the
/// smallest: the exponent field less one, and zero where the field is zero.
pub open spec fn scale(bits: u32) -> nat {
    if exponent(bits) == 0 {
        0
    } else {
        (exponent(bits) - 1) as nat
    }
}

/// The magnitude of the number in units of the smallest number, two to the
/// power of -149: a whole number for every pattern. Infinity comes out as
/// two to the power of 277.
pub open spec fn units(bits: u32) -> int {
    significand(bits) * pow2(scale(bits))
}

/// The number in units of two to the power of -149.
pub open spec fn number(bits: u32) -> int {
    if bits >= 0x8000_0000 {
        -units(bits)
    } else {
        units(bits)
    }
}

/// The magnitude of the number with the digits behind the point cut off.
pub open spec fn whole_magnitude(bits: u32) -> int {
    units(bits) / (pow2(149) as int)
}

/// The number rounded toward zero to a whole number; zero for a pattern
/// that is no number.
pub open spec fn whole(bits: u32) -> int {
    if is_nan(bits) {
        0
    } else if bits >= 0x8000_0000 {
        -whole_magnitude(bits)
    } else {
        whole_magnitude(bits)
    }
}

/// The value of `lo..=hi` that is nearest to `v`.
pub open spec fn clamp(v: int, lo: int, hi: int) -> int {
    if v < lo {
        lo
    } else if v > hi {
        hi
    } else {
        v
    }
}

/// The index that the number names: the number rounded toward zero, and
/// moved into the range of indices where it lies outside.
pub open spec fn index_of(bits: u32) -> usize {
    clamp(whole(bits), 0, usize::MAX as int) as usize
}

/// Between which powers of two the units of a pattern lie: below two to
/// the power of 23 for an exponent field of zero, else from that power to
/// the next, scaled.
proof fn lemma_units_range(bits: u32)
    ensures
        0 <= significand(bits) < 0x100_0000,
        0 < pow2(scale(bits)),
        exponent(bits) == 0 ==> units(bits) == fraction(bits),
        exponent(bits) >= 1 ==> 0x80_0000 * pow2(scale(bits)) <= units(bits) < 0x80_0000 * pow2(
            scale(bits) + 1,
        ),
{
    let p = pow2(scale(bits)) as int;
    let s = significand(bits);
    lemma_pow2_pos(scale(bits));
    lemma2_to64();
    if exponent(bits) == 0 {
        assert(s * 1 == s);
    } else {
        lemma_pow2_adds(scale(bits), 1);
        lemma_mul_inequality(0x80_0000, s, p);
        lemma_mul_strict_inequality(s, 0x100_0000, p);
        lemma_mul_is_associative(0x80_0000, 2, p);
        lemma_mul_is_commutative(p, 2);
    }
}

/// Powers of two grow with their exponents.
proof fn lemma_pow2_grows(e1: nat, e2: nat)
    requires
        e1 <= e2,
    ensures
        0 < pow2(e1) <= pow2(e2),
{
    lemma_pow2_pos(e1);
    if e1 < e2 {
        lemma_pow2_strictly_increases(e1, e2);
    }
}

/// A pattern of smaller magnitude stands for fewer units.
proof fn lemma_units_grow(a: u32, b: u32)
    requires
        magnitude(a) < magnitude(b),
    ensures
        units(a) < units(b),
{
    lemma_units_range(a);
    lemma_units_range(b);
    if exponent(a) == exponent(b) {
        lemma_mul_strict_inequality(significand(a), significand(b), pow2(scale(a)) as int);
    } else if exponent(a) == 0 {
        lemma_pow2_grows(0, scale(b));
        lemma2_to64();
        lemma_mul_inequality(1, pow2(scale(b)) as int, 0x80_0000);
    } else {
        lemma_pow2_grows(scale(a) + 1, scale(b));
        lemma_mul_inequality(pow2(scale(a) + 1) as int, pow2(scale(b)) as int, 0x80_0000);
        lemma_mul_is_commutative(pow2(scale(a) + 1) as int, 0x80_0000);
        lemma_mul_is_commutative(pow2(scale(b)) as int, 0x80_0000);
    }
}

/// The order read off the patterns is the order of the numbers that they
/// stand for, and rounding toward zero keeps it.
pub proof fn lemma_rank_orders_numbers(a: u32, b: u32)
    ensures
        rank(a) <= rank(b) <==> number(a) <= number(b),
        rank(a) == rank(b) <==> number(a) == number(b),
        le(a, b) ==> whole(a) <= whole(b),
        0 <= whole_magnitude(a),
{
    lemma_units_range(a);
    lemma_units_range(b);
    lemma_units_range(0);
    if magnitude(a) < magnitude(b) {
        lemma_units_grow(a, b);
    }
    if magnitude(b) < magnitude(a) {
        lemma_units_grow(b, a);
    }
    if magnitude(a) > 0 {
        lemma_units_grow(0, a);
    }
    if magnitude(b) > 0 {
        lemma_units_grow(0, b);
    }
    assert(units(0) == 0);
    if magnitude(a) == magnitude(b) {
        assert(units(a) == units(b));
    }
    if magnitude(a) == 0 {
        assert(units(a) == units(0));
    }
    if magnitude(b) == 0 {
        assert(units(b) == units(0));
    }
    lemma_pow2_pos(149);
    let d = pow2(149) as int;
    lemma_div_pos_is_pos(units(a), d);
    lemma_div_pos_is_pos(units(b), d);
    if units(a) <= units(b) {
        lemma_div_is_ordered(units(a), units(b), d);
    }
    if units(b) <= units(a) {
        lemma_div_is_ordered(units(b), units(a), d);
    }
}

/// The whole part of the magnitude by the exponent field: the significand
/// moved to the left from 150 on, to the right below.
proof fn lemma_whole_magnitude(bits: u32)
    ensures
        exponent(bits) >= 150 ==> whole_magnitude(bits) == significand(bits) * pow2(
            (exponent(bits) - 150) as nat,
        ),
        1 <= exponent(bits) < 150 ==> whole_magnitude(bits) == significand(bits) / (pow2(
            (150 - exponent(bits)) as nat,
        ) as int),
        exponent(bits) < 127 ==> whole_magnitude(bits) == 0,
{
    let e = exponent(bits);
    let s = significand(bits);
    let d = pow2(149) as int;
    lemma_units_range(bits);
    lemma_pow2_pos(149);
    if e >= 150 {
        let k = (e - 150) as nat;
        let high = pow2(k) as int;
        lemma_pow2_adds(k, 149);
        lemma_pow2_pos(k);
        lemma_mul_is_associative(s, high, d);
        assert(s * high >= 0) by (nonlinear_arith)
            requires
                s >= 0,
                high > 0,
        ;
        lemma_div_by_multiple(s * high, d);
    } else if e >= 1 {
        let k = (150 - e) as nat;
        let low = pow2(scale(bits)) as int;
        let rest = pow2(k) as int;
        lemma_pow2_adds(scale(bits), k);
        lemma_pow2_pos(k);
        lemma_div_multiples_vanish_quotient(low, s, rest);
        lemma_mul_is_commutative(low, s);
        if e < 127 {
            lemma2_to64();
            lemma_pow2_grows(24, k);
            lemma_basic_div(s, rest);
        }
    } else {
        lemma2_to64();
        lemma_pow2_grows(23, 149);
        lemma_basic_div(units(bits), d);
    }
}

/// The whole part of the magnitude, as far as 64 bits hold it.
fn whole_part(bits: u32) -> (m: u64)
    ensures
        m == clamp(whole_magnitude(bits), 0, u64::MAX as int),
        0 <= whole_magnitude(bits),
{
    let magnitude: u32 = if bits >= 0x8000_0000 {
        bits - 0x8000_0000
    } else {
        bits
    };
    let e: u32 = magnitude / 0x80_0000;
    let f: u32 = magnitude % 0x80_0000;
    proof {
        lemma2_to64();
        lemma2_to64_rest();
        lemma_whole_magnitude(bits);
        lemma_rank_orders_numbers(bits, bits);
    }
    if e < 127 {
        return 0;
    }
    let s: u64 = 0x80_0000u64 + f as u64;
    if e < 150 {
        let shift: u64 = (150 - e) as u64;
        proof {
            lemma_u64_shr_is_div(s, shift);
            lemma_pow2_pos(shift as nat);
        }
        s >> shift
    } else if e <= 190 {
        let shift: u64 = (e - 150) as u64;
        proof {
            lemma_pow2_grows(shift as nat, 40);
            lemma_mul_upper_bound(s as int, 0xff_ffff, pow2(shift as nat) as int, 0x100_0000_0000);
            lemma_u64_shl_is_mul(s, shift);
        }
        s << shift
    } else {
        proof {
            let k = (e - 150) as nat;
            lemma_pow2_grows(41, k);
            assert(s * pow2(k) >= 0x80_0000 * 0x200_0000_0000) by (nonlinear_arith)
                requires
                    s >= 0x80_0000,
                    pow2(k) >= 0x200_0000_0000,
            ;
        }
        u64::MAX
    }
}

/// Converts a number to a 32-bit integer as a cast does: rounded toward
/// zero, the nearest integer of the type where the number lies outside it,
/// zero for a pattern that is no number.
pub fn to_i32(bits: u32) -> (r: i32)
    ensures
        r == clamp(whole(bits), i32::MIN as int, i32::MAX as int),
{
    if rank_of(bits).is_none() {
        return 0;
    }
    let m: u64 = whole_part(bits);
    if bits >= 0x8000_0000 {
        if m >= 0x8000_0000 {
            i32::MIN
        } else {
            -(m as i32)
        }
    } else if m > 0x7fff_ffff {
        i32::MAX
    } else {
        m as i32
    }
}

/// Converts a number to a byte as a cast does: rounded toward zero, zero
/// for negative numbers and for a pattern that is no number, 255 for
/// greater numbers.
pub fn to_u8(bits: u32) -> (r: u8)
    ensures
        r == clamp(whole(bits), 0, 255),
{
    if rank_of(bits).is_none() || bits >= 0x8000_0000 {
        proof {
            lemma_rank_orders_numbers(bits, bits);
        }
        return 0;
    }
    let m: u64 = whole_part(bits);
    if m > 255 {
        255
    } else {
        m as u8
    }
}

/// Converts a number to an index as a cast does: rounded toward zero, zero
/// for negative numbers and for a pattern that is no number, the greatest
/// index for greater numbers.
pub fn to_usize(bits: u32) -> (r: usize)
    ensures
        r == index_of(bits),
{
    if rank_of(bits).is_none() || bits >= 0x8000_0000 {
        proof {
            lemma_rank_orders_numbers(bits, bits);
        }
        return 0;
    }
    let m: u64 = whole_part(bits);
    if m > usize::MAX as u64 {
        usize::MAX
    } else {
        m as usize
    }
}

} // verus!
