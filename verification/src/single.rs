//! Single-precision values, handled by their IEEE-754 bit patterns.
//!
//! A pattern has a sign bit, eight exponent bits and 23 fraction bits.
//! Everything here is integer arithmetic on patterns: telling what kind of
//! value a pattern is, and ordering patterns as their values are ordered.

use vstd::prelude::*;

verus! {

/// The sign bit.
pub const SIGN: u32 = 0x8000_0000;

/// Positive infinity. Every pattern whose magnitude is greater is not a
/// number.
pub const INFINITY: u32 = 0x7f80_0000;

/// Negative infinity.
pub const NEG_INFINITY: u32 = 0xff80_0000;

/// One.
pub const ONE: u32 = 0x3f80_0000;

/// The greatest finite value.
pub const MAX: u32 = 0x7f7f_ffff;

/// The least finite value, the negative of [`MAX`].
pub const MIN: u32 = 0xff7f_ffff;

/// The pattern without its sign bit.
pub open spec fn magnitude(bits: u32) -> int {
    if bits >= SIGN {
        bits - SIGN
    } else {
        bits as int
    }
}

/// Whether the pattern is not a number.
pub open spec fn nan(bits: u32) -> bool {
    magnitude(bits) > INFINITY
}

/// Whether the pattern is zero, of either sign.
pub open spec fn zero(bits: u32) -> bool {
    magnitude(bits) == 0
}

/// An integer that orders the patterns of numbers as their values are
/// ordered: the magnitude, negated under the sign bit. Both zeros have rank
/// 0, as they are equal in value.
pub open spec fn rank(bits: u32) -> int {
    if bits >= SIGN {
        -magnitude(bits)
    } else {
        magnitude(bits)
    }
}

/// `a < b` as values: both are numbers and `a` is the smaller.
pub open spec fn less(a: u32, b: u32) -> bool {
    !nan(a) && !nan(b) && rank(a) < rank(b)
}

/// `a <= b` as values.
pub open spec fn at_most(a: u32, b: u32) -> bool {
    !nan(a) && !nan(b) && rank(a) <= rank(b)
}

/// `a == b` as values: both are numbers of the same rank.
pub open spec fn same(a: u32, b: u32) -> bool {
    !nan(a) && !nan(b) && rank(a) == rank(b)
}

/// The smaller of two values. Where one is not a number the result is the
/// other; of two equal values it is the first.
pub open spec fn min_of(a: u32, b: u32) -> u32 {
    if nan(a) {
        b
    } else if nan(b) {
        a
    } else if less(b, a) {
        b
    } else {
        a
    }
}

/// The greater of two values. Where one is not a number the result is the
/// other; of two equal values it is the first.
pub open spec fn max_of(a: u32, b: u32) -> u32 {
    if nan(a) {
        b
    } else if nan(b) {
        a
    } else if less(a, b) {
        b
    } else {
        a
    }
}

pub fn is_nan(bits: u32) -> (r: bool)
    ensures
        r == nan(bits),
    no_unwind
{
    let m: u32 = if bits >= SIGN {
        bits - SIGN
    } else {
        bits
    };
    m > INFINITY
}

pub fn is_zero(bits: u32) -> (r: bool)
    ensures
        r == zero(bits),
    no_unwind
{
    bits == 0 || bits == SIGN
}

fn rank_of(bits: u32) -> (r: i64)
    ensures
        r == rank(bits),
    no_unwind
{
    if bits >= SIGN {
        -((bits - SIGN) as i64)
    } else {
        bits as i64
    }
}

/// Whether `a < b` as values.
pub fn less_than(a: u32, b: u32) -> (r: bool)
    ensures
        r == less(a, b),
    no_unwind
{
    !is_nan(a) && !is_nan(b) && rank_of(a) < rank_of(b)
}

/// Whether `a > b` as values.
pub fn greater_than(a: u32, b: u32) -> (r: bool)
    ensures
        r == less(b, a),
    no_unwind
{
    less_than(b, a)
}

/// The smaller of two values, ignoring what is not a number.
pub fn minimum(a: u32, b: u32) -> (m: u32)
    ensures
        m == min_of(a, b),
    no_unwind
{
    if is_nan(a) {
        b
    } else if is_nan(b) {
        a
    } else if less_than(b, a) {
        b
    } else {
        a
    }
}

/// The greater of two values, ignoring what is not a number.
pub fn maximum(a: u32, b: u32) -> (m: u32)
    ensures
        m == max_of(a, b),
    no_unwind
{
    if is_nan(a) {
        b
    } else if is_nan(b) {
        a
    } else if less_than(a, b) {
        b
    } else {
        a
    }
}

/// The order of values is strict and total on numbers, and nothing compares
/// with what is not a number.
pub proof fn lemma_order(a: u32, b: u32, c: u32)
    ensures
        !less(a, a),
        less(a, b) ==> !less(b, a),
        less(a, b) && less(b, c) ==> less(a, c),
        !nan(a) && !nan(b) ==> less(a, b) || same(a, b) || less(b, a),
        nan(a) || nan(b) ==> !less(a, b) && !same(a, b) && !at_most(a, b),
        at_most(a, b) <==> less(a, b) || same(a, b),
{
}

/// The smaller and the greater of two values are among the two, are numbers
/// where one of the two is, and bound every number among the two.
pub proof fn lemma_min_max(a: u32, b: u32)
    ensures
        min_of(a, b) == a || min_of(a, b) == b,
        max_of(a, b) == a || max_of(a, b) == b,
        !nan(a) || !nan(b) ==> !nan(min_of(a, b)) && !nan(max_of(a, b)),
        !nan(a) ==> at_most(min_of(a, b), a) && at_most(a, max_of(a, b)),
        !nan(b) ==> at_most(min_of(a, b), b) && at_most(b, max_of(a, b)),
{
}

/// The whole number that a finite pattern's value is a multiple of a power
/// of two of: the fraction bits, with a leading one unless the exponent
/// bits are all zero.
pub open spec fn significand(bits: u32) -> int {
    let m = magnitude(bits);
    if m / 0x80_0000 == 0 {
        m % 0x80_0000
    } else {
        0x80_0000 + m % 0x80_0000
    }
}

/// The power of two that the significand is multiplied by: the value of a
/// finite pattern is `significand * 2^exponent`, negated under the sign bit.
pub open spec fn exponent(bits: u32) -> int {
    let e = magnitude(bits) / 0x80_0000;
    (if e == 0 {
        1
    } else {
        e
    }) - 150
}

} // verus!
