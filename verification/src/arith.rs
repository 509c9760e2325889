//! Arithmetic in single precision on bit patterns: sums, differences,
//! products, quotients and square roots, each rounded as the machine
//! rounds it, and the passage between values and whole numbers.
//!
//! A result that is not a number is always the pattern [`NOT_A_NUMBER`],
//! whatever the machine would put into its unused digits.

use crate::rounding::{
    add_up, bit_length, divide, exponent_of, lemma_bit_length, lemma_two_to_grows,
    lemma_two_to_order, lemma_two_to_values, length_in_bits, multiply, pack, packed,
    power_of_two, product, quotient, round_ratio, rounded, significand_of, sum, two_to,
};
use crate::single::{exponent, is_nan, magnitude, nan, significand, INFINITY, SIGN};
use vstd::prelude::*;

verus! {

/// The pattern that stands for every result that is not a number.
pub const NOT_A_NUMBER: u32 = 0x7fc0_0000;

/// One half.
pub const HALF: u32 = 0x3f00_0000;

/// The difference of two values that are zero or positive, the first being
/// the greater, rounded. A value too small to change the other even by
/// rounding is left out.
pub open spec fn difference(a: u32, b: u32) -> u32 {
    let ea = exponent(a);
    let eb = exponent(b);
    if significand(b) == 0 {
        a
    } else if ea - eb > 25 {
        a
    } else {
        rounded(significand(a) * two_to((ea - eb) as nat) - significand(b), 1, eb)
    }
}

/// The pattern `bits` with the sign bit as `negative` says.
pub open spec fn signed(negative: bool, bits: u32) -> u32 {
    if negative {
        (bits + SIGN) as u32
    } else {
        bits
    }
}

/// The pattern without its sign bit.
pub open spec fn unsigned(bits: u32) -> u32 {
    magnitude(bits) as u32
}

/// `a + b` in single precision. What is not a number gives what is not a
/// number, and so do two infinities of different signs.
#[verifier::opaque]
pub open spec fn plus(a: u32, b: u32) -> u32 {
    let ma = unsigned(a);
    let mb = unsigned(b);
    if nan(a) || nan(b) {
        NOT_A_NUMBER
    } else if ma == INFINITY {
        if mb == INFINITY && (a >= SIGN) != (b >= SIGN) {
            NOT_A_NUMBER
        } else {
            a
        }
    } else if mb == INFINITY {
        b
    } else if (a >= SIGN) == (b >= SIGN) {
        signed(a >= SIGN, sum(ma, mb))
    } else if ma == mb {
        0
    } else if ma > mb {
        signed(a >= SIGN, difference(ma, mb))
    } else {
        signed(b >= SIGN, difference(mb, ma))
    }
}

/// The value with its sign turned; what is not a number stays so.
pub open spec fn negated(a: u32) -> u32 {
    if a >= SIGN {
        (a - SIGN) as u32
    } else {
        (a + SIGN) as u32
    }
}

/// `a - b` in single precision.
pub open spec fn minus(a: u32, b: u32) -> u32 {
    plus(a, negated(b))
}

/// `a * b` in single precision. What is not a number gives what is not a
/// number, and so does infinity times zero.
#[verifier::opaque]
pub open spec fn times(a: u32, b: u32) -> u32 {
    let ma = unsigned(a);
    let mb = unsigned(b);
    let negative = (a >= SIGN) != (b >= SIGN);
    if nan(a) || nan(b) {
        NOT_A_NUMBER
    } else if ma == INFINITY || mb == INFINITY {
        if ma == 0 || mb == 0 {
            NOT_A_NUMBER
        } else {
            signed(negative, INFINITY)
        }
    } else {
        signed(negative, product(ma, mb))
    }
}

/// The difference of two values that are zero or positive.
fn subtract(a: u32, b: u32) -> (bits: u32)
    requires
        b < a <= INFINITY,
    ensures
        bits == difference(a, b),
        bits <= INFINITY,
{
    let ma = significand_of(a);
    let mb = significand_of(b);
    let ea = exponent_of(a);
    let eb = exponent_of(b);
    if mb == 0 {
        a
    } else if ea - eb > 25 {
        a
    } else {
        proof {
            lemma_ordered(a, b);
        }
        let p = power_of_two((ea - eb) as u32);
        proof {
            lemma_two_to_values();
            lemma_two_to_grows((ea - eb) as nat, 25);
            assert(ma * p <= 0xff_ffff * 0x200_0000) by (nonlinear_arith)
                requires
                    0 <= ma <= 0xff_ffff,
                    0 <= p <= 0x200_0000,
            ;
            if ea > eb {
                lemma_two_to_grows(1, (ea - eb) as nat);
                assert(two_to(1) == 2) by {
                    reveal_with_fuel(two_to, 2);
                }
                assert(ma * p >= 0x100_0000) by (nonlinear_arith)
                    requires
                        0x80_0000 <= ma,
                        2 <= p,
                ;
            } else {
                assert(p == 1);
                assert(ma * p == ma) by (nonlinear_arith)
                    requires
                        p == 1,
                ;
            }
        }
        round_ratio(ma * p - mb, 1, eb)
    }
}

/// Of two patterns that are zero or positive, the greater has the greater
/// exponent, or the same exponent and the greater significand.
proof fn lemma_ordered(a: u32, b: u32)
    requires
        b < a <= INFINITY,
    ensures
        exponent(a) >= exponent(b),
        exponent(a) == exponent(b) ==> significand(a) > significand(b),
        exponent(a) > exponent(b) ==> significand(a) >= 0x80_0000 && significand(b) < 0x100_0000,
{
}

fn with_sign(negative: bool, bits: u32) -> (r: u32)
    requires
        bits <= INFINITY,
    ensures
        r == signed(negative, bits),
{
    if negative {
        bits + SIGN
    } else {
        bits
    }
}

fn without_sign(bits: u32) -> (r: u32)
    ensures
        r == unsigned(bits),
        r < SIGN,
{
    if bits >= SIGN {
        bits - SIGN
    } else {
        bits
    }
}

/// `a + b` in single precision.
pub fn add_values(a: u32, b: u32) -> (r: u32)
    ensures
        r == plus(a, b),
{
    reveal(plus);
    let ma = without_sign(a);
    let mb = without_sign(b);
    if is_nan(a) || is_nan(b) {
        NOT_A_NUMBER
    } else if ma == INFINITY {
        if mb == INFINITY && (a >= SIGN) != (b >= SIGN) {
            NOT_A_NUMBER
        } else {
            a
        }
    } else if mb == INFINITY {
        b
    } else if (a >= SIGN) == (b >= SIGN) {
        with_sign(a >= SIGN, add_up(ma, mb))
    } else if ma == mb {
        0
    } else if ma > mb {
        with_sign(a >= SIGN, subtract(ma, mb))
    } else {
        with_sign(b >= SIGN, subtract(mb, ma))
    }
}

/// `a - b` in single precision.
pub fn subtract_values(a: u32, b: u32) -> (r: u32)
    ensures
        r == minus(a, b),
{
    add_values(a, if b >= SIGN {
        b - SIGN
    } else {
        b + SIGN
    })
}

/// `a * b` in single precision.
pub fn multiply_values(a: u32, b: u32) -> (r: u32)
    ensures
        r == times(a, b),
{
    reveal(times);
    let ma = without_sign(a);
    let mb = without_sign(b);
    let negative = (a >= SIGN) != (b >= SIGN);
    if is_nan(a) || is_nan(b) {
        NOT_A_NUMBER
    } else if ma == INFINITY || mb == INFINITY {
        if ma == 0 || mb == 0 {
            NOT_A_NUMBER
        } else {
            with_sign(negative, INFINITY)
        }
    } else {
        with_sign(negative, multiply(ma, mb))
    }
}

/// Two.
pub const TWO: u32 = 0x4000_0000;

/// `a / b` in single precision. What is not a number gives what is not a
/// number, and so do zero by zero and infinity by infinity.
#[verifier::opaque]
pub open spec fn divided(a: u32, b: u32) -> u32 {
    let ma = unsigned(a);
    let mb = unsigned(b);
    let negative = (a >= SIGN) != (b >= SIGN);
    if nan(a) || nan(b) {
        NOT_A_NUMBER
    } else if ma == INFINITY {
        if mb == INFINITY {
            NOT_A_NUMBER
        } else {
            signed(negative, INFINITY)
        }
    } else if mb == INFINITY {
        signed(negative, 0)
    } else if mb == 0 {
        if ma == 0 {
            NOT_A_NUMBER
        } else {
            signed(negative, INFINITY)
        }
    } else {
        signed(negative, quotient(ma, mb))
    }
}

/// `a / b` in single precision.
pub fn divide_values(a: u32, b: u32) -> (r: u32)
    ensures
        r == divided(a, b),
{
    reveal(divided);
    let ma = without_sign(a);
    let mb = without_sign(b);
    let negative = (a >= SIGN) != (b >= SIGN);
    if is_nan(a) || is_nan(b) {
        NOT_A_NUMBER
    } else if ma == INFINITY {
        if mb == INFINITY {
            NOT_A_NUMBER
        } else {
            with_sign(negative, INFINITY)
        }
    } else if mb == INFINITY {
        with_sign(negative, 0)
    } else if mb == 0 {
        if ma == 0 {
            NOT_A_NUMBER
        } else {
            with_sign(negative, INFINITY)
        }
    } else {
        proof {
            crate::rounding::lemma_significand_positive(mb);
        }
        with_sign(negative, divide(ma, mb))
    }
}

/// Whether `r` is the whole part of the square root of `n`.
pub open spec fn is_whole_root(n: int, r: int) -> bool {
    0 <= r && r * r <= n < (r + 1) * (r + 1)
}

/// The whole part of the square root of `n`.
pub open spec fn whole_root(n: int) -> int {
    choose|r: int| is_whole_root(n, r)
}

/// A number has one whole root.
pub proof fn lemma_whole_root(n: int, r: int)
    requires
        is_whole_root(n, r),
    ensures
        whole_root(n) == r,
{
    let s = whole_root(n);
    assert(is_whole_root(n, s));
    if s < r {
        assert((s + 1) * (s + 1) <= r * r) by (nonlinear_arith)
            requires
                0 <= s,
                s + 1 <= r,
        ;
    } else if s > r {
        assert((r + 1) * (r + 1) <= s * s) by (nonlinear_arith)
            requires
                0 <= r,
                r + 1 <= s,
        ;
    }
}

/// The whole part of the square root of `n`.
fn whole_root_of(n: u64) -> (r: u64)
    requires
        n < 0x100_0000_0000_0000,
    ensures
        r == whole_root(n as int),
        is_whole_root(n as int, r as int),
        r < 0x1000_0000,
{
    let mut r: u64 = 0;
    let mut bit: u64 = 0x800_0000;
    let ghost mut k: nat = 28;
    proof {
        lemma_two_to_values_small();
        assert(two_to(28) == 2 * two_to(27));
        assert(n < 0x1000_0000 * 0x1000_0000);
    }
    while bit > 0
        invariant
            bit == (if k == 0 {
                0
            } else {
                two_to((k - 1) as nat)
            }),
            k <= 28,
            two_to(27) == 0x800_0000,
            two_to(28) == 0x1000_0000,
            r * r <= n,
            r + two_to(k) <= 0x1000_0000,
            n < (r + two_to(k)) * (r + two_to(k)),
            n < 0x100_0000_0000_0000,
        decreases bit,
    {
        let t: u64 = r + bit;
        proof {
            assert(two_to(k) == 2 * two_to((k - 1) as nat));
            assert(t * t < 0x1000_0000 * 0x1000_0000) by (nonlinear_arith)
                requires
                    0 <= t < 0x1000_0000,
            ;
        }
        if t * t <= n {
            r = t;
        }
        proof {
            k = (k - 1) as nat;
            if k > 0 {
                assert(two_to(k) == 2 * two_to((k - 1) as nat));
            } else {
                assert(two_to(0) == 1);
            }
        }
        bit = bit / 2;
    }
    proof {
        assert(two_to(0) == 1);
        lemma_whole_root(n as int, r as int);
    }
    r
}

proof fn lemma_two_to_values_small()
    ensures
        two_to(27) == 0x800_0000,
        two_to(28) == 0x1000_0000,
        two_to(30) == 0x4000_0000,
        two_to(24) == 0x100_0000,
        two_to(23) == 0x80_0000,
{
    reveal_with_fuel(two_to, 31);
}

/// The square root in single precision. A negative value gives what is not
/// a number; negative zero gives itself.
#[verifier::opaque]
pub open spec fn square_root(a: u32) -> u32 {
    if nan(a) {
        NOT_A_NUMBER
    } else if a == SIGN {
        SIGN
    } else if a > SIGN {
        NOT_A_NUMBER
    } else if a == INFINITY {
        INFINITY
    } else if a == 0 {
        0
    } else {
        // the significand brought to 24 digits, and to 25 where that makes
        // the exponent even
        let grow = 24 - bit_length(significand(a));
        let e = exponent(a) - grow;
        let m = significand(a) * two_to(grow as nat);
        let odd = e % 2 != 0;
        let n = (if odd {
            2 * m
        } else {
            m
        }) * 0x4000_0000;
        let half = (if odd {
            e - 1
        } else {
            e
        }) / 2;
        packed(whole_root(n), whole_root(n) * whole_root(n) != n, half - 15)
    }
}

/// The square root in single precision.
pub fn root_value(a: u32) -> (r: u32)
    ensures
        r == square_root(a),
{
    reveal(square_root);
    if is_nan(a) {
        return NOT_A_NUMBER;
    }
    if a == SIGN {
        return SIGN;
    }
    if a > SIGN {
        return NOT_A_NUMBER;
    }
    if a == INFINITY {
        return INFINITY;
    }
    if a == 0 {
        return 0;
    }
    let sig = significand_of(a);
    proof {
        crate::rounding::lemma_significand_positive(a);
        lemma_two_to_values_small();
        lemma_two_to_values();
        lemma_bit_length(sig as int);
        lemma_two_to_order(bit_length(sig as int), 24);
        lemma_two_to_order(24, (bit_length(sig as int) - 1) as nat);
    }
    let grow: u32 = 24 - length_in_bits(sig);
    let e: i64 = exponent_of(a) - grow as i64;
    let p = power_of_two(grow);
    proof {
        crate::rounding::lemma_bit_length_shift(sig as int, grow as nat);
        lemma_bit_length(sig as int * two_to(grow as nat));
        assert(bit_length(sig as int * two_to(grow as nat)) == 24);
        lemma_two_to_grows(grow as nat, 24);
    }
    assert(sig * p < 0x100_0000 && sig * p >= 0x80_0000);
    let m: u64 = sig * p;
    let odd: bool = e % 2 != 0;
    let n: u64 = (if odd {
        2 * m
    } else {
        m
    }) * 0x4000_0000;
    let half: i64 = (if odd {
        e - 1
    } else {
        e
    }) / 2;
    let r = whole_root_of(n);
    proof {
        // the root of at least 2^53 is at least 2^26
        assert(r >= 0x200_0000) by (nonlinear_arith)
            requires
                n >= 0x80_0000 * 0x4000_0000,
                n < (r + 1) * (r + 1),
                0 <= r,
        ;
        assert(r * r < 0x1000_0000 * 0x1000_0000) by (nonlinear_arith)
            requires
                0 <= r < 0x1000_0000,
        ;
    }
    pack(r, r * r != n, half - 15)
}

/// The value of a whole number that is zero or positive: the nearest that
/// single precision holds.
#[verifier::opaque]
pub open spec fn from_whole(v: int) -> u32 {
    if v <= 0 {
        0
    } else if bit_length(v) <= 50 {
        packed(v * two_to((50 - bit_length(v)) as nat), false, bit_length(v) - 50)
    } else {
        packed(
            v / two_to((bit_length(v) - 50) as nat),
            v % two_to((bit_length(v) - 50) as nat) != 0,
            bit_length(v) - 50,
        )
    }
}

/// The value of a whole number.
pub open spec fn from_int(v: int) -> u32 {
    if v < 0 {
        signed(true, from_whole(-v))
    } else {
        from_whole(v)
    }
}

/// The value of a whole number that is zero or positive.
pub fn whole_to_value(v: u64) -> (r: u32)
    requires
        v < 0x4000_0000_0000_0000,
    ensures
        r == from_whole(v as int),
        r <= INFINITY,
{
    reveal(from_whole);
    if v == 0 {
        return 0;
    }
    let b = length_in_bits(v);
    proof {
        lemma_two_to_values();
        lemma_bit_length(v as int);
    }
    if b <= 50 {
        let p = power_of_two(50 - b);
        proof {
            crate::rounding::lemma_bit_length_shift(v as int, (50 - b) as nat);
            lemma_bit_length(v as int * two_to((50 - b) as nat));
            lemma_two_to_order(25, 49);
        }
        pack(v * p, false, b as i64 - 50)
    } else {
        let p = power_of_two(b - 50);
        proof {
            // cutting off all but 50 digits leaves 50 digits
            crate::rounding::lemma_two_to_add(49, (b - 50) as nat);
            lemma_two_to_order(25, 49);
            assert(v as int / two_to((b - 50) as nat) >= two_to(49)) by (nonlinear_arith)
                requires
                    v >= two_to(49) * two_to((b - 50) as nat),
                    two_to((b - 50) as nat) > 0,
            ;
        }
        pack(v / p, v % p != 0, b as i64 - 50)
    }
}

/// The value of a whole number.
pub fn int_to_value(v: i64) -> (r: u32)
    requires
        -0x4000_0000_0000_0000 < v < 0x4000_0000_0000_0000,
    ensures
        r == from_int(v as int),
{
    if v < 0 {
        with_sign(true, whole_to_value((-v) as u64))
    } else {
        whole_to_value(v as u64)
    }
}

/// The whole part of a finite value that is zero or positive.
pub open spec fn whole_part(bits: u32) -> int {
    if exponent(bits) >= 0 {
        significand(bits) * two_to(exponent(bits) as nat)
    } else {
        significand(bits) / two_to((-exponent(bits)) as nat)
    }
}

/// The whole number that a value is cut to, held within the 32-bit signed
/// range; 0 for what is not a number.
#[verifier::opaque]
pub open spec fn to_i32(bits: u32) -> i32 {
    let w = whole_part(unsigned(bits));
    if nan(bits) {
        0
    } else if bits >= SIGN {
        if w > 0x8000_0000 {
            i32::MIN
        } else {
            (-w) as i32
        }
    } else if w > 0x7fff_ffff {
        i32::MAX
    } else {
        w as i32
    }
}

/// The whole number that a value is cut to, held within the 32-bit
/// unsigned range; 0 for a negative value and for what is not a number.
#[verifier::opaque]
pub open spec fn to_u32(bits: u32) -> u32 {
    let w = whole_part(unsigned(bits));
    if nan(bits) || bits >= SIGN {
        0
    } else if w > 0xffff_ffff {
        u32::MAX
    } else {
        w as u32
    }
}

/// The whole part of a value that is zero or positive, held down to `2^32`.
fn whole_part_of(bits: u32) -> (w: u64)
    requires
        bits <= INFINITY,
    ensures
        w == (if whole_part(bits) > 0x1_0000_0000 {
            0x1_0000_0000
        } else {
            whole_part(bits)
        }),
{
    let m = significand_of(bits);
    let e = exponent_of(bits);
    proof {
        lemma_two_to_values();
        lemma_two_to_values_small();
    }
    if e >= 0 {
        if m == 0 {
            proof {
                assert(0 * two_to(e as nat) == 0) by (nonlinear_arith);
            }
            0
        } else if e > 32 {
            proof {
                lemma_two_to_grows(33, e as nat);
                assert(two_to(33) == 2 * two_to(32));
                assert(two_to(32) == 0x1_0000_0000) by {
                    reveal_with_fuel(two_to, 33);
                }
                assert(m * two_to(e as nat) > 0x1_0000_0000) by (nonlinear_arith)
                    requires
                        m >= 1,
                        two_to(e as nat) >= 2 * 0x1_0000_0000,
                ;
            }
            0x1_0000_0000
        } else {
            let p = power_of_two(e as u32);
            proof {
                lemma_two_to_grows(e as nat, 32);
                assert(two_to(32) == 0x1_0000_0000) by {
                    reveal_with_fuel(two_to, 33);
                }
                assert(m * p <= 0xff_ffff * 0x1_0000_0000) by (nonlinear_arith)
                    requires
                        0 <= m <= 0xff_ffff,
                        0 <= p <= 0x1_0000_0000,
                ;
            }
            let w = m * p;
            if w > 0x1_0000_0000 {
                0x1_0000_0000
            } else {
                w
            }
        }
    } else if -e > 24 {
        proof {
            lemma_two_to_grows(24, (-e) as nat);
            assert(m as int / two_to((-e) as nat) == 0) by (nonlinear_arith)
                requires
                    0 <= m < 0x100_0000,
                    two_to((-e) as nat) >= 0x100_0000,
            ;
        }
        0
    } else {
        m / power_of_two((-e) as u32)
    }
}

/// The whole number that a value is cut to, within the 32-bit signed
/// range.
pub fn value_to_i32(bits: u32) -> (v: i32)
    ensures
        v == to_i32(bits),
{
    reveal(to_i32);
    if is_nan(bits) {
        return 0;
    }
    let w = whole_part_of(without_sign(bits));
    if bits >= SIGN {
        if w > 0x8000_0000 {
            i32::MIN
        } else {
            (-(w as i64)) as i32
        }
    } else if w > 0x7fff_ffff {
        i32::MAX
    } else {
        w as i32
    }
}

/// The whole number that a value is cut to, within the 32-bit unsigned
/// range.
pub fn value_to_u32(bits: u32) -> (v: u32)
    ensures
        v == to_u32(bits),
{
    reveal(to_u32);
    if is_nan(bits) || bits >= SIGN {
        return 0;
    }
    let w = whole_part_of(bits);
    if w > 0xffff_ffff {
        u32::MAX
    } else {
        w as u32
    }
}

/// The value of a whole number of up to 66 digits.
pub(crate) fn wide_to_value(v: u128) -> (r: u32)
    requires
        v < 0x4_0000_0000_0000_0000,
    ensures
        r == from_whole(v as int),
        r <= INFINITY,
{
    reveal(from_whole);
    if v < 0x4000_0000_0000_0000 {
        return whole_to_value(v as u64);
    }
    proof {
        lemma_two_to_values();
        lemma_two_to_values_wide();
        lemma_bit_length(v as int);
    }
    // 63 to 66 digits: all but 50 are cut off
    let cut: u32 = if v < 0x8000_0000_0000_0000 {
        13
    } else if v < 0x1_0000_0000_0000_0000 {
        14
    } else if v < 0x2_0000_0000_0000_0000 {
        15
    } else {
        16
    };
    proof {
        let b = bit_length(v as int);
        lemma_two_to_order(62, b);
        lemma_two_to_order(63, b);
        lemma_two_to_order(64, b);
        lemma_two_to_order(65, b);
        lemma_two_to_order(66, (b - 1) as nat);
        lemma_two_to_order(65, (b - 1) as nat);
        lemma_two_to_order(64, (b - 1) as nat);
        lemma_two_to_order(63, (b - 1) as nat);
        assert(b == cut + 50);
        crate::rounding::lemma_two_to_add(49, cut as nat);
        crate::rounding::lemma_two_to_add(50, cut as nat);
        assert(v as int / two_to(cut as nat) >= two_to(49)) by (nonlinear_arith)
            requires
                v >= two_to(49) * two_to(cut as nat),
                two_to(cut as nat) > 0,
        ;
        assert(v as int / two_to(cut as nat) < two_to(50)) by (nonlinear_arith)
            requires
                v < two_to(50) * two_to(cut as nat),
                two_to(cut as nat) > 0,
        ;
        lemma_two_to_grows(cut as nat, 16);
    }
    let p: u128 = power_of_two(cut) as u128;
    pack((v / p) as u64, v % p != 0, cut as i64)
}

proof fn lemma_two_to_values_wide()
    ensures
        two_to(16) == 0x1_0000,
        two_to(49) == 0x2_0000_0000_0000,
        two_to(63) == 0x8000_0000_0000_0000,
        two_to(64) == 0x1_0000_0000_0000_0000,
        two_to(65) == 0x2_0000_0000_0000_0000,
        two_to(66) == 0x4_0000_0000_0000_0000,
{
    reveal_with_fuel(two_to, 67);
}

} // verus!
