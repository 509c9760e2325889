//! Rounding to single precision, and what is computed with it.
//!
//! The result of an operation on single-precision values is the value
//! nearest to the exact result, and the one with an even last digit of two
//! that are equally near. Here the exact result is given as a fraction
//! times a power of two, and its rounded pattern is worked out with whole
//! numbers. Only results that are zero or positive are handled.

use crate::single::{exponent, is_nan, nan, significand, INFINITY, ONE, SIGN};
use vstd::prelude::*;

verus! {

/// Two to the power `k`.
pub open spec fn two_to(k: nat) -> int
    decreases k,
{
    if k == 0 {
        1
    } else {
        2 * two_to((k - 1) as nat)
    }
}

/// The number of binary digits of `p`: 0 for 0, and one more than for the
/// half of `p` otherwise.
pub open spec fn bit_length(p: int) -> nat
    decreases p,
{
    if p <= 0 {
        0
    } else {
        1 + bit_length(p / 2)
    }
}

/// A power of two is positive, and the greater exponent gives the greater
/// power.
pub(crate) proof fn lemma_two_to_grows(a: nat, b: nat)
    requires
        a <= b,
    ensures
        0 < two_to(a) <= two_to(b),
    decreases b,
{
    if a < b {
        lemma_two_to_grows(a, (b - 1) as nat);
    } else if a > 0 {
        lemma_two_to_grows((a - 1) as nat, (a - 1) as nat);
    }
}

/// Some powers of two.
pub(crate) proof fn lemma_two_to_values()
    ensures
        two_to(25) == 0x200_0000,
        two_to(26) == 0x400_0000,
        two_to(28) == 0x1000_0000,
        two_to(47) == 0x8000_0000_0000,
        two_to(50) == 0x4_0000_0000_0000,
        two_to(52) == 0x10_0000_0000_0000,
        two_to(53) == 0x20_0000_0000_0000,
        two_to(62) == 0x4000_0000_0000_0000,
{
    reveal_with_fuel(two_to, 63);
}

/// The powers of two defined here are those of the arithmetic library.
proof fn lemma_two_to_is_pow2(k: nat)
    ensures
        two_to(k) == vstd::arithmetic::power2::pow2(k),
    decreases k,
{
    if k == 0 {
        vstd::arithmetic::power2::lemma2_to64();
    } else {
        lemma_two_to_is_pow2((k - 1) as nat);
        vstd::arithmetic::power2::lemma_pow2_unfold(k);
    }
}

/// The number of digits is what the count of leading zeros leaves of 64.
proof fn lemma_bit_length_is_width(p: u64)
    ensures
        bit_length(p as int) == 64 - vstd::std_specs::bits::u64_leading_zeros(p),
    decreases p,
{
    reveal(vstd::std_specs::bits::u64_leading_zeros);
    if p != 0 {
        lemma_bit_length_is_width(p / 2);
    }
}

/// Two to the power `k`.
pub(crate) fn power_of_two(k: u32) -> (d: u64)
    requires
        k <= 62,
    ensures
        d == two_to(k as nat),
        1 <= d <= 0x4000_0000_0000_0000,
{
    proof {
        lemma_two_to_values();
        lemma_two_to_grows(0, k as nat);
        lemma_two_to_grows(k as nat, 62);
        lemma_two_to_is_pow2(k as nat);
        vstd::bits::lemma_u64_shl_is_mul(1, k as u64);
    }
    1u64 << (k as u64)
}

/// The number of binary digits of `p`.
pub(crate) fn length_in_bits(p: u64) -> (n: u32)
    requires
        p < 0x4000_0000_0000_0000,
    ensures
        n == bit_length(p as int),
        n <= 62,
{
    proof {
        lemma_bit_length_is_width(p);
        lemma_two_to_values();
        if p > 0 {
            lemma_bit_length(p as int);
            lemma_two_to_order(62, (bit_length(p as int) - 1) as nat);
        }
    }
    64 - p.leading_zeros()
}

/// The whole number nearest to `q / 2^shift`, and the even one of two that
/// are equally near. Where `sticky` holds, `q` stands for something a
/// little greater than itself, which settles what would else be a tie.
pub open spec fn nearest(q: int, shift: nat, sticky: bool) -> int {
    let d = two_to(shift);
    let a = q / d;
    let r = q % d;
    if 2 * r > d || (2 * r == d && (sticky || a % 2 == 1)) {
        a + 1
    } else {
        a
    }
}

/// The power of two by which `n / d` is scaled up before it is cut to a
/// whole number, so that the whole number has at least 27 digits.
pub open spec fn lift(n: int, d: int) -> int {
    27 + bit_length(d) - bit_length(n)
}

/// `n / d`, scaled up by two to the [`lift`], cut to a whole number.
pub open spec fn lifted(n: int, d: int) -> int {
    let k = lift(n, d);
    if k >= 0 {
        (n * two_to(k as nat)) / d
    } else {
        n / (d * two_to((-k) as nat))
    }
}

/// Whether cutting to [`lifted`] lost something.
pub open spec fn lifted_inexact(n: int, d: int) -> bool {
    let k = lift(n, d);
    if k >= 0 {
        (n * two_to(k as nat)) % d != 0
    } else {
        n % (d * two_to((-k) as nat)) != 0
    }
}

/// How many of the last digits of `q` are rounded away where `q * 2^x` is
/// rounded: all but 24, and more where the result is too small for 24
/// digits, its last digit then counting `2^-149`.
pub open spec fn dropped(q: int, x: int) -> int {
    let normal = bit_length(q) - 24;
    let least = -149 - x;
    if normal > least {
        normal
    } else {
        least
    }
}

/// The pattern of the single-precision value nearest to `q * 2^x`, for a
/// `q` of more than 24 digits: infinity where that value is too great.
/// Where `sticky` holds, `q` stands for something a little greater than
/// itself.
#[verifier::opaque]
pub open spec fn packed(q: int, sticky: bool, x: int) -> u32 {
    let shift = dropped(q, x);
    let m = nearest(q, shift as nat, sticky);
    let pattern = (x + shift + 149) * 0x80_0000 + m;
    if pattern >= INFINITY {
        INFINITY
    } else {
        pattern as u32
    }
}

/// The pattern of the single-precision value nearest to `n / d * 2^x`, for
/// `n >= 0` and `d > 0`: infinity where that value is too great.
pub open spec fn rounded(n: int, d: int, x: int) -> u32 {
    if n <= 0 {
        0
    } else {
        packed(lifted(n, d), lifted_inexact(n, d), x - lift(n, d))
    }
}

/// A positive whole number lies between the powers of two that its number
/// of digits gives.
pub proof fn lemma_bit_length(n: int)
    requires
        n > 0,
    ensures
        bit_length(n) >= 1,
        two_to((bit_length(n) - 1) as nat) <= n < two_to(bit_length(n)),
    decreases n,
{
    let b = bit_length(n / 2);
    assert(bit_length(n) == 1 + b);
    assert(two_to((b + 1) as nat) == 2 * two_to(b));
    if n > 1 {
        lemma_bit_length(n / 2);
        assert(two_to(b) == 2 * two_to((b - 1) as nat));
    } else {
        assert(b == 0);
        assert(two_to(0) == 1);
    }
}

/// Powers of two multiply as their exponents add.
pub proof fn lemma_two_to_add(a: nat, b: nat)
    ensures
        two_to(a + b) == two_to(a) * two_to(b),
        two_to(a) > 0,
    decreases a,
{
    if a > 0 {
        lemma_two_to_add((a - 1) as nat, b);
        assert(two_to(a + b) == 2 * two_to((a - 1 + b) as nat));
        assert(2 * (two_to((a - 1) as nat) * two_to(b)) == (2 * two_to((a - 1) as nat)) * two_to(b))
            by (nonlinear_arith);
    }
}

/// A greater power of two has the greater exponent.
pub proof fn lemma_two_to_order(a: nat, b: nat)
    ensures
        a <= b ==> two_to(a) <= two_to(b),
        two_to(a) < two_to(b) ==> a < b,
        two_to(a) > 0,
    decreases a + b,
{
    if a > 0 && b > 0 {
        lemma_two_to_order((a - 1) as nat, (b - 1) as nat);
    } else if b > 0 {
        lemma_two_to_order(a, (b - 1) as nat);
    } else if a > 0 {
        lemma_two_to_order((a - 1) as nat, b);
    }
}

/// What is rounded has at least 27 digits and fewer than 54, so that at
/// least three are rounded away.
pub proof fn lemma_lifted(n: int, d: int)
    requires
        0 < n < two_to(50),
        0 < d < two_to(25),
    ensures
        -22 <= lift(n, d) <= 51,
        lift(n, d) >= 0 ==> n * two_to(lift(n, d) as nat) < two_to(52),
        lift(n, d) < 0 ==> d * two_to((-lift(n, d)) as nat) < two_to(47) && d * two_to(
            (-lift(n, d)) as nat,
        ) > 0,
        two_to(26) <= lifted(n, d) < two_to(28),
        27 <= bit_length(lifted(n, d)) <= 28,
{
    let k = lift(n, d);
    let bn = bit_length(n);
    let bd = bit_length(d);
    lemma_bit_length(n);
    lemma_bit_length(d);
    lemma_two_to_order(bn, 50);
    lemma_two_to_order(50, (bn - 1) as nat);
    lemma_two_to_order(bd, 25);
    lemma_two_to_order(25, (bd - 1) as nat);
    crate::scale::lemma_lifted_size(n, d);
    let q = lifted(n, d);
    if k >= 0 {
        let p = two_to(k as nat);
        lemma_two_to_order(k as nat, k as nat);
        lemma_two_to_add(bn, k as nat);
        lemma_two_to_order((27 + bd) as nat, 52);
        assert(n * p < two_to(bn) * p) by (nonlinear_arith)
            requires
                n < two_to(bn),
                p > 0,
        ;
    } else {
        let p = two_to((-k) as nat);
        lemma_two_to_order((-k) as nat, (-k) as nat);
        lemma_two_to_add(bd, (-k) as nat);
        lemma_two_to_order((bd - k) as nat, 47);
        assert(d * p < two_to(bd) * p && d * p > 0) by (nonlinear_arith)
            requires
                0 < d < two_to(bd),
                p > 0,
        ;
    }
    lemma_bit_length(q);
    lemma_two_to_order(26, bit_length(q));
    lemma_two_to_order(28, (bit_length(q) - 1) as nat);
}

/// Doubling a positive whole number adds a digit.
pub proof fn lemma_bit_length_shift(n: int, k: nat)
    requires
        n > 0,
    ensures
        bit_length(n * two_to(k)) == bit_length(n) + k,
        n * two_to(k) > 0,
        (n * two_to(k)) / two_to(k) == n,
        (n * two_to(k)) % two_to(k) == 0,
    decreases k,
{
    lemma_two_to_order(k, k);
    let p = two_to(k);
    assert((n * p) / p == n && (n * p) % p == 0 && n * p > 0) by (nonlinear_arith)
        requires
            p > 0,
            n > 0,
    ;
    if k > 0 {
        let h = two_to((k - 1) as nat);
        lemma_bit_length_shift(n, (k - 1) as nat);
        assert(n * p == 2 * (n * h)) by (nonlinear_arith)
            requires
                p == 2 * h,
        ;
        assert((2 * (n * h)) / 2 == n * h);
    } else {
        assert(n * p == n) by (nonlinear_arith)
            requires
                p == 1,
        ;
    }
}

/// A value that single precision holds is its own rounding: rounding the
/// significand times two to the exponent gives back the pattern, for every
/// finite pattern that is zero or positive.
pub proof fn lemma_rounded_exact(bits: u32)
    requires
        bits < INFINITY,
    ensures
        rounded(significand(bits), 1, exponent(bits)) == bits,
{
    reveal(packed);
    let m = significand(bits);
    let e = exponent(bits);
    if m > 0 {
        lemma_bit_length(m);
        lemma_bit_length(1);
        assert(bit_length(1) == 1) by {
            reveal_with_fuel(bit_length, 3);
        }
        lemma_two_to_values();
        lemma_two_to_order(24, (bit_length(m) - 1) as nat);
        let k = lift(m, 1);
        assert(k == 28 - bit_length(m));
        assert(k >= 4);
        lemma_bit_length_shift(m, k as nat);
        let q = lifted(m, 1);
        assert(q == m * two_to(k as nat));
        assert(bit_length(q) == 28);
        assert(!lifted_inexact(m, 1));
        let shift = dropped(q, e - k);
        if bits >= 0x80_0000 {
            // 24 digits: four are rounded away, all of them zero
            lemma_two_to_order(bit_length(m), 23);
            assert(bit_length(m) == 24);
            assert(shift == 4);
        } else {
            // fewer digits: the last one counts 2^-149 as it is
            assert(e == -149);
            assert(shift == k);
        }
        assert(shift == k);
        let p = two_to(k as nat);
        let mp = m * p;
        lemma_two_to_order(k as nat, k as nat);
        assert(mp / p == m && mp % p == 0) by (nonlinear_arith)
            requires
                mp == m * p,
                p > 0,
                m > 0,
        ;
        assert(q == mp);
        assert(q / p == m && q % p == 0);
        assert(nearest(q, k as nat, false) == m);
        assert((e - k + shift + 149) * 0x80_0000 + m == bits) by (nonlinear_arith)
            requires
                shift == k,
                (e + 149) * 0x80_0000 + m == bits,
        ;
        assert(rounded(m, 1, e) == packed(q, false, e - k));
    }
}

/// The pattern of the single-precision value nearest to `q * 2^x`.
pub(crate) fn pack(q: u64, sticky: bool, x: i64) -> (bits: u32)
    requires
        0x200_0000 <= q < 0x4000_0000_0000_0000,
        -2000 <= x <= 2000,
    ensures
        bits == packed(q as int, sticky, x as int),
        bits <= INFINITY,
{
    reveal(packed);
    proof {
        lemma_two_to_values();
        lemma_bit_length(q as int);
        lemma_two_to_order(25, bit_length(q as int));
    }
    let normal: i64 = length_in_bits(q) as i64 - 24;
    let least: i64 = -149 - x;
    let shift: i64 = if normal > least {
        normal
    } else {
        least
    };
    if shift > 62 {
        proof {
            lemma_two_to_grows(62, (shift - 1) as nat);
            let p = two_to(shift as nat);
            assert(p == 2 * two_to((shift - 1) as nat));
            assert(q as int / p == 0 && q as int % p == q) by (nonlinear_arith)
                requires
                    0 <= q < p,
            ;
        }
        return 0;
    }
    let p: u64 = power_of_two(shift as u32);
    let a: u64 = q / p;
    let r: u64 = q % p;
    let m: u64 = if 2 * r > p || (2 * r == p && (sticky || a % 2 == 1)) {
        a + 1
    } else {
        a
    };
    let pattern: i64 = (x + shift + 149) * 0x80_0000 + m as i64;
    if pattern >= INFINITY as i64 {
        INFINITY
    } else {
        pattern as u32
    }
}

/// The pattern of the single-precision value nearest to `n / d * 2^x`.
pub(crate) fn round_ratio(n: u64, d: u64, x: i64) -> (bits: u32)
    requires
        n < 0x4_0000_0000_0000,
        0 < d < 0x200_0000,
        -1000 <= x <= 1000,
    ensures
        bits == rounded(n as int, d as int, x as int),
        bits <= INFINITY,
{
    if n == 0 {
        return 0;
    }
    proof {
        lemma_two_to_values();
        lemma_lifted(n as int, d as int);
    }
    let k: i64 = 27 + length_in_bits(d) as i64 - length_in_bits(n) as i64;
    let num: u64 = if k >= 0 {
        n * power_of_two(k as u32)
    } else {
        n
    };
    let den: u64 = if k >= 0 {
        d
    } else {
        d * power_of_two((-k) as u32)
    };
    pack(num / den, num % den != 0, x - k)
}

/// The significand of a pattern that is zero or positive.
pub(crate) fn significand_of(bits: u32) -> (m: u64)
    requires
        bits <= INFINITY,
    ensures
        m == significand(bits),
        m < 0x100_0000,
{
    if bits / 0x80_0000 == 0 {
        (bits % 0x80_0000) as u64
    } else {
        0x80_0000 + (bits % 0x80_0000) as u64
    }
}

/// The exponent of a pattern that is zero or positive.
pub(crate) fn exponent_of(bits: u32) -> (e: i64)
    requires
        bits <= INFINITY,
    ensures
        e == exponent(bits),
        -149 <= e <= 105,
{
    let e = bits / 0x80_0000;
    (if e == 0 {
        1
    } else {
        e as i64
    }) - 150
}

/// `s / 255`, rounded.
pub open spec fn fraction(s: int) -> u32 {
    rounded(s, 255, 0)
}

/// The product of two values, rounded.
pub open spec fn product(a: u32, b: u32) -> u32 {
    rounded(significand(a) * significand(b), 1, exponent(a) + exponent(b))
}

/// `a / b`, rounded, for `b` other than zero.
pub open spec fn quotient(a: u32, b: u32) -> u32 {
    rounded(significand(a), significand(b), exponent(a) - exponent(b))
}

/// The sum of two values, rounded. A value too small to change the other
/// even by rounding is left out of the sum.
pub open spec fn sum(a: u32, b: u32) -> u32 {
    let ea = exponent(a);
    let eb = exponent(b);
    if significand(a) == 0 {
        b
    } else if significand(b) == 0 {
        a
    } else if ea - eb > 25 {
        a
    } else if eb - ea > 25 {
        b
    } else if ea >= eb {
        rounded(significand(a) * two_to((ea - eb) as nat) + significand(b), 1, eb)
    } else {
        rounded(significand(a) + significand(b) * two_to((eb - ea) as nat), 1, ea)
    }
}

/// What is left of one after `a`: `1 - a`, rounded, for `a` up to one, and
/// nothing for a greater `a`. A value too small to change one even by
/// rounding leaves one.
pub open spec fn complement(a: u32) -> u32 {
    if a > ONE {
        0
    } else if exponent(a) < -48 {
        ONE
    } else {
        rounded(two_to((-exponent(a)) as nat) - significand(a), 1, exponent(a))
    }
}

/// A pattern other than zero has a significand other than zero.
pub proof fn lemma_significand_positive(bits: u32)
    requires
        0 < bits <= INFINITY,
    ensures
        significand(bits) > 0,
{
}

/// `s / 255`, rounded.
pub(crate) fn fraction_of(s: u8) -> (bits: u32)
    ensures
        bits == fraction(s as int),
        bits <= INFINITY,
{
    round_ratio(s as u64, 255, 0)
}

/// The product of two values that are zero or positive.
pub(crate) fn multiply(a: u32, b: u32) -> (bits: u32)
    requires
        a <= INFINITY,
        b <= INFINITY,
    ensures
        bits == product(a, b),
        bits <= INFINITY,
{
    let ma = significand_of(a);
    let mb = significand_of(b);
    assert(ma * mb < 0x100_0000 * 0x100_0000) by (nonlinear_arith)
        requires
            0 <= ma < 0x100_0000,
            0 <= mb < 0x100_0000,
    ;
    round_ratio(ma * mb, 1, exponent_of(a) + exponent_of(b))
}

/// The quotient of two values that are zero or positive, the second not
/// zero.
pub(crate) fn divide(a: u32, b: u32) -> (bits: u32)
    requires
        a <= INFINITY,
        b <= INFINITY,
        significand(b) > 0,
    ensures
        bits == quotient(a, b),
        bits <= INFINITY,
{
    round_ratio(significand_of(a), significand_of(b), exponent_of(a) - exponent_of(b))
}

/// The sum of two values that are zero or positive.
pub(crate) fn add_up(a: u32, b: u32) -> (bits: u32)
    requires
        a <= INFINITY,
        b <= INFINITY,
    ensures
        bits == sum(a, b),
        bits <= INFINITY,
{
    let ma = significand_of(a);
    let mb = significand_of(b);
    let ea = exponent_of(a);
    let eb = exponent_of(b);
    if ma == 0 {
        b
    } else if mb == 0 {
        a
    } else if ea - eb > 25 {
        a
    } else if eb - ea > 25 {
        b
    } else if ea >= eb {
        let p = power_of_two((ea - eb) as u32);
        proof {
            lemma_two_to_values();
            lemma_two_to_grows((ea - eb) as nat, 25);
            assert(ma * p <= 0xff_ffff * 0x200_0000) by (nonlinear_arith)
                requires
                    0 <= ma <= 0xff_ffff,
                    0 <= p <= 0x200_0000,
            ;
        }
        round_ratio(ma * p + mb, 1, eb)
    } else {
        let p = power_of_two((eb - ea) as u32);
        proof {
            lemma_two_to_values();
            lemma_two_to_grows((eb - ea) as nat, 25);
            assert(mb * p <= 0xff_ffff * 0x200_0000) by (nonlinear_arith)
                requires
                    0 <= mb <= 0xff_ffff,
                    0 <= p <= 0x200_0000,
            ;
        }
        round_ratio(ma + mb * p, 1, ea)
    }
}

/// What is left of one after `a`.
pub(crate) fn complement_of(a: u32) -> (bits: u32)
    requires
        a <= INFINITY,
    ensures
        bits == complement(a),
        bits <= INFINITY,
{
    if a > ONE {
        return 0;
    }
    let e = exponent_of(a);
    if e < -48 {
        return ONE;
    }
    let m = significand_of(a);
    let p = power_of_two((-e) as u32);
    proof {
        lemma_two_to_values();
        lemma_two_to_grows((-e) as nat, 48);
        lemma_two_to_grows(48, 50);
        lemma_below_one(a);
    }
    round_ratio(p - m, 1, e)
}

/// A value up to one has a significand that is at most one's, at its
/// exponent.
proof fn lemma_below_one(a: u32)
    requires
        a <= ONE,
        exponent(a) >= -48,
    ensures
        significand(a) <= two_to((-exponent(a)) as nat),
{
    lemma_two_to_values();
    let e = exponent(a);
    lemma_two_to_grows(23, (-e) as nat);
    if a == ONE {
        assert(significand(a) == 0x80_0000);
        assert(e == -23);
        reveal_with_fuel(two_to, 24);
    } else {
        // the exponent of a value below one is below one's, so that a
        // significand of up to 24 digits stays under 2^24 <= 2^-e
        assert(e <= -24);
        reveal_with_fuel(two_to, 25);
        lemma_two_to_grows(24, (-e) as nat);
    }
}

/// The whole part of a value that is zero or positive, held down to 255.
pub open spec fn whole_byte(bits: u32) -> int {
    let m = significand(bits);
    let e = exponent(bits);
    if e >= 0 {
        if m == 0 {
            0
        } else {
            255
        }
    } else if m / two_to((-e) as nat) > 255 {
        255
    } else {
        m / two_to((-e) as nat)
    }
}

/// The byte that the product of a value and a whole factor from 0 to 255
/// gives: the product is rounded to single precision, cut to a whole number
/// and held within 0 and 255. A negative value gives 0, and so does what
/// is not a number.
pub open spec fn scaled_byte(bits: u32, factor: int) -> int {
    if nan(bits) || bits >= SIGN {
        0
    } else if bits == INFINITY {
        if factor == 0 {
            0
        } else {
            255
        }
    } else {
        whole_byte(rounded(factor * significand(bits), 1, exponent(bits)))
    }
}

/// The byte for a value meant to lie between 0 and 1: the value is held
/// within 0 and 1, what is not a number counting as 1, and then scaled by
/// 255.
pub open spec fn unit_byte(bits: u32) -> int {
    if nan(bits) {
        255
    } else {
        scaled_byte(bits, 255)
    }
}

/// The whole part of a value that is zero or positive, held down to 255.
fn whole_byte_of(bits: u32) -> (byte: u8)
    requires
        bits <= INFINITY,
    ensures
        byte == whole_byte(bits),
{
    let m = significand_of(bits);
    let e = exponent_of(bits);
    if e >= 0 {
        return if m == 0 {
            0
        } else {
            255
        };
    }
    if -e > 24 {
        proof {
            lemma_two_to_values();
            lemma_two_to_grows(24, (-e) as nat);
            reveal_with_fuel(two_to, 25);
            assert(m as int / two_to((-e) as nat) == 0) by (nonlinear_arith)
                requires
                    0 <= m < 0x100_0000,
                    two_to((-e) as nat) >= 0x100_0000,
            ;
        }
        return 0;
    }
    let v = m / power_of_two((-e) as u32);
    if v > 255 {
        255
    } else {
        v as u8
    }
}

/// The byte that the product of the value `bits` and `factor` gives.
pub fn scale_to_byte(bits: u32, factor: u8) -> (byte: u8)
    ensures
        byte == scaled_byte(bits, factor as int),
{
    if is_nan(bits) || bits >= SIGN {
        return 0;
    }
    if bits == INFINITY {
        return if factor == 0 {
            0
        } else {
            255
        };
    }
    let m = significand_of(bits);
    assert(factor * m <= 255 * 0xff_ffff) by (nonlinear_arith)
        requires
            0 <= factor <= 255,
            0 <= m <= 0xff_ffff,
    ;
    whole_byte_of(round_ratio(factor as u64 * m, 1, exponent_of(bits)))
}

/// The byte for a value meant to lie between 0 and 1.
pub fn unit_to_byte(bits: u32) -> (byte: u8)
    ensures
        byte == unit_byte(bits),
{
    if is_nan(bits) {
        255
    } else {
        scale_to_byte(bits, 255)
    }
}

} // verus!
