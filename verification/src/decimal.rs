//! Decimal numbers in text, and the single-precision values nearest to
//! them.
//!
//! A number's text is a sign, digits with a point among them, and a power
//! of ten after an `e`. It stands for a whole number of any size times a
//! power of ten, which is a power of five times a power of two. The value
//! is worked out with whole numbers of any size, so that every text rounds
//! to the value nearest to it, however many digits it has.

use crate::arith::signed;
use crate::ascii::{digits_end, is_digit, sign_end, skip_digits, skip_sign};
use crate::rounding::{
    bit_length, dropped, lemma_bit_length, lemma_two_to_add, lemma_two_to_order, lift, lifted,
    nearest, pack, packed, rounded, two_to,
};
use crate::scale::{lemma_lifted_size, lemma_rounded_at, scaled, scaled_inexact};
use crate::single::{INFINITY, SIGN};
use crate::whole::{base_to, Whole, BASE};
use vstd::arithmetic::div_mod::{
    lemma_div_denominator, lemma_div_is_ordered_by_denominator,
    lemma_div_multiples_vanish_quotient, lemma_mod_breakdown, lemma_truncate_middle,
};
use vstd::prelude::*;

verus! {

/// Five to the power `k`.
pub open spec fn five_to(k: nat) -> int
    decreases k,
{
    if k == 0 {
        1
    } else {
        5 * five_to((k - 1) as nat)
    }
}

/// The whole number that the decimal digits `s` stand for when they are
/// written behind the whole number `v`.
pub open spec fn digits_onto(v: int, s: Seq<u8>) -> int
    decreases s.len(),
{
    if s.len() == 0 {
        v
    } else {
        10 * digits_onto(v, s.drop_last()) + (s.last() - 48)
    }
}

/// The whole number that the decimal digits `s` stand for.
pub open spec fn digits_value(s: Seq<u8>) -> int {
    digits_onto(0, s)
}

/// The pattern of the value nearest to `digits * 10^q`: ten to the power
/// `q` is five to that power times two to that power.
pub open spec fn decimal(digits: int, q: int) -> u32 {
    if q >= 0 {
        rounded(digits * five_to(q as nat), 1, q)
    } else {
        rounded(digits, five_to((-q) as nat), q)
    }
}

/// The pattern of the value nearest to the decimal number that the text `t`
/// holds: a sign, digits, a point and digits, then `e` with a sign and
/// digits, each of which may be missing. The digits before and behind the
/// point make one whole number, and each digit behind the point takes one
/// from the power of ten.
pub open spec fn number_value(t: Seq<u8>) -> u32 {
    let j1 = skip_sign(t, 0);
    let j2 = skip_digits(t, j1);
    let dot = 0 <= j2 < t.len() && t[j2] == 46;
    let j3 = if dot {
        skip_digits(t, j2 + 1)
    } else {
        j2
    };
    let exp = 0 <= j3 < t.len() && t[j3] == 101;
    let j4 = if exp {
        skip_sign(t, j3 + 1)
    } else {
        j3
    };
    let j5 = if exp {
        skip_digits(t, j4)
    } else {
        j3
    };
    let before = t.subrange(j1, j2);
    let behind = if dot {
        t.subrange(j2 + 1, j3)
    } else {
        Seq::<u8>::empty()
    };
    let e = if exp {
        digits_value(t.subrange(j4, j5))
    } else {
        0
    };
    let power = if exp && j4 > j3 + 1 && t[j3 + 1] == 45 {
        -e
    } else {
        e
    };
    signed(
        t.len() > 0 && t[0] == 45,
        decimal(digits_value(before + behind), power - behind.len()),
    )
}

/// Powers of five are positive and multiply as their exponents add.
pub proof fn lemma_five_add(a: nat, b: nat)
    ensures
        five_to(a + b) == five_to(a) * five_to(b),
        five_to(a) > 0,
    decreases a,
{
    if a > 0 {
        lemma_five_add((a - 1) as nat, b);
        assert(five_to(a + b) == 5 * five_to((a - 1 + b) as nat));
        assert(5 * (five_to((a - 1) as nat) * five_to(b)) == (5 * five_to((a - 1) as nat))
            * five_to(b)) by (nonlinear_arith);
    }
}

/// A power of five is at least the power of four, and up to the
/// thirteenth it is less than `2^32`.
pub proof fn lemma_five_size(k: nat)
    ensures
        five_to(k) >= two_to(2 * k),
        k <= 13 ==> five_to(k) <= 1220703125,
    decreases k,
{
    if k > 0 {
        lemma_five_size((k - 1) as nat);
        let low = two_to((2 * k - 2) as nat);
        assert(low == two_to(2 * ((k - 1) as nat)));
        lemma_two_to_order((2 * k - 2) as nat, (2 * k - 2) as nat);
        assert(two_to(2 * k) == 2 * two_to((2 * k - 1) as nat));
        assert(two_to((2 * k - 1) as nat) == 2 * low);
        assert(five_to(k) == 5 * five_to((k - 1) as nat));
        if k <= 13 {
            lemma_five_grows(k, 13);
            assert(five_to(13) == 1220703125) by {
                reveal_with_fuel(five_to, 14);
            }
        }
    }
}

/// The greater power of five has the greater exponent.
pub proof fn lemma_five_grows(a: nat, b: nat)
    requires
        a <= b,
    ensures
        0 < five_to(a) <= five_to(b),
    decreases b,
{
    if a < b {
        lemma_five_grows(a, (b - 1) as nat);
    } else if a > 0 {
        lemma_five_grows((a - 1) as nat, (a - 1) as nat);
    }
}

/// The base of the digits of a whole number is `2^32`.
pub proof fn lemma_base_is_two(k: nat)
    ensures
        base_to(k) == two_to(32 * k),
    decreases k,
{
    if k > 0 {
        lemma_base_is_two((k - 1) as nat);
        lemma_two_to_add(32, (32 * (k - 1)) as nat);
        assert(two_to(32) == BASE) by {
            reveal_with_fuel(two_to, 33);
        }
    }
}

/// Digits written behind digits: the first run is the whole number that
/// the second is written behind.
pub proof fn lemma_digits_joined(v: int, a: Seq<u8>, b: Seq<u8>)
    ensures
        digits_onto(v, a + b) == digits_onto(digits_onto(v, a), b),
    decreases b.len(),
{
    if b.len() == 0 {
        assert(a + b =~= a);
    } else {
        lemma_digits_joined(v, a, b.drop_last());
        assert((a + b).drop_last() =~= a + b.drop_last());
        assert((a + b).last() == b.last());
    }
}

/// Every byte that was skipped as a digit is one.
pub proof fn lemma_digit_run(s: Seq<u8>, i: int, k: int)
    requires
        0 <= i <= k < skip_digits(s, i),
    ensures
        k < s.len(),
        is_digit(s[k]),
    decreases s.len() - i,
{
    if 0 <= i < s.len() && is_digit(s[i]) {
        if k > i {
            lemma_digit_run(s, i + 1, k);
        }
    }
}

/// Dividing in two steps is dividing by the product, and something is
/// left over where either step leaves something.
pub proof fn lemma_divide_on(a: int, den: int, f: int)
    requires
        a >= 0,
        den > 0,
        f > 0,
    ensures
        den * f > 0,
        (a / den) / f == a / (den * f),
        (a % (den * f) != 0) == (a % den != 0 || (a / den) % f != 0),
{
    lemma_div_denominator(a, den, f);
    lemma_mod_breakdown(a, den, f);
    let h = (a / den) % f;
    assert(h == 0 ==> den * h == 0) by (nonlinear_arith);
    assert(h > 0 ==> den * h > 0) by (nonlinear_arith)
        requires
            den > 0,
    ;
}

/// A common factor of what is divided and what divides can be left out.
pub proof fn lemma_common_factor(x: int, e: int, p: int)
    requires
        x >= 0,
        e > 0,
        p > 0,
    ensures
        e * p > 0,
        (x * p) / (e * p) == x / e,
        ((x * p) % (e * p) != 0) == (x % e != 0),
{
    lemma_div_multiples_vanish_quotient(p, x, e);
    lemma_truncate_middle(x, p, e);
    assert(x * p == p * x && e * p == p * e) by (nonlinear_arith);
    let r = x % e;
    assert(r == 0 ==> p * r == 0) by (nonlinear_arith);
    assert(r > 0 ==> p * r > 0) by (nonlinear_arith)
        requires
            p > 0,
    ;
}

/// A value of two to the power 200 or more is too great for single
/// precision.
pub proof fn lemma_huge(n: int, x: int)
    requires
        n > 0,
        x > 200,
    ensures
        rounded(n, 1, x) == INFINITY,
{
    reveal(packed);
    lemma_lifted_size(n, 1);
    lemma_bit_length(n);
    assert(bit_length(1) == 1) by {
        reveal_with_fuel(bit_length, 3);
    }
    let k = lift(n, 1);
    let q = lifted(n, 1);
    lemma_two_to_order(26, 26);
    lemma_bit_length(q);
    lemma_two_to_order(26, bit_length(q));
    lemma_two_to_order(28, (bit_length(q) - 1) as nat);
    let shift = dropped(q, x - k);
    assert(3 <= shift <= 4);
    lemma_two_to_order(shift as nat, shift as nat);
    vstd::arithmetic::div_mod::lemma_div_pos_is_pos(q, two_to(shift as nat));
    assert((x - k + shift + 149) * 0x80_0000 >= 0x7f80_0000) by (nonlinear_arith)
        requires
            x - k + shift + 149 >= 255,
    ;
}

/// A fraction whose lower part has far more digits than its upper part
/// and the power of two make up for is too small for single precision.
pub proof fn lemma_tiny(n: int, d: int, x: int)
    requires
        n > 0,
        d > 0,
        bit_length(d) - bit_length(n) - x >= 152,
    ensures
        rounded(n, d, x) == 0,
{
    reveal(packed);
    lemma_lifted_size(n, d);
    let k = lift(n, d);
    let q = lifted(n, d);
    lemma_two_to_order(26, 26);
    lemma_bit_length(q);
    lemma_two_to_order(28, (bit_length(q) - 1) as nat);
    let shift = dropped(q, x - k);
    assert(shift == k - x - 149);
    assert(shift >= 30);
    let p = two_to(shift as nat);
    lemma_two_to_order(30, shift as nat);
    assert(two_to(30) == 4 * two_to(28)) by {
        assert(two_to(30) == 2 * two_to(29));
        assert(two_to(29) == 2 * two_to(28));
    }
    assert(q / p == 0 && q % p == q) by (nonlinear_arith)
        requires
            0 <= q < p,
    ;
    assert(nearest(q, shift as nat, crate::rounding::lifted_inexact(n, d)) == 0);
    assert((x - k + shift + 149) * 0x80_0000 + 0 == 0) by (nonlinear_arith)
        requires
            x - k + shift + 149 == 0,
    ;
}

/// Where the power of two is far from what single precision holds, the
/// rounded pattern is infinity or zero.
pub proof fn lemma_far(q: int, sticky: bool, x: int)
    requires
        two_to(25) <= q < two_to(62),
    ensures
        x > 2000 ==> packed(q, sticky, x) == INFINITY,
        x < -2000 ==> packed(q, sticky, x) == 0,
{
    reveal(packed);
    lemma_two_to_order(25, 25);
    lemma_bit_length(q);
    lemma_two_to_order(25, bit_length(q));
    lemma_two_to_order(62, (bit_length(q) - 1) as nat);
    let shift = dropped(q, x);
    lemma_two_to_order(shift as nat, shift as nat);
    if x > 2000 {
        assert(2 <= shift <= 38);
        vstd::arithmetic::div_mod::lemma_div_pos_is_pos(q, two_to(shift as nat));
        assert((x + shift + 149) * 0x80_0000 >= 0x7f80_0000) by (nonlinear_arith)
            requires
                x + shift + 149 >= 255,
        ;
    }
    if x < -2000 {
        assert(shift == -149 - x);
        let p = two_to(shift as nat);
        lemma_two_to_order(63, shift as nat);
        assert(two_to(63) == 2 * two_to(62));
        assert(q / p == 0 && q % p == q) by (nonlinear_arith)
            requires
                0 <= q < p,
        ;
        assert(nearest(q, shift as nat, sticky) == 0);
        assert((x + shift + 149) * 0x80_0000 + 0 == 0) by (nonlinear_arith)
            requires
                x + shift + 149 == 0,
        ;
    }
}

/// The greatest power of ten that is read exactly; a greater one is
/// only known to be greater.
pub const POWER_LIMIT: u128 = 0x10_0000_0000_0000_0000_0000_0000;

/// Whether `count` digits behind the leading zeros can have given the
/// whole number `v`.
pub open spec fn sized(v: int, count: int) -> bool {
    &&& 0 <= v < two_to((4 * count) as nat)
    &&& count >= 0
    &&& (count == 0 ==> v == 0)
    &&& (count > 0 ==> v > 0)
}

/// Five to the power `c`.
fn power_of_five(c: u32) -> (f: u32)
    requires
        c <= 13,
    ensures
        f == five_to(c as nat),
        f > 0,
{
    let mut f: u32 = 1;
    let mut i: u32 = 0;
    while i < c
        invariant
            i <= c <= 13,
            f == five_to(i as nat),
            f > 0,
        decreases c - i,
    {
        proof {
            lemma_five_size((i + 1) as nat);
        }
        f = f * 5;
        i += 1;
    }
    f
}

/// Writes the digits of `text` from `from` to `to` behind the whole number
/// `big`, and counts those that do not lead it as zeros.
fn gather(text: &[u8], from: usize, to: usize, big: &mut Whole, count: &mut usize)
    requires
        from <= to <= text@.len(),
        forall|k: int| from <= k < to ==> is_digit(text@[k]),
        *old(count) <= from,
        sized(old(big)@, *old(count) as int),
    ensures
        final(big)@ == digits_onto(old(big)@, text@.subrange(from as int, to as int)),
        sized(final(big)@, *final(count) as int),
        *final(count) <= to,
{
    let ghost run = text@.subrange(from as int, to as int);
    let mut i: usize = from;
    proof {
        assert(run.take(0) =~= Seq::<u8>::empty());
    }
    while i < to
        invariant
            from <= i <= to <= text@.len(),
            run == text@.subrange(from as int, to as int),
            forall|k: int| from <= k < to ==> is_digit(text@[k]),
            big@ == digits_onto(old(big)@, run.take(i - from)),
            sized(big@, *count as int),
            *count <= i,
        decreases to - i,
    {
        let digit: u32 = (text[i] - 48) as u32;
        let ghost v = big@;
        proof {
            let more = run.take(i - from + 1);
            assert(more.drop_last() =~= run.take(i - from));
            assert(more.last() == text@[i as int]);
        }
        if *count > 0 || digit > 0 {
            big.times_plus(10, digit);
            proof {
                let c = *count as int;
                lemma_two_to_add(4, (4 * c) as nat);
                assert(two_to(4) == 16) by {
                    reveal_with_fuel(two_to, 5);
                }
                assert(v * 10 + digit < 16 * two_to((4 * c) as nat)) by (nonlinear_arith)
                    requires
                        0 <= v < two_to((4 * c) as nat),
                        0 <= digit <= 9,
                ;
                assert(v * 10 + digit > 0) by (nonlinear_arith)
                    requires
                        v >= 0,
                        0 <= digit,
                        v > 0 || digit > 0,
                ;
            }
            *count = *count + 1;
        }
        i += 1;
    }
    proof {
        assert(run.take(to - from) =~= run);
    }
}

/// The whole number that the digits of `text` from `from` to `to` stand
/// for, as far as it stays under [`POWER_LIMIT`].
fn saturated(text: &[u8], from: usize, to: usize) -> (e: u128)
    requires
        from <= to <= text@.len(),
        forall|k: int| from <= k < to ==> is_digit(text@[k]),
    ensures
        e < 10 * POWER_LIMIT + 10,
        digits_value(text@.subrange(from as int, to as int)) >= 0,
        digits_value(text@.subrange(from as int, to as int)) < POWER_LIMIT ==> e == digits_value(
            text@.subrange(from as int, to as int),
        ),
        digits_value(text@.subrange(from as int, to as int)) >= POWER_LIMIT ==> e >= POWER_LIMIT,
{
    let ghost run = text@.subrange(from as int, to as int);
    let mut e: u128 = 0;
    let mut i: usize = from;
    proof {
        assert(run.take(0) =~= Seq::<u8>::empty());
    }
    while i < to
        invariant
            from <= i <= to <= text@.len(),
            run == text@.subrange(from as int, to as int),
            forall|k: int| from <= k < to ==> is_digit(text@[k]),
            e < 10 * POWER_LIMIT + 10,
            digits_value(run.take(i - from)) >= 0,
            digits_value(run.take(i - from)) < POWER_LIMIT ==> e == digits_value(
                run.take(i - from),
            ),
            digits_value(run.take(i - from)) >= POWER_LIMIT ==> e >= POWER_LIMIT,
        decreases to - i,
    {
        let digit: u128 = (text[i] - 48) as u128;
        proof {
            let more = run.take(i - from + 1);
            assert(more.drop_last() =~= run.take(i - from));
            assert(more.last() == text@[i as int]);
        }
        if e < POWER_LIMIT {
            e = e * 10 + digit;
        }
        i += 1;
    }
    proof {
        assert(run.take(to - from) =~= run);
    }
    e
}

/// The pattern of the single-precision value nearest to `q * 2^x`, for any
/// power of two.
fn pack_far(q: u64, sticky: bool, x: i128) -> (bits: u32)
    requires
        0x200_0000 <= q < 0x4000_0000_0000_0000,
    ensures
        bits == packed(q as int, sticky, x as int),
        bits <= INFINITY,
{
    proof {
        crate::rounding::lemma_two_to_values();
        lemma_far(q as int, sticky, x as int);
    }
    if x > 2000 {
        INFINITY
    } else if x < -2000 {
        0
    } else {
        pack(q, sticky, x as i64)
    }
}

/// What is divided and what divides, each scaled by a power of two, give
/// the fraction at the scale that is the difference of the powers.
pub proof fn lemma_scale_of(n: int, f: int, up: nat, down: nat)
    requires
        n >= 0,
        f > 0,
    ensures
        f * two_to(down) > 0,
        (n * two_to(up)) / (f * two_to(down)) == scaled(n, f, up - down),
        ((n * two_to(up)) % (f * two_to(down)) != 0) == scaled_inexact(n, f, up - down),
{
    lemma_two_to_order(up, up);
    lemma_two_to_order(down, down);
    if up >= down {
        let p = two_to(down);
        let t = two_to((up - down) as nat);
        lemma_two_to_add((up - down) as nat, down);
        lemma_two_to_order((up - down) as nat, down);
        let x = n * t;
        assert(x >= 0) by (nonlinear_arith)
            requires
                x == n * t,
                n >= 0,
                t > 0,
        ;
        assert(n * two_to(up) == x * p) by (nonlinear_arith)
            requires
                two_to(up) == t * p,
                x == n * t,
        ;
        lemma_common_factor(x, f, p);
    } else {
        let p = two_to(up);
        let t = two_to((down - up) as nat);
        lemma_two_to_add((down - up) as nat, up);
        lemma_two_to_order((down - up) as nat, up);
        let e = f * t;
        assert(e > 0) by (nonlinear_arith)
            requires
                e == f * t,
                f > 0,
                t > 0,
        ;
        assert(f * two_to(down) == e * p) by (nonlinear_arith)
            requires
                two_to(down) == t * p,
                e == f * t,
        ;
        lemma_common_factor(n, e, p);
    }
}

/// A whole number that has gained two digits more than its divisor has
/// is, divided by it, of three digits at least.
proof fn lemma_three_digits(n: int, f: int, gained: nat)
    requires
        n > 0,
        0 < f <= base_to(gained),
    ensures
        (n * base_to(gained + 2)) / f >= BASE * BASE,
        n * base_to(gained + 2) >= 0,
{
    let g = base_to(gained);
    let a = n * base_to(gained + 2);
    assert(base_to(gained + 2) == BASE * base_to(gained + 1));
    assert(base_to(gained + 1) == BASE * g);
    let m = n * (BASE * BASE);
    assert(a == m * g) by (nonlinear_arith)
        requires
            a == n * (BASE * (BASE * g)),
            m == n * (BASE * BASE),
    ;
    assert(m >= BASE * BASE) by (nonlinear_arith)
        requires
            m == n * (BASE * BASE),
            n >= 1,
    ;
    assert(a >= 0 && a / g == m) by (nonlinear_arith)
        requires
            a == m * g,
            m >= 0,
            g > 0,
    ;
    lemma_div_is_ordered_by_denominator(a, f, g);
}

/// Far from what single precision holds, the power of ten alone settles
/// the value: infinity above, zero below, and zero for no digits at all.
pub proof fn lemma_decimal_far(digits: int, count: int, q: int)
    requires
        sized(digits, count),
    ensures
        digits == 0 ==> decimal(digits, q) == 0,
        digits > 0 && q > 200 ==> decimal(digits, q) == INFINITY,
        digits > 0 && q <= -(4 * count + 200) ==> decimal(digits, q) == 0,
{
    if digits == 0 {
        if q >= 0 {
            assert(digits * five_to(q as nat) == 0) by (nonlinear_arith)
                requires
                    digits == 0,
            ;
        }
    } else if q > 200 {
        let t = five_to(q as nat);
        lemma_five_add(q as nat, 0);
        assert(digits * t > 0) by (nonlinear_arith)
            requires
                digits > 0,
                t > 0,
        ;
        lemma_huge(digits * t, q);
    } else if q <= -(4 * count + 200) {
        let p = (-q) as nat;
        let d = five_to(p);
        lemma_five_size(p);
        lemma_five_add(p, 0);
        lemma_bit_length(d);
        lemma_two_to_order(2 * p, bit_length(d));
        lemma_bit_length(digits);
        lemma_two_to_order((4 * count) as nat, (bit_length(digits) - 1) as nat);
        lemma_tiny(digits, d, q);
    }
}

/// The pattern of the value nearest to `big * 10^q`, for a whole number
/// of `count` digits behind its leading zeros.
pub fn round_decimal(big: Whole, count: usize, q: i128) -> (bits: u32)
    requires
        sized(big@, count as int),
        -0x1_0000_0000_0000_0000_0000_0000_0000 <= q <= 0x1_0000_0000_0000_0000_0000_0000_0000,
    ensures
        bits == decimal(big@, q as int),
        bits <= INFINITY,
{
    let mut big = big;
    let ghost digits = big@;
    proof {
        lemma_decimal_far(digits, count as int, q as int);
    }
    if count == 0 {
        return 0;
    }
    if q > 200 {
        return INFINITY;
    }
    let p: u128 = if q < 0 {
        (-q) as u128
    } else {
        0
    };
    if q < 0 && p >= 4 * (count as u128) + 200 {
        return 0;
    }
    let mut k: i128 = 0;
    proof {
        assert(digits * five_to(0) == digits) by (nonlinear_arith)
            requires
                five_to(0) == 1,
        ;
    }
    while k < q
        invariant
            q <= 200,
            0 <= k,
            q >= 0 ==> k <= q,
            q < 0 ==> k == 0,
            big@ == digits * five_to(k as nat),
        decreases q - k,
    {
        let ghost t = five_to(k as nat);
        big.times_plus(5, 0);
        proof {
            assert(digits * t * 5 + 0 == digits * (5 * t)) by (nonlinear_arith);
        }
        k += 1;
    }
    let ghost n = big@;
    let ghost f = five_to(p as nat);
    proof {
        lemma_five_add(p as nat, 0);
        lemma_five_add(k as nat, 0);
        assert(n > 0) by (nonlinear_arith)
            requires
                n == digits * five_to(k as nat),
                digits > 0,
                five_to(k as nat) > 0,
        ;
        assert(five_to(0) == 1);
        if q >= 0 {
            assert(k == q && p == 0);
        } else {
            assert(n == digits && p == -q);
        }
        assert(decimal(digits, q as int) == rounded(n, f, q as int));
    }
    let mut gained: u128 = 0;
    let mut left: u128 = p;
    proof {
        assert(n * base_to(0) == n) by (nonlinear_arith)
            requires
                base_to(0) == 1,
        ;
    }
    while left > 0
        invariant
            left <= p < 0x10_0000_0000_0000_0000,
            gained <= p - left,
            big@ == n * base_to(gained as nat),
            five_to((p - left) as nat) <= base_to(gained as nat),
        decreases left,
    {
        let c: u128 = if left > 13 {
            13
        } else {
            left
        };
        let ghost g = base_to(gained as nat);
        let ghost done = five_to((p - left) as nat);
        big.gain_digit();
        proof {
            lemma_five_add((p - left) as nat, c as nat);
            lemma_five_add(c as nat, 0);
            lemma_five_size(c as nat);
            let step = five_to(c as nat);
            assert(done * step <= g * BASE) by (nonlinear_arith)
                requires
                    0 < done <= g,
                    0 < step <= BASE,
            ;
            assert(base_to((gained + 1) as nat) == BASE * g);
            assert(n * g * BASE == n * (BASE * g)) by (nonlinear_arith);
        }
        gained += 1;
        left -= c;
    }
    big.gain_digit();
    big.gain_digit();
    let ghost a = big@;
    proof {
        let g = base_to(gained as nat);
        assert(base_to((gained + 2) as nat) == BASE * base_to((gained + 1) as nat));
        assert(base_to((gained + 1) as nat) == BASE * g);
        assert(n * g * BASE * BASE == n * (BASE * (BASE * g))) by (nonlinear_arith);
        lemma_three_digits(n, f, gained as nat);
    }
    let mut sticky = false;
    let ghost mut den: int = 1;
    left = p;
    while left > 0
        invariant
            left <= p,
            a >= 0,
            den > 0,
            den == five_to((p - left) as nat),
            big@ == a / den,
            sticky == (a % den != 0),
        decreases left,
    {
        let c: u32 = if left > 13 {
            13
        } else {
            left as u32
        };
        let d = power_of_five(c);
        let r = big.divide_by(d);
        proof {
            lemma_divide_on(a, den, d as int);
            lemma_five_add((p - left) as nat, c as nat);
            den = den * d;
        }
        sticky = sticky || r != 0;
        left -= c as u128;
    }
    big.trim();
    proof {
        big.lemma_size();
    }
    let width = big.digits();
    let mut lost: u128 = 0;
    proof {
        assert(f * base_to(0) == f) by (nonlinear_arith)
            requires
                base_to(0) == 1,
        ;
    }
    while big.digits() > 2
        invariant
            big.trimmed(),
            big.width() >= 2,
            lost + big.width() == width,
            a >= 0,
            f > 0,
            den > 0,
            den == f * base_to(lost as nat),
            big@ == a / den,
            sticky == (a % den != 0),
        decreases big.width(),
    {
        let ghost w = base_to(lost as nat);
        let r = big.lose_digit();
        proof {
            lemma_divide_on(a, den, BASE as int);
            assert(base_to((lost + 1) as nat) == BASE * w);
            assert(f * w * BASE == f * (BASE * w)) by (nonlinear_arith);
            den = den * BASE;
        }
        sticky = sticky || r != 0;
        lost += 1;
    }
    proof {
        big.lemma_size();
    }
    let v = big.small();
    let cut: u64 = v / 4;
    let inexact = sticky || v % 4 != 0;
    let x: i128 = q - 32 * (gained as i128 + 2) + 32 * (lost as i128) + 2;
    proof {
        let up = (32 * (gained + 2)) as nat;
        let down = (32 * lost + 2) as nat;
        lemma_divide_on(a, den, 4);
        lemma_base_is_two((gained + 2) as nat);
        lemma_base_is_two(lost as nat);
        lemma_two_to_add((32 * lost) as nat, 2);
        assert(two_to(2) == 4) by {
            reveal_with_fuel(two_to, 3);
        }
        assert(den * 4 == f * two_to(down)) by (nonlinear_arith)
            requires
                den == f * two_to((32 * lost) as nat),
                two_to(down) == two_to((32 * lost) as nat) * 4,
        ;
        lemma_scale_of(n, f, up, down);
        crate::rounding::lemma_two_to_values();
        lemma_rounded_at(n, f, q as int, up - down);
    }
    pack_far(cut, inexact, x)
}

/// The pattern of the value nearest to the decimal number that `text`
/// holds.
pub fn value_of(text: &[u8]) -> (bits: u32)
    ensures
        bits == number_value(text@),
{
    let n = text.len();
    let j1 = sign_end(text, 0);
    let j2 = digits_end(text, j1);
    let dot = j2 < n && text[j2] == 46;
    let j3 = if dot {
        digits_end(text, j2 + 1)
    } else {
        j2
    };
    let exp = j3 < n && text[j3] == 101;
    let j4 = if exp {
        sign_end(text, j3 + 1)
    } else {
        j3
    };
    let j5 = if exp {
        digits_end(text, j4)
    } else {
        j3
    };
    let ghost before = text@.subrange(j1 as int, j2 as int);
    let ghost behind = if dot {
        text@.subrange(j2 + 1, j3 as int)
    } else {
        Seq::<u8>::empty()
    };
    proof {
        assert forall|k: int| j1 <= k < j2 implies is_digit(text@[k]) by {
            lemma_digit_run(text@, j1 as int, k);
        }
        if dot {
            assert forall|k: int| j2 + 1 <= k < j3 implies is_digit(text@[k]) by {
                lemma_digit_run(text@, j2 + 1, k);
            }
        }
        if exp {
            assert forall|k: int| j4 <= k < j5 implies is_digit(text@[k]) by {
                lemma_digit_run(text@, j4 as int, k);
            }
        }
        assert(two_to(0) == 1);
    }
    let mut big = Whole::zero();
    let mut count: usize = 0;
    gather(text, j1, j2, &mut big, &mut count);
    if dot {
        gather(text, j2 + 1, j3, &mut big, &mut count);
    }
    proof {
        lemma_digits_joined(0, before, behind);
        if !dot {
            assert(before + behind =~= before);
        }
    }
    let power: u128 = if exp {
        saturated(text, j4, j5)
    } else {
        0
    };
    let down = exp && j4 > j3 + 1 && text[j3 + 1] == 45;
    let places: usize = if dot {
        j3 - (j2 + 1)
    } else {
        0
    };
    let q: i128 = (if down {
        -(power as i128)
    } else {
        power as i128
    }) - places as i128;
    let magnitude = round_decimal(big, count, q);
    proof {
        let digits = digits_value(before + behind);
        let e = if exp {
            digits_value(text@.subrange(j4 as int, j5 as int))
        } else {
            0
        };
        let exact = (if down {
            -e
        } else {
            e
        }) - behind.len();
        if e >= POWER_LIMIT {
            lemma_decimal_far(digits, count as int, exact);
            lemma_decimal_far(digits, count as int, q as int);
        }
        assert(magnitude == decimal(digits, exact));
    }
    if n > 0 && text[0] == 45 {
        magnitude + SIGN
    } else {
        magnitude
    }
}

} // verus!
