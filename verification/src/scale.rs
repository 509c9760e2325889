//! One value at several scales.
//!
//! Before a fraction is rounded it is scaled up by a power of two and cut
//! to a whole number. Which power is taken does not matter, as long as the
//! whole number has digits enough: the rounded pattern is the same. So the
//! power can be chosen as it suits a computation.

use crate::rounding::{
    bit_length, dropped, lemma_bit_length, lemma_two_to_add, lemma_two_to_order, lift, lifted,
    lifted_inexact, nearest, packed, rounded, two_to,
};
use vstd::arithmetic::div_mod::{
    lemma_div_denominator, lemma_div_multiples_vanish_quotient, lemma_mod_breakdown,
    lemma_truncate_middle,
};
use vstd::prelude::*;

verus! {

/// `n / d`, scaled up by two to the power `i`, cut to a whole number.
pub open spec fn scaled(n: int, d: int, i: int) -> int {
    if i >= 0 {
        (n * two_to(i as nat)) / d
    } else {
        n / (d * two_to((-i) as nat))
    }
}

/// Whether cutting to [`scaled`] lost something.
pub open spec fn scaled_inexact(n: int, d: int, i: int) -> bool {
    if i >= 0 {
        (n * two_to(i as nat)) % d != 0
    } else {
        n % (d * two_to((-i) as nat)) != 0
    }
}

/// Halving what is rounded, and remembering whether a one was cut off,
/// does not change the rounded pattern.
pub proof fn lemma_halved(q: int, sticky: bool, x: int)
    requires
        q / 2 >= two_to(25),
    ensures
        packed(q, sticky, x) == packed(q / 2, sticky || q % 2 == 1, x + 1),
{
    reveal(packed);
    let h = q / 2;
    let b = q % 2;
    lemma_two_to_order(25, 25);
    lemma_bit_length(h);
    lemma_two_to_order(25, bit_length(h));
    assert(bit_length(h) >= 26);
    assert(bit_length(q) == 1 + bit_length(h));
    let shift = dropped(h, x + 1);
    assert(dropped(q, x) == shift + 1);
    assert(shift >= 2);
    let p = two_to(shift as nat);
    lemma_two_to_order(shift as nat, shift as nat);
    assert(two_to((shift + 1) as nat) == 2 * p);
    assert(p == 2 * two_to((shift - 1) as nat));
    lemma_div_denominator(q, 2, p);
    lemma_mod_breakdown(q, 2, p);
    let a = h / p;
    let r = h % p;
    assert(q / (2 * p) == a);
    assert(q % (2 * p) == 2 * r + b);
    let up = 2 * r > p || (2 * r == p && (sticky || b == 1 || a % 2 == 1));
    assert(nearest(h, shift as nat, sticky || b == 1) == if up {
        a + 1
    } else {
        a
    });
    assert(nearest(q, (shift + 1) as nat, sticky) == if up {
        a + 1
    } else {
        a
    });
}

/// One step down in scale halves the whole number, and loses something
/// where the step from there lost something or cut off a one.
pub proof fn lemma_scale_step(n: int, d: int, i: int)
    requires
        n >= 0,
        d > 0,
    ensures
        scaled(n, d, i + 1) >= 0,
        scaled(n, d, i) == scaled(n, d, i + 1) / 2,
        scaled_inexact(n, d, i) == (scaled_inexact(n, d, i + 1) || scaled(n, d, i + 1) % 2 == 1),
{
    if i >= 0 {
        let p = two_to(i as nat);
        lemma_two_to_order(i as nat, i as nat);
        let a = n * p;
        assert(a >= 0) by (nonlinear_arith)
            requires
                a == n * p,
                n >= 0,
                p > 0,
        ;
        assert(n * two_to((i + 1) as nat) == 2 * a) by (nonlinear_arith)
            requires
                two_to((i + 1) as nat) == 2 * p,
                a == n * p,
        ;
        lemma_div_denominator(2 * a, d, 2);
        lemma_div_multiples_vanish_quotient(2, a, d);
        lemma_mod_breakdown(2 * a, d, 2);
        lemma_truncate_middle(a, 2, d);
        assert(d * 2 == 2 * d);
        vstd::arithmetic::div_mod::lemma_div_pos_is_pos(2 * a, d);
        let high = (2 * a) / d;
        assert(d * (high % 2) >= 0) by (nonlinear_arith)
            requires
                d > 0,
                high % 2 >= 0,
        ;
        assert(high % 2 == 1 ==> d * (high % 2) > 0) by (nonlinear_arith)
            requires
                d > 0,
        ;
        assert(high % 2 == 0 ==> d * (high % 2) == 0) by (nonlinear_arith);
    } else {
        let e = if i + 1 == 0 {
            d
        } else {
            d * two_to((-(i + 1)) as nat)
        };
        let p = two_to((-(i + 1)) as nat);
        lemma_two_to_order((-(i + 1)) as nat, (-(i + 1)) as nat);
        assert(e == d * p) by (nonlinear_arith)
            requires
                i + 1 == 0 ==> p == 1 && e == d,
                i + 1 != 0 ==> e == d * p,
        ;
        assert(e > 0) by (nonlinear_arith)
            requires
                e == d * p,
                d > 0,
                p > 0,
        ;
        assert(d * two_to((-i) as nat) == e * 2) by (nonlinear_arith)
            requires
                two_to((-i) as nat) == 2 * p,
                e == d * p,
        ;
        assert(scaled(n, d, i + 1) == n / e && scaled_inexact(n, d, i + 1) == (n % e != 0)) by {
            if i + 1 == 0 {
                assert(n * two_to(0) == n) by (nonlinear_arith)
                    requires
                        two_to(0) == 1,
                ;
            }
        }
        lemma_div_denominator(n, e, 2);
        lemma_mod_breakdown(n, e, 2);
        vstd::arithmetic::div_mod::lemma_div_pos_is_pos(n, e);
        let high = n / e;
        assert(high % 2 == 1 ==> e * (high % 2) > 0) by (nonlinear_arith)
            requires
                e > 0,
        ;
        assert(high % 2 == 0 ==> e * (high % 2) == 0) by (nonlinear_arith);
    }
}

/// The rounded pattern is the same at every scale at which the whole
/// number has more than 25 digits.
pub proof fn lemma_any_scale(n: int, d: int, x: int, i: int, j: int)
    requires
        n >= 0,
        d > 0,
        i <= j,
        scaled(n, d, i) >= two_to(25),
    ensures
        scaled(n, d, j) >= two_to(25),
        packed(scaled(n, d, i), scaled_inexact(n, d, i), x - i) == packed(
            scaled(n, d, j),
            scaled_inexact(n, d, j),
            x - j,
        ),
    decreases j - i,
{
    if i < j {
        lemma_scale_step(n, d, i);
        lemma_halved(scaled(n, d, i + 1), scaled_inexact(n, d, i + 1), x - (i + 1));
        lemma_any_scale(n, d, x, i + 1, j);
    }
}

/// What is rounded has 27 or 28 digits.
pub proof fn lemma_lifted_size(n: int, d: int)
    requires
        n > 0,
        d > 0,
    ensures
        two_to(26) <= lifted(n, d) < two_to(28),
        lifted(n, d) == scaled(n, d, lift(n, d)),
        lifted_inexact(n, d) == scaled_inexact(n, d, lift(n, d)),
{
    let k = lift(n, d);
    let bn = bit_length(n);
    let bd = bit_length(d);
    lemma_bit_length(n);
    lemma_bit_length(d);
    let q = lifted(n, d);
    assert(two_to(28) == 2 * two_to(27));
    lemma_two_to_order(27, 27);
    lemma_two_to_order(26, 26);
    if k >= 0 {
        let p = two_to(k as nat);
        lemma_two_to_order(k as nat, k as nat);
        lemma_two_to_add((bn - 1) as nat, k as nat);
        lemma_two_to_add(bn, k as nat);
        lemma_two_to_add(26, bd);
        lemma_two_to_add(27, (bd - 1) as nat);
        // 2^26 * d < 2^(26 + bd) <= n * 2^k < 2^(27 + bd) <= 2 * 2^27 * d
        assert(n * p >= two_to((bn - 1) as nat) * p) by (nonlinear_arith)
            requires
                n >= two_to((bn - 1) as nat),
                p > 0,
        ;
        assert(n * p < two_to(bn) * p) by (nonlinear_arith)
            requires
                n < two_to(bn),
                p > 0,
        ;
        assert(two_to(26) * d < two_to(26) * two_to(bd)) by (nonlinear_arith)
            requires
                d < two_to(bd),
                two_to(26) > 0,
        ;
        assert(q >= two_to(26)) by (nonlinear_arith)
            requires
                q == (n * p) / d,
                n * p >= two_to(26) * d,
                d > 0,
        ;
        assert(two_to(27) * two_to((bd - 1) as nat) <= two_to(27) * d) by (nonlinear_arith)
            requires
                two_to((bd - 1) as nat) <= d,
                two_to(27) > 0,
        ;
        assert(two_to((27 + bd) as nat) == 2 * two_to((26 + bd) as nat));
        assert(q < two_to(28)) by (nonlinear_arith)
            requires
                q == (n * p) / d,
                n * p < 2 * (two_to(27) * d),
                two_to(28) == 2 * two_to(27),
                d > 0,
        ;
    } else {
        let p = two_to((-k) as nat);
        lemma_two_to_order((-k) as nat, (-k) as nat);
        let den = d * p;
        lemma_two_to_add(bd, (-k) as nat);
        lemma_two_to_add((bd - 1) as nat, (-k) as nat);
        lemma_two_to_add(26, (bd - k) as nat);
        lemma_two_to_add(27, (bd - 1 - k) as nat);
        assert(den < two_to(bd) * p) by (nonlinear_arith)
            requires
                den == d * p,
                d < two_to(bd),
                p > 0,
        ;
        assert(den >= two_to((bd - 1) as nat) * p && den > 0) by (nonlinear_arith)
            requires
                den == d * p,
                d >= two_to((bd - 1) as nat),
                two_to((bd - 1) as nat) > 0,
                p > 0,
        ;
        assert(bn - 1 == 26 + bd - k);
        assert(two_to(26) * den < two_to(26) * two_to((bd - k) as nat)) by (nonlinear_arith)
            requires
                den < two_to((bd - k) as nat),
                two_to(26) > 0,
        ;
        assert(q >= two_to(26)) by (nonlinear_arith)
            requires
                q == n / den,
                n >= two_to(26) * den,
                den > 0,
        ;
        assert(two_to(bn) == 2 * two_to((bn - 1) as nat));
        assert(two_to((bn - 1) as nat) == two_to(27) * two_to((bd - 1 - k) as nat));
        assert(two_to(27) * two_to((bd - 1 - k) as nat) <= two_to(27) * den) by (nonlinear_arith)
            requires
                two_to((bd - 1 - k) as nat) <= den,
                two_to(27) > 0,
        ;
        assert(q < two_to(28)) by (nonlinear_arith)
            requires
                q == n / den,
                n < 2 * (two_to(27) * den),
                two_to(28) == 2 * two_to(27),
                den > 0,
        ;
    }
}

/// The rounded pattern of `n / d * 2^x` can be had from any scale at which
/// the whole number has more than 25 digits.
pub proof fn lemma_rounded_at(n: int, d: int, x: int, i: int)
    requires
        n > 0,
        d > 0,
        scaled(n, d, i) >= two_to(25),
    ensures
        rounded(n, d, x) == packed(scaled(n, d, i), scaled_inexact(n, d, i), x - i),
{
    let k = lift(n, d);
    lemma_lifted_size(n, d);
    lemma_two_to_order(25, 26);
    if i <= k {
        lemma_any_scale(n, d, x, i, k);
    } else {
        lemma_any_scale(n, d, x, k, i);
    }
}

} // verus!
