//! Whole numbers of any size.
//!
//! A number is held as its digits to the base `2^32`, the first digit
//! counting least. It can be multiplied and divided by a number of one
//! digit, and lose or gain a digit at its low end.

use vstd::prelude::*;

verus! {

/// The base of the digits.
pub const BASE: u64 = 0x1_0000_0000;

/// The number that the digits stand for.
pub open spec fn number(digits: Seq<u32>) -> int
    decreases digits.len(),
{
    if digits.len() == 0 {
        0
    } else {
        digits[0] + BASE * number(digits.skip(1))
    }
}

/// The base to the power `k`: what the digit at `k` counts.
pub open spec fn base_to(k: nat) -> int
    decreases k,
{
    if k == 0 {
        1
    } else {
        BASE * base_to((k - 1) as nat)
    }
}

/// A number is at least zero and less than the base to the power of its
/// number of digits.
pub proof fn lemma_number_bounds(digits: Seq<u32>)
    ensures
        0 <= number(digits) < base_to(digits.len()),
    decreases digits.len(),
{
    if digits.len() > 0 {
        let rest = digits.skip(1);
        lemma_number_bounds(rest);
        let b = base_to(rest.len());
        let r = number(rest);
        assert(digits[0] + BASE * r < BASE * b) by (nonlinear_arith)
            requires
                0 <= digits[0] < BASE,
                0 <= r < b,
        ;
        assert(BASE * r >= 0) by (nonlinear_arith)
            requires
                r >= 0,
        ;
    }
}

/// The first `i + 1` digits stand for what the first `i` stand for and the
/// digit at `i` times what it counts.
pub proof fn lemma_number_take(digits: Seq<u32>, i: int)
    requires
        0 <= i < digits.len(),
    ensures
        number(digits.take(i + 1)) == number(digits.take(i)) + digits[i] * base_to(i as nat),
    decreases i,
{
    let more = digits.take(i + 1);
    let less = digits.take(i);
    if i == 0 {
        assert(more.skip(1) =~= Seq::<u32>::empty());
        assert(number(more.skip(1)) == 0);
        assert(number(less) == 0);
        assert(base_to(0) == 1);
    } else {
        let rest = digits.skip(1);
        lemma_number_take(rest, i - 1);
        assert(more.skip(1) =~= rest.take(i));
        assert(less.skip(1) =~= rest.take(i - 1));
        assert(rest[i - 1] == digits[i]);
        let w = base_to((i - 1) as nat);
        let low = number(rest.take(i - 1));
        assert(BASE * (low + digits[i] * w) == BASE * low + digits[i] * (BASE * w))
            by (nonlinear_arith);
    }
}

/// A number of any size that is zero or positive.
pub struct Whole {
    digits: Vec<u32>,
}

impl View for Whole {
    type V = int;

    closed spec fn view(&self) -> int {
        number(self.digits@)
    }
}

impl Whole {
    /// How many digits are held, leading zeros among them.
    pub closed spec fn width(&self) -> nat {
        self.digits@.len()
    }

    /// Whether the last digit held is not zero.
    pub closed spec fn trimmed(&self) -> bool {
        self.digits@.len() > 0 ==> self.digits@.last() != 0
    }

    /// The number lies under the base to the power of its width, and a
    /// trimmed number of two digits or more is at least the base.
    pub proof fn lemma_size(&self)
        ensures
            0 <= self@ < base_to(self.width()),
            self.width() >= 2 && self.trimmed() ==> self@ >= BASE,
            self.width() <= 2 ==> self@ < BASE * BASE,
    {
        let s = self.digits@;
        lemma_number_bounds(s);
        reveal_with_fuel(base_to, 3);
        if s.len() >= 2 && self.trimmed() {
            let k = (s.len() - 1) as int;
            lemma_number_take(s, k);
            assert(s.take(k + 1) =~= s);
            lemma_number_bounds(s.take(k));
            lemma_base_grows(1, k as nat);
            assert(s[k] * base_to(k as nat) >= BASE) by (nonlinear_arith)
                requires
                    s[k] >= 1,
                    base_to(k as nat) >= BASE,
            ;
        }
        if s.len() <= 2 {
            if s.len() == 2 {
                assert(base_to(2) == BASE * BASE);
            } else if s.len() == 1 {
                assert(base_to(1) == BASE);
            }
        }
    }

    /// Zero.
    pub fn zero() -> (w: Whole)
        ensures
            w@ == 0,
            w.width() == 0,
    {
        Whole { digits: Vec::new() }
    }

    /// Multiplies by `m` and adds `a`.
    pub fn times_plus(&mut self, m: u32, a: u32)
        ensures
            final(self)@ == old(self)@ * m + a,
    {
        let ghost before = self.digits@;
        let n = self.digits.len();
        let mut carry: u64 = a as u64;
        let mut i: usize = 0;
        proof {
            assert(before.take(0) =~= Seq::<u32>::empty());
            assert(base_to(0) == 1);
        }
        while i < n
            invariant
                n == before.len(),
                self.digits@.len() == n,
                0 <= i <= n,
                carry < BASE,
                self.digits@.skip(i as int) == before.skip(i as int),
                number(self.digits@.take(i as int)) + carry * base_to(i as nat) == number(
                    before.take(i as int),
                ) * m + a,
            decreases n - i,
        {
            let ghost cur = self.digits@;
            let digit = self.digits[i];
            assert(digit == before[i as int]) by {
                assert(cur.skip(i as int)[0] == before.skip(i as int)[0]);
            }
            assert(digit * m <= 0xffff_ffff * 0xffff_ffff) by (nonlinear_arith)
                requires
                    0 <= digit <= 0xffff_ffff,
                    0 <= m <= 0xffff_ffff,
            ;
            let t: u64 = digit as u64 * m as u64 + carry;
            let low: u32 = (t % BASE) as u32;
            let high: u64 = t / BASE;
            self.digits[i] = low;
            proof {
                let now = self.digits@;
                lemma_number_take(now, i as int);
                lemma_number_take(before, i as int);
                assert(now.take(i as int) =~= cur.take(i as int));
                let above = now.skip(i + 1);
                let above_before = before.skip(i + 1);
                assert(above =~= above_before) by {
                    assert forall|k: int| 0 <= k < above.len() implies #[trigger] above[k]
                        == above_before[k] by {
                        assert(cur.skip(i as int)[k + 1] == before.skip(i as int)[k + 1]);
                    }
                }
                let w = base_to(i as nat);
                assert(base_to((i + 1) as nat) == BASE * w);
                assert(low * w + high * (BASE * w) == (digit * m + carry) * w) by (nonlinear_arith)
                    requires
                        low + high * BASE == digit * m + carry,
                ;
                assert((number(before.take(i as int)) + digit * w) * m == number(
                    before.take(i as int),
                ) * m + (digit * m) * w) by (nonlinear_arith);
                assert((digit * m + carry) * w == (digit * m) * w + carry * w)
                    by (nonlinear_arith);
            }
            carry = high;
            i += 1;
        }
        proof {
            assert(self.digits@.take(n as int) =~= self.digits@);
            assert(before.take(n as int) =~= before);
        }
        if carry > 0 {
            let ghost cur = self.digits@;
            self.digits.push(carry as u32);
            proof {
                let now = self.digits@;
                lemma_number_take(now, n as int);
                assert(now.take(n + 1) =~= now);
                assert(now.take(n as int) =~= cur);
            }
        } else {
            assert(carry * base_to(n as nat) == 0) by (nonlinear_arith)
                requires
                    carry == 0,
            ;
        }
    }

    /// Divides by `d`, and gives what is left over.
    pub fn divide_by(&mut self, d: u32) -> (left: u32)
        requires
            d > 0,
        ensures
            final(self)@ == old(self)@ / (d as int),
            left == old(self)@ % (d as int),
            final(self).width() == old(self).width(),
    {
        let ghost before = self.digits@;
        let n = self.digits.len();
        let mut left: u64 = 0;
        let mut i: usize = n;
        proof {
            assert(before.skip(n as int) =~= Seq::<u32>::empty());
        }
        while i > 0
            invariant
                n == before.len(),
                self.digits@.len() == n,
                0 <= i <= n,
                left < d,
                self.digits@.take(i as int) == before.take(i as int),
                number(before.skip(i as int)) == d * number(self.digits@.skip(i as int)) + left,
            decreases i,
        {
            let ghost cur = self.digits@;
            i -= 1;
            let digit = self.digits[i];
            assert(digit == before[i as int]) by {
                assert(cur.take(i + 1)[i as int] == before.take(i + 1)[i as int]);
            }
            assert(left * BASE + digit < d * BASE) by (nonlinear_arith)
                requires
                    0 <= left < d,
                    0 <= digit < BASE,
                    d <= 0xffff_ffff,
            ;
            let t: u64 = left * BASE + digit as u64;
            let q: u64 = t / d as u64;
            assert(q < BASE) by (nonlinear_arith)
                requires
                    q == t / (d as u64),
                    t < d * BASE,
                    d > 0,
            ;
            self.digits[i] = q as u32;
            proof {
                let now = self.digits@;
                let below = now.take(i as int);
                let below_before = before.take(i as int);
                assert(below =~= below_before) by {
                    assert forall|k: int| 0 <= k < below.len() implies #[trigger] below[k]
                        == below_before[k] by {
                        assert(cur.take(i + 1)[k] == before.take(i + 1)[k]);
                    }
                }
                assert(now.skip(i as int).skip(1) =~= cur.skip(i + 1));
                assert(before.skip(i as int).skip(1) =~= before.skip(i + 1));
                let high = number(cur.skip(i + 1));
                let r = t as int % d as int;
                assert(d * q + r == t) by {
                    vstd::arithmetic::div_mod::lemma_fundamental_div_mod(t as int, d as int);
                }
                assert(d * (q + BASE * high) + r == BASE * (d * high + left) + digit)
                    by (nonlinear_arith)
                    requires
                        d * q + r == left * BASE + digit,
                ;
            }
            left = t % d as u64;
        }
        proof {
            assert(self.digits@.skip(0) =~= self.digits@);
            assert(before.skip(0) =~= before);
            let q = number(self.digits@);
            lemma_number_bounds(self.digits@);
            assert(number(before) == q * d + left) by (nonlinear_arith)
                requires
                    number(before) == d * q + left,
            ;
            vstd::arithmetic::div_mod::lemma_fundamental_div_mod_converse(
                number(before),
                d as int,
                q,
                left as int,
            );
        }
        left as u32
    }

    /// Multiplies by the base: a zero becomes the first digit.
    pub fn gain_digit(&mut self)
        ensures
            final(self)@ == old(self)@ * BASE,
            final(self).width() == old(self).width() + 1,
    {
        let ghost before = self.digits@;
        self.digits.insert(0, 0);
        proof {
            assert(self.digits@.skip(1) =~= before);
            assert(BASE * number(before) == number(before) * BASE) by (nonlinear_arith);
        }
    }

    /// Divides by the base, and gives what is left over: the first digit
    /// goes.
    pub fn lose_digit(&mut self) -> (left: u32)
        requires
            old(self).width() > 0,
        ensures
            final(self)@ == old(self)@ / (BASE as int),
            left == old(self)@ % (BASE as int),
            final(self).width() == old(self).width() - 1,
            old(self).width() >= 2 && old(self).trimmed() ==> final(self).trimmed(),
    {
        let ghost before = self.digits@;
        let left = self.digits.remove(0);
        proof {
            assert(self.digits@ =~= before.skip(1));
            let q = number(self.digits@);
            lemma_number_bounds(self.digits@);
            assert(number(before) == q * BASE + left) by (nonlinear_arith)
                requires
                    number(before) == left + BASE * q,
            ;
            vstd::arithmetic::div_mod::lemma_fundamental_div_mod_converse(
                number(before),
                BASE as int,
                q,
                left as int,
            );
            if before.len() >= 2 {
                assert(self.digits@.last() == before.last());
            }
        }
        left
    }

    /// Drops the leading zeros.
    pub fn trim(&mut self)
        ensures
            final(self)@ == old(self)@,
            final(self).trimmed(),
            final(self).width() <= old(self).width(),
    {
        while self.digits.len() > 0 && self.digits[self.digits.len() - 1] == 0
            invariant
                number(self.digits@) == number(old(self).digits@),
                self.digits@.len() <= old(self).digits@.len(),
            decreases self.digits@.len(),
        {
            let ghost cur = self.digits@;
            self.digits.pop();
            proof {
                let k = (cur.len() - 1) as int;
                lemma_number_take(cur, k);
                assert(cur.take(k + 1) =~= cur);
                assert(cur.take(k) =~= self.digits@);
                assert(cur[k] * base_to(k as nat) == 0) by (nonlinear_arith)
                    requires
                        cur[k] == 0,
                ;
            }
        }
    }

    /// How many digits are held.
    pub fn digits(&self) -> (n: usize)
        ensures
            n == self.width(),
    {
        self.digits.len()
    }

    /// The number, where it has at most two digits.
    pub fn small(&self) -> (v: u64)
        requires
            self.width() <= 2,
        ensures
            v == self@,
    {
        let n = self.digits.len();
        proof {
            let s = self.digits@;
            if n >= 1 {
                let rest = s.skip(1);
                assert(number(s) == s[0] + BASE * number(rest));
                if n == 2 {
                    assert(rest.skip(1) =~= Seq::<u32>::empty());
                    assert(number(rest.skip(1)) == 0);
                    assert(rest[0] == s[1]);
                    assert(number(rest) == rest[0] + BASE * number(rest.skip(1)));
                } else {
                    assert(rest =~= Seq::<u32>::empty());
                    assert(number(rest) == 0);
                }
            }
        }
        if n == 0 {
            0
        } else if n == 1 {
            self.digits[0] as u64
        } else {
            self.digits[0] as u64 + BASE * self.digits[1] as u64
        }
    }
}

/// The base to a greater power is greater.
pub proof fn lemma_base_grows(a: nat, b: nat)
    requires
        a <= b,
    ensures
        0 < base_to(a) <= base_to(b),
    decreases b,
{
    if a < b {
        lemma_base_grows(a, (b - 1) as nat);
    } else if a > 0 {
        lemma_base_grows((a - 1) as nat, (a - 1) as nat);
    }
}

} // verus!
