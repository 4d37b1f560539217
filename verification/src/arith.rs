//! Sum, difference, product, power and order of exact integers.

use crate::digits::{
    canonical, complement, digits_below, digits_value, lemma_pow_step, lemma_value_bound,
    lemma_value_push, lemma_value_top, trim,
};
use crate::integer::Integer;
use vstd::arithmetic::div_mod::{
    lemma_fundamental_div_mod, lemma_fundamental_div_mod_converse, lemma_mod_bound,
};
use vstd::arithmetic::power::{lemma_pow0, lemma_pow_positive, pow};
use vstd::prelude::*;

verus! {

/// The low `i` digits of a numeral, or all of them where it has fewer.
pub open spec fn low(s: Seq<u8>, i: int) -> Seq<u8> {
    if i <= s.len() {
        s.take(i)
    } else {
        s
    }
}

/// The digit at place `i`, or 0 beyond the numeral's end.
pub open spec fn digit_at(s: Seq<u8>, i: int) -> int {
    if i < s.len() {
        s[i] as int
    } else {
        0
    }
}

/// One more low digit adds that digit times the weight of its place.
pub proof fn lemma_low_step(s: Seq<u8>, i: int, base: int)
    requires
        0 <= i,
    ensures
        digits_value(low(s, i + 1), base) == digits_value(low(s, i), base) + digit_at(s, i) * pow(
            base,
            i as nat,
        ),
{
    if i < s.len() {
        assert(s.take(i + 1) =~= s.take(i).push(s[i]));
        lemma_value_push(s.take(i), s[i], base);
    } else {
        assert(s.take(s.len() as int) =~= s);
        assert(0 * pow(base, i as nat) == 0);
    }
}

/// The digit at place `i`, or 0 beyond the numeral's end.
fn digit(digits: &Vec<u8>, i: usize) -> (d: u8)
    requires
        digits_below(digits@, 2),
    ensures
        d == digit_at(digits@, i as int),
        d < 2,
{
    if i < digits.len() {
        assert((digits@[i as int] as int) < 2);
        digits[i]
    } else {
        0
    }
}

/// The numeral of the sum of two binary numerals.
fn add_digits(a: &Vec<u8>, b: &Vec<u8>) -> (out: Vec<u8>)
    requires
        digits_below(a@, 2),
        digits_below(b@, 2),
    ensures
        digits_below(out@, 2),
        digits_value(out@, 2) == digits_value(a@, 2) + digits_value(b@, 2),
{
    let n: usize = if a.len() > b.len() {
        a.len()
    } else {
        b.len()
    };
    let mut out: Vec<u8> = Vec::new();
    let mut carry: u8 = 0;
    let mut i: usize = 0;
    proof {
        lemma_pow0(2);
        assert(a@.take(0) =~= Seq::<u8>::empty());
        assert(b@.take(0) =~= Seq::<u8>::empty());
    }
    while i < n
        invariant
            i <= n,
            n >= a.len(),
            n >= b.len(),
            out.len() == i,
            carry < 2,
            digits_below(a@, 2),
            digits_below(b@, 2),
            digits_below(out@, 2),
            digits_value(out@, 2) + carry * pow(2, i as nat) == digits_value(low(a@, i as int), 2)
                + digits_value(low(b@, i as int), 2),
        decreases n - i,
    {
        let da: u8 = digit(a, i);
        let db: u8 = digit(b, i);
        let t: u8 = da + db + carry;
        let lo: u8 = t % 2;
        let hi: u8 = t / 2;
        proof {
            let p = pow(2, i as nat);
            lemma_low_step(a@, i as int, 2);
            lemma_low_step(b@, i as int, 2);
            lemma_value_push(out@, lo, 2);
            lemma_pow_step(2, i as nat);
            assert(lo * p + hi * (2 * p) == carry * p + da * p + db * p) by (nonlinear_arith)
                requires
                    da + db + carry == 2 * hi + lo,
            ;
        }
        out.push(lo);
        carry = hi;
        i = i + 1;
    }
    proof {
        assert(a@.take(a.len() as int) =~= a@);
        assert(b@.take(b.len() as int) =~= b@);
    }
    if carry != 0 {
        proof {
            lemma_value_push(out@, 1u8, 2);
            assert(1 * pow(2, i as nat) == carry * pow(2, i as nat));
        }
        out.push(1);
    } else {
        assert(carry * pow(2, i as nat) == 0);
    }
    out
}

/// The numeral of the distance between two binary numerals, and whether
/// the first is the smaller.
fn sub_digits(a: &Vec<u8>, b: &Vec<u8>) -> (r: (Vec<u8>, bool))
    requires
        digits_below(a@, 2),
        digits_below(b@, 2),
    ensures
        canonical(r.0@, 2),
        r.1 == (digits_value(a@, 2) < digits_value(b@, 2)),
        digits_value(r.0@, 2) == if r.1 {
            digits_value(b@, 2) - digits_value(a@, 2)
        } else {
            digits_value(a@, 2) - digits_value(b@, 2)
        },
{
    let n: usize = if a.len() > b.len() {
        a.len()
    } else {
        b.len()
    };
    let mut out: Vec<u8> = Vec::new();
    let mut borrow: u8 = 0;
    let mut i: usize = 0;
    proof {
        lemma_pow0(2);
        assert(a@.take(0) =~= Seq::<u8>::empty());
        assert(b@.take(0) =~= Seq::<u8>::empty());
    }
    while i < n
        invariant
            i <= n,
            n >= a.len(),
            n >= b.len(),
            out.len() == i,
            borrow < 2,
            digits_below(a@, 2),
            digits_below(b@, 2),
            digits_below(out@, 2),
            digits_value(out@, 2) - borrow * pow(2, i as nat) == digits_value(low(a@, i as int), 2)
                - digits_value(low(b@, i as int), 2),
        decreases n - i,
    {
        let da: u8 = digit(a, i);
        let db: u8 = digit(b, i);
        let t: u8 = 2 + da - db - borrow;
        let lo: u8 = t % 2;
        let next: u8 = if t < 2 {
            1
        } else {
            0
        };
        proof {
            let p = pow(2, i as nat);
            lemma_low_step(a@, i as int, 2);
            lemma_low_step(b@, i as int, 2);
            lemma_value_push(out@, lo, 2);
            lemma_pow_step(2, i as nat);
            assert(lo * p - next * (2 * p) == da * p - db * p - borrow * p) by (nonlinear_arith)
                requires
                    da - db - borrow == lo - 2 * next,
            ;
        }
        out.push(lo);
        borrow = next;
        i = i + 1;
    }
    proof {
        assert(a@.take(a.len() as int) =~= a@);
        assert(b@.take(b.len() as int) =~= b@);
        lemma_value_bound(out@, 2);
        lemma_pow_positive(2, i as nat);
    }
    if borrow != 0 {
        assert(borrow * pow(2, i as nat) == pow(2, i as nat));
        (trim(complement(&out, n)), true)
    } else {
        assert(borrow * pow(2, i as nat) == 0);
        (trim(out), false)
    }
}

/// The numeral of twice a binary numeral plus the digit `bit`.
fn shift_in(a: &Vec<u8>, bit: u8) -> (out: Vec<u8>)
    requires
        digits_below(a@, 2),
        bit < 2,
    ensures
        digits_below(out@, 2),
        digits_value(out@, 2) == 2 * digits_value(a@, 2) + bit,
{
    let mut out: Vec<u8> = Vec::new();
    out.push(bit);
    let mut i: usize = 0;
    while i < a.len()
        invariant
            i <= a.len(),
            out@ == seq![bit] + a@.take(i as int),
        decreases a.len() - i,
    {
        out.push(a[i]);
        assert(seq![bit] + a@.take(i + 1) =~= (seq![bit] + a@.take(i as int)).push(a@[i as int]));
        i = i + 1;
    }
    proof {
        assert(a@.take(i as int) =~= a@);
        assert(out@.drop_first() =~= a@);
        assert(out@[0] == bit);
        assert forall|k: int| 0 <= k < out.len() implies (#[trigger] out@[k] as int) < 2 by {
            if k > 0 {
                assert(out@[k] == a@[k - 1]);
            }
        }
    }
    out
}

/// The numeral of the remainder of one binary numeral by another.
fn rem_digits(a: &Vec<u8>, d: &Vec<u8>) -> (rem: Vec<u8>)
    requires
        digits_below(a@, 2),
        digits_below(d@, 2),
        digits_value(d@, 2) > 0,
    ensures
        canonical(rem@, 2),
        digits_value(rem@, 2) == digits_value(a@, 2) % digits_value(d@, 2),
{
    let ghost dv = digits_value(d@, 2);
    let ghost mut q: int = 0;
    let mut rem: Vec<u8> = Vec::new();
    let mut i: usize = a.len();
    proof {
        assert(a@.skip(i as int) =~= Seq::<u8>::empty());
        assert(0 * dv == 0);
    }
    while i > 0
        invariant
            i <= a.len(),
            digits_below(a@, 2),
            digits_below(d@, 2),
            dv == digits_value(d@, 2),
            dv > 0,
            canonical(rem@, 2),
            0 <= digits_value(rem@, 2) < dv,
            digits_value(a@.skip(i as int), 2) == q * dv + digits_value(rem@, 2),
        decreases i,
    {
        i = i - 1;
        let bit: u8 = a[i];
        proof {
            let high = a@.skip(i as int);
            assert(high.drop_first() =~= a@.skip(i + 1));
            assert(high[0] == bit);
            assert((a@[i as int] as int) < 2);
        }
        let ghost rv = digits_value(rem@, 2);
        let next = shift_in(&rem, bit);
        let (distance, smaller) = sub_digits(&next, d);
        if smaller {
            proof {
                assert(bit + 2 * (q * dv + rv) == (2 * q) * dv + (2 * rv + bit))
                    by (nonlinear_arith);
                q = 2 * q;
            }
            rem = trim(next);
        } else {
            proof {
                assert(bit + 2 * (q * dv + rv) == (2 * q + 1) * dv + (2 * rv + bit - dv))
                    by (nonlinear_arith);
                q = 2 * q + 1;
            }
            rem = distance;
        }
    }
    proof {
        assert(a@.skip(0) =~= a@);
        lemma_fundamental_div_mod_converse(digits_value(a@, 2), dv, q, digits_value(rem@, 2));
    }
    rem
}

/// The numeral of the product of two binary numerals.
fn mul_digits(a: &Vec<u8>, b: &Vec<u8>) -> (out: Vec<u8>)
    requires
        digits_below(a@, 2),
        digits_below(b@, 2),
    ensures
        canonical(out@, 2),
        digits_value(out@, 2) == digits_value(a@, 2) * digits_value(b@, 2),
{
    let mut acc: Vec<u8> = Vec::new();
    let mut i: usize = b.len();
    proof {
        assert(b@.skip(i as int) =~= Seq::<u8>::empty());
        assert(digits_value(a@, 2) * 0 == 0);
    }
    while i > 0
        invariant
            i <= b.len(),
            digits_below(a@, 2),
            digits_below(b@, 2),
            digits_below(acc@, 2),
            digits_value(acc@, 2) == digits_value(a@, 2) * digits_value(b@.skip(i as int), 2),
        decreases i,
    {
        i = i - 1;
        let bit: u8 = b[i];
        proof {
            let high = b@.skip(i as int);
            assert(high.drop_first() =~= b@.skip(i + 1));
            assert(high[0] == bit);
            assert((b@[i as int] as int) < 2);
            let va = digits_value(a@, 2);
            let vh = digits_value(b@.skip(i + 1), 2);
            assert(va * (bit + 2 * vh) == bit * va + 2 * (va * vh)) by (nonlinear_arith);
            assert(bit * va == if bit != 0 { va } else { 0 }) by (nonlinear_arith)
                requires
                    0 <= bit < 2,
            ;
        }
        let doubled = shift_in(&acc, 0);
        acc = if bit != 0 {
            add_digits(&doubled, a)
        } else {
            doubled
        };
    }
    assert(b@.skip(0) =~= b@);
    trim(acc)
}

/// The integer of the signed sum of two signed numerals.
fn add_signed(a_negative: bool, a: &Vec<u8>, b_negative: bool, b: &Vec<u8>) -> (r: Integer)
    requires
        digits_below(a@, 2),
        digits_below(b@, 2),
    ensures
        r.wf(),
        r@ == (if a_negative {
            -digits_value(a@, 2)
        } else {
            digits_value(a@, 2)
        }) + (if b_negative {
            -digits_value(b@, 2)
        } else {
            digits_value(b@, 2)
        }),
{
    let r = if a_negative == b_negative {
        let magnitude = trim(add_digits(a, b));
        Integer { negative: a_negative && magnitude.len() > 0, magnitude }
    } else {
        let (magnitude, smaller) = sub_digits(a, b);
        Integer { negative: (a_negative != smaller) && magnitude.len() > 0, magnitude }
    };
    proof {
        r.lemma_repr();
        lemma_value_bound(a@, 2);
        lemma_value_bound(b@, 2);
    }
    r
}

impl Integer {
    /// The sum of this integer and `other`.
    pub fn add(&self, other: &Integer) -> (r: Integer)
        requires
            self.wf(),
            other.wf(),
        ensures
            r.wf(),
            r@ == self@ + other@,
    {
        proof {
            self.lemma_repr();
            other.lemma_repr();
        }
        add_signed(self.negative, &self.magnitude, other.negative, &other.magnitude)
    }

    /// The difference of this integer and `other`.
    pub fn sub(&self, other: &Integer) -> (r: Integer)
        requires
            self.wf(),
            other.wf(),
        ensures
            r.wf(),
            r@ == self@ - other@,
    {
        proof {
            self.lemma_repr();
            other.lemma_repr();
        }
        add_signed(self.negative, &self.magnitude, !other.negative, &other.magnitude)
    }

    /// The product of this integer and `other`.
    pub fn mul(&self, other: &Integer) -> (r: Integer)
        requires
            self.wf(),
            other.wf(),
        ensures
            r.wf(),
            r@ == self@ * other@,
    {
        proof {
            self.lemma_repr();
            other.lemma_repr();
        }
        let magnitude = mul_digits(&self.magnitude, &other.magnitude);
        let r = Integer {
            negative: (self.negative != other.negative) && magnitude.len() > 0,
            magnitude,
        };
        proof {
            r.lemma_repr();
            let x = digits_value(self.magnitude@, 2);
            let y = digits_value(other.magnitude@, 2);
            assert((-x) * y == -(x * y) && x * (-y) == -(x * y) && (-x) * (-y) == x * y)
                by (nonlinear_arith);
        }
        r
    }

    /// This integer to the power `exponent`.
    pub fn pow(&self, exponent: u32) -> (r: Integer)
        requires
            self.wf(),
        ensures
            r.wf(),
            r@ == pow(self@, exponent as nat),
    {
        let mut acc = Integer::from_u64(1);
        let mut i: u32 = 0;
        proof {
            lemma_pow0(self@);
        }
        while i < exponent
            invariant
                i <= exponent,
                self.wf(),
                acc.wf(),
                acc@ == pow(self@, i as nat),
            decreases exponent - i,
        {
            proof {
                lemma_pow_step(self@, i as nat);
                assert(acc@ * self@ == self@ * acc@) by (nonlinear_arith);
            }
            acc = acc.mul(self);
            i = i + 1;
        }
        acc
    }

    /// The remainder of this integer by a positive `modulus`, in the range
    /// from 0 up to, not including, `modulus`.
    pub fn rem_euclid(&self, modulus: &Integer) -> (r: Integer)
        requires
            self.wf(),
            modulus.wf(),
            modulus@ > 0,
        ensures
            r.wf(),
            0 <= r@ < modulus@,
            r@ == self@ % modulus@,
    {
        proof {
            self.lemma_repr();
            modulus.lemma_repr();
            lemma_value_bound(modulus.magnitude@, 2);
        }
        let ghost v = digits_value(self.magnitude@, 2);
        let ghost d = digits_value(modulus.magnitude@, 2);
        let rem = rem_digits(&self.magnitude, &modulus.magnitude);
        proof {
            lemma_fundamental_div_mod(v, d);
            lemma_mod_bound(v, d);
        }
        let r = if !self.negative || rem.len() == 0 {
            proof {
                if self.negative {
                    assert(-v == (-(v / d)) * d + 0) by (nonlinear_arith)
                        requires
                            v == d * (v / d) + 0,
                    ;
                    lemma_fundamental_div_mod_converse(-v, d, -(v / d), 0);
                }
            }
            Integer { negative: false, magnitude: rem }
        } else {
            let (magnitude, _smaller) = sub_digits(&modulus.magnitude, &rem);
            proof {
                let m = v % d;
                lemma_value_bound(rem@, 2);
                lemma_value_top(rem@, 2);
                lemma_pow_positive(2, (rem.len() - 1) as nat);
                assert(-v == (-(v / d) - 1) * d + (d - m)) by (nonlinear_arith)
                    requires
                        v == d * (v / d) + m,
                ;
                lemma_fundamental_div_mod_converse(-v, d, -(v / d) - 1, d - m);
            }
            Integer { negative: false, magnitude }
        };
        proof {
            r.lemma_repr();
        }
        r
    }

    /// Whether this integer is below `other`.
    pub fn lt(&self, other: &Integer) -> (r: bool)
        requires
            self.wf(),
            other.wf(),
        ensures
            r == (self@ < other@),
    {
        self.sub(other).is_negative()
    }

    /// Whether this integer and `other` are the same number.
    pub fn equals(&self, other: &Integer) -> (r: bool)
        requires
            self.wf(),
            other.wf(),
        ensures
            r == (self@ == other@),
    {
        self.sub(other).is_zero()
    }
}

} // verus!
