//! Exact signed integers of any magnitude, with the reductions to a bit
//! width that `BigInt.asUintN` and `BigInt.asIntN` are defined by.

use crate::digits::{
    binary, canonical, complement, digits_below, digits_value, lemma_canonical_unique,
    lemma_pow_step, lemma_value_bound,
    lemma_value_split, lemma_value_take_mod, lemma_value_top, lemma_zeros_value, trim,
};
use vstd::arithmetic::div_mod::{
    lemma_fundamental_div_mod, lemma_fundamental_div_mod_converse, lemma_mod_bound,
    lemma_mod_multiples_basic,
};
use vstd::arithmetic::power::{lemma_pow0, lemma_pow_increases, lemma_pow_positive, pow};
use vstd::arithmetic::power2::{lemma2_to64, lemma_pow2};
use vstd::prelude::*;

verus! {

/// An exact integer: a sign and a binary magnitude, least significant
/// digit first, without leading zeros. Zero has no digits and no sign.
#[derive(Clone, Debug, PartialEq, Eq)]
pub struct Integer {
    pub(crate) negative: bool,
    pub(crate) magnitude: Vec<u8>,
}

impl View for Integer {
    type V = int;

    closed spec fn view(&self) -> int {
        if self.negative {
            -digits_value(self.magnitude@, 2)
        } else {
            digits_value(self.magnitude@, 2)
        }
    }
}

/// `v` reduced to the unsigned range of `bits` binary digits.
pub open spec fn unsigned_wrap(v: int, bits: nat) -> int {
    v % pow(2, bits)
}

/// `v` reduced to the two's-complement range of `bits` binary digits.
/// At width 0 the only value is 0.
pub open spec fn signed_wrap(v: int, bits: nat) -> int {
    let m = unsigned_wrap(v, bits);
    if bits >= 1 && m >= pow(2, (bits - 1) as nat) {
        m - pow(2, bits)
    } else {
        m
    }
}

/// The unsigned reduction of any integer to any width lies from 0 up to,
/// not including, 2^`bits`, and differs from the integer by a multiple of
/// 2^`bits`.
pub proof fn lemma_unsigned_wrap(v: int, bits: nat)
    ensures
        0 <= unsigned_wrap(v, bits) < pow(2, bits),
        (unsigned_wrap(v, bits) - v) % pow(2, bits) == 0,
{
    let p = pow(2, bits);
    lemma_pow_positive(2, bits);
    lemma_mod_bound(v, p);
    lemma_fundamental_div_mod(v, p);
    assert(v % p - v == (-(v / p)) * p) by (nonlinear_arith)
        requires
            v == p * (v / p) + v % p,
    ;
    lemma_mod_multiples_basic(-(v / p), p);
}

/// The signed reduction of any integer to a width of at least one binary
/// digit lies from -2^(`bits`-1) to 2^(`bits`-1) - 1, and differs from the
/// integer by a multiple of 2^`bits`.
pub proof fn lemma_signed_wrap(v: int, bits: nat)
    requires
        bits >= 1,
    ensures
        -pow(2, (bits - 1) as nat) <= signed_wrap(v, bits) <= pow(2, (bits - 1) as nat) - 1,
        (signed_wrap(v, bits) - v) % pow(2, bits) == 0,
{
    let p = pow(2, bits);
    let m = unsigned_wrap(v, bits);
    lemma_unsigned_wrap(v, bits);
    lemma_pow_step(2, (bits - 1) as nat);
    lemma_fundamental_div_mod(v, p);
    if m >= pow(2, (bits - 1) as nat) {
        assert(m - p - v == (-(v / p) - 1) * p) by (nonlinear_arith)
            requires
                v == p * (v / p) + m,
        ;
        lemma_mod_multiples_basic(-(v / p) - 1, p);
    }
}

/// At width 0 both reductions give 0.
pub proof fn lemma_wrap_zero_width(v: int)
    ensures
        unsigned_wrap(v, 0) == 0,
        signed_wrap(v, 0) == 0,
{
    lemma_pow0(2);
}

/// The distance of `v` from 0.
pub open spec fn magnitude_of(v: int) -> int {
    if v < 0 {
        -v
    } else {
        v
    }
}

impl Integer {
    /// The representation is the canonical one of its value.
    pub closed spec fn wf(&self) -> bool {
        canonical(self.magnitude@, 2) && (self.magnitude.len() == 0 ==> !self.negative)
    }

    /// What the view and the validity say of the representation.
    pub(crate) proof fn lemma_repr(&self)
        ensures
            self@ == if self.negative {
                -digits_value(self.magnitude@, 2)
            } else {
                digits_value(self.magnitude@, 2)
            },
            self.wf() == (canonical(self.magnitude@, 2) && (self.magnitude.len() == 0
                ==> !self.negative)),
    {
    }

    /// Whether the sign is set.
    pub closed spec fn sign(&self) -> bool {
        self.negative
    }

    /// The binary digits of the magnitude, least significant first.
    pub closed spec fn digits(&self) -> Seq<u8> {
        self.magnitude@
    }

    /// Two valid integers of the same value have the same sign and the
    /// same digits: equality of representations is equality of numbers.
    pub proof fn lemma_unique(&self, other: &Integer)
        requires
            self.wf(),
            other.wf(),
            self@ == other@,
        ensures
            self.sign() == other.sign(),
            self.digits() == other.digits(),
    {
        lemma_value_bound(self.magnitude@, 2);
        lemma_value_bound(other.magnitude@, 2);
        if self.magnitude.len() > 0 {
            lemma_value_top(self.magnitude@, 2);
            lemma_pow_positive(2, (self.magnitude.len() - 1) as nat);
        }
        if other.magnitude.len() > 0 {
            lemma_value_top(other.magnitude@, 2);
            lemma_pow_positive(2, (other.magnitude.len() - 1) as nat);
        }
        lemma_canonical_unique(self.magnitude@, other.magnitude@, 2);
    }

    /// The integer 0.
    pub fn zero() -> (r: Integer)
        ensures
            r.wf(),
            r@ == 0,
    {
        Integer { negative: false, magnitude: Vec::new() }
    }

    /// The integer `n`.
    pub fn from_u64(n: u64) -> (r: Integer)
        ensures
            r.wf(),
            r@ == n,
    {
        Integer { negative: false, magnitude: binary(n) }
    }

    /// The integer `n`.
    pub fn from_i64(n: i64) -> (r: Integer)
        ensures
            r.wf(),
            r@ == n,
    {
        if n < 0 {
            let size: u64 = if n == i64::MIN {
                9223372036854775808u64
            } else {
                (-n) as u64
            };
            Integer { negative: true, magnitude: binary(size) }
        } else {
            Integer::from_u64(n as u64)
        }
    }

    /// The integer `mantissa * 2^shift`, negated where `negative` is set.
    pub fn from_scaled(negative: bool, mantissa: u64, shift: u32) -> (r: Integer)
        ensures
            r.wf(),
            r@ == if negative {
                -(mantissa * pow(2, shift as nat))
            } else {
                mantissa * pow(2, shift as nat)
            },
    {
        if mantissa == 0 {
            assert(0 * pow(2, shift as nat) == 0);
            return Integer::zero();
        }
        let high = binary(mantissa);
        let mut magnitude: Vec<u8> = Vec::new();
        let mut i: u32 = 0;
        while i < shift
            invariant
                i <= shift,
                magnitude.len() == i,
                forall|k: int| 0 <= k < magnitude.len() ==> #[trigger] magnitude@[k] == 0,
            decreases shift - i,
        {
            magnitude.push(0);
            i = i + 1;
        }
        let mut j: usize = 0;
        while j < high.len()
            invariant
                j <= high.len(),
                magnitude.len() == shift + j,
                forall|k: int| 0 <= k < shift ==> #[trigger] magnitude@[k] == 0,
                magnitude@.skip(shift as int) == high@.take(j as int),
            decreases high.len() - j,
        {
            let ghost before = magnitude@;
            magnitude.push(high[j]);
            assert(magnitude@.skip(shift as int) =~= before.skip(shift as int).push(
                high@[j as int],
            ));
            assert(high@.take(j + 1) =~= high@.take(j as int).push(high@[j as int]));
            j = j + 1;
        }
        proof {
            assert(high@.take(j as int) =~= high@);
            let low = magnitude@.take(shift as int);
            assert forall|k: int| 0 <= k < low.len() implies #[trigger] low[k] == 0 by {
                assert(low[k] == magnitude@[k]);
            }
            lemma_zeros_value(low, 2);
            lemma_value_split(magnitude@, shift as nat, 2);
            assert(high.len() > 0);
            assert(magnitude@.last() == magnitude@.skip(shift as int).last());
            assert forall|k: int| 0 <= k < magnitude.len() implies (#[trigger] magnitude@[k] as int)
                < 2 by {
                if k >= shift {
                    assert(magnitude@[k] == magnitude@.skip(shift as int)[k - shift]);
                }
            }
            assert(pow(2, shift as nat) * mantissa == mantissa * pow(2, shift as nat))
                by (nonlinear_arith);
        }
        Integer { negative, magnitude }
    }

    /// The distance of this integer from 0, or `u64::MAX` where that is
    /// less.
    pub fn magnitude_u64(&self) -> (r: u64)
        requires
            self.wf(),
        ensures
            r == if magnitude_of(self@) > u64::MAX {
                u64::MAX as int
            } else {
                magnitude_of(self@)
            },
    {
        let n: usize = self.magnitude.len();
        proof {
            lemma2_to64();
            lemma_pow2(64);
            lemma_value_bound(self.magnitude@, 2);
        }
        if n > 64 {
            proof {
                lemma_value_top(self.magnitude@, 2);
                lemma_pow_increases(2, 64, (n - 1) as nat);
            }
            return u64::MAX;
        }
        let mut acc: u64 = 0;
        let mut i: usize = n;
        assert(self.magnitude@.skip(i as int) =~= Seq::<u8>::empty());
        while i > 0
            invariant
                i <= n <= 64,
                n == self.magnitude.len(),
                digits_below(self.magnitude@, 2),
                acc == digits_value(self.magnitude@.skip(i as int), 2),
                pow(2, 64) == 0x10000000000000000,
            decreases i,
        {
            i = i - 1;
            let bit: u8 = self.magnitude[i];
            proof {
                let high = self.magnitude@.skip(i as int);
                assert(high.drop_first() =~= self.magnitude@.skip(i + 1));
                assert(high[0] == bit);
                assert forall|k: int| 0 <= k < high.len() implies (#[trigger] high[k] as int)
                    < 2 by {
                    assert(high[k] == self.magnitude@[i + k]);
                }
                lemma_value_bound(high, 2);
                lemma_pow_increases(2, high.len(), 64);
            }
            acc = acc * 2 + bit as u64;
        }
        assert(self.magnitude@.skip(0) =~= self.magnitude@);
        acc
    }

    /// Whether this is 0.
    pub fn is_zero(&self) -> (r: bool)
        requires
            self.wf(),
        ensures
            r == (self@ == 0),
    {
        proof {
            if self.magnitude.len() > 0 {
                lemma_value_top(self.magnitude@, 2);
                lemma_pow_positive(2, (self.magnitude.len() - 1) as nat);
            }
        }
        self.magnitude.len() == 0
    }

    /// Whether this is below 0.
    pub fn is_negative(&self) -> (r: bool)
        requires
            self.wf(),
        ensures
            r == (self@ < 0),
    {
        proof {
            lemma_value_bound(self.magnitude@, 2);
            if self.magnitude.len() > 0 {
                lemma_value_top(self.magnitude@, 2);
                lemma_pow_positive(2, (self.magnitude.len() - 1) as nat);
            }
        }
        self.negative
    }

    /// A second integer of the same value.
    pub fn copy(&self) -> (r: Integer)
        ensures
            r@ == self@,
            r.wf() == self.wf(),
    {
        let mut magnitude: Vec<u8> = Vec::new();
        let mut i: usize = 0;
        while i < self.magnitude.len()
            invariant
                i <= self.magnitude.len(),
                magnitude@ == self.magnitude@.take(i as int),
            decreases self.magnitude.len() - i,
        {
            magnitude.push(self.magnitude[i]);
            assert(self.magnitude@.take(i + 1) =~= self.magnitude@.take(i as int).push(
                self.magnitude@[i as int],
            ));
            i = i + 1;
        }
        assert(self.magnitude@.take(i as int) =~= self.magnitude@);
        Integer { negative: self.negative, magnitude }
    }

    /// The numeral of the magnitude's low `bits` digits.
    fn low_digits(&self, bits: u32) -> (out: Vec<u8>)
        requires
            self.wf(),
        ensures
            canonical(out@, 2),
            out.len() <= bits,
            digits_value(out@, 2) == digits_value(self.magnitude@, 2) % pow(2, bits as nat),
    {
        let mut out: Vec<u8> = Vec::new();
        let mut i: usize = 0;
        while i < self.magnitude.len() && i < bits as usize
            invariant
                i <= self.magnitude.len(),
                i <= bits,
                out@ == self.magnitude@.take(i as int),
            decreases self.magnitude.len() - i,
        {
            out.push(self.magnitude[i]);
            assert(self.magnitude@.take(i + 1) =~= self.magnitude@.take(i as int).push(
                self.magnitude@[i as int],
            ));
            i = i + 1;
        }
        proof {
            lemma_value_take_mod(self.magnitude@, bits as nat);
            if i == self.magnitude.len() {
                assert(self.magnitude@.take(i as int) =~= self.magnitude@);
            }
            assert forall|k: int| 0 <= k < out.len() implies (#[trigger] out@[k] as int) < 2 by {
                assert(out@[k] == self.magnitude@[k]);
            }
        }
        trim(out)
    }

    /// This integer modulo 2^`bits`, in the range from 0 up to, not
    /// including, 2^`bits`.
    pub fn mod_pow2(&self, bits: u32) -> (r: Integer)
        requires
            self.wf(),
        ensures
            r.wf(),
            r@ == unsigned_wrap(self@, bits as nat),
    {
        let low = self.low_digits(bits);
        let ghost p = pow(2, bits as nat);
        let ghost v = digits_value(self.magnitude@, 2);
        proof {
            lemma_pow_positive(2, bits as nat);
            lemma_value_bound(low@, 2);
        }
        if !self.negative || low.len() == 0 {
            proof {
                if self.negative {
                    lemma_fundamental_div_mod(v, p);
                    assert(-v == (-(v / p)) * p + 0) by (nonlinear_arith)
                        requires
                            v == p * (v / p) + 0,
                    ;
                    lemma_fundamental_div_mod_converse(-v, p, -(v / p), 0);
                }
            }
            Integer { negative: false, magnitude: low }
        } else {
            let magnitude = trim(complement(&low, bits as usize));
            proof {
                let m = v % p;
                lemma_value_top(low@, 2);
                lemma_pow_positive(2, (low.len() - 1) as nat);
                lemma_fundamental_div_mod(v, p);
                assert(-v == (-(v / p) - 1) * p + (p - m)) by (nonlinear_arith)
                    requires
                        v == p * (v / p) + m,
                ;
                lemma_fundamental_div_mod_converse(-v, p, -(v / p) - 1, p - m);
            }
            Integer { negative: false, magnitude }
        }
    }

    /// This integer reduced to the two's-complement range of `bits` binary
    /// digits: from -2^(`bits`-1) up to 2^(`bits`-1) - 1.
    pub fn wrap_signed(&self, bits: u32) -> (r: Integer)
        requires
            self.wf(),
        ensures
            r.wf(),
            r@ == signed_wrap(self@, bits as nat),
    {
        let modulo = self.mod_pow2(bits);
        let ghost m = modulo@;
        proof {
            lemma_pow_positive(2, bits as nat);
            lemma_value_bound(modulo.magnitude@, 2);
            lemma_fundamental_div_mod(self@, pow(2, bits as nat));
            lemma_mod_bound(self@, pow(2, bits as nat));
            if modulo.magnitude.len() > 0 {
                lemma_value_top(modulo.magnitude@, 2);
                if modulo.magnitude.len() > bits {
                    lemma_pow_increases(2, bits as nat, (modulo.magnitude.len() - 1) as nat);
                }
                if modulo.magnitude.len() < bits {
                    lemma_pow_increases(2, modulo.magnitude.len() as nat, (bits - 1) as nat);
                }
            } else if bits >= 1 {
                lemma_pow_positive(2, (bits - 1) as nat);
            }
        }
        if bits >= 1 && modulo.magnitude.len() >= bits as usize {
            let magnitude = trim(complement(&modulo.magnitude, bits as usize));
            Integer { negative: true, magnitude }
        } else {
            modulo
        }
    }
}

} // verus!
