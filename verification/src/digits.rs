//! Positional numerals: little-endian digit sequences in a small base,
//! their value, and the one arithmetic step every conversion is built from.

use vstd::arithmetic::div_mod::{
    lemma_fundamental_div_mod, lemma_fundamental_div_mod_converse, lemma_small_mod,
};
use vstd::arithmetic::power::{lemma_pow0, lemma_pow_increases, lemma_pow_positive, pow};
use vstd::prelude::*;

verus! {

/// The number that `digits` denotes in `base`, least significant digit first.
pub open spec fn digits_value(digits: Seq<u8>, base: int) -> int
    decreases digits.len(),
{
    if digits.len() == 0 {
        0
    } else {
        digits[0] as int + base * digits_value(digits.drop_first(), base)
    }
}

/// Every digit is a digit of `base`.
pub open spec fn digits_below(digits: Seq<u8>, base: int) -> bool {
    forall|i: int| 0 <= i < digits.len() ==> (#[trigger] digits[i] as int) < base
}

/// A numeral without leading zeros: the only numeral of its value.
pub open spec fn canonical(digits: Seq<u8>, base: int) -> bool {
    digits_below(digits, base) && (digits.len() > 0 ==> digits.last() != 0)
}

/// `base` to the power `e + 1` is `base` times `base` to the power `e`.
pub proof fn lemma_pow_step(base: int, e: nat)
    ensures
        pow(base, e + 1) == base * pow(base, e),
{
    reveal(pow);
}

/// Appending a digit at the significant end adds that digit times the
/// weight of its place.
pub proof fn lemma_value_push(s: Seq<u8>, d: u8, base: int)
    ensures
        digits_value(s.push(d), base) == digits_value(s, base) + d * pow(base, s.len()),
    decreases s.len(),
{
    if s.len() == 0 {
        assert(s.push(d).drop_first() =~= Seq::<u8>::empty());
        lemma_pow0(base);
        assert(digits_value(Seq::<u8>::empty(), base) == 0);
        assert(digits_value(s.push(d), base) == d + base * 0);
    } else {
        let rest = s.drop_first();
        assert(s.push(d).drop_first() =~= rest.push(d));
        lemma_value_push(rest, d, base);
        lemma_pow_step(base, rest.len());
        let v = digits_value(rest, base);
        let p = pow(base, rest.len());
        assert(base * (v + d * p) == base * v + d * (base * p)) by (nonlinear_arith);
        assert(s.push(d)[0] == s[0]);
        assert(digits_value(s.push(d), base) == s[0] + base * digits_value(rest.push(d), base));
        assert(pow(base, s.len()) == base * p);
    }
}

/// A numeral of `n` digits denotes a number from 0 up to, not including,
/// `base` to the power `n`.
pub proof fn lemma_value_bound(s: Seq<u8>, base: int)
    requires
        base >= 1,
        digits_below(s, base),
    ensures
        0 <= digits_value(s, base) < pow(base, s.len()),
    decreases s.len(),
{
    if s.len() == 0 {
        lemma_pow0(base);
    } else {
        let rest = s.drop_first();
        assert forall|i: int| 0 <= i < rest.len() implies (#[trigger] rest[i] as int) < base by {
            assert(rest[i] == s[i + 1]);
        }
        lemma_value_bound(rest, base);
        lemma_pow_step(base, rest.len());
        let v = digits_value(rest, base);
        let p = pow(base, rest.len());
        assert(0 <= base * v && base * v + base <= base * p) by (nonlinear_arith)
            requires
                0 <= v < p,
                base >= 1,
        ;
    }
}

/// A numeral of `n > 0` digits without leading zeros denotes at least
/// `base` to the power `n - 1`.
pub proof fn lemma_value_top(s: Seq<u8>, base: int)
    requires
        base >= 1,
        canonical(s, base),
        s.len() > 0,
    ensures
        digits_value(s, base) >= pow(base, (s.len() - 1) as nat),
    decreases s.len(),
{
    let rest = s.drop_first();
    if s.len() == 1 {
        lemma_pow0(base);
        assert(rest =~= Seq::<u8>::empty());
        assert(digits_value(rest, base) == 0);
        assert(s[0] == s.last());
        assert(base * 0 == 0);
    } else {
        assert forall|i: int| 0 <= i < rest.len() implies (#[trigger] rest[i] as int) < base by {
            assert(rest[i] == s[i + 1]);
        }
        assert(rest.last() == s.last());
        lemma_value_top(rest, base);
        lemma_pow_step(base, (rest.len() - 1) as nat);
        let v = digits_value(rest, base);
        let p = pow(base, (rest.len() - 1) as nat);
        assert(base * v >= base * p) by (nonlinear_arith)
            requires
                v >= p,
                base >= 1,
        ;
        assert(pow(base, (s.len() - 1) as nat) == base * p);
    }
}

/// Two numerals without leading zeros that denote the same number are
/// the same numeral.
pub proof fn lemma_canonical_unique(a: Seq<u8>, b: Seq<u8>, base: int)
    requires
        base >= 2,
        canonical(a, base),
        canonical(b, base),
        digits_value(a, base) == digits_value(b, base),
    ensures
        a == b,
    decreases a.len(),
{
    if a.len() == 0 || b.len() == 0 {
        if a.len() > 0 {
            lemma_value_top(a, base);
            lemma_pow_positive(base, (a.len() - 1) as nat);
        }
        if b.len() > 0 {
            lemma_value_top(b, base);
            lemma_pow_positive(base, (b.len() - 1) as nat);
        }
        assert(a =~= b);
    } else {
        let ra = a.drop_first();
        let rb = b.drop_first();
        let v = digits_value(a, base);
        assert((a[0] as int) < base && (b[0] as int) < base);
        assert(v == digits_value(ra, base) * base + a[0]) by (nonlinear_arith)
            requires
                v == a[0] + base * digits_value(ra, base),
        ;
        assert(v == digits_value(rb, base) * base + b[0]) by (nonlinear_arith)
            requires
                v == b[0] + base * digits_value(rb, base),
        ;
        lemma_fundamental_div_mod_converse(v, base, digits_value(ra, base), a[0] as int);
        lemma_fundamental_div_mod_converse(v, base, digits_value(rb, base), b[0] as int);
        assert forall|i: int| 0 <= i < ra.len() implies (#[trigger] ra[i] as int) < base by {
            assert(ra[i] == a[i + 1]);
        }
        assert forall|i: int| 0 <= i < rb.len() implies (#[trigger] rb[i] as int) < base by {
            assert(rb[i] == b[i + 1]);
        }
        if ra.len() > 0 {
            assert(ra.last() == a.last());
        }
        if rb.len() > 0 {
            assert(rb.last() == b.last());
        }
        lemma_canonical_unique(ra, rb, base);
        assert(a =~= seq![a[0]] + ra);
        assert(b =~= seq![b[0]] + rb);
    }
}

/// A numeral splits at any place into its low digits and the rest.
pub proof fn lemma_value_split(s: Seq<u8>, k: nat, base: int)
    requires
        k <= s.len(),
    ensures
        digits_value(s, base) == digits_value(s.take(k as int), base) + pow(base, k)
            * digits_value(s.skip(k as int), base),
    decreases k,
{
    if k == 0 {
        lemma_pow0(base);
        assert(s.take(0) =~= Seq::<u8>::empty());
        assert(s.skip(0) =~= s);
    } else {
        let rest = s.drop_first();
        let low = s.take(k as int);
        assert(low.drop_first() =~= rest.take(k - 1));
        assert(s.skip(k as int) =~= rest.skip(k - 1));
        assert(low[0] == s[0]);
        lemma_value_split(rest, (k - 1) as nat, base);
        lemma_pow_step(base, (k - 1) as nat);
        let a = digits_value(rest.take(k - 1), base);
        let h = digits_value(rest.skip(k - 1), base);
        let p = pow(base, (k - 1) as nat);
        assert(base * (a + p * h) == base * a + (base * p) * h) by (nonlinear_arith);
    }
}

/// The low `k` binary digits of a numeral denote its value modulo 2^k.
pub proof fn lemma_value_take_mod(s: Seq<u8>, k: nat)
    requires
        digits_below(s, 2),
    ensures
        k <= s.len() ==> digits_value(s.take(k as int), 2) == digits_value(s, 2) % pow(2, k),
        k >= s.len() ==> digits_value(s, 2) == digits_value(s, 2) % pow(2, k),
{
    if k <= s.len() {
        let low = s.take(k as int);
        let high = s.skip(k as int);
        lemma_value_split(s, k, 2);
        assert forall|i: int| 0 <= i < low.len() implies (#[trigger] low[i] as int) < 2 by {
            assert(low[i] == s[i]);
        }
        lemma_value_bound(low, 2);
        let p = pow(2, k);
        assert(digits_value(s, 2) == digits_value(high, 2) * p + digits_value(low, 2))
            by (nonlinear_arith)
            requires
                digits_value(s, 2) == digits_value(low, 2) + p * digits_value(high, 2),
        ;
        lemma_fundamental_div_mod_converse(
            digits_value(s, 2),
            p,
            digits_value(high, 2),
            digits_value(low, 2),
        );
    } else {
        lemma_value_bound(s, 2);
        lemma_pow_increases(2, s.len(), k);
        lemma_small_mod(digits_value(s, 2) as nat, pow(2, k) as nat);
    }
}

/// Drops the leading zeros of a binary numeral.
pub fn trim(digits: Vec<u8>) -> (out: Vec<u8>)
    requires
        digits_below(digits@, 2),
    ensures
        canonical(out@, 2),
        digits_value(out@, 2) == digits_value(digits@, 2),
        out.len() <= digits.len(),
{
    let mut out = digits;
    while out.len() > 0 && out[out.len() - 1] == 0
        invariant
            digits_below(out@, 2),
            digits_value(out@, 2) == digits_value(digits@, 2),
            out.len() <= digits.len(),
        decreases out.len(),
    {
        proof {
            let shorter = out@.drop_last();
            assert(out@ =~= shorter.push(0u8));
            lemma_value_push(shorter, 0u8, 2);
            assert(0 * pow(2, shorter.len()) == 0);
        }
        out.pop();
    }
    out
}

/// The numeral of `2^width - n`, where `digits` is a binary numeral of `n`
/// that has at most `width` digits.
pub fn complement(digits: &Vec<u8>, width: usize) -> (out: Vec<u8>)
    requires
        digits_below(digits@, 2),
        digits.len() <= width,
    ensures
        digits_below(out@, 2),
        digits_value(out@, 2) == pow(2, width as nat) - digits_value(digits@, 2),
{
    let mut out: Vec<u8> = Vec::new();
    let mut carry: bool = true;
    let mut i: usize = 0;
    proof {
        lemma_pow0(2);
        assert(digits@.take(0) =~= Seq::<u8>::empty());
    }
    while i < width
        invariant
            i <= width,
            out.len() == i,
            digits_below(digits@, 2),
            digits.len() <= width,
            digits_below(out@, 2),
            i <= digits.len() ==> digits_value(out@, 2) + (if carry { pow(2, i as nat) } else { 0 })
                + digits_value(digits@.take(i as int), 2) == pow(2, i as nat),
            i >= digits.len() ==> digits_value(out@, 2) + (if carry { pow(2, i as nat) } else { 0 })
                + digits_value(digits@, 2) == pow(2, i as nat),
        decreases width - i,
    {
        let set: bool = i < digits.len() && digits[i] != 0;
        let low: u8 = if set == carry { 1 } else { 0 };
        let next: bool = carry && !set;
        proof {
            lemma_pow_step(2, i as nat);
            lemma_value_push(out@, low, 2);
            if i < digits.len() {
                let d = digits@[i as int];
                assert((d as int) < 2);
                assert(digits@.take(i + 1) =~= digits@.take(i as int).push(d));
                lemma_value_push(digits@.take(i as int), d, 2);
                if i + 1 == digits.len() {
                    assert(digits@.take(i + 1) =~= digits@);
                }
                assert(d * pow(2, i as nat) == if set { pow(2, i as nat) } else { 0 })
                    by (nonlinear_arith)
                    requires
                        set <==> d != 0,
                        0 <= d < 2,
                ;
            } else {
                assert(digits@.take(digits.len() as int) =~= digits@);
            }
            assert(low * pow(2, i as nat) == if set == carry { pow(2, i as nat) } else { 0 })
                by (nonlinear_arith)
                requires
                    low == (if set == carry { 1int } else { 0int }),
            ;
        }
        out.push(low);
        carry = next;
        i = i + 1;
    }
    proof {
        if i <= digits.len() {
            assert(digits@.take(i as int) =~= digits@);
        }
    }
    if carry {
        proof {
            lemma_value_push(out@, 1u8, 2);
            assert(1 * pow(2, i as nat) == pow(2, i as nat));
        }
        out.push(1);
    }
    out
}

/// The binary numeral of `n`.
pub fn binary(n: u64) -> (magnitude: Vec<u8>)
    ensures
        canonical(magnitude@, 2),
        digits_value(magnitude@, 2) == n,
{
    let mut magnitude: Vec<u8> = Vec::new();
    let mut rest: u64 = n;
    proof {
        lemma_pow0(2);
    }
    while rest > 0
        invariant
            digits_below(magnitude@, 2),
            digits_value(magnitude@, 2) + rest * pow(2, magnitude.len() as nat) == n,
            magnitude.len() > 0 ==> rest > 0 || magnitude@.last() != 0,
        decreases rest,
    {
        let low: u8 = (rest % 2) as u8;
        let high: u64 = rest / 2;
        proof {
            let p = pow(2, magnitude.len() as nat);
            lemma_value_push(magnitude@, low, 2);
            lemma_pow_step(2, magnitude.len() as nat);
            assert(low * p + high * (2 * p) == rest * p) by (nonlinear_arith)
                requires
                    rest == 2 * high + low,
            ;
        }
        magnitude.push(low);
        rest = high;
    }
    magnitude
}

/// A numeral of zeros denotes 0.
pub proof fn lemma_zeros_value(s: Seq<u8>, base: int)
    requires
        forall|i: int| 0 <= i < s.len() ==> #[trigger] s[i] == 0,
    ensures
        digits_value(s, base) == 0,
    decreases s.len(),
{
    if s.len() > 0 {
        let rest = s.drop_first();
        assert forall|i: int| 0 <= i < rest.len() implies #[trigger] rest[i] == 0 by {
            assert(rest[i] == s[i + 1]);
        }
        lemma_zeros_value(rest, base);
        assert(base * 0 == 0);
    }
}

/// One step of a conversion: the numeral of `m * n + a` in `base`, where
/// `digits` is a numeral of `n`.
pub fn mul_add(digits: &Vec<u8>, base: u8, m: u8, a: u8) -> (out: Vec<u8>)
    requires
        2 <= base <= 36,
        1 <= m <= 36,
        a < 36,
        digits_below(digits@, base as int),
    ensures
        digits_value(out@, base as int) == m * digits_value(digits@, base as int) + a,
        digits_below(out@, base as int),
        canonical(digits@, base as int) ==> canonical(out@, base as int),
{
    let ghost b = base as int;
    let mut out: Vec<u8> = Vec::new();
    let mut carry: u32 = a as u32;
    let mut j: usize = 0;
    proof {
        lemma_pow0(b);
        assert(digits@.take(0) =~= Seq::<u8>::empty());
    }
    while j < digits.len()
        invariant
            2 <= base <= 36,
            1 <= m <= 36,
            b == base as int,
            digits_below(digits@, b),
            j <= digits.len(),
            out.len() == j,
            carry < 2048,
            digits_below(out@, b),
            digits_value(out@, b) + carry * pow(b, j as nat) == m * digits_value(
                digits@.take(j as int),
                b,
            ) + a,
            j == digits.len() && j > 0 && digits@.last() != 0 ==> carry > 0 || out@.last() != 0,
        decreases digits.len() - j,
    {
        let d: u8 = digits[j];
        assert((digits@[j as int] as int) < b);
        assert(d * m <= 1260) by (nonlinear_arith)
            requires
                d < 36,
                m <= 36,
        ;
        let t: u32 = (d as u32) * (m as u32) + carry;
        let low: u8 = (t % (base as u32)) as u8;
        let high: u32 = t / (base as u32);
        proof {
            let p = pow(b, j as nat);
            let vt = digits_value(digits@.take(j as int), b);
            let vo = digits_value(out@, b);
            assert(digits@.take(j + 1) =~= digits@.take(j as int).push(d));
            lemma_value_push(digits@.take(j as int), d, b);
            lemma_value_push(out@, low, b);
            lemma_pow_step(b, j as nat);
            lemma_fundamental_div_mod(t as int, b);
            assert(vo + low * p + high * (b * p) == m * (vt + d * p) + a) by (nonlinear_arith)
                requires
                    vo + carry * p == m * vt + a,
                    t == d * m + carry,
                    t == b * high + low,
            ;
            assert(high < 2048 && (t > 0 ==> high > 0 || low != 0)) by (nonlinear_arith)
                requires
                    t == b * high + low,
                    t < 4096,
                    b >= 2,
                    low >= 0,
            ;
            assert(d != 0 ==> t > 0) by (nonlinear_arith)
                requires
                    t == d * m + carry,
                    m >= 1,
            ;
        }
        out.push(low);
        carry = high;
        j = j + 1;
    }
    assert(digits@.take(j as int) =~= digits@);
    while carry > 0
        invariant
            2 <= base <= 36,
            b == base as int,
            digits_below(out@, b),
            digits_value(out@, b) + carry * pow(b, out.len() as nat) == m * digits_value(digits@, b)
                + a,
            canonical(digits@, b) && out.len() > 0 ==> carry > 0 || out@.last() != 0,
        decreases carry,
    {
        let low: u8 = (carry % (base as u32)) as u8;
        let high: u32 = carry / (base as u32);
        proof {
            let p = pow(b, out.len() as nat);
            let vo = digits_value(out@, b);
            lemma_value_push(out@, low, b);
            lemma_pow_step(b, out.len() as nat);
            lemma_fundamental_div_mod(carry as int, b);
            assert(vo + low * p + high * (b * p) == vo + carry * p) by (nonlinear_arith)
                requires
                    carry == b * high + low,
            ;
            assert(high < carry && (high > 0 || low != 0)) by (nonlinear_arith)
                requires
                    carry == b * high + low,
                    carry > 0,
                    b >= 2,
                    low >= 0,
            ;
        }
        out.push(low);
        carry = high;
    }
    out
}

} // verus!
