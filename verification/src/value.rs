//! Runtime values and their coercions to exact integers and to indices.

use crate::digits::lemma_pow_step;
use crate::integer::{magnitude_of, Integer};
use crate::text::{parse_radix, radix_string};
use vstd::arithmetic::div_mod::{lemma_div_denominator, lemma_mod_breakdown};
use vstd::arithmetic::power::{lemma_pow0, lemma_pow_positive, pow};
use vstd::prelude::*;
use vstd::string::StringExecFns;

verus! {

/// A number of the language: not a number, an infinity, or the finite
/// value `mantissa * 2^exponent`, negated where `negative` is set.
#[derive(Clone, Copy, Debug, PartialEq, Eq)]
pub enum Number {
    NotANumber,
    Infinite { negative: bool },
    Finite { negative: bool, mantissa: u64, exponent: i32 },
}

/// A value of the language, as far as the numeric coercions tell values
/// apart. A number carries its textual form beside its value.
#[derive(Clone, Debug, PartialEq, Eq)]
pub enum Value {
    Undefined,
    Null,
    Boolean(bool),
    Number { value: Number, text: String },
    Text(String),
    /// The primitive.
    BigInt(Integer),
    /// The wrapper object, with its one internal slot.
    BigIntObject(Integer),
}

/// Why a value is no index.
#[derive(Clone, Copy, Debug, PartialEq, Eq)]
pub enum ToIndexError {
    /// The value's type has no numeric coercion.
    TypeError,
    /// The value is negative or not integral.
    RangeError,
}

/// Whether `mantissa * 2^exponent` is an integer.
pub open spec fn finite_integral(mantissa: u64, exponent: i32) -> bool {
    exponent >= 0 || mantissa as int % pow(2, (-exponent) as nat) == 0
}

/// `mantissa * 2^exponent` without its fractional part, with its sign.
pub open spec fn finite_truncated(negative: bool, mantissa: u64, exponent: i32) -> int {
    let size = if exponent >= 0 {
        mantissa * pow(2, exponent as nat)
    } else {
        mantissa as int / pow(2, (-exponent) as nat)
    };
    if negative {
        -size
    } else {
        size
    }
}

/// `v` limited to the range of `i32`.
pub open spec fn clamp_i32(v: int) -> int {
    if v < i32::MIN {
        i32::MIN as int
    } else if v > i32::MAX {
        i32::MAX as int
    } else {
        v
    }
}

/// `m` divided by 2^`k`, and whether the division is exact.
fn scale_down(m: u64, k: u32) -> (r: (u64, bool))
    ensures
        r.0 == m as int / pow(2, k as nat),
        r.1 == (m as int % pow(2, k as nat) == 0),
{
    let mut cur: u64 = m;
    let mut exact: bool = true;
    let mut j: u32 = 0;
    proof {
        lemma_pow0(2);
    }
    while j < k
        invariant
            j <= k,
            cur == m as int / pow(2, j as nat),
            exact == (m as int % pow(2, j as nat) == 0),
        decreases k - j,
    {
        proof {
            let p = pow(2, j as nat);
            lemma_pow_positive(2, j as nat);
            lemma_pow_step(2, j as nat);
            lemma_div_denominator(m as int, p, 2);
            lemma_mod_breakdown(m as int, p, 2);
            assert(p * 2 == 2 * p);
            let bit = (m as int / p) % 2;
            assert(p * bit == 0 <==> bit == 0) by (nonlinear_arith)
                requires
                    p > 0,
            ;
            assert(p * bit >= 0) by (nonlinear_arith)
                requires
                    p > 0,
                    bit >= 0,
            ;
        }
        exact = exact && cur % 2 == 0;
        cur = cur / 2;
        j = j + 1;
    }
    (cur, exact)
}

/// The integer part of a finite number, and whether it is the whole of it.
pub fn finite_parts(negative: bool, mantissa: u64, exponent: i32) -> (r: (Integer, bool))
    ensures
        r.0.wf(),
        r.0@ == finite_truncated(negative, mantissa, exponent),
        r.1 == finite_integral(mantissa, exponent),
{
    if exponent >= 0 {
        (Integer::from_scaled(negative, mantissa, exponent as u32), true)
    } else {
        let k: u32 = (-(exponent as i64)) as u32;
        let (q, exact) = scale_down(mantissa, k);
        proof {
            lemma_pow0(2);
        }
        (Integer::from_scaled(negative, q, 0), exact)
    }
}

/// `v` as a `usize`, or `usize::MAX` where it does not fit.
pub open spec fn saturate_usize(v: int) -> int {
    if v > usize::MAX {
        usize::MAX as int
    } else {
        v
    }
}

/// The distance of `n` from 0 as a `usize`, or `usize::MAX` where it
/// does not fit.
fn saturating_usize(n: &Integer) -> (r: usize)
    requires
        n.wf(),
    ensures
        r == saturate_usize(magnitude_of(n@)),
{
    let m: u64 = n.magnitude_u64();
    if m > usize::MAX as u64 {
        usize::MAX
    } else {
        m as usize
    }
}

/// `n` limited to the range of `i32`.
fn clamped_i32(n: &Integer) -> (r: i32)
    requires
        n.wf(),
    ensures
        r == clamp_i32(n@),
{
    let m: u64 = n.magnitude_u64();
    if n.is_negative() {
        if m >= 2147483648 {
            i32::MIN
        } else {
            -(m as i32)
        }
    } else if m > 2147483647 {
        i32::MAX
    } else {
        m as i32
    }
}

impl Value {
    /// Every integer held is in canonical form.
    pub open spec fn wf(&self) -> bool {
        match self {
            Value::BigInt(n) => n.wf(),
            Value::BigIntObject(n) => n.wf(),
            _ => true,
        }
    }

    /// The exact integer that the value converts to, if it converts: an
    /// integer itself, an integral finite number, a truth value, or text
    /// that is a decimal numeral.
    pub open spec fn bigint_value(&self) -> Option<int> {
        match self {
            Value::Undefined => None,
            Value::Null => None,
            Value::Boolean(b) => Some(if *b { 1int } else { 0int }),
            Value::Number { value, text } => match value {
                Number::Finite { negative, mantissa, exponent } => if finite_integral(
                    *mantissa,
                    *exponent,
                ) {
                    Some(finite_truncated(*negative, *mantissa, *exponent))
                } else {
                    None
                },
                _ => None,
            },
            Value::Text(s) => parse_radix(s@, 10),
            Value::BigInt(n) => Some(n@),
            Value::BigIntObject(n) => Some(n@),
        }
    }

    /// The index that the value converts to, before any limit of width.
    /// An integer has no numeric coercion; a number or a text has one, and
    /// is an index where it is integral and not negative.
    pub open spec fn index_value(&self) -> Result<int, ToIndexError> {
        match self {
            Value::Undefined => Ok(0),
            Value::Null => Ok(0),
            Value::Boolean(b) => Ok(if *b { 1int } else { 0int }),
            Value::Number { value, text } => match value {
                Number::NotANumber => Ok(0),
                Number::Infinite { negative } => if *negative {
                    Err(ToIndexError::RangeError)
                } else {
                    Ok(usize::MAX as int)
                },
                Number::Finite { negative, mantissa, exponent } => if finite_integral(
                    *mantissa,
                    *exponent,
                ) && finite_truncated(*negative, *mantissa, *exponent) >= 0 {
                    Ok(finite_truncated(*negative, *mantissa, *exponent))
                } else {
                    Err(ToIndexError::RangeError)
                },
            },
            Value::Text(s) => match parse_radix(s@, 10) {
                Some(v) => if v >= 0 {
                    Ok(v)
                } else {
                    Err(ToIndexError::RangeError)
                },
                None => Err(ToIndexError::RangeError),
            },
            Value::BigInt(n) => Err(ToIndexError::TypeError),
            Value::BigIntObject(n) => Err(ToIndexError::TypeError),
        }
    }

    /// The integer that the value converts to where any value must give
    /// one: a number without its fractional part, an infinity as the end
    /// of the `i32` range on its side, and 0 for what is no number.
    pub open spec fn integer_value(&self) -> int {
        match self {
            Value::Undefined => 0,
            Value::Null => 0,
            Value::Boolean(b) => if *b { 1int } else { 0int },
            Value::Number { value, text } => match value {
                Number::NotANumber => 0,
                Number::Infinite { negative } => if *negative {
                    i32::MIN as int
                } else {
                    i32::MAX as int
                },
                Number::Finite { negative, mantissa, exponent } => finite_truncated(
                    *negative,
                    *mantissa,
                    *exponent,
                ),
            },
            Value::Text(s) => match parse_radix(s@, 10) {
                Some(v) => v,
                None => 0,
            },
            Value::BigInt(n) => n@,
            Value::BigIntObject(n) => n@,
        }
    }

    /// The textual form of the value.
    pub open spec fn display(&self) -> Seq<char> {
        match self {
            Value::Undefined => "undefined"@,
            Value::Null => "null"@,
            Value::Boolean(b) => if *b { "true"@ } else { "false"@ },
            Value::Number { value, text } => text@,
            Value::Text(s) => s@,
            Value::BigInt(n) => radix_string(n@, 10),
            Value::BigIntObject(n) => radix_string(n@, 10),
        }
    }

    /// Converts the value to an exact integer, where it has one.
    pub fn to_bigint(&self) -> (r: Option<Integer>)
        requires
            self.wf(),
        ensures
            match self.bigint_value() {
                Some(v) => r is Some && r->Some_0@ == v && r->Some_0.wf(),
                None => r is None,
            },
    {
        match self {
            Value::Undefined => None,
            Value::Null => None,
            Value::Boolean(b) => Some(Integer::from_u64(if *b { 1 } else { 0 })),
            Value::Number { value, text } => match value {
                Number::Finite { negative, mantissa, exponent } => {
                    let (n, exact) = finite_parts(*negative, *mantissa, *exponent);
                    if exact {
                        Some(n)
                    } else {
                        None
                    }
                },
                _ => None,
            },
            Value::Text(s) => Integer::from_str_radix(s.as_str(), 10),
            Value::BigInt(n) => Some(n.copy()),
            Value::BigIntObject(n) => Some(n.copy()),
        }
    }

    /// Converts the value to an index. One beyond `usize` becomes
    /// `usize::MAX`.
    pub fn to_index(&self) -> (r: Result<usize, ToIndexError>)
        requires
            self.wf(),
        ensures
            match self.index_value() {
                Ok(v) => r == Ok::<usize, ToIndexError>(saturate_usize(v) as usize),
                Err(e) => r == Err::<usize, ToIndexError>(e),
            },
    {
        match self {
            Value::Undefined => Ok(0),
            Value::Null => Ok(0),
            Value::Boolean(b) => Ok(if *b { 1 } else { 0 }),
            Value::Number { value, text } => match value {
                Number::NotANumber => Ok(0),
                Number::Infinite { negative } => if *negative {
                    Err(ToIndexError::RangeError)
                } else {
                    Ok(usize::MAX)
                },
                Number::Finite { negative, mantissa, exponent } => {
                    let (n, exact) = finite_parts(*negative, *mantissa, *exponent);
                    if exact && !n.is_negative() {
                        Ok(saturating_usize(&n))
                    } else {
                        Err(ToIndexError::RangeError)
                    }
                },
            },
            Value::Text(s) => match Integer::from_str_radix(s.as_str(), 10) {
                Some(n) => if n.is_negative() {
                    Err(ToIndexError::RangeError)
                } else {
                    Ok(saturating_usize(&n))
                },
                None => Err(ToIndexError::RangeError),
            },
            Value::BigInt(_) => Err(ToIndexError::TypeError),
            Value::BigIntObject(_) => Err(ToIndexError::TypeError),
        }
    }

    /// Converts the value to an integer of 32 bits, limited to their range.
    pub fn to_integer(&self) -> (r: i32)
        requires
            self.wf(),
        ensures
            r == clamp_i32(self.integer_value()),
    {
        match self {
            Value::Undefined => 0,
            Value::Null => 0,
            Value::Boolean(b) => if *b { 1 } else { 0 },
            Value::Number { value, text } => match value {
                Number::NotANumber => 0,
                Number::Infinite { negative } => if *negative {
                    i32::MIN
                } else {
                    i32::MAX
                },
                Number::Finite { negative, mantissa, exponent } => {
                    let (n, _exact) = finite_parts(*negative, *mantissa, *exponent);
                    clamped_i32(&n)
                },
            },
            Value::Text(s) => match Integer::from_str_radix(s.as_str(), 10) {
                Some(n) => clamped_i32(&n),
                None => 0,
            },
            Value::BigInt(n) => clamped_i32(n),
            Value::BigIntObject(n) => clamped_i32(n),
        }
    }

    /// The textual form of the value, as a string.
    pub fn to_text(&self) -> (r: String)
        requires
            self.wf(),
        ensures
            r@ == self.display(),
    {
        match self {
            Value::Undefined => String::from_str("undefined"),
            Value::Null => String::from_str("null"),
            Value::Boolean(b) => if *b {
                String::from_str("true")
            } else {
                String::from_str("false")
            },
            Value::Number { value, text } => text.clone(),
            Value::Text(s) => s.clone(),
            Value::BigInt(n) => n.to_str_radix(10),
            Value::BigIntObject(n) => n.to_str_radix(10),
        }
    }
}

} // verus!
