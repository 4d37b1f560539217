//! Integers as text in a radix from 2 to 36, both ways.

use crate::digits::{canonical, digits_below, digits_value, lemma_value_top, mul_add};
use crate::integer::Integer;
use vstd::arithmetic::div_mod::{lemma_fundamental_div_mod, lemma_fundamental_div_mod_converse};
use vstd::arithmetic::power::lemma_pow_positive;
use vstd::prelude::*;
use vstd::string::{StrSliceExecFns, StringExecFns};
use vstd::utf8::is_ascii_chars;

verus! {

/// The character of the digit `d`: `0` to `9`, then `a` to `z`.
pub open spec fn digit_char(d: int) -> char {
    if d < 10 {
        (48 + d) as char
    } else {
        (87 + d) as char
    }
}

/// The digit that `c` stands for; letters count in either case.
pub open spec fn char_digit(c: char) -> Option<int> {
    let n = c as int;
    if 48 <= n <= 57 {
        Some(n - 48)
    } else if 97 <= n <= 122 {
        Some(n - 87)
    } else if 65 <= n <= 90 {
        Some(n - 55)
    } else {
        None
    }
}

/// The digits of `n` in `radix`, most significant first, without leading
/// zeros; `0` for 0.
pub open spec fn numeral(n: nat, radix: int) -> Seq<char>
    decreases n,
    via numeral_decreases
{
    if radix < 2 || n < radix {
        seq![digit_char(n as int)]
    } else {
        numeral((n as int / radix) as nat, radix).push(digit_char(n as int % radix))
    }
}

#[via_fn]
proof fn numeral_decreases(n: nat, radix: int) {
    if !(radix < 2 || n < radix) {
        lemma_fundamental_div_mod(n as int, radix);
        assert(0 <= n as int / radix < n) by (nonlinear_arith)
            requires
                n == radix * (n as int / radix) + n as int % radix,
                0 <= n as int % radix < radix,
                radix >= 2,
                n >= radix,
        ;
    }
}

/// The text of `v` in `radix`: `-` before a negative value, then the digits.
pub open spec fn radix_string(v: int, radix: int) -> Seq<char> {
    if v < 0 {
        seq!['-'] + numeral((-v) as nat, radix)
    } else {
        numeral(v as nat, radix)
    }
}

/// The number that a run of digits of `radix` denotes, most significant
/// first; `None` where a character is no digit of `radix`.
pub open spec fn numeral_value(s: Seq<char>, radix: int) -> Option<int>
    decreases s.len(),
{
    if s.len() == 0 {
        Some(0)
    } else {
        match (numeral_value(s.drop_last(), radix), char_digit(s.last())) {
            (Some(v), Some(d)) => if d < radix {
                Some(v * radix + d)
            } else {
                None
            },
            _ => None,
        }
    }
}

/// The integer that `s` denotes in `radix`: an optional `-`, then one or
/// more digits.
pub open spec fn parse_radix(s: Seq<char>, radix: int) -> Option<int> {
    if s.len() > 0 && s[0] == '-' {
        match numeral_value(s.skip(1), radix) {
            Some(v) => if s.len() > 1 {
                Some(-v)
            } else {
                None
            },
            None => None,
        }
    } else if s.len() == 0 {
        None
    } else {
        numeral_value(s, radix)
    }
}

/// The characters of a numeral given least significant digit first.
pub open spec fn digits_numeral(digits: Seq<u8>) -> Seq<char>
    decreases digits.len(),
{
    if digits.len() == 0 {
        Seq::empty()
    } else {
        digits_numeral(digits.drop_first()).push(digit_char(digits[0] as int))
    }
}

/// A numeral without leading zeros is the text of its value.
pub proof fn lemma_digits_numeral(digits: Seq<u8>, radix: int)
    requires
        2 <= radix,
        canonical(digits, radix),
        digits.len() > 0,
    ensures
        digits_value(digits, radix) > 0,
        numeral(digits_value(digits, radix) as nat, radix) == digits_numeral(digits),
    decreases digits.len(),
{
    let rest = digits.drop_first();
    lemma_value_top(digits, radix);
    lemma_pow_positive(radix, (digits.len() - 1) as nat);
    if digits.len() == 1 {
        assert(rest =~= Seq::<u8>::empty());
        assert(digits_value(rest, radix) == 0);
        assert(radix * 0 == 0);
        assert(digits_numeral(rest) =~= Seq::<char>::empty());
        assert(digits_numeral(digits) =~= seq![digit_char(digits[0] as int)]);
    } else {
        assert forall|i: int| 0 <= i < rest.len() implies (#[trigger] rest[i] as int) < radix by {
            assert(rest[i] == digits[i + 1]);
        }
        assert(rest.last() == digits.last());
        lemma_digits_numeral(rest, radix);
        let v = digits_value(rest, radix);
        let n = digits_value(digits, radix);
        assert(n == v * radix + digits[0] && n >= radix) by (nonlinear_arith)
            requires
                n == digits[0] + radix * v,
                v >= 1,
                radix >= 2,
                digits[0] >= 0,
        ;
        lemma_fundamental_div_mod_converse(n, radix, v, digits[0] as int);
    }
}

/// Once a prefix holds a character that is no digit, the whole run
/// denotes nothing.
pub proof fn lemma_numeral_prefix_none(s: Seq<char>, k: int, radix: int)
    requires
        0 <= k <= s.len(),
        numeral_value(s.take(k), radix) is None,
    ensures
        numeral_value(s, radix) is None,
    decreases s.len() - k,
{
    if k == s.len() {
        assert(s.take(k) =~= s);
    } else {
        assert(s.drop_last().take(k) =~= s.take(k));
        lemma_numeral_prefix_none(s.drop_last(), k, radix);
    }
}

/// The digits of a number denote that number, and none of them is a sign.
pub proof fn lemma_numeral_value(n: nat, radix: int)
    requires
        2 <= radix <= 36,
    ensures
        numeral_value(numeral(n, radix), radix) == Some(n as int),
        numeral(n, radix).len() >= 1,
        numeral(n, radix)[0] != '-',
    decreases n,
{
    let s = numeral(n, radix);
    if n < radix {
        assert(s.drop_last() =~= Seq::<char>::empty());
        assert(numeral_value(s.drop_last(), radix) == Some(0int));
        assert(char_digit(digit_char(n as int)) == Some(n as int));
        assert(0 * radix + n == n);
    } else {
        let q = (n as int / radix) as nat;
        let d = n as int % radix;
        lemma_fundamental_div_mod(n as int, radix);
        assert(q < n && q * radix + d == n) by (nonlinear_arith)
            requires
                n == radix * (n as int / radix) + d,
                q == n as int / radix,
                0 <= d < radix,
                radix >= 2,
                n >= radix,
        ;
        lemma_numeral_value(q, radix);
        assert(s.drop_last() =~= numeral(q, radix));
        assert(s.last() == digit_char(d));
        assert(char_digit(digit_char(d)) == Some(d));
        assert(s[0] == numeral(q, radix)[0]);
    }
}

/// Writing an integer in a radix from 2 to 36 and reading the text back
/// in the same radix gives the integer again.
pub proof fn lemma_radix_round_trip(v: int, radix: int)
    requires
        2 <= radix <= 36,
    ensures
        parse_radix(radix_string(v, radix), radix) == Some(v),
{
    if v < 0 {
        lemma_numeral_value((-v) as nat, radix);
        let s = radix_string(v, radix);
        assert(s.skip(1) =~= numeral((-v) as nat, radix));
        assert(s[0] == '-');
    } else {
        lemma_numeral_value(v as nat, radix);
    }
}

/// The one-character text of a digit.
fn digit_text(d: u8) -> (s: &'static str)
    requires
        d < 36,
    ensures
        s@ == seq![digit_char(d as int)],
{
    let alphabet: &'static str = "0123456789abcdefghijklmnopqrstuvwxyz";
    proof {
        reveal_strlit("0123456789abcdefghijklmnopqrstuvwxyz");
        assert(alphabet@.len() == 36);
        assert forall|i: int| 0 <= i < 36 implies alphabet@[i] == #[trigger] digit_char(i) by {
            if i < 10 {
                assert(alphabet@[i] as int == 48 + i);
            } else {
                assert(alphabet@[i] as int == 87 + i);
            }
        }
        assert forall|i: int| 0 <= i < alphabet@.len() implies '\0' <= #[trigger] alphabet@[i]
            <= '\u{7f}' by {
            assert(alphabet@[i] == digit_char(i));
        }
        assert(is_ascii_chars(alphabet@));
    }
    let s = alphabet.substring_ascii(d as usize, d as usize + 1);
    proof {
        assert(s@ =~= seq![digit_char(d as int)]);
    }
    s
}

/// The digit of a character, if it is one.
fn char_to_digit(c: char) -> (r: Option<u8>)
    ensures
        match char_digit(c) {
            Some(d) => r == Some(d as u8) && d < 36,
            None => r is None,
        },
{
    let n: u32 = c as u32;
    if 48 <= n && n <= 57 {
        Some((n - 48) as u8)
    } else if 97 <= n && n <= 122 {
        Some((n - 87) as u8)
    } else if 65 <= n && n <= 90 {
        Some((n - 55) as u8)
    } else {
        None
    }
}

impl Integer {
    /// The text of this integer in `radix`: digits `0` to `9` and `a` to
    /// `z`, a single `-` before a negative value, no leading zeros.
    pub fn to_str_radix(&self, radix: u32) -> (r: String)
        requires
            self.wf(),
            2 <= radix <= 36,
        ensures
            r@ == radix_string(self@, radix as int),
    {
        let base: u8 = radix as u8;
        let mut digits: Vec<u8> = Vec::new();
        let mut i: usize = self.magnitude.len();
        proof {
            self.lemma_repr();
            assert(self.magnitude@.skip(i as int) =~= Seq::<u8>::empty());
        }
        while i > 0
            invariant
                i <= self.magnitude.len(),
                2 <= base <= 36,
                digits_below(self.magnitude@, 2),
                canonical(digits@, base as int),
                digits_value(digits@, base as int) == digits_value(
                    self.magnitude@.skip(i as int),
                    2,
                ),
            decreases i,
        {
            i = i - 1;
            let bit: u8 = self.magnitude[i];
            proof {
                let high = self.magnitude@.skip(i as int);
                assert(high.drop_first() =~= self.magnitude@.skip(i + 1));
                assert(high[0] == bit);
                assert((self.magnitude@[i as int] as int) < 2);
            }
            digits = mul_add(&digits, base, 2, bit);
        }
        assert(self.magnitude@.skip(0) =~= self.magnitude@);
        let mut out = String::new();
        if digits.len() == 0 {
            out.append(digit_text(0));
            assert(out@ =~= seq![digit_char(0)]);
            return out;
        }
        if self.negative {
            proof {
                reveal_strlit("-");
            }
            out.append("-");
        }
        let ghost prefix = out@;
        let mut k: usize = digits.len();
        proof {
            assert(digits@.skip(k as int) =~= Seq::<u8>::empty());
            assert(out@ =~= prefix + digits_numeral(digits@.skip(k as int)));
        }
        while k > 0
            invariant
                k <= digits.len(),
                digits_below(digits@, 36),
                out@ == prefix + digits_numeral(digits@.skip(k as int)),
            decreases k,
        {
            k = k - 1;
            let d: u8 = digits[k];
            proof {
                let high = digits@.skip(k as int);
                assert(high.drop_first() =~= digits@.skip(k + 1));
                assert(high[0] == d);
                assert((digits@[k as int] as int) < 36);
                assert((prefix + digits_numeral(high.drop_first())).push(digit_char(d as int))
                    =~= prefix + digits_numeral(high));
            }
            let ghost before = out@;
            out.append(digit_text(d));
            assert(out@ =~= before.push(digit_char(d as int)));
        }
        proof {
            assert(digits@.skip(0) =~= digits@);
            lemma_digits_numeral(digits@, base as int);
            assert(prefix =~= if self.negative {
                seq!['-']
            } else {
                Seq::<char>::empty()
            });
            assert(Seq::<char>::empty() + digits_numeral(digits@) =~= digits_numeral(digits@));
        }
        out
    }

    /// The integer that `s` denotes in `radix`, where it denotes one.
    pub fn from_str_radix(s: &str, radix: u32) -> (r: Option<Integer>)
        requires
            2 <= radix <= 36,
        ensures
            match parse_radix(s@, radix as int) {
                Some(v) => r is Some && r->Some_0@ == v && r->Some_0.wf(),
                None => r is None,
            },
    {
        let n: usize = s.unicode_len();
        if n == 0 {
            return None;
        }
        let negative: bool = s.get_char(0) == '-';
        let start: usize = if negative {
            1
        } else {
            0
        };
        let ghost body = s@.skip(start as int);
        let mut magnitude: Vec<u8> = Vec::new();
        let mut i: usize = start;
        proof {
            assert(body.take(0) =~= Seq::<char>::empty());
            assert(s@.skip(0) =~= s@);
        }
        while i < n
            invariant
                start <= i <= n,
                n == s@.len(),
                2 <= radix <= 36,
                body == s@.skip(start as int),
                start == 0 ==> body == s@,
                start == (if s@[0] == '-' { 1int } else { 0int }),
                canonical(magnitude@, 2),
                numeral_value(body.take(i - start), radix as int) == Some(
                    digits_value(magnitude@, 2),
                ),
            decreases n - i,
        {
            let c: char = s.get_char(i);
            proof {
                let next = body.take(i - start + 1);
                assert(next.drop_last() =~= body.take(i - start));
                assert(next.last() == c);
            }
            match char_to_digit(c) {
                Some(d) => {
                    if (d as u32) < radix {
                        proof {
                            let v = digits_value(magnitude@, 2);
                            assert(v * radix == radix * v) by (nonlinear_arith);
                        }
                        magnitude = mul_add(&magnitude, 2, radix as u8, d);
                    } else {
                        proof {
                            lemma_numeral_prefix_none(body, i - start + 1, radix as int);
                        }
                        return None;
                    }
                },
                None => {
                    proof {
                        lemma_numeral_prefix_none(body, i - start + 1, radix as int);
                    }
                    return None;
                },
            }
            i = i + 1;
        }
        proof {
            assert(body.take(n - start) =~= body);
        }
        if start == n {
            return None;
        }
        let r = Integer { negative: negative && magnitude.len() > 0, magnitude };
        proof {
            r.lemma_repr();
            if r.magnitude.len() == 0 {
                assert(digits_value(r.magnitude@, 2) == 0);
            }
        }
        Some(r)
    }
}

} // verus!
