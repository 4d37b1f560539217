use boa::bigint::{BigInt, Builtin, Error, ErrorKind, Fault, Global};
use boa::integer::Integer;
use boa::value::{finite_parts, Number, ToIndexError, Value};

fn number(f: f64) -> Value {
    let text = format!("{}", f);
    let value = if f.is_nan() {
        Number::NotANumber
    } else if f.is_infinite() {
        Number::Infinite { negative: f < 0.0 }
    } else {
        let bits = f.to_bits();
        let negative = (bits >> 63) == 1;
        let raw = ((bits >> 52) & 0x7ff) as i32;
        let fraction = bits & 0xf_ffff_ffff_ffff;
        if raw == 0 {
            Number::Finite { negative, mantissa: fraction, exponent: -1074 }
        } else {
            Number::Finite { negative, mantissa: fraction | (1u64 << 52), exponent: raw - 1075 }
        }
    };
    Value::Number { value, text }
}

fn big(v: i64) -> Value {
    Value::BigInt(Integer::from_i64(v))
}

fn string(s: &str) -> Value {
    Value::Text(String::from(s))
}

fn kind_of(r: Result<Value, Error>) -> ErrorKind {
    match r {
        Err(e) => e.kind,
        Ok(v) => panic!("expected an error, got {:?}", v),
    }
}

#[test]
fn as_int_n_of_255_at_8_bits() {
    let r = BigInt::as_int_n(&Value::Undefined, &[number(8.0), big(255)]);
    assert_eq!(r, Ok(big(-1)));
}

#[test]
fn as_uint_n_of_minus_one_at_8_bits() {
    let r = BigInt::as_uint_n(&Value::Undefined, &[number(8.0), big(-1)]);
    assert_eq!(r, Ok(big(255)));
}

#[test]
fn reductions_stay_in_range_and_congruent() {
    for bits in [1u32, 2, 7, 8, 31, 32, 63, 64] {
        for v in [0i64, 1, -1, 255, -256, 65535, i64::MAX, i64::MIN] {
            let args = [number(bits as f64), big(v)];
            let unsigned = BigInt::as_uint_n(&Value::Undefined, &args).unwrap();
            let signed = BigInt::as_int_n(&Value::Undefined, &args).unwrap();
            let modulus: i128 = 1i128 << bits;
            let expected_unsigned = (v as i128).rem_euclid(modulus);
            let expected_signed = if expected_unsigned >= modulus / 2 {
                expected_unsigned - modulus
            } else {
                expected_unsigned
            };
            assert_eq!(
                unsigned,
                Value::BigInt(Integer::from_str_radix(&expected_unsigned.to_string(), 10).unwrap())
            );
            assert_eq!(
                signed,
                Value::BigInt(Integer::from_str_radix(&expected_signed.to_string(), 10).unwrap())
            );
        }
    }
}

#[test]
fn reductions_at_width_zero() {
    assert_eq!(BigInt::as_int_n(&Value::Undefined, &[number(0.0), big(7)]), Ok(big(0)));
    assert_eq!(BigInt::as_uint_n(&Value::Undefined, &[number(0.0), big(-7)]), Ok(big(0)));
}

#[test]
fn reductions_take_text_and_numbers() {
    assert_eq!(BigInt::as_uint_n(&Value::Undefined, &[string("8"), string("-1")]), Ok(big(255)));
    assert_eq!(BigInt::as_int_n(&Value::Undefined, &[number(8.0), number(255.0)]), Ok(big(-1)));
}

#[test]
fn negative_bits_are_a_range_error() {
    let r = BigInt::as_int_n(&Value::Undefined, &[number(-1.0), big(1)]);
    assert_eq!(
        r,
        Err(Error {
            kind: ErrorKind::RangeError,
            message: String::from("bits must be convertable to a positive integral number"),
        })
    );
    assert_eq!(
        kind_of(BigInt::as_uint_n(&Value::Undefined, &[number(1.5), big(1)])),
        ErrorKind::RangeError
    );
}

#[test]
fn bigint_bits_are_a_type_error() {
    let r = BigInt::as_uint_n(&Value::Undefined, &[big(8), big(1)]);
    assert_eq!(
        r,
        Err(Error { kind: ErrorKind::TypeError, message: String::from("wrong type") })
    );
}

#[test]
fn missing_arguments_fail() {
    let r = BigInt::as_int_n(&Value::Undefined, &[]);
    assert_eq!(
        r,
        Err(Error {
            kind: ErrorKind::RangeError,
            message: String::from(
                "undefined can't be converted to BigInt because it isn't an integer"
            ),
        })
    );
    assert_eq!(
        kind_of(BigInt::as_uint_n(&Value::Undefined, &[number(8.0)])),
        ErrorKind::RangeError
    );
    assert_eq!(
        kind_of(BigInt::as_uint_n(&Value::Undefined, &[number(8.0), number(0.5)])),
        ErrorKind::RangeError
    );
}

#[test]
fn helper_returns_modulo_and_width() {
    assert_eq!(
        BigInt::as_bigint_helper(&[number(8.0), big(257)]),
        Ok((Integer::from_u64(1), 8))
    );
    assert_eq!(
        BigInt::as_bigint_helper(&[number(1e300), big(257)]),
        Ok((Integer::from_u64(257), u32::MAX))
    );
    assert_eq!(
        BigInt::as_bigint_helper(&[number(f64::INFINITY), big(257)]),
        Ok((Integer::from_u64(257), u32::MAX))
    );
}

#[test]
fn make_bigint_from_text() {
    assert_eq!(BigInt::make_bigint(&Value::Undefined, &[string("10")]), Ok(big(10)));
}

#[test]
fn make_bigint_without_argument_is_zero() {
    assert_eq!(BigInt::make_bigint(&Value::Undefined, &[]), Ok(big(0)));
}

#[test]
fn make_bigint_from_fraction_fails() {
    let r = BigInt::make_bigint(&Value::Undefined, &[number(3.5)]);
    assert_eq!(
        r,
        Err(Error {
            kind: ErrorKind::RangeError,
            message: String::from(
                "3.5 can't be converted to BigInt because it isn't an integer"
            ),
        })
    );
}

#[test]
fn make_bigint_from_other_values() {
    assert_eq!(BigInt::make_bigint(&Value::Undefined, &[number(-12.0)]), Ok(big(-12)));
    assert_eq!(BigInt::make_bigint(&Value::Undefined, &[number(0.0)]), Ok(big(0)));
    assert_eq!(BigInt::make_bigint(&Value::Undefined, &[Value::Boolean(true)]), Ok(big(1)));
    assert_eq!(BigInt::make_bigint(&Value::Undefined, &[big(-5)]), Ok(big(-5)));
    assert_eq!(
        BigInt::make_bigint(&Value::Undefined, &[number(1e30)]),
        Ok(Value::BigInt(Integer::from_str_radix("1000000000000000019884624838656", 10).unwrap()))
    );
    let undefined = BigInt::make_bigint(&Value::Undefined, &[Value::Undefined]);
    assert_eq!(
        undefined,
        Err(Error {
            kind: ErrorKind::RangeError,
            message: String::from(
                "undefined can't be converted to BigInt because it isn't an integer"
            ),
        })
    );
    assert_eq!(
        kind_of(BigInt::make_bigint(&Value::Undefined, &[number(f64::NAN)])),
        ErrorKind::RangeError
    );
    assert_eq!(
        kind_of(BigInt::make_bigint(&Value::Undefined, &[string("ten")])),
        ErrorKind::RangeError
    );
}

#[test]
fn to_string_rejects_radix_below_2_and_above_36() {
    for radix in [1.0, 37.0, 0.0, -10.0, 1e10, f64::INFINITY] {
        let r = BigInt::to_string(&big(10), &[number(radix)]);
        assert_eq!(
            r,
            Err(Error {
                kind: ErrorKind::RangeError,
                message: String::from(
                    "radix must be an integer at least 2 and no greater than 36"
                ),
            })
        );
    }
}

#[test]
fn to_string_accepts_the_ends_of_the_interval() {
    assert_eq!(BigInt::to_string(&big(5), &[number(2.0)]), Ok(string("101")));
    assert_eq!(BigInt::to_string(&big(71), &[number(36.0)]), Ok(string("1z")));
}

#[test]
fn to_string_defaults_to_decimal() {
    assert_eq!(BigInt::to_string(&big(-1234), &[]), Ok(string("-1234")));
    assert_eq!(
        BigInt::to_string(&Value::BigIntObject(Integer::from_i64(255)), &[number(16.0)]),
        Ok(string("ff"))
    );
    assert_eq!(BigInt::to_string(&big(255), &[number(16.9)]), Ok(string("ff")));
}

#[test]
fn native_strings() {
    let n = Integer::from_i64(-255);
    assert_eq!(BigInt::to_native_string(&n), "-255");
    assert_eq!(BigInt::to_native_string_radix(&n, 16), "-ff");
}

#[test]
fn value_of_unwraps() {
    let wrapper = Value::BigIntObject(Integer::from_i64(42));
    assert_eq!(BigInt::value_of(&wrapper, &[]), Ok(big(42)));
    assert_eq!(BigInt::value_of(&big(42), &[]), Ok(big(42)));
}

#[test]
fn to_index_of_each_kind() {
    assert_eq!(Value::Undefined.to_index(), Ok(0));
    assert_eq!(Value::Null.to_index(), Ok(0));
    assert_eq!(Value::Boolean(true).to_index(), Ok(1));
    assert_eq!(number(f64::NAN).to_index(), Ok(0));
    assert_eq!(number(12.0).to_index(), Ok(12));
    assert_eq!(number(-0.0).to_index(), Ok(0));
    assert_eq!(number(1e300).to_index(), Ok(usize::MAX));
    assert_eq!(number(f64::INFINITY).to_index(), Ok(usize::MAX));
    assert_eq!(number(f64::NEG_INFINITY).to_index(), Err(ToIndexError::RangeError));
    assert_eq!(number(-1.0).to_index(), Err(ToIndexError::RangeError));
    assert_eq!(number(0.25).to_index(), Err(ToIndexError::RangeError));
    assert_eq!(string("7").to_index(), Ok(7));
    assert_eq!(string("-7").to_index(), Err(ToIndexError::RangeError));
    assert_eq!(string("seven").to_index(), Err(ToIndexError::RangeError));
    assert_eq!(big(7).to_index(), Err(ToIndexError::TypeError));
    assert_eq!(
        Value::BigIntObject(Integer::from_i64(7)).to_index(),
        Err(ToIndexError::TypeError)
    );
}

#[test]
fn to_integer_truncates_and_clamps() {
    assert_eq!(number(3.9).to_integer(), 3);
    assert_eq!(number(-3.9).to_integer(), -3);
    assert_eq!(number(1e10).to_integer(), i32::MAX);
    assert_eq!(number(-1e10).to_integer(), i32::MIN);
    assert_eq!(number(f64::NAN).to_integer(), 0);
    assert_eq!(number(5e-324).to_integer(), 0);
    assert_eq!(Value::Undefined.to_integer(), 0);
    assert_eq!(Value::Boolean(true).to_integer(), 1);
    assert_eq!(string("16").to_integer(), 16);
    assert_eq!(string("x").to_integer(), 0);
    assert_eq!(big(-2147483649).to_integer(), i32::MIN);
}

#[test]
fn textual_forms() {
    assert_eq!(Value::Undefined.to_text(), "undefined");
    assert_eq!(Value::Null.to_text(), "null");
    assert_eq!(Value::Boolean(false).to_text(), "false");
    assert_eq!(Value::Boolean(true).to_text(), "true");
    assert_eq!(number(3.5).to_text(), "3.5");
    assert_eq!(string("abc").to_text(), "abc");
    assert_eq!(big(-77).to_text(), "-77");
}

#[test]
fn create_lays_out_the_object() {
    let c = BigInt::create();
    assert_eq!(c.name, "BigInt");
    assert_eq!(c.length, 1);
    assert_eq!(c.function, Builtin::MakeBigInt);
    assert!(!c.constructible);
    assert_eq!(c.prototype.slot_name, "BigIntData");
    assert_eq!(c.prototype.slot, Integer::zero());
    let methods: Vec<(&str, u32, Builtin)> =
        c.prototype.methods.iter().map(|m| (m.name.as_str(), m.length, m.function)).collect();
    assert_eq!(methods, vec![("toString", 1, Builtin::ToString), ("valueOf", 0, Builtin::ValueOf)]);
    let statics: Vec<(&str, u32, Builtin)> =
        c.statics.iter().map(|m| (m.name.as_str(), m.length, m.function)).collect();
    assert_eq!(statics, vec![("asIntN", 1, Builtin::AsIntN), ("asUintN", 1, Builtin::AsUintN)]);
}

#[test]
fn init_publishes_the_object() {
    let mut global = Global { bigint: None };
    BigInt::init(&mut global);
    assert_eq!(global.bigint, Some(BigInt::create()));
}

#[test]
fn invoke_runs_the_named_function() {
    let none = Value::Undefined;
    assert_eq!(BigInt::invoke(Builtin::MakeBigInt, &none, &[string("10")]), Ok(Ok(big(10))));
    assert_eq!(
        BigInt::invoke(Builtin::AsIntN, &none, &[number(8.0), big(255)]),
        Ok(Ok(big(-1)))
    );
    assert_eq!(
        BigInt::invoke(Builtin::AsUintN, &none, &[number(8.0), big(-1)]),
        Ok(Ok(big(255)))
    );
    assert_eq!(BigInt::invoke(Builtin::ToString, &big(255), &[number(2.0)]), Ok(Ok(string("11111111"))));
    assert_eq!(
        BigInt::invoke(Builtin::ValueOf, &Value::BigIntObject(Integer::from_i64(3)), &[]),
        Ok(Ok(big(3)))
    );
}

#[test]
fn invoke_keeps_errors_and_faults_apart() {
    let thrown = BigInt::invoke(Builtin::ToString, &big(1), &[number(37.0)]);
    assert_eq!(
        thrown,
        Ok(Err(Error {
            kind: ErrorKind::RangeError,
            message: String::from("radix must be an integer at least 2 and no greater than 36"),
        }))
    );
    assert_eq!(BigInt::invoke(Builtin::ValueOf, &Value::Undefined, &[]), Err(Fault::MissingSlot));
    assert_eq!(
        BigInt::invoke(Builtin::ToString, &Value::Null, &[number(37.0)]),
        Err(Fault::MissingSlot)
    );
}

#[test]
fn finite_numbers_split_into_integer_and_exactness() {
    assert_eq!(finite_parts(false, 7, -1), (Integer::from_u64(3), false));
    assert_eq!(finite_parts(true, 7, -1), (Integer::from_i64(-3), false));
    assert_eq!(finite_parts(false, 8, -3), (Integer::from_u64(1), true));
    assert_eq!(finite_parts(false, 8, -4), (Integer::zero(), false));
    assert_eq!(finite_parts(true, 5, 2), (Integer::from_i64(-20), true));
    assert_eq!(finite_parts(false, 0, -1074), (Integer::zero(), true));
    assert_eq!(finite_parts(false, 1, -70), (Integer::zero(), false));
    assert_eq!(finite_parts(false, u64::MAX, -64), (Integer::zero(), false));
    assert_eq!(finite_parts(false, 1 << 63, -63), (Integer::from_u64(1), true));
}

#[test]
fn to_bigint_of_each_kind() {
    assert_eq!(Value::Undefined.to_bigint(), None);
    assert_eq!(Value::Null.to_bigint(), None);
    assert_eq!(Value::Boolean(false).to_bigint(), Some(Integer::zero()));
    assert_eq!(Value::Boolean(true).to_bigint(), Some(Integer::from_u64(1)));
    assert_eq!(number(3.5).to_bigint(), None);
    assert_eq!(number(-4.0).to_bigint(), Some(Integer::from_i64(-4)));
    assert_eq!(number(f64::INFINITY).to_bigint(), None);
    assert_eq!(number(f64::NAN).to_bigint(), None);
    assert_eq!(number(9007199254740992.0).to_bigint(), Some(Integer::from_u64(1 << 53)));
    assert_eq!(string("10").to_bigint(), Some(Integer::from_u64(10)));
    assert_eq!(string("-10").to_bigint(), Some(Integer::from_i64(-10)));
    assert_eq!(string("1.0").to_bigint(), None);
    assert_eq!(string("").to_bigint(), None);
    assert_eq!(big(9).to_bigint(), Some(Integer::from_u64(9)));
    assert_eq!(Value::BigIntObject(Integer::from_i64(-9)).to_bigint(), Some(Integer::from_i64(-9)));
}

#[test]
fn reductions_name_the_value_that_is_no_integer() {
    let cases = [
        (Value::Undefined, "undefined"),
        (Value::Null, "null"),
        (number(0.5), "0.5"),
        (number(f64::NAN), "NaN"),
        (string("ten"), "ten"),
        (string(""), ""),
    ];
    for (value, text) in cases {
        let expected = Err(Error {
            kind: ErrorKind::RangeError,
            message: format!("{} can't be converted to BigInt because it isn't an integer", text),
        });
        let args = [number(8.0), value];
        assert_eq!(BigInt::as_int_n(&Value::Undefined, &args), expected);
        assert_eq!(BigInt::as_uint_n(&Value::Undefined, &args), expected);
        assert_eq!(
            BigInt::as_bigint_helper(&args).map(|_| Value::Undefined),
            expected
        );
        assert_eq!(BigInt::invoke(Builtin::AsIntN, &Value::Undefined, &args), Ok(expected));
    }
}

#[test]
fn width_is_coerced_before_the_integer() {
    let r = BigInt::as_int_n(&Value::Undefined, &[number(-1.0), Value::Undefined]);
    assert_eq!(
        r,
        Err(Error {
            kind: ErrorKind::RangeError,
            message: String::from("bits must be convertable to a positive integral number"),
        })
    );
    let r = BigInt::as_uint_n(&Value::Undefined, &[big(1), string("x")]);
    assert_eq!(
        r,
        Err(Error { kind: ErrorKind::TypeError, message: String::from("wrong type") })
    );
}
