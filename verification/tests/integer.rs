use boa::integer::Integer;

fn text(n: &Integer, radix: u32) -> String {
    n.to_str_radix(radix)
}

#[test]
fn zero_is_zero() {
    assert!(Integer::zero().is_zero());
    assert_eq!(Integer::zero(), Integer::from_u64(0));
    assert_eq!(Integer::zero(), Integer::from_i64(0));
    assert!(!Integer::zero().is_negative());
}

#[test]
fn from_i64_keeps_sign_and_size() {
    assert_eq!(text(&Integer::from_i64(-42), 10), "-42");
    assert_eq!(text(&Integer::from_i64(42), 10), "42");
    assert_eq!(text(&Integer::from_i64(i64::MIN), 10), "-9223372036854775808");
    assert_eq!(text(&Integer::from_i64(i64::MAX), 10), "9223372036854775807");
    assert_eq!(text(&Integer::from_u64(u64::MAX), 10), "18446744073709551615");
    assert!(Integer::from_i64(-1).is_negative());
}

#[test]
fn text_in_each_radix() {
    let n = Integer::from_u64(255);
    assert_eq!(text(&n, 2), "11111111");
    assert_eq!(text(&n, 8), "377");
    assert_eq!(text(&n, 10), "255");
    assert_eq!(text(&n, 16), "ff");
    assert_eq!(text(&n, 36), "73");
    assert_eq!(text(&Integer::from_u64(35), 36), "z");
    assert_eq!(text(&Integer::from_i64(-255), 16), "-ff");
}

#[test]
fn zero_renders_as_one_digit() {
    for radix in 2..=36 {
        assert_eq!(text(&Integer::zero(), radix), "0");
    }
}

#[test]
fn parse_accepts_sign_and_both_cases() {
    assert_eq!(Integer::from_str_radix("10", 10), Some(Integer::from_u64(10)));
    assert_eq!(Integer::from_str_radix("-10", 10), Some(Integer::from_i64(-10)));
    assert_eq!(Integer::from_str_radix("ff", 16), Some(Integer::from_u64(255)));
    assert_eq!(Integer::from_str_radix("FF", 16), Some(Integer::from_u64(255)));
    assert_eq!(Integer::from_str_radix("0010", 10), Some(Integer::from_u64(10)));
    assert_eq!(Integer::from_str_radix("-0", 10), Some(Integer::zero()));
}

#[test]
fn parse_rejects_what_is_no_numeral() {
    assert_eq!(Integer::from_str_radix("", 10), None);
    assert_eq!(Integer::from_str_radix("-", 10), None);
    assert_eq!(Integer::from_str_radix("3.5", 10), None);
    assert_eq!(Integer::from_str_radix("12a", 10), None);
    assert_eq!(Integer::from_str_radix("2", 2), None);
    assert_eq!(Integer::from_str_radix("z", 35), None);
    assert_eq!(Integer::from_str_radix("1-", 10), None);
    assert_eq!(Integer::from_str_radix(" 1", 10), None);
}

#[test]
fn round_trip_in_every_radix() {
    let values: [i64; 9] = [0, 1, -1, 35, 36, -37, 1_000_000_007, i64::MAX, i64::MIN];
    for radix in 2..=36 {
        for v in values {
            let n = Integer::from_i64(v);
            let s = n.to_str_radix(radix);
            assert_eq!(Integer::from_str_radix(&s, radix), Some(n));
            assert_eq!(i64::from_str_radix(&s, radix), Ok(v));
        }
    }
}

#[test]
fn round_trip_beyond_machine_words() {
    let s = "-123456789012345678901234567890123456789012345678901234567890";
    let n = Integer::from_str_radix(s, 10).unwrap();
    assert_eq!(n.to_str_radix(10), s);
    let hex = n.to_str_radix(16);
    assert_eq!(Integer::from_str_radix(&hex, 16), Some(n));
}

#[test]
fn mod_pow2_is_euclidean() {
    assert_eq!(Integer::from_i64(-1).mod_pow2(8), Integer::from_u64(255));
    assert_eq!(Integer::from_i64(255).mod_pow2(8), Integer::from_u64(255));
    assert_eq!(Integer::from_i64(256).mod_pow2(8), Integer::zero());
    assert_eq!(Integer::from_i64(-256).mod_pow2(8), Integer::zero());
    assert_eq!(Integer::from_i64(-257).mod_pow2(8), Integer::from_u64(255));
    assert_eq!(Integer::from_i64(-1).mod_pow2(64), Integer::from_u64(u64::MAX));
    assert_eq!(Integer::from_i64(5).mod_pow2(1), Integer::from_u64(1));
    assert_eq!(Integer::from_i64(1234).mod_pow2(100), Integer::from_u64(1234));
}

#[test]
fn width_zero_leaves_only_zero() {
    assert_eq!(Integer::from_i64(12345).mod_pow2(0), Integer::zero());
    assert_eq!(Integer::from_i64(-12345).mod_pow2(0), Integer::zero());
    assert_eq!(Integer::from_i64(12345).wrap_signed(0), Integer::zero());
    assert_eq!(Integer::from_i64(-1).wrap_signed(0), Integer::zero());
}

#[test]
fn wrap_signed_is_twos_complement() {
    assert_eq!(Integer::from_i64(255).wrap_signed(8), Integer::from_i64(-1));
    assert_eq!(Integer::from_i64(127).wrap_signed(8), Integer::from_i64(127));
    assert_eq!(Integer::from_i64(128).wrap_signed(8), Integer::from_i64(-128));
    assert_eq!(Integer::from_i64(-129).wrap_signed(8), Integer::from_i64(127));
    assert_eq!(Integer::from_i64(1).wrap_signed(1), Integer::from_i64(-1));
    assert_eq!(Integer::from_i64(2).wrap_signed(1), Integer::zero());
    assert_eq!(Integer::from_u64(u64::MAX).wrap_signed(64), Integer::from_i64(-1));
    assert_eq!(
        Integer::from_u64(1u64 << 63).wrap_signed(64),
        Integer::from_i64(i64::MIN)
    );
}

#[test]
fn wraps_agree_with_machine_arithmetic() {
    let values: [i64; 8] = [0, 1, -1, 127, 128, -129, i64::MAX, i64::MIN];
    for v in values {
        let n = Integer::from_i64(v);
        assert_eq!(n.mod_pow2(8), Integer::from_u64((v as u8) as u64));
        assert_eq!(n.wrap_signed(8), Integer::from_i64((v as i8) as i64));
        assert_eq!(n.mod_pow2(32), Integer::from_u64((v as u32) as u64));
        assert_eq!(n.wrap_signed(32), Integer::from_i64((v as i32) as i64));
        assert_eq!(n.mod_pow2(64), Integer::from_u64(v as u64));
        assert_eq!(n.wrap_signed(64), n);
    }
}

#[test]
fn scaled_construction() {
    assert_eq!(Integer::from_scaled(false, 3, 4), Integer::from_u64(48));
    assert_eq!(Integer::from_scaled(true, 3, 4), Integer::from_i64(-48));
    assert_eq!(Integer::from_scaled(true, 0, 4), Integer::zero());
    assert_eq!(Integer::from_scaled(false, 1, 70).to_str_radix(10), "1180591620717411303424");
}

#[test]
fn magnitude_saturates() {
    assert_eq!(Integer::from_i64(-5).magnitude_u64(), 5);
    assert_eq!(Integer::from_u64(u64::MAX).magnitude_u64(), u64::MAX);
    assert_eq!(Integer::from_scaled(false, 1, 64).magnitude_u64(), u64::MAX);
    assert_eq!(Integer::from_scaled(true, 1, 200).magnitude_u64(), u64::MAX);
    assert_eq!(Integer::zero().magnitude_u64(), 0);
}

#[test]
fn copy_is_equal() {
    let n = Integer::from_i64(-987654321);
    assert_eq!(n.copy(), n);
}
