use muon_rs::{bool, char, from_str, integer, number, NumLiteral, Sign};

fn num32(v: &str) -> Option<f32> {
    match number(v)? {
        NumLiteral::Infinity(Sign::Negative) => Some(f32::NEG_INFINITY),
        NumLiteral::Infinity(Sign::Positive) => Some(f32::INFINITY),
        NumLiteral::NaN(Sign::Negative) => Some(-f32::NAN.abs()),
        NumLiteral::NaN(Sign::Positive) => Some(f32::NAN.abs()),
        NumLiteral::Decimal(sign, text) => {
            let x = text.parse::<f32>().ok()?;
            Some(if sign == Sign::Negative { -x } else { x })
        }
    }
}

fn num64(v: &str) -> Option<f64> {
    match number(v)? {
        NumLiteral::Infinity(Sign::Negative) => Some(f64::NEG_INFINITY),
        NumLiteral::Infinity(Sign::Positive) => Some(f64::INFINITY),
        NumLiteral::NaN(Sign::Negative) => Some(-f64::NAN.abs()),
        NumLiteral::NaN(Sign::Positive) => Some(f64::NAN.abs()),
        NumLiteral::Decimal(sign, text) => {
            let x = text.parse::<f64>().ok()?;
            Some(if sign == Sign::Negative { -x } else { x })
        }
    }
}

#[test]
fn intparse_ints() {
    assert_eq!(from_str("0"), Some(0));
    assert_eq!(from_str("25"), Some(25));
    assert_eq!(from_str("-42"), Some(-42));
    assert_eq!(from_str("+15"), Some(15));
    assert_eq!(from_str("0b101010"), Some(42u8));
    assert_eq!(from_str("0o755"), Some(493i16));
    assert_eq!(from_str("0x1Ac"), Some(428));
    assert_eq!(from_str("0xffff"), Some(0xFFFFu16));
    assert_eq!(from_str("0x1234567890"), Some(0x1234567890i64));
    assert_eq!(from_str("0x1000000000000000"), Some(0x1000000000000000u64));
    assert_eq!(from_str("0x10000000000000000"), Some(0x10000000000000000u128));
    assert_eq!(from_str("1_234_567_890"), Some(1234567890));
    assert_eq!(from_str("0b_1111_0000_1111"), Some(0xF0F));
    assert_eq!(from_str("0o755_644"), Some(0o755644));
    assert_eq!(from_str::<u8>("0.0"), None);
    assert_eq!(from_str::<i16>("+-0"), None);
    assert_eq!(from_str::<u32>("00"), None);
    assert_eq!(from_str::<u32>("abc"), None);
    assert_eq!(from_str::<i32>("0b0000_"), None);
    assert_eq!(from_str::<i32>("0b0000__0000"), None);
}

#[test]
fn parse_ints() {
    assert_eq!(integer("0"), Some(0));
    assert_eq!(integer("00"), Some(0));
    assert_eq!(integer("005"), Some(5));
    assert_eq!(integer("25"), Some(25));
    assert_eq!(integer("-42"), Some(-42));
    assert_eq!(integer("+15"), Some(15));
    assert_eq!(integer("b101010"), Some(42u8));
    assert_eq!(integer("x1Ac"), Some(428));
    assert_eq!(integer("xffff"), Some(0xFFFFu16));
    assert_eq!(integer("x1234567890"), Some(0x1234567890i64));
    assert_eq!(integer("x1000000000000000"), Some(0x1000000000000000u64));
    assert_eq!(integer("x10000000000000000"), Some(0x10000000000000000u128));
    assert_eq!(integer("1_234_567_890"), Some(1234567890));
    assert_eq!(integer("-12_34_56"), Some(-123456));
    assert_eq!(integer("b1111_0000_1111"), Some(0xF0F));
    assert_eq!(integer("x123_FED"), Some(0x123_FED));
    assert_eq!(integer::<u8>("0.0"), None);
    assert_eq!(integer::<u8>("255"), Some(255));
    assert_eq!(integer::<u8>("256"), None);
    assert_eq!(integer::<u8>("-1"), None);
    assert_eq!(integer::<i8>("-128"), Some(-128));
    assert_eq!(integer::<i8>("127"), Some(127));
    assert_eq!(integer::<i8>("-129"), None);
    assert_eq!(integer::<i8>("128"), None);
    assert_eq!(integer::<i16>("+-0"), None);
    assert_eq!(integer::<u32>("abc"), None);
    assert_eq!(integer::<u32>("0o755"), None);
    assert_eq!(integer::<i32>("0b0000_"), None);
    assert_eq!(integer::<i32>("0b0000__0000"), None);
    assert_eq!(integer::<i32>("0xBEEF"), None);
    assert_eq!(integer::<i32>("x-1Ac"), None);
    assert_eq!(integer::<i32>("x+1Ac"), None);
    assert_eq!(integer::<i32>("b-101010"), None);
    assert_eq!(integer::<i32>("b+101010"), None);
}

#[test]
fn parse_numbers() {
    assert_eq!(num32("+3.1415927").unwrap(), std::f32::consts::PI);
    assert_eq!(num32("-0.0").unwrap(), -0.0);
    assert_eq!(num32("1e15").unwrap(), 1e15);
    assert_eq!(num32("0.5431e-28").unwrap(), 0.5431e-28);
    assert_eq!(num32(".123456").unwrap(), 0.123456);
    assert_eq!(num32("0.1e1_2").unwrap(), 0.1e12);
    assert_eq!(num32("8_765.432").unwrap(), 8_765.432);
    assert_eq!(num32("100").unwrap(), 100.0);
    assert_eq!(num32("123_.456"), None);
    assert_eq!(num32("_123.456"), None);
    assert_eq!(num32("123.456_"), None);
    assert_eq!(num32("123._456"), None);
    assert_eq!(num32("12.34.56"), None);
    assert_eq!(num64("-123.456789e0").unwrap(), -123.456789);
    assert_eq!(num64("inf").unwrap(), std::f64::INFINITY);
    assert_eq!(num64("-inf").unwrap(), std::f64::NEG_INFINITY);
    assert_eq!(num64("1__0.0"), None);
    assert_eq!(num64("infinity"), None);
    assert_eq!(num64("INF"), None);
    assert_eq!(num64("nan"), None);
    assert_eq!(num64("nAn"), None);
    assert_eq!(num32("++0.123456"), None);
    assert_eq!(num32("+-0.123456"), None);
    assert_eq!(num32("-+0.123456"), None);
    assert_eq!(num32("--0.123456"), None);
    assert!(num32("NaN").unwrap().is_nan());
    assert!(num32("-NaN").unwrap().is_nan());
    assert!(num32("+NaN").unwrap().is_nan());
    assert!(num32("NaN").unwrap().is_sign_positive());
    assert!(num32("-NaN").unwrap().is_sign_negative());
    assert!(num32("+NaN").unwrap().is_sign_positive());
}

#[test]
fn bools() {
    assert_eq!(bool("true"), Some(true));
    assert_eq!(bool("false"), Some(false));
    assert_eq!(bool("True"), None);
    assert_eq!(bool("False"), None);
    assert_eq!(bool("TRUE"), None);
    assert_eq!(bool("FALSE"), None);
}

#[test]
fn chars() {
    assert_eq!(char(""), None);
    assert_eq!(char("aa"), None);
    assert_eq!(char("a"), Some('a'));
    assert_eq!(char("\0"), Some('\0'));
}

#[test]
fn number_underscores() {
    assert_eq!(number("123_.456"), None);
    assert_eq!(
        number("8_765.432_1"),
        Some(NumLiteral::Decimal(Sign::Positive, "8765.4321".to_string()))
    );
    assert_eq!(num64("8_765.432_1").unwrap(), 8765.4321);
    assert_eq!(number("-inf"), Some(NumLiteral::Infinity(Sign::Negative)));
    assert_eq!(number("-NaN"), Some(NumLiteral::NaN(Sign::Negative)));
}

#[test]
fn integer_edges() {
    assert_eq!(integer::<u64>("18446744073709551615"), Some(u64::MAX));
    assert_eq!(integer::<u64>("18446744073709551616"), None);
    assert_eq!(integer::<i128>("-170141183460469231731687303715884105728"), Some(i128::MIN));
    assert_eq!(integer::<u128>("340282366920938463463374607431768211456"), None);
    assert_eq!(integer::<i32>("-0"), Some(0));
    assert_eq!(integer::<u32>("-0"), None);
    assert_eq!(integer::<u32>(""), None);
    assert_eq!(integer::<u32>("x"), None);
    assert_eq!(from_str::<i8>("-128"), Some(-128));
    assert_eq!(from_str::<u8>("256"), None);
    assert_eq!(from_str::<u8>("-1"), None);
    assert_eq!(from_str::<u8>("0b"), Some(0));
}
