use simd_json::error::{Error, ErrorType};
use simd_json::magnitude::{exceeds_double_range, LIMIT_DIGITS};
use simd_json::numberparse::{parse_number, Float, Number};
use simd_json::value::owned::{to_value, Value};

fn parse(text: &str) -> Result<Value, Error> {
    let mut bytes = text.as_bytes().to_vec();
    to_value(&mut bytes)
}

fn float_of(v: &Value) -> f64 {
    match v {
        Value::F64(f) => std::str::from_utf8(&f.literal).unwrap().parse::<f64>().unwrap(),
        other => panic!("not a float: {:?}", other),
    }
}

#[test]
fn integers() {
    assert_eq!(parse("0").unwrap(), Value::I64(0));
    assert_eq!(parse("-0").unwrap(), Value::I64(0));
    assert_eq!(parse("7").unwrap(), Value::I64(7));
    assert_eq!(parse("-12345").unwrap(), Value::I64(-12345));
    assert_eq!(parse(" 42 ").unwrap(), Value::I64(42));
}

#[test]
fn integers_at_the_i64_boundary() {
    assert_eq!(parse("9223372036854775807").unwrap(), Value::I64(i64::MAX));
    assert_eq!(parse("-9223372036854775808").unwrap(), Value::I64(i64::MIN));
    assert_eq!(parse("-9223372036854775807").unwrap(), Value::I64(i64::MIN + 1));
    assert_eq!(float_of(&parse("9223372036854775808").unwrap()), 9223372036854775808.0);
    assert_eq!(float_of(&parse("-9223372036854775809").unwrap()), -9223372036854775809.0);
    assert_eq!(float_of(&parse("18446744073709551615").unwrap()), 18446744073709551615.0);
    assert_eq!(float_of(&parse("18446744073709551616").unwrap()), 18446744073709551616.0);
    assert_eq!(float_of(&parse("123456789012345678901234567890").unwrap()), 1.2345678901234568e29);
}

#[test]
fn floats_keep_their_literal() {
    assert_eq!(parse("1.5").unwrap(), Value::F64(Float { literal: b"1.5".to_vec() }));
    assert_eq!(parse("[1.0]").unwrap(), Value::Array(vec![Value::F64(Float { literal: b"1.0".to_vec() })]));
    assert_eq!(float_of(&parse("1e5").unwrap()), 100000.0);
    assert_eq!(float_of(&parse("1E+5").unwrap()), 100000.0);
    assert_eq!(float_of(&parse("25e-1").unwrap()), 2.5);
    assert_eq!(float_of(&parse("-0.0").unwrap()), 0.0);
    assert_eq!(float_of(&parse("0.1e1").unwrap()), 1.0);
}

#[test]
fn subnormal_doubles() {
    assert_eq!(float_of(&parse("5e-324").unwrap()), 5e-324);
    assert_eq!(float_of(&parse("2.2250738585072009e-308").unwrap()), 2.2250738585072009e-308);
}

#[test]
fn invalid_numbers() {
    for text in [
        "01", "-01", "00", "1.", ".1", "-", "-.5", "1e", "1e+", "1E-", "1.e5", "1.5.2", "1x", "1-2",
        "0x10", "+1", "1e5e5", "--1", "1\"a\"", "-a",
    ] {
        match parse(text) {
            Err(e) => assert!(
                e.error == ErrorType::InvalidNumber || e.error == ErrorType::UnexpectedCharacter,
                "{}: {:?}",
                text,
                e
            ),
            Ok(v) => panic!("{} parsed as {:?}", text, v),
        }
    }
    let e = parse("[1, 01]").unwrap_err();
    assert_eq!(e.error, ErrorType::InvalidNumber);
    assert_eq!(e.index, 4);
    assert_eq!(e.character, '0');
    assert_eq!(parse("1.").unwrap_err().error, ErrorType::InvalidNumber);
    assert_eq!(parse("-").unwrap_err().error, ErrorType::InvalidNumber);
    assert_eq!(parse("1e").unwrap_err().error, ErrorType::InvalidNumber);
    assert_eq!(parse(".1").unwrap_err().error, ErrorType::UnexpectedCharacter);
}

#[test]
fn number_parser_on_a_buffer() {
    assert_eq!(parse_number(b"x 12,", 2, false), Ok(Number::I64(12)));
    assert_eq!(parse_number(b"x-12]", 1, true), Ok(Number::I64(-12)));
    assert_eq!(
        parse_number(b"3.25 ", 0, false),
        Ok(Number::F64(Float { literal: b"3.25".to_vec() }))
    );
    assert_eq!(parse_number(b"3.25x", 0, false), Err(ErrorType::InvalidNumber));
    assert_eq!(parse_number(b"-", 0, true), Err(ErrorType::InvalidNumber));
    assert_eq!(parse_number(b"1e999", 0, false), Err(ErrorType::NumberOverflow));
}

/// The decimal digits of 2^1024 - 2^970, by schoolbook arithmetic.
fn limit_by_arithmetic() -> Vec<u8> {
    // 2^1024 - 2^970 = 2^970 * (2^54 - 1)
    let mut digits: Vec<u8> = (((1u64 << 54) - 1).to_string()).bytes().map(|c| c - b'0').collect();
    for _ in 0..970 {
        let mut carry = 0;
        for d in digits.iter_mut().rev() {
            let v = *d * 2 + carry;
            *d = v % 10;
            carry = v / 10;
        }
        if carry > 0 {
            digits.insert(0, carry);
        }
    }
    digits.iter().map(|d| d + b'0').collect()
}

#[test]
fn limit_table_spells_the_rounding_boundary() {
    let expected = limit_by_arithmetic();
    assert_eq!(expected.len(), 309);
    assert_eq!(&LIMIT_DIGITS[..], &expected[..]);
    let text = String::from_utf8(expected.clone()).unwrap();
    assert!(text.parse::<f64>().unwrap().is_infinite());
    let mut below = expected;
    *below.last_mut().unwrap() -= 1;
    let text = String::from_utf8(below).unwrap();
    assert_eq!(text.parse::<f64>().unwrap(), f64::MAX);
}

#[test]
fn numbers_beyond_the_range_of_doubles() {
    for text in [
        "1e309",
        "-1e309",
        "1e400",
        "1E+309",
        "10e308",
        "0.1e310",
        "1.7976931348623159e308",
        "17976931348623159e292",
        "0.000017976931348623159e313",
        "1e99999999999999999999999999",
        "123e18446744073709551616",
    ] {
        assert_eq!(parse(text).unwrap_err().error, ErrorType::NumberOverflow, "{}", text);
    }
    let limit = String::from_utf8(LIMIT_DIGITS.to_vec()).unwrap();
    assert_eq!(parse(&limit).unwrap_err().error, ErrorType::NumberOverflow);
    assert_eq!(parse(&format!("{}.0", limit)).unwrap_err().error, ErrorType::NumberOverflow);
    assert_eq!(parse(&format!("{}0e-1", limit)).unwrap_err().error, ErrorType::NumberOverflow);
    assert_eq!(parse(&format!("-{}", limit)).unwrap_err().error, ErrorType::NumberOverflow);
    assert_eq!(parse(&format!("1{}", "0".repeat(309))).unwrap_err().error, ErrorType::NumberOverflow);
    let e = parse("[1, 1e309]").unwrap_err();
    assert_eq!((e.error, e.index, e.character), (ErrorType::NumberOverflow, 4, '1'));
}

#[test]
fn numbers_within_the_range_of_doubles() {
    for (text, expected) in [
        ("1e308", 1e308),
        ("1.7976931348623157e308", f64::MAX),
        ("1.7976931348623158e308", f64::MAX),
        ("-1.7976931348623157e308", f64::MIN),
        ("0e999999999999999999999", 0.0),
        ("0.0e400", 0.0),
        ("1e-999999999999999999999", 0.0),
        ("10e307", 1e308),
        ("0.001e311", 1e308),
        ("5e-324", 5e-324),
        ("1e-400", 0.0),
    ] {
        assert_eq!(float_of(&parse(text).unwrap()), expected, "{}", text);
    }
    let mut below = LIMIT_DIGITS.to_vec();
    *below.last_mut().unwrap() -= 1;
    let below = String::from_utf8(below).unwrap();
    assert_eq!(float_of(&parse(&below).unwrap()), f64::MAX);
    let fraction = format!("{}.999999", below);
    assert_eq!(float_of(&parse(&fraction).unwrap()), f64::MAX);
    let scaled = format!("{}999e-3", below);
    assert_eq!(float_of(&parse(&scaled).unwrap()), f64::MAX);
    assert_eq!(float_of(&parse(&format!("1{}", "0".repeat(308))).unwrap()), 1e308);
}

#[test]
fn range_check_agrees_with_rounding() {
    let mut state = 7u64;
    let mut next = move || {
        state = state.wrapping_mul(6364136223846793005).wrapping_add(1442695040888963407);
        (state >> 33) as u32
    };
    for _ in 0..3000 {
        let int_len = 1 + (next() % 4) as usize;
        let frac_len = (next() % 25) as usize;
        let mut text = String::new();
        for i in 0..int_len {
            let d = if i == 0 && int_len > 1 { 1 + next() % 9 } else { next() % 10 };
            text.push((b'0' + d as u8) as char);
        }
        let int_end = text.len();
        if frac_len > 0 {
            text.push('.');
            for _ in 0..frac_len {
                text.push((b'0' + (next() % 10) as u8) as char);
            }
        }
        let frac_end = text.len();
        let exponent = 300 + (next() % 14) as i32;
        text.push_str(&format!("e{}", exponent));
        let exp_start = frac_end + 1;
        let frac_start = if frac_len > 0 { int_end + 1 } else { int_end };
        let found = exceeds_double_range(
            text.as_bytes(),
            0,
            int_end,
            frac_start,
            frac_end,
            false,
            exp_start,
            text.len(),
        );
        let rounded: f64 = text.parse().unwrap();
        assert_eq!(found, rounded.is_infinite(), "{}", text);
    }
}
