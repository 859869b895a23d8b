use exprtree::num32::{b32_abs, b32_add, b32_div, b32_eq, b32_int_exponent, b32_is_nan, b32_is_neg,
    b32_is_zero, b32_le, b32_lt, b32_mul, b32_parse, b32_pow, b32_sub};

fn b(v: f32) -> u32 {
    v.to_bits()
}

#[test]
fn arithmetic_wrappers_match_hardware() {
    assert_eq!(b32_add(b(2.0), b(3.0)), b(5.0));
    assert_eq!(b32_sub(b(2.0), b(3.0)), b(-1.0));
    assert_eq!(b32_mul(b(2.5), b(4.0)), b(10.0));
    assert_eq!(b32_div(b(1.0), b(8.0)), b(0.125));
    // rounding agrees with the hardware operation bit for bit
    assert_eq!(b32_add(b(0.1), b(0.2)), b(0.1f32 + 0.2f32));
    assert_eq!(b32_mul(b(0.1), b(0.3)), b(0.1f32 * 0.3f32));
    assert_eq!(b32_div(b(1.0), b(3.0)), b(1.0f32 / 3.0f32));
    // division of a finite value by zero gives the signed infinity
    assert_eq!(b32_div(b(1.0), b(0.0)), b(f32::INFINITY));
    assert_eq!(b32_div(b(-1.0), b(0.0)), b(f32::NEG_INFINITY));
}

#[test]
fn parse_wrapper() {
    assert_eq!(b32_parse(&"2".chars().collect()), Some(b(2.0)));
    assert_eq!(b32_parse(&"2.5".chars().collect()), Some(b(2.5)));
    assert_eq!(b32_parse(&"-1".chars().collect()), Some(b(-1.0)));
    assert_eq!(b32_parse(&"1e3".chars().collect()), Some(b(1000.0)));
    assert_eq!(b32_parse(&"0.1".chars().collect()), Some(b(0.1)));
    assert_eq!(b32_parse(&"x".chars().collect()), None);
    assert_eq!(b32_parse(&"+".chars().collect()), None);
    assert_eq!(b32_parse(&"*".chars().collect()), None);
    assert_eq!(b32_parse(&"/".chars().collect()), None);
}

#[test]
fn comparisons_follow_ieee() {
    assert!(b32_lt(b(1.0), b(2.0)));
    assert!(!b32_lt(b(2.0), b(1.0)));
    assert!(b32_lt(b(-2.0), b(1.0)));
    assert!(b32_lt(b(-2.0), b(-1.0)));
    assert!(b32_lt(b(f32::NEG_INFINITY), b(f32::INFINITY)));
    assert!(!b32_lt(b(f32::NAN), b(1.0)));
    assert!(!b32_lt(b(1.0), b(f32::NAN)));
    assert!(b32_eq(b(0.0), b(-0.0)));
    assert!(!b32_lt(b(-0.0), b(0.0)));
    assert!(!b32_eq(b(f32::NAN), b(f32::NAN)));
    assert!(b32_le(b(1.0), b(1.0)));
    assert!(b32_le(b(0.0), b(-0.0)));
    assert!(!b32_le(b(2.0), b(1.0)));
}

#[test]
fn classification_helpers() {
    assert!(b32_is_zero(b(0.0)));
    assert!(b32_is_zero(b(-0.0)));
    assert!(!b32_is_zero(b(1.0)));
    assert!(b32_is_neg(b(-3.0)));
    assert!(b32_is_neg(b(-0.0)));
    assert!(!b32_is_neg(b(3.0)));
    assert!(b32_is_nan(b(f32::NAN)));
    assert!(!b32_is_nan(b(f32::INFINITY)));
    assert_eq!(b32_abs(b(-2.5)), b(2.5));
    assert_eq!(b32_abs(b(2.5)), b(2.5));
}

#[test]
fn integer_exponent_extraction() {
    assert_eq!(b32_int_exponent(b(0.0)), Some((false, 0)));
    assert_eq!(b32_int_exponent(b(1.0)), Some((false, 1)));
    assert_eq!(b32_int_exponent(b(2.0)), Some((false, 2)));
    assert_eq!(b32_int_exponent(b(3.0)), Some((false, 3)));
    assert_eq!(b32_int_exponent(b(-3.0)), Some((true, 3)));
    assert_eq!(b32_int_exponent(b(4097.0)), Some((false, 4097)));
    assert_eq!(b32_int_exponent(b(8388608.0)), Some((false, 8388608)));
    assert_eq!(b32_int_exponent(b(16777215.0)), Some((false, 16777215)));
    assert_eq!(b32_int_exponent(b(2147483648.0)), Some((false, 2147483648)));
    assert_eq!(b32_int_exponent(b(-2147483648.0)), Some((true, 2147483648)));
    // the magnitude no longer fits 32 bits
    assert_eq!(b32_int_exponent(b(4294967296.0)), None);
    assert_eq!(b32_int_exponent(b(0.5)), None);
    assert_eq!(b32_int_exponent(b(2.5)), None);
    assert_eq!(b32_int_exponent(b(f32::INFINITY)), None);
    assert_eq!(b32_int_exponent(b(f32::NAN)), None);
}

#[test]
fn power_folding() {
    assert_eq!(b32_pow(b(2.0), b(3.0)), Some(b(8.0)));
    assert_eq!(b32_pow(b(2.0), b(0.0)), Some(b(1.0)));
    assert_eq!(b32_pow(b(5.0), b(1.0)), Some(b(5.0)));
    assert_eq!(b32_pow(b(2.0), b(-1.0)), Some(b(0.5)));
    assert_eq!(b32_pow(b(2.0), b(-2.0)), Some(b(0.25)));
    assert_eq!(b32_pow(b(10.0), b(10.0)), Some(b(1.0e10)));
    assert_eq!(b32_pow(b(2.0), b(40.0)), Some(b(2.0f32.powi(40))));
    assert_eq!(b32_pow(b(-1.0), b(5.0)), Some(b(-1.0)));
    assert_eq!(b32_pow(b(-1.0), b(6.0)), Some(b(1.0)));
    // a saturating or constant base settles long before the count runs out
    assert_eq!(b32_pow(b(2.0), b(4096.0)), Some(b(f32::INFINITY)));
    assert_eq!(b32_pow(b(0.5), b(4096.0)), Some(b(0.0)));
    assert_eq!(b32_pow(b(1.0), b(100000000.0)), Some(b(1.0)));
    assert_eq!(b32_pow(b(2.0), b(0.5)), None);
    assert_eq!(b32_pow(b(2.0), b(f32::NAN)), None);
}
