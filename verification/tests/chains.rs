use tstr::to_uint::ten_pow;
use tstr::Digit;
use tstr::DigitChain;

#[test]
fn ten_pow_small_powers() {
    assert_eq!(ten_pow(0), 1);
    assert_eq!(ten_pow(1), 10);
    assert_eq!(ten_pow(2), 100);
    assert_eq!(ten_pow(3), 1000);
}

#[test]
fn ten_pow_largest_supported_power() {
    assert_eq!(ten_pow(38), 100000000000000000000000000000000000000u128);
}

#[test]
fn digit_values_round_trip() {
    for v in 0..10u8 {
        assert_eq!(Digit::from_u8(v).value(), v);
    }
}

#[test]
fn empty_chain_encodes_zero_with_no_digits() {
    let empty = DigitChain::new();
    assert_eq!(empty.digit_count(), 0);
    assert_eq!(empty.as_u128(), 0);
}

#[test]
fn zero_chain_is_one_digit_not_empty() {
    let zero = DigitChain::from_u128(0);
    assert_eq!(zero.digit_count(), 1);
    assert_eq!(zero.as_u128(), 0);
    assert_eq!(zero.digit_at(0), Digit::D0);
}

#[test]
fn from_u128_renders_decimal_digits() {
    let c = DigitChain::from_u128(123);
    assert_eq!(c.digit_count(), 3);
    assert_eq!(c.digit_at(0), Digit::D1);
    assert_eq!(c.digit_at(1), Digit::D2);
    assert_eq!(c.digit_at(2), Digit::D3);
    assert_eq!(c.as_u128(), 123);
}

#[test]
fn push_digit_shifts_and_adds() {
    let mut c = DigitChain::new();
    c.push_digit(Digit::D4);
    c.push_digit(Digit::D2);
    assert_eq!(c.digit_count(), 2);
    assert_eq!(c.as_u128(), 42);
}

#[test]
fn append_composes_positionally() {
    let mut a = DigitChain::from_u128(12);
    let b = DigitChain::from_u128(345);
    a.append(&b);
    assert_eq!(a.digit_count(), 5);
    assert_eq!(a.as_u128(), 12345);
}

#[test]
fn append_empty_chain_is_identity() {
    let mut a = DigitChain::from_u128(7);
    a.append(&DigitChain::new());
    assert_eq!(a.digit_count(), 1);
    assert_eq!(a.as_u128(), 7);

    let mut e = DigitChain::new();
    e.append(&DigitChain::from_u128(7));
    assert_eq!(e.digit_count(), 1);
    assert_eq!(e.as_u128(), 7);
}

#[test]
fn thirty_eight_digit_value_is_extracted() {
    let big = 99999999999999999999999999999999999999u128;
    let c = DigitChain::from_u128(big);
    assert_eq!(c.digit_count(), 38);
    assert_eq!(c.as_u128(), big);
    assert_eq!(c.as_u128_checked(), Some(big));
}

#[test]
fn thirty_nine_digit_overflow_is_reported() {
    let mut c = DigitChain::new();
    for _ in 0..39 {
        c.push_digit(Digit::D9);
    }
    assert_eq!(c.digit_count(), 39);
    assert_eq!(c.as_u128_checked(), None);
}

#[test]
fn largest_u128_round_trips_through_checked_extraction() {
    let c = DigitChain::from_u128(u128::MAX);
    assert_eq!(c.digit_count(), 39);
    assert_eq!(c.as_u128_checked(), Some(u128::MAX));
}

#[test]
fn as_usize_extracts_small_values() {
    let c = DigitChain::from_u128(65000);
    assert_eq!(c.as_usize(), 65000);
}
