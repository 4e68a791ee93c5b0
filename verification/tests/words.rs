//! Tests of the fixed-width words: conversion, negation, sign, halves
//! and the textual form.

use setun::{Trit, Tryte9, Word18};

#[test]
fn test_tryte9_zero() {
    let zero = Tryte9::zero();
    assert_eq!(zero.to_i32(), 0);
    assert!(zero.is_zero());
}

#[test]
fn test_tryte9_from_i32() {
    assert_eq!(Tryte9::from_i32(0).to_i32(), 0);
    assert_eq!(Tryte9::from_i32(1).to_i32(), 1);
    assert_eq!(Tryte9::from_i32(-1).to_i32(), -1);
    assert_eq!(Tryte9::from_i32(42).to_i32(), 42);
    assert_eq!(Tryte9::from_i32(-42).to_i32(), -42);
    assert_eq!(Tryte9::from_i32(9841).to_i32(), 9841);
    assert_eq!(Tryte9::from_i32(-9841).to_i32(), -9841);
}

#[test]
fn test_tryte9_negation() {
    let value = Tryte9::from_i32(42);
    let negated = value.neg();
    assert_eq!(negated.to_i32(), -42);
    assert_eq!(negated.neg().to_i32(), 42);
}

#[test]
fn test_tryte9_sign() {
    assert_eq!(Tryte9::from_i32(42).sign(), Trit::P);
    assert_eq!(Tryte9::from_i32(-42).sign(), Trit::N);
    assert_eq!(Tryte9::from_i32(0).sign(), Trit::O);
}

#[test]
fn test_tryte9_parse() {
    let parsed = Tryte9::parse("OOOOOOPON").unwrap();
    assert_eq!(parsed.to_i32(), 8);

    let forty_two = Tryte9::from_i32(42);
    let parsed_42 = Tryte9::parse(&forty_two.to_text()).unwrap();
    assert_eq!(parsed_42.to_i32(), 42);

    let all_p = Tryte9::parse("PPPPPPPPP").unwrap();
    assert_eq!(all_p.to_i32(), 9841);
}

#[test]
fn test_word18_basics() {
    let zero = Word18::zero();
    assert_eq!(zero.to_i64(), 0);
    assert!(zero.is_zero());

    let value = Word18::from_i64(123456);
    assert_eq!(value.to_i64(), 123456);

    let negated = value.neg();
    assert_eq!(negated.to_i64(), -123456);
}

#[test]
fn test_word18_halves() {
    let low = Tryte9::from_i32(42);
    let high = Tryte9::from_i32(100);
    let combined = Word18::from_halves(low, high);

    assert_eq!(combined.low().to_i32(), 42);
    assert_eq!(combined.high().to_i32(), 100);
}

#[test]
fn test_tryte9_to_word18() {
    let positive = Tryte9::from_i32(42);
    let extended = positive.to_word18();
    assert_eq!(extended.to_i64(), 42);

    let negative = Tryte9::from_i32(-42);
    let extended_neg = negative.to_word18();
    assert_eq!(extended_neg.to_i64(), -42);
}

#[test]
fn test_text_roundtrip_many_values() {
    // Parsing the canonical text gives the value back.
    for v in [-9841, -1000, -42, -1, 0, 1, 42, 1000, 9841] {
        let w = Tryte9::from_i32(v);
        assert_eq!(Tryte9::parse(&w.to_text()).unwrap().to_i32(), v);
    }
    for v in [-193710244i64, -56088, 0, 56088, 193710244] {
        let w = Word18::from_i64(v);
        assert_eq!(Word18::parse(&w.to_text()).unwrap().to_i64(), v);
    }
}

#[test]
fn test_to_text_form() {
    assert_eq!(Tryte9::from_i32(0).to_text(), "0tOOOOOOOOO");
    assert_eq!(Tryte9::from_i32(1).to_text(), "0tOOOOOOOOP");
    assert_eq!(Tryte9::from_i32(-1).to_text(), "0tOOOOOOOON");
    // 8 = 9 - 1 prints as P O N in the low places.
    assert_eq!(Tryte9::from_i32(8).to_text(), "0tOOOOOOPON");
}

#[test]
fn test_parse_rejects_wrong_length() {
    assert!(Tryte9::parse("PON").is_err());
    assert!(Tryte9::parse("").is_err());
    assert!(Word18::parse("PON").is_err());
}

#[test]
fn test_parse_rejects_bad_character() {
    assert!(Tryte9::parse("OOOOOOXON").is_err());
}

#[test]
fn test_parse_accepts_aliases_and_whitespace() {
    // n/o/p and -/0/+ name the same trits; surrounding whitespace and
    // a 0t marker are ignored.
    assert_eq!(Tryte9::parse("  0tooooooopn  ").unwrap().to_i32(), 2);
    assert_eq!(Tryte9::parse("000000+0-").unwrap().to_i32(), 8);
}

#[test]
fn test_parse_trims_unicode_whitespace() {
    // The trimming matches the host's notion of whitespace: a word
    // padded with no-break spaces or ideographic spaces still parses.
    assert_eq!(Tryte9::parse("\u{00A0}OOOOOOPON\u{00A0}").unwrap().to_i32(), 8);
    assert_eq!(Tryte9::parse("\u{2003}\u{3000}PPPPPPPPP\t\r\n").unwrap().to_i32(), 9841);
}

#[test]
fn test_word18_set_get() {
    let mut w = Word18::zero();
    w.set(17, Trit::P);
    assert_eq!(w.get(17), Trit::P);
    assert_eq!(w.to_i64(), 129140163);
}

#[test]
fn test_conversion_roundtrip_word18() {
    for v in [-193710244i64, -12345, -1, 0, 1, 12345, 193710244] {
        assert_eq!(Word18::from_i64(v).to_i64(), v);
    }
}
