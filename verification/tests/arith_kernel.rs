//! Tests of the multi-trit arithmetic kernel.

use setun::ternary::arith;
use setun::{Trit, Tryte9, Word18};

#[test]
fn test_add_basic() {
    let a = Word18::from_i64(100);
    let b = Word18::from_i64(50);
    let (result, carry) = arith::add(&a, &b);

    assert_eq!(result.to_i64(), 150);
    assert!(carry.is_zero());
}

#[test]
fn test_add_negative() {
    let a = Word18::from_i64(100);
    let b = Word18::from_i64(-150);
    let (result, _) = arith::add(&a, &b);

    assert_eq!(result.to_i64(), -50);
}

#[test]
fn test_subtract() {
    let a = Word18::from_i64(100);
    let b = Word18::from_i64(30);
    let (result, _) = arith::subtract(&a, &b);

    assert_eq!(result.to_i64(), 70);
}

#[test]
fn test_multiply_simple() {
    let a = Word18::from_i64(7);
    let b = Word18::from_i64(6);
    let (low, high) = arith::multiply(&a, &b);

    assert_eq!(low.to_i64(), 42);
    assert!(high.is_zero());
}

#[test]
fn test_multiply_negative() {
    let a = Word18::from_i64(-7);
    let b = Word18::from_i64(6);
    let (low, high) = arith::multiply(&a, &b);

    assert_eq!(low.to_i64(), -42);
    assert!(high.to_i64() <= 0);
}

#[test]
fn test_multiply_larger() {
    let a = Word18::from_i64(1000);
    let b = Word18::from_i64(1000);
    let (low, high) = arith::multiply(&a, &b);

    assert_eq!(low.to_i64(), 1_000_000);
    assert!(high.is_zero());
}

#[test]
fn test_shift_left() {
    let a = Word18::from_i64(1);

    let shifted = arith::shift_left(&a, 1);
    assert_eq!(shifted.to_i64(), 3);

    let shifted2 = arith::shift_left(&a, 2);
    assert_eq!(shifted2.to_i64(), 9);
}

#[test]
fn test_shift_right() {
    let a = Word18::from_i64(27);

    let shifted = arith::shift_right(&a, 1);
    assert_eq!(shifted.to_i64(), 9);

    let shifted3 = arith::shift_right(&a, 3);
    assert_eq!(shifted3.to_i64(), 1);
}

#[test]
fn test_additive_inverse() {
    for val in [-9841i64, -100, -1, 0, 1, 100, 9841] {
        let a = Word18::from_i64(val);
        let neg_a = arith::negate(&a);
        let (result, _) = arith::add(&a, &neg_a);
        assert!(result.is_zero(), "Expected {} + (-{}) = 0", val, val);
    }
}

#[test]
fn test_add_commutativity() {
    let a = Word18::from_i64(12345);
    let b = Word18::from_i64(-6789);

    let (r1, _) = arith::add(&a, &b);
    let (r2, _) = arith::add(&b, &a);

    assert_eq!(r1.to_i64(), r2.to_i64());
}

#[test]
fn test_tryte9_add() {
    let a = Tryte9::from_i32(100);
    let b = Tryte9::from_i32(50);
    let (result, carry) = arith::add_tryte9(&a, &b);

    assert_eq!(result.to_i32(), 150);
    assert!(carry.is_zero());
}

#[test]
fn test_additive_inverse_carry_is_zero() {
    // The pair for x + neg(x) is the zero word with carry O.
    for val in [-193710244i64, -5, 0, 7, 193710244] {
        let a = Word18::from_i64(val);
        let (result, carry) = arith::add(&a, &arith::negate(&a));
        assert!(result.is_zero());
        assert_eq!(carry, Trit::O);
    }
}

#[test]
fn test_add_wraps_with_carry() {
    // A sum past the top of the range wraps and signals with a carry.
    let a = Word18::from_i64(193710244);
    let b = Word18::from_i64(1);
    let (result, carry) = arith::add(&a, &b);
    assert_eq!(carry, Trit::P);
    assert_eq!(result.to_i64(), 193710244 + 1 - 387420489);
}

#[test]
fn test_would_overflow() {
    let top = Word18::from_i64(193710244);
    let one = Word18::from_i64(1);
    assert!(arith::would_overflow(&top, &one));
    assert!(!arith::would_overflow(&top, &Word18::from_i64(0)));
    assert!(!arith::would_overflow(&Word18::from_i64(5), &Word18::from_i64(6)));
}

#[test]
fn test_multiply_add_consistency() {
    // high * 3^18 + low recovers the exact product over the integers.
    let cases: [(i64, i64); 5] = [(123, 456), (-123, 456), (9841, 9841), (193710244, 2), (-7, -8)];
    for (x, y) in cases {
        let (low, high) = arith::multiply(&Word18::from_i64(x), &Word18::from_i64(y));
        let got = low.to_i64() as i128 + high.to_i64() as i128 * 387420489i128;
        assert_eq!(got, x as i128 * y as i128);
    }
}

#[test]
fn test_shift_is_power_of_three() {
    // shift_left(x, k) = x * 3^k and shift_right(x, k) rounds x / 3^k
    // to the nearest integer while everything stays in range.
    let x = Word18::from_i64(12345);
    assert_eq!(arith::shift_left(&x, 3).to_i64(), 12345 * 27);
    assert_eq!(arith::shift_right(&x, 2).to_i64(), 1372);  // 12345/9 = 1371.67
    // Nearest rounding: 5 / 3 rounds to 2.
    assert_eq!(arith::shift_right(&Word18::from_i64(5), 1).to_i64(), 2);
    // A shift by the width or more clears the word.
    assert_eq!(arith::shift_left(&x, 18).to_i64(), 0);
    assert_eq!(arith::shift_right(&x, 18).to_i64(), 0);
}

#[test]
fn test_compare() {
    let a = Word18::from_i64(-3);
    let b = Word18::from_i64(4);
    assert_eq!(arith::compare(&a, &b), std::cmp::Ordering::Less);
    assert_eq!(arith::compare(&b, &a), std::cmp::Ordering::Greater);
    assert_eq!(arith::compare(&a, &a), std::cmp::Ordering::Equal);
}
