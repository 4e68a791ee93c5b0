//! Tests of the trit-wise operations on words.

use setun::ternary::ops::TritOps;
use setun::{Tryte9, Word18};

#[test]
fn test_tryte9_ternary_min() {
    let a = Tryte9::from_i32(42);
    let b = Tryte9::from_i32(-10);
    let result = a.ternary_min(&b);

    for i in 0..9 {
        assert_eq!(result.get(i), a.get(i).min(b.get(i)));
    }
}

#[test]
fn test_tryte9_ternary_max() {
    let a = Tryte9::from_i32(42);
    let b = Tryte9::from_i32(-10);
    let result = a.ternary_max(&b);

    for i in 0..9 {
        assert_eq!(result.get(i), a.get(i).max(b.get(i)));
    }
}

#[test]
fn test_word18_tritwise_ops() {
    let a = Word18::from_i64(12345);
    let b = Word18::from_i64(-6789);

    let _neg = a.ternary_neg();
    let _min = a.ternary_min(&b);
    let _max = a.ternary_max(&b);
    let _cons = a.ternary_consensus(&b);
}

#[test]
fn test_word18_consensus_and_neg() {
    let a = Word18::from_i64(12345);
    let b = Word18::from_i64(-6789);
    let cons = a.ternary_consensus(&b);
    for i in 0..18 {
        assert_eq!(cons.get(i), a.get(i).consensus(b.get(i)));
    }
    assert_eq!(a.ternary_neg().to_i64(), -12345);
}
