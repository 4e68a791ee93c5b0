//! Tests of the single-digit algebra.

use setun::Trit;

#[test]
fn test_negation_involution() {
    for t in [Trit::N, Trit::O, Trit::P] {
        assert_eq!(t.neg().neg(), t, "negate(negate({:?})) should equal {:?}", t, t);
    }
}

#[test]
fn test_sum_commutativity() {
    for a in [Trit::N, Trit::O, Trit::P] {
        for b in [Trit::N, Trit::O, Trit::P] {
            assert_eq!(a.sum(b), b.sum(a), "sum({:?}, {:?}) should be commutative", a, b);
        }
    }
}

#[test]
fn test_multiplication_table() {
    assert_eq!(Trit::N.mul(Trit::N), Trit::P);
    assert_eq!(Trit::N.mul(Trit::O), Trit::O);
    assert_eq!(Trit::N.mul(Trit::P), Trit::N);

    assert_eq!(Trit::O.mul(Trit::N), Trit::O);
    assert_eq!(Trit::O.mul(Trit::O), Trit::O);
    assert_eq!(Trit::O.mul(Trit::P), Trit::O);

    assert_eq!(Trit::P.mul(Trit::N), Trit::N);
    assert_eq!(Trit::P.mul(Trit::O), Trit::O);
    assert_eq!(Trit::P.mul(Trit::P), Trit::P);
}

#[test]
fn test_full_adder() {
    assert_eq!(Trit::O.full_add(Trit::O, Trit::O), (Trit::O, Trit::O));
    assert_eq!(Trit::P.full_add(Trit::P, Trit::O), (Trit::N, Trit::P));
    assert_eq!(Trit::P.full_add(Trit::P, Trit::P), (Trit::O, Trit::P));
    assert_eq!(Trit::N.full_add(Trit::N, Trit::N), (Trit::O, Trit::N));
}

#[test]
fn test_consensus() {
    assert_eq!(Trit::P.consensus(Trit::P), Trit::P);
    assert_eq!(Trit::N.consensus(Trit::N), Trit::N);
    assert_eq!(Trit::O.consensus(Trit::O), Trit::O);
    assert_eq!(Trit::P.consensus(Trit::N), Trit::O);
    assert_eq!(Trit::P.consensus(Trit::O), Trit::O);
}

#[test]
fn test_min_max() {
    assert_eq!(Trit::P.min(Trit::N), Trit::N);
    assert_eq!(Trit::P.max(Trit::N), Trit::P);
    assert_eq!(Trit::O.min(Trit::P), Trit::O);
    assert_eq!(Trit::O.max(Trit::N), Trit::O);
}

#[test]
fn test_bct_roundtrip() {
    for t in [Trit::N, Trit::O, Trit::P] {
        assert_eq!(Trit::from_bct(t.to_bct()), t);
    }
}

#[test]
fn test_i8_roundtrip() {
    for t in [Trit::N, Trit::O, Trit::P] {
        assert_eq!(Trit::from_i8(t.to_i8()), t);
    }
}

#[test]
fn test_full_adder_exhaustive_split() {
    // The full adder's pair always splits the exact digit total.
    for a in [Trit::N, Trit::O, Trit::P] {
        for b in [Trit::N, Trit::O, Trit::P] {
            for c in [Trit::N, Trit::O, Trit::P] {
                let (s, co) = a.full_add(b, c);
                assert_eq!(
                    s.to_i8() as i32 + 3 * co.to_i8() as i32,
                    a.to_i8() as i32 + b.to_i8() as i32 + c.to_i8() as i32
                );
            }
        }
    }
}

#[test]
fn test_any_prefers_first() {
    assert_eq!(Trit::P.any(Trit::N), Trit::P);
    assert_eq!(Trit::O.any(Trit::N), Trit::N);
    assert_eq!(Trit::O.any(Trit::O), Trit::O);
}
