//! Single balanced ternary digit (trit).
//!
//! A trit holds one of three values: -1, 0, or +1, written N, O and P.
//! The machine's whole arithmetic is built from the digit operations here:
//! negation, the half-adder pair (sum and carry), the three-input full
//! adder, and single-digit multiplication, which never carries.

use vstd::prelude::*;

verus! {

/// A single balanced ternary digit.
#[derive(Clone, Copy, Debug, PartialEq, Eq, Hash, Structural)]
pub enum Trit {
    /// Negative (-1)
    N,
    /// Zero (0)
    O,
    /// Positive (+1)
    P,
}

/// The integer value a trit stands for.
pub open spec fn trit_val(t: Trit) -> int {
    match t {
        Trit::N => -1,
        Trit::O => 0,
        Trit::P => 1,
    }
}

/// Trit negation at the spec level: N and P swap, O stays.
pub open spec fn trit_neg(t: Trit) -> Trit {
    match t {
        Trit::N => Trit::P,
        Trit::O => Trit::O,
        Trit::P => Trit::N,
    }
}

/// The carry produced when two trits are added: -1 on a sum of -2,
/// +1 on a sum of +2, and 0 otherwise.
pub open spec fn half_carry_val(a: Trit, b: Trit) -> int {
    if trit_val(a) + trit_val(b) == 2 {
        1
    } else if trit_val(a) + trit_val(b) == -2 {
        -1
    } else {
        0
    }
}

impl Trit {
    /// Create a trit from its raw binary-coded-ternary byte
    /// (0b00 = O, 0b01 = P, 0b10 = N; 0b11 is not a trit).
    pub fn from_bct(byte: u8) -> (r: Self)
        requires
            byte & 3 != 3,
        ensures
            byte & 3 == 0 ==> r == Trit::O,
            byte & 3 == 1 ==> r == Trit::P,
            byte & 3 == 2 ==> r == Trit::N,
    {
        assert(byte & 3 < 4) by (bit_vector);
        let low = byte & 3;
        match low {
            0 => Trit::O,
            1 => Trit::P,
            2 => Trit::N,
            _ => {
                assert(false);
                Trit::O
            },
        }
    }

    /// The raw binary-coded-ternary byte of this trit.
    pub fn to_bct(self) -> (r: u8)
        ensures
            r == (match self {
                Trit::O => 0u8,
                Trit::P => 1u8,
                Trit::N => 2u8,
            }),
    {
        match self {
            Trit::O => 0,
            Trit::P => 1,
            Trit::N => 2,
        }
    }

    /// Create a trit from an integer in {-1, 0, 1}.
    pub fn from_i8(value: i8) -> (r: Self)
        requires
            -1 <= value <= 1,
        ensures
            trit_val(r) == value as int,
    {
        match value {
            -1 => Trit::N,
            0 => Trit::O,
            _ => Trit::P,
        }
    }

    /// The integer value of this trit.
    pub fn to_i8(self) -> (r: i8)
        ensures
            r as int == trit_val(self),
    {
        match self {
            Trit::N => -1,
            Trit::O => 0,
            Trit::P => 1,
        }
    }

    /// Negate the trit (flip N and P, O stays O).
    pub fn neg(self) -> (r: Self)
        ensures
            r == trit_neg(self),
            trit_val(r) == -trit_val(self),
    {
        match self {
            Trit::N => Trit::P,
            Trit::O => Trit::O,
            Trit::P => Trit::N,
        }
    }

    /// Minimum (ternary AND): the lesser of the two values.
    pub fn min(self, other: Self) -> (r: Self)
        ensures
            trit_val(r) == if trit_val(self) <= trit_val(other) {
                trit_val(self)
            } else {
                trit_val(other)
            },
    {
        if self.to_i8() <= other.to_i8() {
            self
        } else {
            other
        }
    }

    /// Maximum (ternary OR): the greater of the two values.
    pub fn max(self, other: Self) -> (r: Self)
        ensures
            trit_val(r) == if trit_val(self) >= trit_val(other) {
                trit_val(self)
            } else {
                trit_val(other)
            },
    {
        if self.to_i8() >= other.to_i8() {
            self
        } else {
            other
        }
    }

    /// Consensus: the shared value when both inputs agree, else O.
    pub fn consensus(self, other: Self) -> (r: Self)
        ensures
            trit_val(r) == if self == other {
                trit_val(self)
            } else {
                0int
            },
    {
        match (self, other) {
            (Trit::P, Trit::P) => Trit::P,
            (Trit::N, Trit::N) => Trit::N,
            _ => Trit::O,
        }
    }

    /// Any (gullibility): the first non-zero input, used to combine the
    /// two carries of a full adder, which are never both non-zero.
    pub fn any(self, other: Self) -> (r: Self)
        ensures
            r == if self == Trit::O {
                other
            } else {
                self
            },
    {
        match self {
            Trit::O => other,
            _ => self,
        }
    }

    /// Half-adder sum: (self + other) wrapped into {-1, 0, 1}
    /// (-2 wraps to +1 and +2 wraps to -1).
    pub fn sum(self, other: Self) -> (r: Self)
        ensures
            trit_val(r) + 3 * half_carry_val(self, other) == trit_val(self) + trit_val(other),
    {
        let total = self.to_i8() + other.to_i8();
        match total {
            -2 => Trit::P,
            -1 => Trit::N,
            0 => Trit::O,
            1 => Trit::P,
            _ => Trit::N,
        }
    }

    /// Half-adder carry for self + other.
    pub fn carry(self, other: Self) -> (r: Self)
        ensures
            trit_val(r) == half_carry_val(self, other),
    {
        let total = self.to_i8() + other.to_i8();
        match total {
            -2 => Trit::N,
            2 => Trit::P,
            _ => Trit::O,
        }
    }

    /// Full adder: add three trits, returning (sum, carry_out).
    /// The pair is the unique balanced-ternary splitting of the total:
    /// sum + 3 * carry_out = self + other + carry_in.
    pub fn full_add(self, other: Self, carry_in: Self) -> (r: (Self, Self))
        ensures
            trit_val(r.0) + 3 * trit_val(r.1) == trit_val(self) + trit_val(other) + trit_val(
                carry_in,
            ),
    {
        let s1 = self.sum(other);
        let c1 = self.carry(other);
        let sum2 = s1.sum(carry_in);
        let c2 = s1.carry(carry_in);
        // The two carries are never both +1 nor both -1, so their
        // half-adder sum never wraps and is the exact combined carry.
        let carry_out = c1.sum(c2);
        (sum2, carry_out)
    }

    /// Single-trit multiplication; never carries.
    pub fn mul(self, other: Self) -> (r: Self)
        ensures
            trit_val(r) == trit_val(self) * trit_val(other),
    {
        match (self, other) {
            (Trit::O, _) | (_, Trit::O) => Trit::O,
            (Trit::P, Trit::P) | (Trit::N, Trit::N) => Trit::P,
            (Trit::P, Trit::N) | (Trit::N, Trit::P) => Trit::N,
        }
    }

    /// True when this trit is zero.
    pub fn is_zero(self) -> (r: bool)
        ensures
            r == (trit_val(self) == 0),
    {
        matches!(self, Trit::O)
    }

    /// True when this trit is positive.
    pub fn is_positive(self) -> (r: bool)
        ensures
            r == (trit_val(self) == 1),
    {
        matches!(self, Trit::P)
    }

    /// True when this trit is negative.
    pub fn is_negative(self) -> (r: bool)
        ensures
            r == (trit_val(self) == -1),
    {
        matches!(self, Trit::N)
    }
}

impl Default for Trit {
    /// The default trit is zero.
    fn default() -> (r: Self)
        ensures
            r == Trit::O,
    {
        Trit::O
    }
}

} // verus!
