//! The register file of the machine.
//!
//! Five registers: S (18-trit accumulator), R (18-trit multiplier),
//! F (5-trit index register), C (9-trit program counter) and the
//! single-trit sign flag omega.

use vstd::prelude::*;

use crate::ternary::trit::{trit_val, Trit};
use crate::ternary::word::{
    all_zero,
    bal_trits,
    bal_word,
    lemma_all_zero_iff,
    lemma_pow3_values,
    lemma_seq_val_append,
    lemma_seq_val_bound,
    lemma_seq_val_neg,
    lemma_tryte9_width,
    neg_array,
    seq_neg,
    seq_val,
    word_val,
    Tryte9,
    Word18,
};

verus! {

broadcast use lemma_tryte9_width;

/// A 5-trit value for the index register F.  Range: -121 to +121.
#[derive(Clone, Copy, Debug, PartialEq, Eq, Hash)]
pub struct Tryte5 {
    trits: [Trit; 5],
}

impl View for Tryte5 {
    type V = Seq<Trit>;

    closed spec fn view(&self) -> Seq<Trit> {
        self.trits@
    }
}

/// Every Tryte5 holds exactly 5 trits.
pub broadcast proof fn lemma_tryte5_width(w: Tryte5)
    ensures
        (#[trigger] w@).len() == 5,
{
}

impl Tryte5 {
    /// Largest value, all trits P.
    pub const MAX: i32 = 121;

    /// Smallest value, all trits N.
    pub const MIN: i32 = -121;

    /// The numeric value of this word.
    pub open spec fn val(self) -> int {
        seq_val(self@)
    }

    /// The zero value.
    pub fn zero() -> (r: Self)
        ensures
            all_zero(r@),
            r.val() == 0,
    {
        let trits: [Trit; 5] = vstd::array::array_fill_for_copy_types::<Trit, 5>(Trit::O);
        proof {
            lemma_all_zero_iff(trits@);
        }
        Tryte5 { trits }
    }

    /// The 5-trit word with the given value; inverts `to_i32`.
    pub fn from_i32(value: i32) -> (r: Self)
        requires
            -121 <= value <= 121,
        ensures
            r.val() == value as int,
            r@ == bal_trits(value as int, 5),
    {
        proof {
            lemma_pow3_values();
        }
        let trits: [Trit; 5] = bal_word::<5>(value as i64);
        Tryte5 { trits }
    }

    /// The numeric value, inverse of `from_i32`.
    pub fn to_i32(&self) -> (r: i32)
        ensures
            r as int == self.val(),
            -121 <= r <= 121,
    {
        proof {
            lemma_pow3_values();
            lemma_seq_val_bound(self@);
        }
        word_val::<5>(&self.trits) as i32
    }

    /// Negate every trit; the value is negated.
    pub fn neg(&self) -> (r: Self)
        ensures
            r@ == seq_neg(self@),
            r.val() == -self.val(),
    {
        proof {
            lemma_seq_val_neg(self@);
        }
        Tryte5 { trits: neg_array(&self.trits) }
    }

    /// Zero-extend to a 9-trit word; the value is preserved.
    pub fn to_tryte9(&self) -> (r: Tryte9)
        ensures
            r@ == self@ + Seq::new(4, |i: int| Trit::O),
            r.val() == self.val(),
    {
        let mut trits: [Trit; 9] = vstd::array::array_fill_for_copy_types::<Trit, 9>(Trit::O);
        let mut i: usize = 0;
        while i < 5
            invariant
                i <= 5,
                trits@.len() == 9,
                self@.len() == 5,
                forall|j: int| 0 <= j < i ==> trits@[j] == self@[j],
                forall|j: int| 5 <= j < 9 ==> trits@[j] == Trit::O,
            decreases 5 - i,
        {
            trits[i] = self.trits[i];
            i = i + 1;
        }
        let ghost zeros = Seq::new(4, |i: int| Trit::O);
        proof {
            assert(trits@ =~= self@ + zeros);
            lemma_seq_val_append(self@, zeros);
            lemma_all_zero_iff(zeros);
        }
        Tryte9::from_trits(trits)
    }
}

impl Default for Tryte5 {
    /// The default value is zero.
    fn default() -> (r: Self)
        ensures
            all_zero(r@),
            r.val() == 0,
    {
        Tryte5::zero()
    }
}

/// The register file.
#[derive(Clone, Copy, Debug)]
pub struct Registers {
    /// S: 18-trit accumulator, the main computation register.
    pub s: Word18,
    /// R: 18-trit multiplier/quotient register.
    pub r: Word18,
    /// F: 5-trit index register for address modification.
    pub f: Tryte5,
    /// C: 9-trit program counter.
    pub c: Tryte9,
    /// omega: single-trit sign flag, the sign of S after the
    /// operations that set it.
    pub omega: Trit,
}

/// All five registers hold zero.
pub open spec fn regs_zeroed(r: Registers) -> bool {
    &&& r.s.val() == 0
    &&& r.r.val() == 0
    &&& r.f.val() == 0
    &&& r.c.val() == 0
    &&& r.omega == Trit::O
}

impl Registers {
    /// A register file with every register zeroed.
    pub fn new() -> (r: Self)
        ensures
            regs_zeroed(r),
    {
        Registers {
            s: Word18::zero(),
            r: Word18::zero(),
            f: Tryte5::zero(),
            c: Tryte9::zero(),
            omega: Trit::O,
        }
    }

    /// Zero every register again.
    pub fn reset(&mut self)
        ensures
            regs_zeroed(*final(self)),
    {
        self.s = Word18::zero();
        self.r = Word18::zero();
        self.f = Tryte5::zero();
        self.c = Tryte9::zero();
        self.omega = Trit::O;
    }

    /// Set omega to the sign of an 18-trit value.
    pub fn set_omega_from_word(&mut self, value: &Word18)
        ensures
            trit_val(final(self).omega) == crate::ternary::word::sign_of(value.val()),
            final(self).s == old(self).s,
            final(self).r == old(self).r,
            final(self).f == old(self).f,
            final(self).c == old(self).c,
    {
        self.omega = value.sign();
    }

    /// Set omega to the sign of a 9-trit value.
    pub fn set_omega_from_tryte(&mut self, value: &Tryte9)
        ensures
            trit_val(final(self).omega) == crate::ternary::word::sign_of(value.val()),
            final(self).s == old(self).s,
            final(self).r == old(self).r,
            final(self).f == old(self).f,
            final(self).c == old(self).c,
    {
        self.omega = value.sign();
    }

    /// Set omega directly.
    pub fn set_omega(&mut self, sign: Trit)
        ensures
            final(self).omega == sign,
            final(self).s == old(self).s,
            final(self).r == old(self).r,
            final(self).f == old(self).f,
            final(self).c == old(self).c,
    {
        self.omega = sign;
    }

    /// Advance the program counter by one cell; returns the old value.
    /// The counter must not already sit at the top of its range.
    pub fn advance_pc(&mut self) -> (r: Tryte9)
        requires
            old(self).c.val() < 9841,
        ensures
            r == old(self).c,
            final(self).c.val() == old(self).c.val() + 1,
            final(self).s == old(self).s,
            final(self).r == old(self).r,
            final(self).f == old(self).f,
            final(self).omega == old(self).omega,
    {
        let old_c = self.c;
        let new_val = self.c.to_i32() + 1;
        self.c = Tryte9::from_i32(new_val);
        old_c
    }

    /// Set the program counter to an absolute address.
    pub fn jump(&mut self, addr: Tryte9)
        ensures
            final(self).c == addr,
            final(self).s == old(self).s,
            final(self).r == old(self).r,
            final(self).f == old(self).f,
            final(self).omega == old(self).omega,
    {
        self.c = addr;
    }

    /// The effective address after index modification: base + F for
    /// mode P, base - F for mode N, base unchanged for mode O.  The
    /// result must fit a 9-trit word.
    pub fn effective_address(&self, base_addr: Tryte9, mode: Trit) -> (r: Tryte9)
        requires
            -9841 <= base_addr.val() + trit_val(mode) * self.f.val() <= 9841,
        ensures
            r.val() == base_addr.val() + trit_val(mode) * self.f.val(),
    {
        let base = base_addr.to_i32();
        let f_val = self.f.to_i32();
        let effective = match mode {
            Trit::P => base + f_val,
            Trit::O => base,
            Trit::N => base - f_val,
        };
        Tryte9::from_i32(effective)
    }
}

impl Default for Registers {
    /// The default register file is all zeros.
    fn default() -> (r: Self)
        ensures
            regs_zeroed(r),
    {
        Registers::new()
    }
}

} // verus!
