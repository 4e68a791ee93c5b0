//! Trit-wise operations shared by all ternary types: negation, the
//! ternary AND (minimum), the ternary OR (maximum), and consensus,
//! applied digit by digit.

use vstd::prelude::*;

use crate::ternary::trit::{trit_val, Trit};
use crate::ternary::word::{seq_neg, Tryte9, Word18};

verus! {

broadcast use crate::ternary::word::lemma_tryte9_width, crate::ternary::word::lemma_word18_width;

/// The lesser of two trits.
pub open spec fn trit_min(a: Trit, b: Trit) -> Trit {
    if trit_val(a) <= trit_val(b) {
        a
    } else {
        b
    }
}

/// The greater of two trits.
pub open spec fn trit_max(a: Trit, b: Trit) -> Trit {
    if trit_val(a) >= trit_val(b) {
        a
    } else {
        b
    }
}

/// The shared value of two agreeing trits, O otherwise.
pub open spec fn trit_consensus(a: Trit, b: Trit) -> Trit {
    if a == b {
        a
    } else {
        Trit::O
    }
}

/// Types made of trits, with the digit-wise operations on them.
pub trait TritOps: Sized {
    /// The trits of the value, least significant first.
    spec fn trits_view(&self) -> Seq<Trit>;

    /// Negate every trit.
    fn ternary_neg(&self) -> (r: Self)
        ensures
            r.trits_view() == seq_neg(self.trits_view()),
    ;

    /// The trit-wise minimum (ternary AND).
    fn ternary_min(&self, other: &Self) -> (r: Self)
        requires
            self.trits_view().len() == other.trits_view().len(),
        ensures
            r.trits_view().len() == self.trits_view().len(),
            forall|i: int|
                0 <= i < r.trits_view().len() ==> #[trigger] r.trits_view()[i] == trit_min(
                    self.trits_view()[i],
                    other.trits_view()[i],
                ),
    ;

    /// The trit-wise maximum (ternary OR).
    fn ternary_max(&self, other: &Self) -> (r: Self)
        requires
            self.trits_view().len() == other.trits_view().len(),
        ensures
            r.trits_view().len() == self.trits_view().len(),
            forall|i: int|
                0 <= i < r.trits_view().len() ==> #[trigger] r.trits_view()[i] == trit_max(
                    self.trits_view()[i],
                    other.trits_view()[i],
                ),
    ;

    /// The trit-wise consensus.
    fn ternary_consensus(&self, other: &Self) -> (r: Self)
        requires
            self.trits_view().len() == other.trits_view().len(),
        ensures
            r.trits_view().len() == self.trits_view().len(),
            forall|i: int|
                0 <= i < r.trits_view().len() ==> #[trigger] r.trits_view()[i] == trit_consensus(
                    self.trits_view()[i],
                    other.trits_view()[i],
                ),
    ;
}

/// Which digit-wise operation a combining loop applies.
enum Combine {
    Min,
    Max,
    Consensus,
}

impl Combine {
    /// The operation at the spec level.
    spec fn apply_spec(self, a: Trit, b: Trit) -> Trit {
        match self {
            Combine::Min => trit_min(a, b),
            Combine::Max => trit_max(a, b),
            Combine::Consensus => trit_consensus(a, b),
        }
    }

    /// Apply the operation to one pair of trits.
    fn apply(&self, a: Trit, b: Trit) -> (r: Trit)
        ensures
            r == self.apply_spec(a, b),
    {
        match self {
            Combine::Min => a.min(b),
            Combine::Max => a.max(b),
            Combine::Consensus => a.consensus(b),
        }
    }
}

/// Combine two trit arrays digit by digit.
fn combine_arrays<const N: usize>(a: &[Trit; N], b: &[Trit; N], op: &Combine) -> (r: [Trit; N])
    ensures
        forall|i: int| 0 <= i < N ==> #[trigger] r@[i] == op.apply_spec(a@[i], b@[i]),
{
    let mut out: [Trit; N] = vstd::array::array_fill_for_copy_types::<Trit, N>(Trit::O);
    let mut i: usize = 0;
    while i < N
        invariant
            i <= N,
            out@.len() == N,
            a@.len() == N,
            b@.len() == N,
            forall|j: int| 0 <= j < i ==> #[trigger] out@[j] == op.apply_spec(a@[j], b@[j]),
        decreases N - i,
    {
        out[i] = op.apply(a[i], b[i]);
        i = i + 1;
    }
    out
}

impl TritOps for Trit {
    open spec fn trits_view(&self) -> Seq<Trit> {
        seq![*self]
    }

    fn ternary_neg(&self) -> (r: Self)
        ensures
            r.trits_view() == seq_neg(self.trits_view()),
    {
        let r = self.neg();
        proof {
            assert(r.trits_view() =~= seq_neg(self.trits_view()));
        }
        r
    }

    fn ternary_min(&self, other: &Self) -> (r: Self) {
        Trit::min(*self, *other)
    }

    fn ternary_max(&self, other: &Self) -> (r: Self) {
        Trit::max(*self, *other)
    }

    fn ternary_consensus(&self, other: &Self) -> (r: Self) {
        self.consensus(*other)
    }
}

impl TritOps for Tryte9 {
    open spec fn trits_view(&self) -> Seq<Trit> {
        self@
    }

    fn ternary_neg(&self) -> (r: Self) {
        self.neg()
    }

    fn ternary_min(&self, other: &Self) -> (r: Self) {
        Tryte9::from_trits(combine_arrays::<9>(self.trits(), other.trits(), &Combine::Min))
    }

    fn ternary_max(&self, other: &Self) -> (r: Self) {
        Tryte9::from_trits(combine_arrays::<9>(self.trits(), other.trits(), &Combine::Max))
    }

    fn ternary_consensus(&self, other: &Self) -> (r: Self) {
        Tryte9::from_trits(combine_arrays::<9>(self.trits(), other.trits(), &Combine::Consensus))
    }
}

impl TritOps for Word18 {
    open spec fn trits_view(&self) -> Seq<Trit> {
        self@
    }

    fn ternary_neg(&self) -> (r: Self) {
        self.neg()
    }

    fn ternary_min(&self, other: &Self) -> (r: Self) {
        Word18::from_trits(combine_arrays::<18>(self.trits(), other.trits(), &Combine::Min))
    }

    fn ternary_max(&self, other: &Self) -> (r: Self) {
        Word18::from_trits(combine_arrays::<18>(self.trits(), other.trits(), &Combine::Max))
    }

    fn ternary_consensus(&self, other: &Self) -> (r: Self) {
        Word18::from_trits(combine_arrays::<18>(self.trits(), other.trits(), &Combine::Consensus))
    }
}

} // verus!
