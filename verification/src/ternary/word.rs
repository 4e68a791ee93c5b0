//! Fixed-width balanced ternary words.
//!
//! Two word sizes are used by the machine: `Tryte9`, the 9-trit cell that
//! holds one memory word or one instruction, and `Word18`, the 18-trit word
//! of the accumulator S and the multiplier register R.
//!
//! A word is a little-endian sequence of trits; its numeric value is the sum
//! of `trit * 3^position`.  Balanced ternary has no sign bit: the sign of a
//! word is the sign of its leading non-zero trit, negation flips every trit,
//! and a fixed-width representation of a value in range is unique.  The spec
//! functions here (`seq_val`, `bal_trits`) and the lemmas about them carry
//! the whole numeric story for the rest of the crate.

use vstd::arithmetic::div_mod::{
    lemma_div_multiples_vanish,
    lemma_fundamental_div_mod,
    lemma_mod_division_less_than_divisor,
};
use vstd::prelude::*;

use crate::ternary::trit::{trit_neg, trit_val, Trit};

verus! {

broadcast use vstd::array::axiom_spec_array_fill_for_copy_type;

/// 3 raised to the power n.
pub open spec fn pow3(n: nat) -> int
    decreases n,
{
    if n == 0 {
        1
    } else {
        3 * pow3((n - 1) as nat)
    }
}

/// The numeric value of a little-endian trit sequence:
/// the sum of `trit_val(s[i]) * 3^i`.
pub open spec fn seq_val(s: Seq<Trit>) -> int
    decreases s.len(),
{
    if s.len() == 0 {
        0
    } else {
        trit_val(s[0]) + 3 * seq_val(s.drop_first())
    }
}

/// Trit-wise negation of a sequence.
pub open spec fn seq_neg(s: Seq<Trit>) -> Seq<Trit> {
    Seq::new(s.len(), |i: int| trit_neg(s[i]))
}

/// The balanced least-significant digit of an integer: the unique
/// d in {-1, 0, 1} with v = d (mod 3).
pub open spec fn bal_digit(v: int) -> Trit {
    if v % 3 == 0 {
        Trit::O
    } else if v % 3 == 1 {
        Trit::P
    } else {
        Trit::N
    }
}

/// What remains of an integer after its balanced least-significant digit
/// is removed: (v - bal_digit(v)) / 3, an exact division.
pub open spec fn bal_rest(v: int) -> int {
    (v - trit_val(bal_digit(v))) / 3
}

/// The n low balanced-ternary digits of an integer, little-endian.
/// For |v| <= (3^n - 1) / 2 this is the unique n-digit representation
/// of v; for larger v the high digits are cut off.
pub open spec fn bal_trits(v: int, n: nat) -> Seq<Trit>
    decreases n,
{
    if n == 0 {
        Seq::empty()
    } else {
        seq![bal_digit(v)] + bal_trits(bal_rest(v), (n - 1) as nat)
    }
}

/// The sign of an integer as -1, 0 or +1.
pub open spec fn sign_of(v: int) -> int {
    if v > 0 {
        1
    } else if v < 0 {
        -1
    } else {
        0
    }
}

/// True when every trit of the sequence is zero.
pub open spec fn all_zero(s: Seq<Trit>) -> bool {
    forall|i: int| 0 <= i < s.len() ==> s[i] == Trit::O
}

pub proof fn lemma_pow3_pos(n: nat)
    ensures
        pow3(n) >= 1,
    decreases n,
{
    if n > 0 {
        lemma_pow3_pos((n - 1) as nat);
    }
}

pub proof fn lemma_pow3_adds(a: nat, b: nat)
    ensures
        pow3(a + b) == pow3(a) * pow3(b),
    decreases a,
{
    if a == 0 {
    } else {
        lemma_pow3_adds((a - 1) as nat, b);
        assert(pow3(a + b) == 3 * pow3((a + b - 1) as nat));
        assert(3 * (pow3((a - 1) as nat) * pow3(b)) == (3 * pow3((a - 1) as nat)) * pow3(b))
            by (nonlinear_arith);
    }
}

/// 3^n is 3 mod 6 for every n >= 1 (used for the divisibility step of
/// the digit-extraction bound).
pub proof fn lemma_pow3_mod6(n: nat)
    ensures
        n >= 1 ==> pow3(n) % 6 == 3,
    decreases n,
{
    if n == 1 {
        reveal_with_fuel(pow3, 3);
        assert(pow3(1nat) == 3);
    } else if n > 1 {
        lemma_pow3_mod6((n - 1) as nat);
        let p = pow3((n - 1) as nat);
        lemma_fundamental_div_mod(p, 6);
        let k = p / 6;
        assert(p == 6 * k + 3);
        assert(3 * p == 6 * (3 * k + 1) + 3) by (nonlinear_arith)
            requires
                p == 6 * k + 3,
        ;
        lemma_div_multiples_vanish(3 * k + 1, 6);
        lemma_fundamental_div_mod(3 * p, 6);
        assert((3 * p) % 6 == 3 * p - 6 * ((3 * p) / 6));
        assert((6 * (3 * k + 1) + 3) / 6 == 3 * k + 1) by {
            lemma_div_plus_3_over_6(3 * k + 1);
        }
    }
}

/// (6k + 3) / 6 == k.
proof fn lemma_div_plus_3_over_6(k: int)
    ensures
        (6 * k + 3) / 6 == k,
{
    lemma_fundamental_div_mod(6 * k + 3, 6);
    lemma_mod_division_less_than_divisor(6 * k + 3, 6);
    let q = (6 * k + 3) / 6;
    let r = (6 * k + 3) % 6;
    assert(6 * k + 3 == 6 * q + r);
    assert(q == k) by (nonlinear_arith)
        requires
            6 * k + 3 == 6 * q + r,
            0 <= r < 6,
    ;
}

/// Removing the balanced low digit splits an integer exactly:
/// v = bal_digit(v) + 3 * bal_rest(v).
pub proof fn lemma_bal_split(v: int)
    ensures
        trit_val(bal_digit(v)) + 3 * bal_rest(v) == v,
{
    lemma_fundamental_div_mod(v, 3);
    lemma_mod_division_less_than_divisor(v, 3);
    let m = v % 3;
    let d = trit_val(bal_digit(v));
    let k = if m == 2 {
        v / 3 + 1
    } else {
        v / 3
    };
    assert(v - d == 3 * k);
    lemma_div_multiples_vanish(k, 3);
    assert(bal_rest(v) == k);
}

/// The balanced digit and rest recover the parts an integer was built from:
/// if v = t + 3r with t a trit value, then bal_digit(v) = t and bal_rest(v) = r.
pub proof fn lemma_bal_of_parts(t: Trit, r: int)
    ensures
        bal_digit(trit_val(t) + 3 * r) == t,
        bal_rest(trit_val(t) + 3 * r) == r,
{
    let v = trit_val(t) + 3 * r;
    lemma_fundamental_div_mod(v, 3);
    lemma_mod_division_less_than_divisor(v, 3);
    let m = v % 3;
    let q = v / 3;
    assert(v == 3 * q + m);
    // t - m is divisible by 3 and both are small, which pins m per case.
    assert(3 * (r - q) == m - trit_val(t));
    match t {
        Trit::O => {
            assert(m == 0) by (nonlinear_arith)
                requires
                    3 * (r - q) == m - 0,
                    0 <= m < 3,
            ;
        },
        Trit::P => {
            assert(m == 1) by (nonlinear_arith)
                requires
                    3 * (r - q) == m - 1,
                    0 <= m < 3,
            ;
        },
        Trit::N => {
            assert(m == 2) by (nonlinear_arith)
                requires
                    3 * (r - q) == m + 1,
                    0 <= m < 3,
            ;
        },
    }
    lemma_bal_split(v);
}

/// One step of reading a value off a sequence from the low end:
/// the value of the first i+1 trits is the value of the first i trits
/// plus trit i weighted by 3^i.
pub proof fn lemma_seq_val_take_step(s: Seq<Trit>, i: int)
    requires
        0 <= i < s.len(),
    ensures
        seq_val(s.take(i + 1)) == seq_val(s.take(i)) + trit_val(s[i]) * pow3(i as nat),
    decreases i,
{
    if i == 0 {
        assert(s.take(1).drop_first() =~= Seq::<Trit>::empty());
        assert(s.take(0) =~= Seq::<Trit>::empty());
        assert(s.take(1)[0] == s[0]);
    } else {
        let t = s.drop_first();
        lemma_seq_val_take_step(t, i - 1);
        assert(s.take(i + 1).drop_first() =~= t.take(i));
        assert(s.take(i).drop_first() =~= t.take(i - 1));
        assert(s.take(i + 1)[0] == s[0]);
        assert(s.take(i)[0] == s[0]);
        assert(t[i - 1] == s[i]);
        let a = seq_val(t.take(i - 1));
        let d = trit_val(s[i]);
        let p = pow3((i - 1) as nat);
        assert(3 * (a + d * p) == 3 * a + d * (3 * p)) by (nonlinear_arith);
        assert(pow3(i as nat) == 3 * pow3((i - 1) as nat));
    }
}

/// A sequence of n trits can only reach values v with 2|v| <= 3^n - 1.
pub proof fn lemma_seq_val_bound(s: Seq<Trit>)
    ensures
        2 * seq_val(s) <= pow3(s.len()) - 1,
        2 * seq_val(s) >= 1 - pow3(s.len()),
    decreases s.len(),
{
    if s.len() > 0 {
        lemma_seq_val_bound(s.drop_first());
    }
}

/// Concatenation splits the value: the right part is weighted by 3^len(left).
pub proof fn lemma_seq_val_append(a: Seq<Trit>, b: Seq<Trit>)
    ensures
        seq_val(a + b) == seq_val(a) + pow3(a.len()) * seq_val(b),
    decreases a.len(),
{
    if a.len() == 0 {
        assert(a + b =~= b);
        assert(pow3(0) == 1);
        assert(seq_val(a) == 0);
    } else {
        lemma_seq_val_append(a.drop_first(), b);
        assert((a + b).drop_first() =~= a.drop_first() + b);
        assert((a + b)[0] == a[0]);
        assert((a + b).len() > 0);
        let x = seq_val(a.drop_first());
        let y = seq_val(b);
        let p = pow3((a.len() - 1) as nat);
        assert(seq_val(a + b) == trit_val(a[0]) + 3 * seq_val(a.drop_first() + b));
        assert(seq_val(a.drop_first() + b) == x + p * y);
        assert(3 * (x + p * y) == 3 * x + (3 * p) * y) by (nonlinear_arith);
        assert(pow3(a.len()) == 3 * pow3((a.len() - 1) as nat));
        assert(seq_val(a) == trit_val(a[0]) + 3 * x);
    }
}

/// Negating every trit negates the value.
pub proof fn lemma_seq_val_neg(s: Seq<Trit>)
    ensures
        seq_val(seq_neg(s)) == -seq_val(s),
    decreases s.len(),
{
    if s.len() > 0 {
        lemma_seq_val_neg(s.drop_first());
        assert(seq_neg(s).drop_first() =~= seq_neg(s.drop_first()));
        assert(seq_neg(s)[0] == trit_neg(s[0]));
    }
}

/// Negating twice gives the sequence back.
pub proof fn lemma_seq_neg_involution(s: Seq<Trit>)
    ensures
        seq_neg(seq_neg(s)) == s,
{
    assert(seq_neg(seq_neg(s)) =~= s);
}

/// The bound on a value survives removing its low balanced digit:
/// what remains fits in one digit less.
pub proof fn lemma_bal_rest_bound(v: int, n: nat)
    requires
        n >= 1,
        2 * v <= pow3(n) - 1,
        2 * v >= 1 - pow3(n),
    ensures
        2 * bal_rest(v) <= pow3((n - 1) as nat) - 1,
        2 * bal_rest(v) >= 1 - pow3((n - 1) as nat),
{
    lemma_bal_split(v);
    let r = bal_rest(v);
    let d = trit_val(bal_digit(v));
    let p = pow3(n);
    lemma_pow3_mod6(n);
    lemma_fundamental_div_mod(p, 6);
    let w = p / 6;
    assert(p == 6 * w + 3);
    // 6r = 2v - 2d, so |6r| <= p + 1; as 6r is a multiple of 6 and
    // p + 3 is too, the bound tightens to |6r| <= p - 3.
    assert(6 * r == 2 * v - 2 * d);
    assert(-1 <= d <= 1);
    assert(6 * r <= p + 1);
    assert(6 * r >= -p - 1);
    assert(r <= w) by (nonlinear_arith)
        requires
            6 * r <= 6 * w + 4,
    ;
    assert(r >= -w) by (nonlinear_arith)
        requires
            6 * r >= -(6 * w) - 4,
    ;
    assert(pow3((n - 1) as nat) == 2 * w + 1) by (nonlinear_arith)
        requires
            3 * pow3((n - 1) as nat) == 6 * w + 3,
    ;
}

/// For a value within the n-digit range, the n balanced digits represent
/// it exactly.
pub proof fn lemma_bal_trits_val(v: int, n: nat)
    requires
        2 * v <= pow3(n) - 1,
        2 * v >= 1 - pow3(n),
    ensures
        seq_val(bal_trits(v, n)) == v,
    decreases n,
{
    if n == 0 {
        assert(v == 0);
    } else {
        lemma_bal_split(v);
        lemma_bal_rest_bound(v, n);
        lemma_bal_trits_val(bal_rest(v), (n - 1) as nat);
        let s = bal_trits(v, n);
        assert(s.drop_first() =~= bal_trits(bal_rest(v), (n - 1) as nat));
        assert(s[0] == bal_digit(v));
    }
}

/// Every trit sequence is the balanced-digit expansion of its own value:
/// the fixed-width representation is canonical.
pub proof fn lemma_bal_trits_canonical(s: Seq<Trit>)
    ensures
        bal_trits(seq_val(s), s.len()) == s,
    decreases s.len(),
{
    if s.len() == 0 {
        assert(bal_trits(seq_val(s), 0) =~= s);
    } else {
        lemma_bal_of_parts(s[0], seq_val(s.drop_first()));
        lemma_bal_trits_canonical(s.drop_first());
        assert(bal_trits(seq_val(s), s.len()) =~= s);
    }
}

/// Two trit sequences of one width with one value are the same sequence.
pub proof fn lemma_seq_val_injective(s1: Seq<Trit>, s2: Seq<Trit>)
    requires
        s1.len() == s2.len(),
        seq_val(s1) == seq_val(s2),
    ensures
        s1 == s2,
{
    lemma_bal_trits_canonical(s1);
    lemma_bal_trits_canonical(s2);
}

/// Zero is unique: a sequence has value 0 exactly when every trit is O.
pub proof fn lemma_all_zero_iff(s: Seq<Trit>)
    ensures
        all_zero(s) <==> seq_val(s) == 0,
{
    if all_zero(s) {
        lemma_all_zero_val(s);
    }
    if seq_val(s) == 0 {
        let z = Seq::new(s.len(), |i: int| Trit::O);
        lemma_all_zero_val(z);
        lemma_seq_val_injective(s, z);
    }
}

proof fn lemma_all_zero_val(s: Seq<Trit>)
    requires
        all_zero(s),
    ensures
        seq_val(s) == 0,
    decreases s.len(),
{
    if s.len() > 0 {
        assert(all_zero(s.drop_first()));
        lemma_all_zero_val(s.drop_first());
    }
}

/// Trits at and above position m contribute nothing when they are all zero.
pub proof fn lemma_high_zeros(s: Seq<Trit>, m: int)
    requires
        0 <= m <= s.len(),
        forall|j: int| m <= j < s.len() ==> s[j] == Trit::O,
    ensures
        seq_val(s) == seq_val(s.take(m)),
{
    let rest = s.skip(m);
    assert(s =~= s.take(m) + rest);
    lemma_seq_val_append(s.take(m), rest);
    assert(all_zero(rest));
    lemma_all_zero_val(rest);
    assert(seq_val(s.take(m) + rest) == seq_val(s.take(m)) + pow3(s.take(m).len() as nat) * 0);
}

/// Replacing the trit at one position moves the value by the difference
/// at that position's weight.
pub proof fn lemma_seq_val_update(s: Seq<Trit>, p: int, t: Trit)
    requires
        0 <= p < s.len(),
    ensures
        seq_val(s.update(p, t)) == seq_val(s) + (trit_val(t) - trit_val(s[p])) * pow3(p as nat),
    decreases p,
{
    if p == 0 {
        assert(s.update(0, t).drop_first() =~= s.drop_first());
        assert(s.update(0, t)[0] == t);
        assert(seq_val(s.update(0, t)) == trit_val(t) + 3 * seq_val(s.drop_first()));
        assert(seq_val(s) == trit_val(s[0]) + 3 * seq_val(s.drop_first()));
        assert(pow3(0) == 1);
    } else {
        lemma_seq_val_update(s.drop_first(), p - 1, t);
        assert(s.update(p, t).drop_first() =~= s.drop_first().update(p - 1, t));
        assert(s.update(p, t)[0] == s[0]);
        assert(s.drop_first()[p - 1] == s[p]);
        let d = trit_val(t) - trit_val(s[p]);
        let q = pow3((p - 1) as nat);
        assert(seq_val(s.update(p, t)) == trit_val(s[0]) + 3 * seq_val(
            s.drop_first().update(p - 1, t),
        ));
        assert(seq_val(s.drop_first().update(p - 1, t)) == seq_val(s.drop_first()) + d * q);
        assert(seq_val(s) == trit_val(s[0]) + 3 * seq_val(s.drop_first()));
        assert(3 * (seq_val(s.drop_first()) + d * q) == 3 * seq_val(s.drop_first()) + d * (3 * q))
            by (nonlinear_arith);
        assert(pow3(p as nat) == 3 * pow3((p - 1) as nat));
    }
}

/// The low n balanced digits ignore whole multiples of 3^n.
pub proof fn lemma_bal_trits_mod(v: int, k: int, n: nat)
    ensures
        bal_trits(v + pow3(n) * k, n) == bal_trits(v, n),
    decreases n,
{
    if n > 0 {
        lemma_bal_split(v);
        let d = bal_digit(v);
        let r = bal_rest(v);
        let p1 = pow3((n - 1) as nat);
        assert(trit_val(d) + 3 * (r + p1 * k) == v + (3 * p1) * k) by (nonlinear_arith)
            requires
                trit_val(d) + 3 * r == v,
        ;
        assert(pow3(n) == 3 * p1);
        lemma_bal_of_parts(d, r + p1 * k);
        lemma_bal_trits_mod(r, k, (n - 1) as nat);
        assert(bal_trits(v + pow3(n) * k, n) =~= bal_trits(v, n));
    }
}

/// The powers of 3 the word widths of the machine need.
pub proof fn lemma_pow3_values()
    ensures
        pow3(0) == 1,
        pow3(1) == 3,
        pow3(4) == 81,
        pow3(5) == 243,
        pow3(9) == 19683,
        pow3(13) == 1594323,
        pow3(18) == 387420489,
        pow3(36) == 150094635296999121,
{
    reveal_with_fuel(pow3, 37);
}

pub proof fn lemma_pow3_le(a: nat, b: nat)
    requires
        a <= b,
    ensures
        pow3(a) <= pow3(b),
    decreases b,
{
    if a < b {
        lemma_pow3_le(a, (b - 1) as nat);
        lemma_pow3_pos((b - 1) as nat);
    }
}

/// The sign of a word is the sign of its leading non-zero trit: the lower
/// digits are too small to flip it.
pub proof fn lemma_leading_trit_sign(s: Seq<Trit>, k: int)
    requires
        0 <= k < s.len(),
        s[k] != Trit::O,
        forall|j: int| k < j < s.len() ==> s[j] == Trit::O,
    ensures
        sign_of(seq_val(s)) == trit_val(s[k]),
{
    lemma_high_zeros(s, k + 1);
    lemma_seq_val_take_step(s, k);
    lemma_seq_val_bound(s.take(k));
    lemma_pow3_pos(k as nat);
    let low = seq_val(s.take(k));
    let p = pow3(k as nat);
    assert(seq_val(s) == low + trit_val(s[k]) * p);
    assert(trit_val(s[k]) == 1 || trit_val(s[k]) == -1);
    assert(2 * low <= p - 1 && 2 * low >= 1 - p);
}

/// bal_trits always yields exactly n digits.
pub proof fn lemma_bal_trits_len(v: int, n: nat)
    ensures
        bal_trits(v, n).len() == n,
    decreases n,
{
    if n > 0 {
        lemma_bal_trits_len(bal_rest(v), (n - 1) as nat);
    }
}

/// The expansion of zero is all zero trits.
pub proof fn lemma_bal_trits_zero(n: nat)
    ensures
        bal_trits(0, n) == Seq::new(n, |i: int| Trit::O),
    decreases n,
{
    if n > 0 {
        lemma_bal_split(0);
        lemma_bal_trits_zero((n - 1) as nat);
        assert(bal_trits(0, n) =~= Seq::new(n, |i: int| Trit::O));
    }
}

/// A value that fits n digits keeps zeros above them in a wider word.
pub proof fn lemma_bal_trits_zero_ext(v: int, n: nat, m: nat)
    requires
        2 * v <= pow3(n) - 1,
        2 * v >= 1 - pow3(n),
    ensures
        bal_trits(v, n + m) == bal_trits(v, n) + Seq::new(m, |i: int| Trit::O),
    decreases n,
{
    if n == 0 {
        assert(v == 0);
        lemma_bal_trits_zero(m);
        assert(bal_trits(0, m) =~= bal_trits(0, 0nat) + Seq::new(m, |i: int| Trit::O));
    } else {
        lemma_bal_split(v);
        lemma_bal_rest_bound(v, n);
        lemma_bal_trits_zero_ext(bal_rest(v), (n - 1) as nat, m);
        assert(bal_trits(v, n + m) =~= bal_trits(v, n) + Seq::new(m, |i: int| Trit::O));
    }
}
pub(crate) fn neg_array<const N: usize>(a: &[Trit; N]) -> (r: [Trit; N])
    ensures
        r@ == seq_neg(a@),
{
    let mut out: [Trit; N] = [Trit::O; N];
    let mut i: usize = 0;
    while i < N
        invariant
            i <= N,
            out@.len() == N,
            a@.len() == N,
            forall|j: int| 0 <= j < i ==> out@[j] == trit_neg(a@[j]),
        decreases N - i,
    {
        out[i] = a[i].neg();
        i = i + 1;
    }
    proof {
        assert(out@ =~= seq_neg(a@));
    }
    out
}

/// Extracts the balanced-ternary digits of a value that fits the width.
pub(crate) fn bal_word<const N: usize>(value: i64) -> (r: [Trit; N])
    requires
        pow3(N as nat) <= i64::MAX as int,
        2 * value <= pow3(N as nat) - 1,
        2 * value >= 1 - pow3(N as nat),
    ensures
        r@ == bal_trits(value as int, N as nat),
        seq_val(r@) == value as int,
{
    proof {
        lemma_pow3_pos(N as nat);
    }
    let negative = value < 0;
    let mag0: u64 = if negative {
        (-value) as u64
    } else {
        value as u64
    };
    let mut mag: u64 = mag0;
    let mut trits: [Trit; N] = [Trit::O; N];
    let mut i: usize = 0;
    while i < N
        invariant
            i <= N,
            trits@.len() == N,
            (mag as int) * pow3(i as nat) + seq_val(trits@.take(i as int)) == mag0 as int,
            2 * (mag as int) <= pow3((N - i) as nat) - 1,
        decreases N - i,
    {
        let ghost old_mag = mag as int;
        let ghost old_take = trits@.take(i as int);
        let m = mag % 3;
        let t = if m == 0 {
            Trit::O
        } else if m == 1 {
            Trit::P
        } else {
            Trit::N
        };
        let carry: u64 = if m == 2 {
            1
        } else {
            0
        };
        let newmag = mag / 3 + carry;
        trits[i] = t;
        proof {
            assert(trits@.take(i as int) =~= old_take);
            assert(trits@[i as int] == t);
            lemma_fundamental_div_mod(old_mag, 3);
            lemma_mod_division_less_than_divisor(old_mag, 3);
            assert(trit_val(t) + 3 * (newmag as int) == old_mag);
            lemma_seq_val_take_step(trits@, i as int);
            let p = pow3(i as nat);
            assert((trit_val(t) + 3 * (newmag as int)) * p == trit_val(t) * p + (newmag as int) * (
            3 * p)) by (nonlinear_arith);
            assert(pow3((i + 1) as nat) == 3 * pow3(i as nat));
            // The shrinking bound on the remaining magnitude.
            assert(t == bal_digit(old_mag));
            lemma_bal_split(old_mag);
            assert(newmag as int == bal_rest(old_mag));
            lemma_bal_rest_bound(old_mag, (N - i) as nat);
        }
        mag = newmag;
        i = i + 1;
    }
    proof {
        assert(mag == 0);
        assert(trits@.take(N as int) =~= trits@);
        assert(seq_val(trits@) == mag0 as int);
        lemma_bal_trits_val(value as int, N as nat);
        lemma_bal_trits_len(value as int, N as nat);
    }
    if negative {
        let out = neg_array(&trits);
        proof {
            lemma_seq_val_neg(trits@);
            lemma_seq_val_injective(out@, bal_trits(value as int, N as nat));
        }
        out
    } else {
        proof {
            lemma_seq_val_injective(trits@, bal_trits(value as int, N as nat));
        }
        trits
    }
}

/// Extracts the low N balanced digits of any value, cutting off what
/// does not fit: the instruction codec packs small fields this way.
pub(crate) fn bal_word_trunc<const N: usize>(value: i64) -> (r: [Trit; N])
    requires
        value > i64::MIN,
    ensures
        r@ == bal_trits(value as int, N as nat),
{
    let negative = value < 0;
    let mag0: u64 = if negative {
        (-value) as u64
    } else {
        value as u64
    };
    let mut mag: u64 = mag0;
    let mut trits: [Trit; N] = [Trit::O; N];
    let mut i: usize = 0;
    while i < N
        invariant
            i <= N,
            trits@.len() == N,
            mag <= mag0,
            (mag as int) * pow3(i as nat) + seq_val(trits@.take(i as int)) == mag0 as int,
        decreases N - i,
    {
        let ghost old_mag = mag as int;
        let ghost old_take = trits@.take(i as int);
        let m = mag % 3;
        let t = if m == 0 {
            Trit::O
        } else if m == 1 {
            Trit::P
        } else {
            Trit::N
        };
        let carry: u64 = if m == 2 {
            1
        } else {
            0
        };
        let newmag = mag / 3 + carry;
        trits[i] = t;
        proof {
            assert(trits@.take(i as int) =~= old_take);
            assert(trits@[i as int] == t);
            lemma_fundamental_div_mod(old_mag, 3);
            lemma_mod_division_less_than_divisor(old_mag, 3);
            assert(trit_val(t) + 3 * (newmag as int) == old_mag);
            lemma_seq_val_take_step(trits@, i as int);
            let p = pow3(i as nat);
            assert((trit_val(t) + 3 * (newmag as int)) * p == trit_val(t) * p + (newmag as int) * (
            3 * p)) by (nonlinear_arith);
            assert(pow3((i + 1) as nat) == 3 * pow3(i as nat));
        }
        mag = newmag;
        i = i + 1;
    }
    proof {
        assert(trits@.take(N as int) =~= trits@);
        lemma_pow3_pos(N as nat);
        let p = pow3(N as nat);
        assert(seq_val(trits@) == mag0 as int + p * (-(mag as int))) by (nonlinear_arith)
            requires
                (mag as int) * p + seq_val(trits@) == mag0 as int,
        ;
    }
    // The digits so far are the canonical expansion of their own value,
    // which differs from the requested value by a multiple of 3^N:
    // exactly the truncation wanted.
    if negative {
        let out = neg_array(&trits);
        proof {
            let p = pow3(N as nat);
            lemma_seq_val_neg(trits@);
            lemma_bal_trits_canonical(out@);
            assert(seq_val(out@) == (value as int) + p * (mag as int)) by (nonlinear_arith)
                requires
                    seq_val(out@) == -seq_val(trits@),
                    seq_val(trits@) == mag0 as int + p * (-(mag as int)),
                    mag0 as int == -(value as int),
            ;
            lemma_bal_trits_mod(value as int, mag as int, N as nat);
        }
        out
    } else {
        proof {
            lemma_bal_trits_canonical(trits@);
            assert(seq_val(trits@) == (value as int) + pow3(N as nat) * (-(mag as int)));
            lemma_bal_trits_mod(value as int, -(mag as int), N as nat);
        }
        trits
    }
}

/// Reads the numeric value of a word, shared by every word width.
pub(crate) fn word_val<const N: usize>(a: &[Trit; N]) -> (r: i64)
    requires
        pow3(N as nat) <= i64::MAX as int,
    ensures
        r as int == seq_val(a@),
{
    let mut result: i64 = 0;
    let mut power: i64 = 1;
    let mut i: usize = 0;
    while i < N
        invariant
            i <= N,
            a@.len() == N,
            result as int == seq_val(a@.take(i as int)),
            power as int == pow3(i as nat),
            pow3(N as nat) <= i64::MAX as int,
        decreases N - i,
    {
        proof {
            lemma_seq_val_take_step(a@, i as int);
            lemma_seq_val_bound(a@.take(i as int));
            lemma_seq_val_bound(a@.take(i as int + 1));
            lemma_pow3_le((i + 1) as nat, N as nat);
            lemma_pow3_pos(i as nat);
        }
        let t = a[i].to_i8();
        result = result + (t as i64) * power;
        power = power * 3;
        i = i + 1;
    }
    proof {
        assert(a@.take(N as int) =~= a@);
    }
    result
}

/// True when every trit of the array is zero.
pub(crate) fn all_zero_array<const N: usize>(a: &[Trit; N]) -> (r: bool)
    ensures
        r == all_zero(a@),
{
    let mut i: usize = 0;
    while i < N
        invariant
            i <= N,
            a@.len() == N,
            forall|j: int| 0 <= j < i ==> a@[j] == Trit::O,
        decreases N - i,
    {
        if !a[i].is_zero() {
            return false;
        }
        i = i + 1;
    }
    true
}

/// The sign of a word: its leading non-zero trit, O for zero.
pub(crate) fn sign_array<const N: usize>(a: &[Trit; N]) -> (r: Trit)
    ensures
        trit_val(r) == sign_of(seq_val(a@)),
{
    let mut i: usize = N;
    while i > 0
        invariant
            i <= N,
            a@.len() == N,
            forall|j: int| i <= j < N ==> a@[j] == Trit::O,
        decreases i,
    {
        i = i - 1;
        let t = a[i];
        if !t.is_zero() {
            proof {
                lemma_leading_trit_sign(a@, i as int);
            }
            return t;
        }
    }
    proof {
        lemma_all_zero_iff(a@);
    }
    Trit::O
}

/// A 9-trit word (a "nitrit"): one memory cell, one instruction.
/// Value range: -9841 to +9841.
#[derive(Clone, Copy, Debug, PartialEq, Eq, Hash)]
pub struct Tryte9 {
    trits: [Trit; 9],
}

impl View for Tryte9 {
    type V = Seq<Trit>;

    closed spec fn view(&self) -> Seq<Trit> {
        self.trits@
    }
}

impl Tryte9 {
    /// Number of trits in a Tryte9.
    pub const WIDTH: usize = 9;

    /// Largest value, all trits P.
    pub const MAX: i32 = 9841;

    /// Smallest value, all trits N.
    pub const MIN: i32 = -9841;

    /// The numeric value of this word.
    pub open spec fn val(self) -> int {
        seq_val(self@)
    }

    /// The all-zero word.
    pub fn zero() -> (r: Self)
        ensures
            all_zero(r@),
            r.val() == 0,
    {
        let trits: [Trit; 9] = vstd::array::array_fill_for_copy_types::<Trit, 9>(Trit::O);
        proof {
            lemma_all_zero_iff(trits@);
        }
        Tryte9 { trits }
    }

    /// Build a word from an array of trits, least significant first.
    pub fn from_trits(trits: [Trit; 9]) -> (r: Self)
        ensures
            r@ == trits@,
    {
        Tryte9 { trits }
    }

    /// The underlying trit array.
    pub fn trits(&self) -> (r: &[Trit; 9])
        ensures
            r@ == self@,
    {
        &self.trits
    }

    /// A mutable borrow of the trit array; what the caller writes
    /// through it becomes the word.
    pub fn trits_mut(&mut self) -> (r: &mut [Trit; 9])
        ensures
            (*r)@ == old(self)@,
            final(self)@ == final(r)@,
    {
        &mut self.trits
    }

    /// One trit, by position (0 is least significant).
    pub fn get(&self, index: usize) -> (r: Trit)
        requires
            index < 9,
        ensures
            r == self@[index as int],
    {
        self.trits[index]
    }

    /// Replace one trit, by position (0 is least significant).
    pub fn set(&mut self, index: usize, trit: Trit)
        requires
            index < 9,
        ensures
            final(self)@ == old(self)@.update(index as int, trit),
    {
        self.trits[index] = trit;
    }

    /// The word whose value is the given integer; the representation
    /// is the unique one, so this inverts `to_i32`.
    pub fn from_i32(value: i32) -> (r: Self)
        requires
            -9841 <= value <= 9841,
        ensures
            r.val() == value as int,
            r@ == bal_trits(value as int, 9),
    {
        proof {
            lemma_pow3_values();
        }
        let trits: [Trit; 9] = bal_word::<9>(value as i64);
        Tryte9 { trits }
    }

    /// The numeric value, inverse of `from_i32`.
    pub fn to_i32(&self) -> (r: i32)
        ensures
            r as int == self.val(),
            -9841 <= r <= 9841,
    {
        proof {
            lemma_pow3_values();
            lemma_seq_val_bound(self@);
        }
        word_val::<9>(&self.trits) as i32
    }

    /// Negate every trit; the value is negated.
    pub fn neg(&self) -> (r: Self)
        ensures
            r@ == seq_neg(self@),
            r.val() == -self.val(),
    {
        proof {
            lemma_seq_val_neg(self@);
        }
        Tryte9 { trits: neg_array(&self.trits) }
    }

    /// True exactly when the value is zero (zero is unique).
    pub fn is_zero(&self) -> (r: bool)
        ensures
            r == (self.val() == 0),
    {
        proof {
            lemma_all_zero_iff(self@);
        }
        all_zero_array(&self.trits)
    }

    /// The sign of the word: its leading non-zero trit, O when zero.
    pub fn sign(&self) -> (r: Trit)
        ensures
            trit_val(r) == sign_of(self.val()),
    {
        sign_array(&self.trits)
    }
}

impl Default for Tryte9 {
    /// The default word is zero.
    fn default() -> (r: Self)
        ensures
            all_zero(r@),
            r.val() == 0,
    {
        Tryte9::zero()
    }
}

/// Every Tryte9 holds exactly 9 trits.
pub broadcast proof fn lemma_tryte9_width(w: Tryte9)
    ensures
        (#[trigger] w@).len() == 9,
{
}

/// A Tryte9 is nothing but its trits: equal views mean equal words.
pub proof fn lemma_tryte9_ext(a: Tryte9, b: Tryte9)
    requires
        a@ == b@,
    ensures
        a == b,
{
    assert(a.trits =~= b.trits);
}

/// An 18-trit word: the accumulator S, the multiplier register R, and
/// full-precision arithmetic.  Value range: -193710244 to +193710244.
#[derive(Clone, Copy, Debug, PartialEq, Eq, Hash)]
pub struct Word18 {
    trits: [Trit; 18],
}

impl View for Word18 {
    type V = Seq<Trit>;

    closed spec fn view(&self) -> Seq<Trit> {
        self.trits@
    }
}

/// Every Word18 holds exactly 18 trits.
pub broadcast proof fn lemma_word18_width(w: Word18)
    ensures
        (#[trigger] w@).len() == 18,
{
}

/// A Word18 is nothing but its trits: equal views mean equal words.
pub proof fn lemma_word18_ext(a: Word18, b: Word18)
    requires
        a@ == b@,
    ensures
        a == b,
{
    assert(a.trits =~= b.trits);
}

impl Word18 {
    /// Number of trits in a Word18.
    pub const WIDTH: usize = 18;

    /// Largest value, all trits P.
    pub const MAX: i64 = 193710244;

    /// Smallest value, all trits N.
    pub const MIN: i64 = -193710244;

    /// The numeric value of this word.
    pub open spec fn val(self) -> int {
        seq_val(self@)
    }

    /// The all-zero word.
    pub fn zero() -> (r: Self)
        ensures
            all_zero(r@),
            r.val() == 0,
    {
        let trits: [Trit; 18] = vstd::array::array_fill_for_copy_types::<Trit, 18>(Trit::O);
        proof {
            lemma_all_zero_iff(trits@);
        }
        Word18 { trits }
    }

    /// Build a word from an array of trits, least significant first.
    pub fn from_trits(trits: [Trit; 18]) -> (r: Self)
        ensures
            r@ == trits@,
    {
        Word18 { trits }
    }

    /// The underlying trit array.
    pub fn trits(&self) -> (r: &[Trit; 18])
        ensures
            r@ == self@,
    {
        &self.trits
    }

    /// A mutable borrow of the trit array; what the caller writes
    /// through it becomes the word.
    pub fn trits_mut(&mut self) -> (r: &mut [Trit; 18])
        ensures
            (*r)@ == old(self)@,
            final(self)@ == final(r)@,
    {
        &mut self.trits
    }

    /// One trit, by position (0 is least significant).
    pub fn get(&self, index: usize) -> (r: Trit)
        requires
            index < 18,
        ensures
            r == self@[index as int],
    {
        self.trits[index]
    }

    /// Replace one trit, by position (0 is least significant).
    pub fn set(&mut self, index: usize, trit: Trit)
        requires
            index < 18,
        ensures
            final(self)@ == old(self)@.update(index as int, trit),
    {
        self.trits[index] = trit;
    }

    /// The word whose value is the given integer; the representation
    /// is the unique one, so this inverts `to_i64`.
    pub fn from_i64(value: i64) -> (r: Self)
        requires
            -193710244 <= value <= 193710244,
        ensures
            r.val() == value as int,
            r@ == bal_trits(value as int, 18),
    {
        proof {
            lemma_pow3_values();
        }
        let trits: [Trit; 18] = bal_word::<18>(value);
        Word18 { trits }
    }

    /// The numeric value, inverse of `from_i64`.
    pub fn to_i64(&self) -> (r: i64)
        ensures
            r as int == self.val(),
            -193710244 <= r <= 193710244,
    {
        proof {
            lemma_pow3_values();
            lemma_seq_val_bound(self@);
        }
        word_val::<18>(&self.trits)
    }

    /// Negate every trit; the value is negated.
    pub fn neg(&self) -> (r: Self)
        ensures
            r@ == seq_neg(self@),
            r.val() == -self.val(),
    {
        proof {
            lemma_seq_val_neg(self@);
        }
        Word18 { trits: neg_array(&self.trits) }
    }

    /// True exactly when the value is zero (zero is unique).
    pub fn is_zero(&self) -> (r: bool)
        ensures
            r == (self.val() == 0),
    {
        proof {
            lemma_all_zero_iff(self@);
        }
        all_zero_array(&self.trits)
    }

    /// The sign of the word: its leading non-zero trit, O when zero.
    pub fn sign(&self) -> (r: Trit)
        ensures
            trit_val(r) == sign_of(self.val()),
    {
        sign_array(&self.trits)
    }

    /// The low 9-trit half.
    pub fn low(&self) -> (r: Tryte9)
        ensures
            r@ == self@.subrange(0, 9),
    {
        let mut trits: [Trit; 9] = vstd::array::array_fill_for_copy_types::<Trit, 9>(Trit::O);
        let mut i: usize = 0;
        while i < 9
            invariant
                i <= 9,
                trits@.len() == 9,
                self@.len() == 18,
                forall|j: int| 0 <= j < i ==> trits@[j] == self@[j],
            decreases 9 - i,
        {
            trits[i] = self.trits[i];
            i = i + 1;
        }
        proof {
            assert(trits@ =~= self@.subrange(0, 9));
        }
        Tryte9 { trits }
    }

    /// The high 9-trit half.
    pub fn high(&self) -> (r: Tryte9)
        ensures
            r@ == self@.subrange(9, 18),
    {
        let mut trits: [Trit; 9] = vstd::array::array_fill_for_copy_types::<Trit, 9>(Trit::O);
        let mut i: usize = 0;
        while i < 9
            invariant
                i <= 9,
                trits@.len() == 9,
                self@.len() == 18,
                forall|j: int| 0 <= j < i ==> trits@[j] == self@[j + 9],
            decreases 9 - i,
        {
            trits[i] = self.trits[i + 9];
            i = i + 1;
        }
        proof {
            assert(trits@ =~= self@.subrange(9, 18));
        }
        Tryte9 { trits }
    }

    /// Join two 9-trit halves into one word:
    /// the value is low + 3^9 * high.
    pub fn from_halves(low: Tryte9, high: Tryte9) -> (r: Self)
        ensures
            r@ == low@ + high@,
            r.val() == low.val() + pow3(9) * high.val(),
    {
        let mut trits: [Trit; 18] = vstd::array::array_fill_for_copy_types::<Trit, 18>(Trit::O);
        let mut i: usize = 0;
        while i < 9
            invariant
                i <= 9,
                trits@.len() == 18,
                low@.len() == 9,
                high@.len() == 9,
                forall|j: int| 0 <= j < i ==> trits@[j] == low@[j],
                forall|j: int| 0 <= j < i ==> trits@[j + 9] == high@[j],
            decreases 9 - i,
        {
            trits[i] = low.get(i);
            trits[i + 9] = high.get(i);
            i = i + 1;
        }
        proof {
            assert(trits@ =~= low@ + high@);
            lemma_seq_val_append(low@, high@);
        }
        Word18 { trits }
    }
}

impl Default for Word18 {
    /// The default word is zero.
    fn default() -> (r: Self)
        ensures
            all_zero(r@),
            r.val() == 0,
    {
        Word18::zero()
    }
}

/// Errors of parsing a ternary word from text.
#[derive(Debug, Clone, PartialEq, Eq, Structural)]
pub enum ParseError {
    /// The text holds the wrong number of trit characters.
    WrongLength { expected: usize, got: usize },
    /// A character that is not a trit.
    InvalidChar(char),
}

/// The letter a trit prints as.
pub open spec fn trit_char(t: Trit) -> char {
    match t {
        Trit::N => 'N',
        Trit::O => 'O',
        Trit::P => 'P',
    }
}

/// The canonical text of a word: its trits as letters, most
/// significant first.
pub open spec fn word_text(s: Seq<Trit>) -> Seq<char> {
    Seq::new(s.len(), |i: int| trit_char(s[s.len() - 1 - i]))
}

/// The trit a character stands for: N/n/- are minus one, O/o/0 zero,
/// P/p/+ plus one; anything else is no trit.
pub open spec fn char_trit(c: char) -> Option<Trit> {
    if c == 'N' || c == 'n' || c == '-' {
        Some(Trit::N)
    } else if c == 'O' || c == 'o' || c == '0' {
        Some(Trit::O)
    } else if c == 'P' || c == 'p' || c == '+' {
        Some(Trit::P)
    } else {
        None
    }
}

/// True when every character of the text is a trit.
pub open spec fn text_trits_ok(s: Seq<char>) -> bool {
    forall|i: int| 0 <= i < s.len() ==> char_trit(s[i]) is Some
}

/// The trits a text spells, most significant character first.
pub open spec fn text_trits(s: Seq<char>) -> Seq<Trit> {
    Seq::new(
        s.len(),
        |i: int|
            match char_trit(s[s.len() - 1 - i]) {
                Some(t) => t,
                None => Trit::O,
            },
    )
}

/// The whitespace the parser skips around a word: the characters
/// with the Unicode White_Space property, as the host's trimming
/// counts them.
pub open spec fn is_space_char(c: char) -> bool {
    ||| c == '\u{0009}'
    ||| c == '\u{000A}'
    ||| c == '\u{000B}'
    ||| c == '\u{000C}'
    ||| c == '\u{000D}'
    ||| c == ' '
    ||| c == '\u{0085}'
    ||| c == '\u{00A0}'
    ||| c == '\u{1680}'
    ||| c == '\u{2000}'
    ||| c == '\u{2001}'
    ||| c == '\u{2002}'
    ||| c == '\u{2003}'
    ||| c == '\u{2004}'
    ||| c == '\u{2005}'
    ||| c == '\u{2006}'
    ||| c == '\u{2007}'
    ||| c == '\u{2008}'
    ||| c == '\u{2009}'
    ||| c == '\u{200A}'
    ||| c == '\u{2028}'
    ||| c == '\u{2029}'
    ||| c == '\u{202F}'
    ||| c == '\u{205F}'
    ||| c == '\u{3000}'
}

/// Text with its leading whitespace removed.
pub open spec fn trim_front(s: Seq<char>) -> Seq<char>
    decreases s.len(),
{
    if s.len() > 0 && is_space_char(s[0]) {
        trim_front(s.drop_first())
    } else {
        s
    }
}

/// Text with its trailing whitespace removed.
pub open spec fn trim_back(s: Seq<char>) -> Seq<char>
    decreases s.len(),
{
    if s.len() > 0 && is_space_char(s.last()) {
        trim_back(s.drop_last())
    } else {
        s
    }
}

/// Text with whitespace removed at both ends.
pub open spec fn trimmed(s: Seq<char>) -> Seq<char> {
    trim_back(trim_front(s))
}

/// Text with an optional leading "0t" marker removed.
pub open spec fn strip_0t(s: Seq<char>) -> Seq<char> {
    if s.len() >= 2 && s[0] == '0' && s[1] == 't' {
        s.skip(2)
    } else {
        s
    }
}

/// The position of the right-most character that is not a trit, the
/// first one a right-to-left reading trips over.
pub open spec fn last_bad_index(s: Seq<char>) -> int
    decreases s.len(),
{
    if s.len() == 0 {
        -1
    } else if char_trit(s.last()) is None {
        s.len() - 1
    } else {
        last_bad_index(s.drop_last())
    }
}

pub(crate) proof fn lemma_trim_front_skip(s: Seq<char>, k: int)
    requires
        0 <= k <= s.len(),
        forall|j: int| 0 <= j < k ==> is_space_char(s[j]),
        k < s.len() ==> !is_space_char(s[k]),
    ensures
        trim_front(s) == s.skip(k),
    decreases k,
{
    if k == 0 {
        assert(s.skip(0) =~= s);
    } else {
        lemma_trim_front_skip(s.drop_first(), k - 1);
        assert(s.drop_first().skip(k - 1) =~= s.skip(k));
    }
}

pub(crate) proof fn lemma_trim_back_take(s: Seq<char>, k: int)
    requires
        0 <= k <= s.len(),
        forall|j: int| k <= j < s.len() ==> is_space_char(s[j]),
        k > 0 ==> !is_space_char(s[k - 1]),
    ensures
        trim_back(s) == s.take(k),
    decreases s.len(),
{
    if k == s.len() {
        if s.len() > 0 && is_space_char(s.last()) {
            assert(false);
        }
        assert(s.take(k) =~= s);
    } else {
        assert(is_space_char(s.last()));
        lemma_trim_back_take(s.drop_last(), k);
        assert(s.drop_last().take(k) =~= s.take(k));
    }
}

proof fn lemma_last_bad(s: Seq<char>, m: int)
    requires
        0 <= m < s.len(),
        char_trit(s[m]) is None,
        forall|j: int| m < j < s.len() ==> char_trit(s[j]) is Some,
    ensures
        last_bad_index(s) == m,
    decreases s.len(),
{
    if m == s.len() - 1 {
    } else {
        lemma_last_bad(s.drop_last(), m);
    }
}

/// Parse a word of N trit letters, most significant first, after
/// skipping surrounding ASCII whitespace and an optional "0t" marker.
#[verifier::rlimit(100)]
#[verifier::spinoff_prover]
fn parse_word<const N: usize>(s: &str) -> (r: Result<[Trit; N], ParseError>)
    requires
        N >= 1,
    ensures
        ({
            let core = strip_0t(trimmed(s@));
            &&& core.len() != N ==> (r matches Err(ParseError::WrongLength { expected, got })
                && expected == N && got == core.len())
            &&& core.len() == N && !text_trits_ok(core) ==> (r matches Err(ParseError::InvalidChar(
                c,
            )) && c == core[last_bad_index(core)])
            &&& core.len() == N && text_trits_ok(core) ==> (r matches Ok(w) && w@ == text_trits(
                core,
            ))
        }),
{
    let n = s.unicode_len();
    let ghost view = s@;
    let mut start: usize = 0;
    while start < n && is_space(s.get_char(start))
        invariant
            0 <= start <= n,
            n == view.len(),
            view == s@,
            forall|j: int| 0 <= j < start ==> is_space_char(view[j]),
        decreases n - start,
    {
        start = start + 1;
    }
    let mut end: usize = n;
    while end > start && is_space(s.get_char(end - 1))
        invariant
            start <= end <= n,
            n == view.len(),
            view == s@,
            forall|j: int| 0 <= j < start ==> is_space_char(view[j]),
            start < n ==> !is_space_char(view[start as int]),
            forall|j: int| end <= j < n ==> is_space_char(view[j]),
        decreases end,
    {
        end = end - 1;
    }
    proof {
        lemma_trim_front_skip(view, start as int);
        lemma_trim_back_take(view.skip(start as int), end - start);
        assert(trimmed(view) =~= view.subrange(start as int, end as int));
    }
    let ghost trimmed_view = view.subrange(start as int, end as int);
    // Skip a "0t" marker if one leads the word.
    if end - start >= 2 && s.get_char(start) == '0' && s.get_char(start + 1) == 't' {
        start = start + 2;
        proof {
            assert(strip_0t(trimmed_view) =~= view.subrange(start as int, end as int));
        }
    } else {
        proof {
            assert(strip_0t(trimmed_view) == trimmed_view);
        }
    }
    let ghost core = view.subrange(start as int, end as int);
    if end - start != N {
        return Err(ParseError::WrongLength { expected: N, got: end - start });
    }
    let mut trits: [Trit; N] = vstd::array::array_fill_for_copy_types::<Trit, N>(Trit::O);
    let mut i: usize = 0;
    while i < N
        invariant
            0 <= i <= N,
            view == s@,
            n == view.len(),
            start + N == end,
            end <= n,
            core == view.subrange(start as int, end as int),
            core == strip_0t(trimmed(view)),
            trits@.len() == N,
            forall|j: int| 0 <= j < i ==> #[trigger] char_trit(core[N - 1 - j]) is Some,
            forall|j: int|
                0 <= j < i ==> Some(#[trigger] trits@[j]) == char_trit(core[N - 1 - j]),
        decreases N - i,
    {
        let c = s.get_char(end - 1 - i);
        proof {
            assert(view[end - 1 - i] == core[N - 1 - i as int]);
        }
        let t = if c == 'N' || c == 'n' || c == '-' {
            Trit::N
        } else if c == 'O' || c == 'o' || c == '0' {
            Trit::O
        } else if c == 'P' || c == 'p' || c == '+' {
            Trit::P
        } else {
            proof {
                let m = N - 1 - i as int;
                assert forall|j2: int| m < j2 < N implies char_trit(core[j2]) is Some by {
                    assert(char_trit(core[N - 1 - (N - 1 - j2)]) is Some);
                }
                lemma_last_bad(core, m);
            }
            return Err(ParseError::InvalidChar(c));
        };
        trits[i] = t;
        i = i + 1;
    }
    proof {
        assert forall|i2: int| 0 <= i2 < N implies char_trit(core[i2]) is Some by {
            assert(char_trit(core[N - 1 - (N - 1 - i2)]) is Some);
        }
        assert(text_trits_ok(core));
        assert forall|j: int| 0 <= j < N implies trits@[j] == text_trits(core)[j] by {
            assert(Some(trits@[j]) == char_trit(core[N - 1 - j]));
        }
        assert(trits@ =~= text_trits(core));
    }
    Ok(trits)
}

/// Whether a character is whitespace the parser skips.
pub(crate) fn is_space(c: char) -> (r: bool)
    ensures
        r == is_space_char(c),
{
    match c {
        '\u{0009}' | '\u{000A}' | '\u{000B}' | '\u{000C}' | '\u{000D}' | ' ' | '\u{0085}'
        | '\u{00A0}' | '\u{1680}' | '\u{2000}' | '\u{2001}' | '\u{2002}' | '\u{2003}'
        | '\u{2004}' | '\u{2005}' | '\u{2006}' | '\u{2007}' | '\u{2008}' | '\u{2009}'
        | '\u{200A}' | '\u{2028}' | '\u{2029}' | '\u{202F}' | '\u{205F}' | '\u{3000}' => true,
        _ => false,
    }
}

impl Tryte9 {
    /// Parse a 9-trit word from text such as "OOOOPNNNO" or
    /// "0tOOOOPNNNO", most significant trit first; N/n/-, O/o/0 and
    /// P/p/+ name the trits, and ASCII whitespace around the word is
    /// ignored.
    pub fn parse(s: &str) -> (r: Result<Self, ParseError>)
        ensures
            ({
                let core = strip_0t(trimmed(s@));
                &&& core.len() != 9 ==> (r matches Err(ParseError::WrongLength { expected, got })
                    && expected == 9 && got == core.len())
                &&& core.len() == 9 && !text_trits_ok(core) ==> (r matches Err(
                ParseError::InvalidChar(c)) && c == core[last_bad_index(core)])
                &&& core.len() == 9 && text_trits_ok(core) ==> (r matches Ok(w) && w@
                    == text_trits(core))
            }),
    {
        match parse_word::<9>(s) {
            Ok(trits) => Ok(Tryte9 { trits }),
            Err(e) => Err(e),
        }
    }

    /// The canonical text of this word: "0t" and nine trit letters,
    /// most significant first.  `parse` reads it back.
    pub fn to_text(&self) -> (r: String)
        ensures
            r@ == seq!['0', 't'] + word_text(self@),
    {
        word_to_text::<9>(&self.trits)
    }
}

impl Word18 {
    /// Parse an 18-trit word from text, most significant trit first,
    /// as `Tryte9::parse` does for cells.
    pub fn parse(s: &str) -> (r: Result<Self, ParseError>)
        ensures
            ({
                let core = strip_0t(trimmed(s@));
                &&& core.len() != 18 ==> (r matches Err(ParseError::WrongLength { expected, got })
                    && expected == 18 && got == core.len())
                &&& core.len() == 18 && !text_trits_ok(core) ==> (r matches Err(
                ParseError::InvalidChar(c)) && c == core[last_bad_index(core)])
                &&& core.len() == 18 && text_trits_ok(core) ==> (r matches Ok(w) && w@
                    == text_trits(core))
            }),
    {
        match parse_word::<18>(s) {
            Ok(trits) => Ok(Word18 { trits }),
            Err(e) => Err(e),
        }
    }

    /// The canonical text of this word: "0t" and eighteen trit
    /// letters, most significant first.  `parse` reads it back.
    pub fn to_text(&self) -> (r: String)
        ensures
            r@ == seq!['0', 't'] + word_text(self@),
    {
        word_to_text::<18>(&self.trits)
    }
}

/// Render a word as "0t" followed by its trit letters, most
/// significant first.
fn word_to_text<const N: usize>(trits: &[Trit; N]) -> (r: String)
    ensures
        r@ == seq!['0', 't'] + word_text(trits@),
{
    let mut out = String::new();
    out.append("0t");
    proof {
        reveal_strlit("0t");
        reveal_strlit("N");
        reveal_strlit("O");
        reveal_strlit("P");
        assert(out@ =~= seq!['0', 't'] + word_text(trits@).take(0));
    }
    let mut i: usize = N;
    while i > 0
        invariant
            i <= N,
            trits@.len() == N,
            out@ == seq!['0', 't'] + word_text(trits@).take(N - i),
        decreases i,
    {
        proof {
            reveal_strlit("N");
            reveal_strlit("O");
            reveal_strlit("P");
        }
        i = i - 1;
        match trits[i] {
            Trit::N => out.append("N"),
            Trit::O => out.append("O"),
            Trit::P => out.append("P"),
        }
        proof {
            assert(out@ =~= seq!['0', 't'] + word_text(trits@).take(N - i));
        }
    }
    proof {
        assert(word_text(trits@).take(N as int) =~= word_text(trits@));
    }
    out
}

/// The textual round trip: parsing the canonical text of a word gives
/// the word back.
#[verifier::rlimit(100)]
#[verifier::spinoff_prover]
pub proof fn lemma_text_roundtrip(s: Seq<Trit>)
    ensures
        text_trits_ok(strip_0t(trimmed(seq!['0', 't'] + word_text(s)))),
        strip_0t(trimmed(seq!['0', 't'] + word_text(s))).len() == s.len(),
        text_trits(strip_0t(trimmed(seq!['0', 't'] + word_text(s)))) == s,
{
    let full = seq!['0', 't'] + word_text(s);
    assert(full[0] == '0');
    assert(!is_space_char(full[0]));
    lemma_trim_front_skip(full, 0);
    assert(trim_front(full) == full.skip(0));
    assert(full.skip(0) =~= full);
    if s.len() > 0 {
        assert(full.last() == trit_char(s[0]));
    } else {
        assert(full.last() == 't');
    }
    assert(!is_space_char(full.last()));
    lemma_trim_back_take(full, full.len() as int);
    assert(full.take(full.len() as int) =~= full);
    assert(trimmed(full) == full);
    assert(strip_0t(full) =~= word_text(s));
    assert forall|i: int| 0 <= i < s.len() implies char_trit(word_text(s)[i]) is Some by {
        assert(word_text(s)[i] == trit_char(s[s.len() - 1 - i]));
    }
    assert(text_trits(word_text(s)) =~= s);
}

impl Tryte9 {
    /// Zero-extend to an 18-trit word.  Appending zero trits preserves
    /// the value: balanced ternary needs no sign extension.
    pub fn to_word18(&self) -> (r: Word18)
        ensures
            r@ == self@ + Seq::new(9, |i: int| Trit::O),
            r.val() == self.val(),
    {
        let mut trits: [Trit; 18] = vstd::array::array_fill_for_copy_types::<Trit, 18>(Trit::O);
        let mut i: usize = 0;
        while i < 9
            invariant
                i <= 9,
                trits@.len() == 18,
                self@.len() == 9,
                forall|j: int| 0 <= j < i ==> trits@[j] == self@[j],
                forall|j: int| 9 <= j < 18 ==> trits@[j] == Trit::O,
            decreases 9 - i,
        {
            trits[i] = self.trits[i];
            i = i + 1;
        }
        let ghost zeros = Seq::new(9, |i: int| Trit::O);
        proof {
            assert(trits@ =~= self@ + zeros);
            lemma_seq_val_append(self@, zeros);
            lemma_all_zero_iff(zeros);
        }
        Word18 { trits }
    }
}

} // verus!
