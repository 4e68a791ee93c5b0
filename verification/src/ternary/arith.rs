//! Multi-trit arithmetic: ripple-carry addition and subtraction,
//! schoolbook multiplication into a double-width product, digit shifts,
//! and comparison.
//!
//! Every contract is stated over the numeric value of the words.  For
//! addition the pair (sum, carry) is the unique balanced splitting
//! `sum + carry * 3^n = a + b`, so a non-zero carry says exactly that the
//! true sum fell outside the word's range.

use vstd::prelude::*;

use crate::ternary::trit::{trit_val, Trit};
use crate::ternary::word::{
    all_zero,
    bal_trits,
    lemma_all_zero_iff,
    lemma_bal_trits_canonical,
    lemma_bal_trits_mod,
    lemma_pow3_adds,
    lemma_pow3_le,
    lemma_pow3_pos,
    lemma_pow3_values,
    lemma_seq_val_append,
    lemma_seq_val_bound,
    lemma_seq_val_injective,
    lemma_seq_val_take_step,
    lemma_seq_val_update,
    lemma_tryte9_ext,
    lemma_tryte9_width,
    lemma_word18_ext,
    lemma_word18_width,
    pow3,
    seq_neg,
    seq_val,
    Tryte9,
    Word18,
};

verus! {

broadcast use lemma_tryte9_width, lemma_word18_width;

/// Negate a 9-trit word.
pub fn negate_tryte9(a: &Tryte9) -> (r: Tryte9)
    ensures
        r@ == seq_neg(a@),
        r.val() == -a.val(),
{
    a.neg()
}

/// Negate an 18-trit word.
pub fn negate(a: &Word18) -> (r: Word18)
    ensures
        r@ == seq_neg(a@),
        r.val() == -a.val(),
{
    a.neg()
}

/// Ripple-carry addition over trit arrays, shared by both word widths:
/// the result and final carry split the true sum exactly.
fn add_arrays<const N: usize>(a: &[Trit; N], b: &[Trit; N]) -> (r: ([Trit; N], Trit))
    ensures
        seq_val(r.0@) + pow3(N as nat) * trit_val(r.1) == seq_val(a@) + seq_val(b@),
{
    let mut out: [Trit; N] = [Trit::O; N];
    let mut carry = Trit::O;
    let mut i: usize = 0;
    while i < N
        invariant
            i <= N,
            a@.len() == N,
            b@.len() == N,
            out@.len() == N,
            seq_val(out@.take(i as int)) + pow3(i as nat) * trit_val(carry) == seq_val(
                a@.take(i as int),
            ) + seq_val(b@.take(i as int)),
        decreases N - i,
    {
        let ghost old_take = out@.take(i as int);
        let ghost old_carry = carry;
        let (sum, new_carry) = a[i].full_add(b[i], carry);
        out[i] = sum;
        carry = new_carry;
        proof {
            assert(out@.take(i as int) =~= old_take);
            assert(out@[i as int] == sum);
            lemma_seq_val_take_step(out@, i as int);
            lemma_seq_val_take_step(a@, i as int);
            lemma_seq_val_take_step(b@, i as int);
            let p = pow3(i as nat);
            let s = trit_val(sum);
            let c = trit_val(new_carry);
            let ai = trit_val(a@[i as int]);
            let bi = trit_val(b@[i as int]);
            let c0 = trit_val(old_carry);
            assert(s + 3 * c == ai + bi + c0);
            assert(s * p + (3 * p) * c == ai * p + bi * p + c0 * p) by (nonlinear_arith)
                requires
                    s + 3 * c == ai + bi + c0,
            ;
            assert(pow3((i + 1) as nat) == 3 * pow3(i as nat));
        }
        i = i + 1;
    }
    proof {
        assert(out@.take(N as int) =~= out@);
        assert(a@.take(N as int) =~= a@);
        assert(b@.take(N as int) =~= b@);
    }
    (out, carry)
}

/// The postcondition of 9-trit addition: the unique balanced splitting
/// of the true sum into a 9-trit result and a carry.
pub open spec fn add9_post(a: Tryte9, b: Tryte9, sum: Tryte9, carry: Trit) -> bool {
    sum.val() + pow3(9) * trit_val(carry) == a.val() + b.val()
}

/// The postcondition of 18-trit addition.
pub open spec fn add18_post(a: Word18, b: Word18, sum: Word18, carry: Trit) -> bool {
    sum.val() + pow3(18) * trit_val(carry) == a.val() + b.val()
}

/// Add two 9-trit words, returning (result, carry_out).  A non-zero
/// carry means the true sum fell outside the 9-trit range; the result
/// is the low 9 balanced digits of the true sum either way.
pub fn add_tryte9(a: &Tryte9, b: &Tryte9) -> (r: (Tryte9, Trit))
    ensures
        add9_post(*a, *b, r.0, r.1),
        r.0@ == bal_trits(a.val() + b.val(), 9),
{
    let (out, carry) = add_arrays::<9>(a.trits(), b.trits());
    let result = Tryte9::from_trits(out);
    proof {
        lemma_bal_trits_canonical(result@);
        lemma_bal_trits_mod(result.val(), trit_val(carry), 9);
    }
    (result, carry)
}

/// Add two 18-trit words, returning (result, carry_out).  A non-zero
/// carry means the true sum fell outside the 18-trit range; the result
/// is the low 18 balanced digits of the true sum either way.
pub fn add(a: &Word18, b: &Word18) -> (r: (Word18, Trit))
    ensures
        add18_post(*a, *b, r.0, r.1),
        r.0@ == bal_trits(a.val() + b.val(), 18),
{
    let (out, carry) = add_arrays::<18>(a.trits(), b.trits());
    let result = Word18::from_trits(out);
    proof {
        lemma_bal_trits_canonical(result@);
        lemma_bal_trits_mod(result.val(), trit_val(carry), 18);
    }
    (result, carry)
}

/// Subtract two 9-trit words (a - b) as a + neg(b).
pub fn subtract_tryte9(a: &Tryte9, b: &Tryte9) -> (r: (Tryte9, Trit))
    ensures
        r.0.val() + pow3(9) * trit_val(r.1) == a.val() - b.val(),
        r.0@ == bal_trits(a.val() - b.val(), 9),
{
    add_tryte9(a, &b.neg())
}

/// Subtract two 18-trit words (a - b) as a + neg(b).
pub fn subtract(a: &Word18, b: &Word18) -> (r: (Word18, Trit))
    ensures
        r.0.val() + pow3(18) * trit_val(r.1) == a.val() - b.val(),
        r.0@ == bal_trits(a.val() - b.val(), 18),
{
    self::add(a, &b.neg())
}

/// Schoolbook multiplication of two 18-trit words into a 36-trit
/// product, returned as (low, high) halves.  The product always fits:
/// low + high * 3^18 equals the exact integer product.
pub fn multiply(a: &Word18, b: &Word18) -> (r: (Word18, Word18))
    ensures
        r.0.val() + pow3(18) * r.1.val() == a.val() * b.val(),
{
    let mut acc: [Trit; 36] = vstd::array::array_fill_for_copy_types::<Trit, 36>(Trit::O);
    proof {
        lemma_all_zero_iff(acc@);
        assert(a@.take(0) =~= Seq::<Trit>::empty());
    }
    let mut i: usize = 0;
    while i < 18
        invariant
            i <= 18,
            acc@.len() == 36,
            a@.len() == 18,
            b@.len() == 18,
            seq_val(acc@) == seq_val(a@.take(i as int)) * b.val(),
        decreases 18 - i,
    {
        let ai = a.get(i);
        proof {
            lemma_seq_val_take_step(a@, i as int);
        }
        if !ai.is_zero() {
            let ghost acc0v = seq_val(acc@);
            let ghost av = trit_val(ai);
            let ghost bv = b.val();
            let ghost pi = pow3(i as nat);
            // Add the partial product b * a_i into the accumulator at
            // offset i, rippling the carry as we go.
            let mut carry = Trit::O;
            let mut j: usize = 0;
            while j < 18
                invariant
                    j <= 18,
                    i < 18,
                    acc@.len() == 36,
                    a@.len() == 18,
                    b@.len() == 18,
                    ai == a@[i as int],
                    av == trit_val(ai),
                    bv == b.val(),
                    pi == pow3(i as nat),
                    seq_val(acc@) + trit_val(carry) * pow3((i + j) as nat) == acc0v + av * seq_val(
                        b@.take(j as int),
                    ) * pi,
                decreases 18 - j,
            {
                let bj = b.get(j);
                let partial = ai.mul(bj);
                let p_idx = i + j;
                let ghost old_acc = acc@;
                let ghost oc = trit_val(carry);
                let (sum, c2) = acc[p_idx].full_add(partial, carry);
                acc[p_idx] = sum;
                carry = c2;
                proof {
                    let p = pow3(p_idx as nat);
                    let pj = pow3(j as nat);
                    let od = trit_val(old_acc[p_idx as int]);
                    let s = trit_val(sum);
                    let c = trit_val(c2);
                    let prt = trit_val(partial);
                    let bjv = trit_val(bj);
                    let tbj = seq_val(b@.take(j as int));
                    assert(acc@ == old_acc.update(p_idx as int, sum));
                    lemma_seq_val_update(old_acc, p_idx as int, sum);
                    assert(s + 3 * c == od + prt + oc);
                    assert((s - od) * p == (prt + oc) * p - c * (3 * p)) by (nonlinear_arith)
                        requires
                            s - od == prt + oc - 3 * c,
                    ;
                    assert((prt + oc) * p == prt * p + oc * p) by (nonlinear_arith);
                    assert(pow3((p_idx + 1) as nat) == 3 * pow3(p_idx as nat));
                    // seq_val(acc) + c * pow3(p_idx+1) == seq_val(old_acc) + oc*p + prt*p
                    lemma_pow3_adds(i as nat, j as nat);
                    lemma_seq_val_take_step(b@, j as int);
                    assert(prt == av * bjv);
                    assert(av * tbj * pi + (av * bjv) * (pi * pj) == av * (tbj + bjv * pj) * pi)
                        by (nonlinear_arith);
                    assert(seq_val(b@.take(j as int + 1)) == tbj + bjv * pj);
                }
                j = j + 1;
            }
            // Ripple what is left of the carry through the high half.
            let ghost target = acc0v + av * bv * pi;
            proof {
                assert(b@.take(18) =~= b@);
            }
            let mut k: usize = i + 18;
            while k < 36
                invariant
                    i + 18 <= k <= 36,
                    acc@.len() == 36,
                    seq_val(acc@) + trit_val(carry) * pow3(k as nat) == target,
                decreases 36 - k,
            {
                let ghost old_acc = acc@;
                let ghost oc = trit_val(carry);
                let (sum, c2) = acc[k].full_add(carry, Trit::O);
                acc[k] = sum;
                carry = c2;
                proof {
                    let p = pow3(k as nat);
                    let od = trit_val(old_acc[k as int]);
                    let s = trit_val(sum);
                    let c = trit_val(c2);
                    assert(acc@ == old_acc.update(k as int, sum));
                    lemma_seq_val_update(old_acc, k as int, sum);
                    assert(s + 3 * c == od + oc);
                    assert((s - od) * p == oc * p - c * (3 * p)) by (nonlinear_arith)
                        requires
                            s - od == oc - 3 * c,
                    ;
                    assert(pow3((k + 1) as nat) == 3 * pow3(k as nat));
                }
                k = k + 1;
            }
            proof {
                // The final carry must be zero: the target value fits in
                // 36 trits because a product of two 18-trit values does.
                let q = pow3(18);
                lemma_pow3_adds(18, 18);
                lemma_pow3_values();
                lemma_seq_val_bound(acc@);
                lemma_seq_val_bound(a@.take(i as int + 1));
                lemma_seq_val_bound(b@);
                lemma_pow3_le((i + 1) as nat, 18);
                let vt = seq_val(a@.take(i as int + 1));
                assert(vt * bv == seq_val(a@.take(i as int)) * bv + av * bv * pi)
                    by (nonlinear_arith)
                    requires
                        vt == seq_val(a@.take(i as int)) + av * pi,
                ;
                assert(target == vt * bv);
                assert(4 * (vt * bv) <= (q - 1) * (q - 1) && 4 * (vt * bv) >= -((q - 1) * (q - 1)))
                    by (nonlinear_arith)
                    requires
                        2 * vt <= q - 1,
                        2 * vt >= 1 - q,
                        2 * bv <= q - 1,
                        2 * bv >= 1 - q,
                        q >= 3,
                ;
                assert(2 * target <= q * q - 1 && 2 * target >= 1 - q * q) by (nonlinear_arith)
                    requires
                        4 * target <= (q - 1) * (q - 1),
                        4 * target >= -((q - 1) * (q - 1)),
                        q >= 3,
                ;
                assert(trit_val(carry) == 0);
                assert(seq_val(acc@) == seq_val(a@.take(i as int + 1)) * b.val());
            }
        } else {
            proof {
                assert(trit_val(a@[i as int]) == 0);
                assert(trit_val(a@[i as int]) * pow3(i as nat) == 0) by (nonlinear_arith)
                    requires
                        trit_val(a@[i as int]) == 0,
                ;
                assert(seq_val(a@.take(i as int + 1)) == seq_val(a@.take(i as int)));
            }
        }
        i = i + 1;
    }
    // Split the 36-trit product into its two 18-trit halves.
    let mut lo: [Trit; 18] = vstd::array::array_fill_for_copy_types::<Trit, 18>(Trit::O);
    let mut hi: [Trit; 18] = vstd::array::array_fill_for_copy_types::<Trit, 18>(Trit::O);
    let mut m: usize = 0;
    while m < 18
        invariant
            m <= 18,
            acc@.len() == 36,
            lo@.len() == 18,
            hi@.len() == 18,
            forall|j: int| 0 <= j < m ==> lo@[j] == acc@[j],
            forall|j: int| 0 <= j < m ==> hi@[j] == acc@[j + 18],
        decreases 18 - m,
    {
        lo[m] = acc[m];
        hi[m] = acc[m + 18];
        m = m + 1;
    }
    let low = Word18::from_trits(lo);
    let high = Word18::from_trits(hi);
    proof {
        assert(acc@ =~= lo@ + hi@);
        lemma_seq_val_append(lo@, hi@);
        assert(a@.take(18) =~= a@);
    }
    (low, high)
}

/// Shift a word left by n trit positions: multiplication by 3^n with
/// the overflowing high trits discarded.  The result is the value of
/// x * 3^n reduced into the 18-trit range; a shift by the full width
/// or more yields zero.
pub fn shift_left(a: &Word18, n: usize) -> (r: Word18)
    ensures
        n >= 18 ==> r.val() == 0,
        n < 18 ==> r@ == Seq::new(
            18,
            |i: int|
                if i < n {
                    Trit::O
                } else {
                    a@[i - n]
                },
        ),
        n < 18 ==> r.val() == pow3(n as nat) * seq_val(a@.take(18 - n as int)),
        n < 18 ==> r.val() == pow3(n as nat) * a.val() - pow3(18) * seq_val(
            a@.skip(18 - n as int),
        ),
{
    if n >= 18 {
        return Word18::zero();
    }
    let mut out: [Trit; 18] = vstd::array::array_fill_for_copy_types::<Trit, 18>(Trit::O);
    let mut i: usize = 0;
    while i < 18 - n
        invariant
            n < 18,
            i <= 18 - n,
            out@.len() == 18,
            a@.len() == 18,
            forall|j: int| 0 <= j < i ==> out@[j + n] == a@[j],
            forall|j: int| 0 <= j < n ==> out@[j] == Trit::O,
            forall|j: int| i + n <= j < 18 ==> out@[j] == Trit::O,
        decreases 18 - n - i,
    {
        out[i + n] = a.get(i);
        i = i + 1;
    }
    let ghost zeros = Seq::new(n as nat, |i: int| Trit::O);
    proof {
        assert(out@ =~= zeros + a@.take(18 - n as int));
        lemma_seq_val_append(zeros, a@.take(18 - n as int));
        lemma_all_zero_iff(zeros);
        assert(out@ =~= Seq::new(
            18,
            |i: int|
                if i < n {
                    Trit::O
                } else {
                    a@[i - n]
                },
        ));
        // The scaled form: x * 3^n minus the discarded high part times 3^18.
        assert(a@ =~= a@.take(18 - n as int) + a@.skip(18 - n as int));
        lemma_seq_val_append(a@.take(18 - n as int), a@.skip(18 - n as int));
        lemma_pow3_adds(n as nat, (18 - n) as nat);
        let t = seq_val(a@.take(18 - n as int));
        let s = seq_val(a@.skip(18 - n as int));
        let pn = pow3(n as nat);
        let pm = pow3((18 - n) as nat);
        assert(pn * (t + pm * s) == pn * t + (pn * pm) * s) by (nonlinear_arith);
    }
    Word18::from_trits(out)
}

/// Shift a word right by n trit positions: the low n trits are
/// discarded, so the result r satisfies x = low + 3^n * r with
/// |low| < 3^n / 2 -- division by 3^n rounded to the nearest integer
/// (in balanced ternary truncating the digits rounds).  A shift by the
/// full width or more yields zero.
pub fn shift_right(a: &Word18, n: usize) -> (r: Word18)
    ensures
        n >= 18 ==> r.val() == 0,
        n < 18 ==> r@ == a@.skip(n as int) + Seq::new(n as nat, |i: int| Trit::O),
        n < 18 ==> r.val() == seq_val(a@.skip(n as int)),
        n < 18 ==> a.val() == seq_val(a@.take(n as int)) + pow3(n as nat) * r.val(),
        n < 18 ==> 2 * seq_val(a@.take(n as int)) <= pow3(n as nat) - 1,
        n < 18 ==> 2 * seq_val(a@.take(n as int)) >= 1 - pow3(n as nat),
{
    if n >= 18 {
        return Word18::zero();
    }
    let mut out: [Trit; 18] = vstd::array::array_fill_for_copy_types::<Trit, 18>(Trit::O);
    let mut i: usize = 0;
    while i < 18 - n
        invariant
            n < 18,
            i <= 18 - n,
            out@.len() == 18,
            a@.len() == 18,
            forall|j: int| 0 <= j < i ==> out@[j] == a@[j + n],
            forall|j: int| i <= j < 18 ==> out@[j] == Trit::O,
        decreases 18 - n - i,
    {
        out[i] = a.get(i + n);
        i = i + 1;
    }
    let ghost zeros = Seq::new(n as nat, |i: int| Trit::O);
    proof {
        assert(out@ =~= a@.skip(n as int) + zeros);
        lemma_seq_val_append(a@.skip(n as int), zeros);
        lemma_all_zero_iff(zeros);
        assert(a@ =~= a@.take(n as int) + a@.skip(n as int));
        lemma_seq_val_append(a@.take(n as int), a@.skip(n as int));
        lemma_seq_val_bound(a@.take(n as int));
    }
    Word18::from_trits(out)
}

/// Division of x by d truncated toward zero, as the machine's divide
/// instruction rounds.
pub open spec fn tdiv(x: int, d: int) -> int {
    if x >= 0 && d > 0 {
        x / d
    } else if x >= 0 {
        -(x / (-d))
    } else if d > 0 {
        -((-x) / d)
    } else {
        (-x) / (-d)
    }
}

/// The remainder matching `tdiv`: its sign follows the dividend.
pub open spec fn tmod(x: int, d: int) -> int {
    x - d * tdiv(x, d)
}

/// Truncating division never grows: |tdiv(x, d)| <= |x|, and the
/// remainder stays below the divisor: |tmod(x, d)| < |d|.
pub proof fn lemma_tdiv_tmod_bounds(x: int, d: int)
    requires
        d != 0,
    ensures
        -abs_of(x) <= tdiv(x, d) <= abs_of(x),
        -abs_of(d) < tmod(x, d) < abs_of(d),
        x >= 0 ==> 0 <= tmod(x, d),
        x < 0 ==> tmod(x, d) <= 0,
{
    let a = abs_of(x);
    let b = abs_of(d);
    vstd::arithmetic::div_mod::lemma_fundamental_div_mod(a, b);
    vstd::arithmetic::div_mod::lemma_mod_division_less_than_divisor(a, b);
    let q = a / b;
    let m = a % b;
    assert(a == b * q + m);
    assert(0 <= q <= a) by (nonlinear_arith)
        requires
            a == b * q + m,
            0 <= m < b,
            a >= 0,
            b >= 1,
    ;
    if x >= 0 && d > 0 {
        assert(tdiv(x, d) == q && tmod(x, d) == m);
    } else if x >= 0 {
        assert(tdiv(x, d) == -q);
        assert(tmod(x, d) == x - d * (-q));
        assert(x - d * (-q) == a - b * q) by (nonlinear_arith)
            requires
                a == x,
                b == -d,
        ;
    } else if d > 0 {
        assert(tdiv(x, d) == -q);
        assert(tmod(x, d) == x - d * (-q));
        assert(x - d * (-q) == -(a - b * q)) by (nonlinear_arith)
            requires
                a == -x,
                b == d,
        ;
    } else {
        assert(tdiv(x, d) == q);
        assert(tmod(x, d) == x - d * q);
        assert(x - d * q == -(a - b * q)) by (nonlinear_arith)
            requires
                a == -x,
                b == -d,
        ;
    }
}

/// The absolute value of an integer.
pub open spec fn abs_of(x: int) -> int {
    if x >= 0 {
        x
    } else {
        -x
    }
}

/// Truncating division and remainder written the way the host's signed
/// division operators compute them, case by case over the signs.
pub proof fn lemma_trunc_matches_signed(x: int, d: int)
    requires
        d != 0,
    ensures
        tdiv(x, d) == (if x == 0 {
            0int
        } else if x > 0 && d > 0 {
            x / d
        } else if x < 0 && d < 0 {
            (x * -1) / (d * -1)
        } else if x < 0 {
            ((x * -1) / d) * -1
        } else {
            (x / (d * -1)) * -1
        }),
        tmod(x, d) == (if x == 0 {
            0int
        } else if x > 0 && d > 0 {
            x % d
        } else if x < 0 && d < 0 {
            ((x * -1) % (d * -1)) * -1
        } else if x < 0 {
            ((x * -1) % d) * -1
        } else {
            x % (d * -1)
        }),
{
    let a = abs_of(x);
    let b = abs_of(d);
    vstd::arithmetic::div_mod::lemma_fundamental_div_mod(a, b);
    let q = a / b;
    let m = a % b;
    assert(a == b * q + m);
    if x == 0 {
        vstd::arithmetic::div_mod::lemma_mod_division_less_than_divisor(a, b);
        assert(0 == b * q + m && 0 <= m < b ==> q == 0 && m == 0) by (nonlinear_arith);
        assert(tdiv(0, d) == 0);
    } else if x > 0 && d > 0 {
        assert(tdiv(x, d) == q && tmod(x, d) == x - d * q);
    } else if x < 0 && d < 0 {
        assert(tdiv(x, d) == q);
        assert(tmod(x, d) == x - d * q);
        assert(x - d * q == (a - b * q) * -1) by (nonlinear_arith)
            requires
                a == -x,
                b == -d,
        ;
    } else if x < 0 {
        assert(tdiv(x, d) == -q);
        assert(tmod(x, d) == x - d * (-q));
        assert(x - d * (-q) == (a - b * q) * -1) by (nonlinear_arith)
            requires
                a == -x,
                b == d,
        ;
    } else {
        assert(tdiv(x, d) == -q);
        assert(tmod(x, d) == x - d * (-q));
        assert(x - d * (-q) == a - b * q) by (nonlinear_arith)
            requires
                a == x,
                b == -d,
        ;
    }
}

/// When the digits a right shift discards agree in sign with the word
/// (or vanish), the shift is exactly division by 3^n truncated toward
/// zero.  (With discarded digits of the opposite sign the shift rounds
/// to the nearest integer instead: shifting 5 = PNN right by one gives
/// 2, not 1.)
pub proof fn lemma_shift_right_truncates(x: int, low: int, r: int, n: nat)
    requires
        x == low + pow3(n) * r,
        2 * low <= pow3(n) - 1,
        2 * low >= 1 - pow3(n),
        low * x >= 0,
    ensures
        r == tdiv(x, pow3(n)),
        low == tmod(x, pow3(n)),
{
    let d = pow3(n);
    lemma_pow3_pos(n);
    if x >= 0 {
        assert(low >= 0) by (nonlinear_arith)
            requires
                low * x >= 0,
                x >= 0,
                x == low + d * r,
                2 * low <= d - 1,
                2 * low >= 1 - d,
                d >= 1,
        ;
        vstd::arithmetic::div_mod::lemma_fundamental_div_mod_converse(x, d, r, low);
    } else {
        assert(low <= 0) by (nonlinear_arith)
            requires
                low * x >= 0,
                x < 0,
        ;
        assert(-x == (-r) * d + (-low)) by (nonlinear_arith)
            requires
                x == low + d * r,
        ;
        vstd::arithmetic::div_mod::lemma_fundamental_div_mod_converse(-x, d, -r, -low);
        assert(tdiv(x, d) == -((-x) / d));
    }
}

/// Adding a word to its trit-wise negation gives the zero word with
/// carry O: every value has an exact additive inverse in its width.
pub proof fn lemma_additive_inverse(x: Word18, y: Word18, sum: Word18, carry: Trit)
    requires
        y@ == seq_neg(x@),
        add18_post(x, y, sum, carry),
    ensures
        all_zero(sum@),
        sum.val() == 0,
        carry == Trit::O,
{
    broadcast use lemma_word18_width;

    crate::ternary::word::lemma_seq_val_neg(x@);
    lemma_seq_val_bound(sum@);
    lemma_pow3_pos(18);
    lemma_pow3_values();
    assert(trit_val(carry) == 0);
    lemma_all_zero_iff(sum@);
}

/// Addition is commutative: the (sum, carry) pair admitted by the
/// addition contract for (x, y) and for (y, x) is one and the same.
pub proof fn lemma_add_commutative(
    x: Word18,
    y: Word18,
    s1: Word18,
    c1: Trit,
    s2: Word18,
    c2: Trit,
)
    requires
        add18_post(x, y, s1, c1),
        add18_post(y, x, s2, c2),
    ensures
        s1 == s2,
        c1 == c2,
{
    broadcast use lemma_word18_width;

    lemma_seq_val_bound(s1@);
    lemma_seq_val_bound(s2@);
    lemma_pow3_values();
    assert(trit_val(c1) == trit_val(c2));
    assert(c1 == c2);
    lemma_seq_val_injective(s1@, s2@);
    lemma_word18_ext(s1, s2);
}

/// Negation is an involution: negating a word twice gives it back.
pub proof fn lemma_neg_involution_word18(x: Word18, y: Word18, z: Word18)
    requires
        y@ == seq_neg(x@),
        z@ == seq_neg(y@),
    ensures
        z == x,
{
    crate::ternary::word::lemma_seq_neg_involution(x@);
    lemma_word18_ext(z, x);
}

/// Negation is an involution on 9-trit words as well.
pub proof fn lemma_neg_involution_tryte9(x: Tryte9, y: Tryte9, z: Tryte9)
    requires
        y@ == seq_neg(x@),
        z@ == seq_neg(y@),
    ensures
        z == x,
{
    crate::ternary::word::lemma_seq_neg_involution(x@);
    lemma_tryte9_ext(z, x);
}

/// Compare two words by value.
pub fn compare(a: &Word18, b: &Word18) -> (r: core::cmp::Ordering)
    ensures
        (r == core::cmp::Ordering::Less) == (a.val() < b.val()),
        (r == core::cmp::Ordering::Equal) == (a.val() == b.val()),
        (r == core::cmp::Ordering::Greater) == (a.val() > b.val()),
{
    let av = a.to_i64();
    let bv = b.to_i64();
    if av < bv {
        core::cmp::Ordering::Less
    } else if av == bv {
        core::cmp::Ordering::Equal
    } else {
        core::cmp::Ordering::Greater
    }
}

/// True exactly when the sum of the two words falls outside the
/// 18-trit range, which the ripple-carry adder signals with a
/// non-zero final carry.
pub fn would_overflow(a: &Word18, b: &Word18) -> (r: bool)
    ensures
        r == (2 * (a.val() + b.val()) > pow3(18) - 1 || 2 * (a.val() + b.val()) < 1 - pow3(18)),
{
    let (sum, carry) = self::add(a, b);
    proof {
        lemma_seq_val_bound(sum@);
        lemma_pow3_values();
    }
    !carry.is_zero()
}

} // verus!
