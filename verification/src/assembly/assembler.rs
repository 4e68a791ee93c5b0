//! A small two-pass assembler for the machine.
//!
//! Pass one walks the source line by line, collecting labels and
//! emitting code; pass two patches the words that referred to labels
//! not yet known.  Syntax:
//!
//! ```text
//! ; comment
//! START:          ; define a label
//!     LDA 10      ; load from address 10
//!     ADD 11,F+   ; add, with index modification
//!     JMP START   ; jump to a label
//!     ORG 50      ; set the origin address
//!     DAT 42      ; emit a data word
//!     HLT
//! ```

use vstd::prelude::*;

use crate::cpu::decode::{encode, AddrMode, Instruction};
use crate::ternary::trit::Trit;
use crate::ternary::word::{
    char_trit,
    is_space_char,
    lemma_seq_val_append,
    lemma_tryte9_width,
    seq_val,
    trimmed,
    Tryte9,
};

verus! {

broadcast use lemma_tryte9_width;

/// Errors of assembly.
#[derive(Debug, Clone)]
pub enum AssemblerError {
    /// A malformed operand or directive.
    SyntaxError { line: usize, message: String },
    /// A mnemonic the instruction set does not know.
    UnknownMnemonic { line: usize, mnemonic: String },
    /// A label that no line defines.
    UndefinedLabel { line: usize, label: String },
    /// A value that does not fit the word it must land in.
    ValueOutOfRange { line: usize, value: i32 },
}

/// ASCII upper-casing of one character; everything but the small
/// letters stays as it is.
pub open spec fn upper_char_spec(c: char) -> char {
    if c == 'a' {
        'A'
    } else if c == 'b' {
        'B'
    } else if c == 'c' {
        'C'
    } else if c == 'd' {
        'D'
    } else if c == 'e' {
        'E'
    } else if c == 'f' {
        'F'
    } else if c == 'g' {
        'G'
    } else if c == 'h' {
        'H'
    } else if c == 'i' {
        'I'
    } else if c == 'j' {
        'J'
    } else if c == 'k' {
        'K'
    } else if c == 'l' {
        'L'
    } else if c == 'm' {
        'M'
    } else if c == 'n' {
        'N'
    } else if c == 'o' {
        'O'
    } else if c == 'p' {
        'P'
    } else if c == 'q' {
        'Q'
    } else if c == 'r' {
        'R'
    } else if c == 's' {
        'S'
    } else if c == 't' {
        'T'
    } else if c == 'u' {
        'U'
    } else if c == 'v' {
        'V'
    } else if c == 'w' {
        'W'
    } else if c == 'x' {
        'X'
    } else if c == 'y' {
        'Y'
    } else if c == 'z' {
        'Z'
    } else {
        c
    }
}

/// Two texts agree up to ASCII case.
pub open spec fn eq_upper(a: Seq<char>, b: Seq<char>) -> bool {
    a.len() == b.len() && (forall|i: int|
        0 <= i < a.len() ==> upper_char_spec(#[trigger] a[i]) == upper_char_spec(b[i]))
}

/// ASCII upper-casing of one character.
fn upper_char(c: char) -> (r: char)
    ensures
        r == upper_char_spec(c),
{
    match c {
        'a' => 'A',
        'b' => 'B',
        'c' => 'C',
        'd' => 'D',
        'e' => 'E',
        'f' => 'F',
        'g' => 'G',
        'h' => 'H',
        'i' => 'I',
        'j' => 'J',
        'k' => 'K',
        'l' => 'L',
        'm' => 'M',
        'n' => 'N',
        'o' => 'O',
        'p' => 'P',
        'q' => 'Q',
        'r' => 'R',
        's' => 'S',
        't' => 'T',
        'u' => 'U',
        'v' => 'V',
        'w' => 'W',
        'x' => 'X',
        'y' => 'Y',
        'z' => 'Z',
        _ => c,
    }
}

/// Compare two texts ignoring ASCII case, over windows of the two
/// sources.
fn eq_upper_range(a: &str, asub: (usize, usize), b: &str) -> (r: bool)
    requires
        asub.0 <= asub.1 <= a@.len(),
    ensures
        r == eq_upper(a@.subrange(asub.0 as int, asub.1 as int), b@),
{
    let bl = b.unicode_len();
    if asub.1 - asub.0 != bl {
        return false;
    }
    let ghost av = a@.subrange(asub.0 as int, asub.1 as int);
    let mut i: usize = 0;
    while i < bl
        invariant
            i <= bl,
            bl == b@.len(),
            asub.0 + bl <= a@.len(),
            asub.1 - asub.0 == bl,
            av == a@.subrange(asub.0 as int, asub.1 as int),
            forall|j: int| 0 <= j < i ==> upper_char_spec(#[trigger] av[j]) == upper_char_spec(
                b@[j],
            ),
        decreases bl - i,
    {
        let ca = upper_char(a.get_char(asub.0 + i));
        let cb = upper_char(b.get_char(i));
        proof {
            assert(av[i as int] == a@[asub.0 + i]);
        }
        if !(ca == cb) {
            return false;
        }
        i = i + 1;
    }
    true
}

/// A decimal digit's value, or -1.
pub open spec fn digit_val(c: char) -> int {
    if c == '0' {
        0
    } else if c == '1' {
        1
    } else if c == '2' {
        2
    } else if c == '3' {
        3
    } else if c == '4' {
        4
    } else if c == '5' {
        5
    } else if c == '6' {
        6
    } else if c == '7' {
        7
    } else if c == '8' {
        8
    } else if c == '9' {
        9
    } else {
        -1
    }
}

/// The value of a string of decimal digits, most significant first.
pub open spec fn dec_num(s: Seq<char>) -> int
    decreases s.len(),
{
    if s.len() == 0 {
        0
    } else {
        10 * dec_num(s.drop_last()) + digit_val(s.last())
    }
}

/// True when every character is a decimal digit.
pub open spec fn all_digits(s: Seq<char>) -> bool {
    forall|i: int| 0 <= i < s.len() ==> digit_val(#[trigger] s[i]) >= 0
}

/// The digit part of a possibly signed number, and whether it is
/// negative.
pub open spec fn num_body(s: Seq<char>) -> Seq<char> {
    if s.len() > 0 && (s[0] == '-' || s[0] == '+') {
        s.skip(1)
    } else {
        s
    }
}

/// The signed value a decimal text names.
pub open spec fn dec_signed(s: Seq<char>) -> int {
    if s.len() > 0 && s[0] == '-' {
        -dec_num(num_body(s))
    } else {
        dec_num(num_body(s))
    }
}

/// True when a text is a well-formed decimal number that fits i32.
pub open spec fn is_dec_i32(s: Seq<char>) -> bool {
    &&& num_body(s).len() > 0
    &&& all_digits(num_body(s))
    &&& -0x8000_0000 <= dec_signed(s) <= 0x7fff_ffff
}

/// A hexadecimal digit's value, or -1.
pub open spec fn hex_digit_val(c: char) -> int {
    if c == 'a' || c == 'A' {
        10
    } else if c == 'b' || c == 'B' {
        11
    } else if c == 'c' || c == 'C' {
        12
    } else if c == 'd' || c == 'D' {
        13
    } else if c == 'e' || c == 'E' {
        14
    } else if c == 'f' || c == 'F' {
        15
    } else {
        digit_val(c)
    }
}

/// The value of a string of hexadecimal digits, most significant
/// first.
pub open spec fn hex_num(s: Seq<char>) -> int
    decreases s.len(),
{
    if s.len() == 0 {
        0
    } else {
        16 * hex_num(s.drop_last()) + hex_digit_val(s.last())
    }
}

/// True when every character is a hexadecimal digit.
pub open spec fn all_hex(s: Seq<char>) -> bool {
    forall|i: int| 0 <= i < s.len() ==> hex_digit_val(#[trigger] s[i]) >= 0
}

/// The signed value a hexadecimal text names.
pub open spec fn hex_signed(s: Seq<char>) -> int {
    if s.len() > 0 && s[0] == '-' {
        -hex_num(num_body(s))
    } else {
        hex_num(num_body(s))
    }
}

/// True when a text is a well-formed hexadecimal number that fits
/// a 32-bit word.
pub open spec fn is_hex_i32(s: Seq<char>) -> bool {
    &&& num_body(s).len() > 0
    &&& all_hex(num_body(s))
    &&& -0x8000_0000 <= hex_signed(s) <= 0x7fff_ffff
}

proof fn lemma_hex_num_grows(s: Seq<char>, j: int)
    requires
        0 <= j <= s.len(),
        all_hex(s),
    ensures
        hex_num(s) >= hex_num(s.take(j)),
        hex_num(s) >= 0,
    decreases s.len() - j,
{
    if j == s.len() {
        assert(s.take(j) =~= s);
        lemma_hex_num_nonneg(s);
    } else {
        lemma_hex_num_grows(s, j + 1);
        assert(s.take(j + 1).drop_last() =~= s.take(j));
        assert(s.take(j + 1).last() == s[j]);
        lemma_hex_num_nonneg(s.take(j));
    }
}

proof fn lemma_hex_num_nonneg(s: Seq<char>)
    requires
        all_hex(s),
    ensures
        hex_num(s) >= 0,
    decreases s.len(),
{
    if s.len() > 0 {
        assert(all_hex(s.drop_last()));
        lemma_hex_num_nonneg(s.drop_last());
    }
}

/// The value of a digit string never shrinks as digits are appended.
proof fn lemma_dec_num_grows(s: Seq<char>, j: int)
    requires
        0 <= j <= s.len(),
        all_digits(s),
    ensures
        dec_num(s) >= dec_num(s.take(j)),
        dec_num(s) >= 0,
    decreases s.len() - j,
{
    if j == s.len() {
        assert(s.take(j) =~= s);
        lemma_dec_num_nonneg(s);
    } else {
        lemma_dec_num_grows(s, j + 1);
        assert(s.take(j + 1).drop_last() =~= s.take(j));
        assert(s.take(j + 1).last() == s[j]);
        lemma_dec_num_nonneg(s.take(j));
    }
}

proof fn lemma_dec_num_nonneg(s: Seq<char>)
    requires
        all_digits(s),
    ensures
        dec_num(s) >= 0,
    decreases s.len(),
{
    if s.len() > 0 {
        assert(all_digits(s.drop_last()));
        lemma_dec_num_nonneg(s.drop_last());
    }
}

/// Parse a window of the source as a signed decimal number; None when
/// it is not one, or does not fit a 32-bit word.
fn parse_decimal(s: &str, lo: usize, hi: usize) -> (r: Option<i32>)
    requires
        lo <= hi <= s@.len(),
    ensures
        ({
            let t = s@.subrange(lo as int, hi as int);
            match r {
                Some(v) => is_dec_i32(t) && v as int == dec_signed(t),
                None => !is_dec_i32(t),
            }
        }),
{
    let ghost t = s@.subrange(lo as int, hi as int);
    if lo == hi {
        return None;
    }
    let first = s.get_char(lo);
    let negative = first == '-';
    let start: usize = if first == '-' || first == '+' {
        lo + 1
    } else {
        lo
    };
    proof {
        assert(t[0] == s@[lo as int]);
        assert(num_body(t) =~= s@.subrange(start as int, hi as int));
    }
    let ghost body = s@.subrange(start as int, hi as int);
    if start == hi {
        return None;
    }
    let mut acc: i64 = 0;
    let mut i: usize = start;
    while i < hi
        invariant
            start <= i <= hi <= s@.len(),
            lo <= start,
            t == s@.subrange(lo as int, hi as int),
            num_body(t) == body,
            negative == (t.len() > 0 && t[0] == '-'),
            body == s@.subrange(start as int, hi as int),
            all_digits(body.take(i - start)),
            acc == dec_num(body.take(i - start)),
            0 <= acc <= 0x8000_0000,
        decreases hi - i,
    {
        let c = s.get_char(i);
        let d: i64 = match c {
            '0' => 0,
            '1' => 1,
            '2' => 2,
            '3' => 3,
            '4' => 4,
            '5' => 5,
            '6' => 6,
            '7' => 7,
            '8' => 8,
            '9' => 9,
            _ => {
                proof {
                    assert(body[i - start] == s@[i as int]);
                    assert(digit_val(body[i - start]) < 0);
                }
                return None;
            },
        };
        proof {
            assert(body[i - start] == s@[i as int]);
            assert(body.take(i - start + 1).drop_last() =~= body.take(i - start));
            assert(body.take(i - start + 1).last() == body[i - start]);
        }
        acc = acc * 10 + d;
        if acc > 0x8000_0000 {
            proof {
                if all_digits(body) {
                    lemma_dec_num_grows(body, i - start + 1);
                    assert(body.take(body.len() as int) =~= body);
                    assert(dec_num(body) >= acc);
                }
            }
            return None;
        }
        i = i + 1;
    }
    proof {
        assert(body.take(hi - start) =~= body);
    }
    if negative {
        Some((-acc) as i32)
    } else {
        if acc > 0x7fff_ffff {
            proof {
                assert(dec_signed(t) == dec_num(body));
            }
            return None;
        }
        Some(acc as i32)
    }
}

/// The instruction a mnemonic names, given its operand; None for a
/// mnemonic the instruction set does not know.  Aliases follow the
/// machine's assembler tradition.
pub open spec fn instr_of_mnemonic(m: Seq<char>, addr: Tryte9, mode: AddrMode, count: i8) -> Option<
    Instruction,
> {
    if eq_upper(m, seq!['A', 'D', 'D']) {
        Some(Instruction::Add { addr, mode })
    } else if eq_upper(m, seq!['S', 'U', 'B']) {
        Some(Instruction::Sub { addr, mode })
    } else if eq_upper(m, seq!['M', 'U', 'L']) {
        Some(Instruction::Mul { addr, mode })
    } else if eq_upper(m, seq!['D', 'I', 'V']) {
        Some(Instruction::Div { addr, mode })
    } else if eq_upper(m, seq!['A', 'D', 'D', 'A', 'B', 'S']) || eq_upper(
        m,
        seq!['A', 'D', 'A'],
    ) {
        Some(Instruction::AddAbs { addr, mode })
    } else if eq_upper(m, seq!['S', 'U', 'B', 'A', 'B', 'S']) || eq_upper(
        m,
        seq!['S', 'B', 'A'],
    ) {
        Some(Instruction::SubAbs { addr, mode })
    } else if eq_upper(m, seq!['L', 'D', 'A']) || eq_upper(m, seq!['L', 'D']) {
        Some(Instruction::Lda { addr, mode })
    } else if eq_upper(m, seq!['S', 'T', 'A']) || eq_upper(m, seq!['S', 'T']) {
        Some(Instruction::Sta { addr, mode })
    } else if eq_upper(m, seq!['L', 'D', 'A', 'U']) {
        Some(Instruction::LdaUnsigned { addr, mode })
    } else if eq_upper(m, seq!['L', 'D', 'F']) {
        Some(Instruction::Ldf { addr, mode })
    } else if eq_upper(m, seq!['S', 'T', 'F']) {
        Some(Instruction::Stf { addr, mode })
    } else if eq_upper(m, seq!['L', 'D', 'R']) {
        Some(Instruction::Ldr { addr, mode })
    } else if eq_upper(m, seq!['S', 'T', 'R']) {
        Some(Instruction::Str { addr, mode })
    } else if eq_upper(m, seq!['X', 'C', 'H', 'G']) || eq_upper(m, seq!['X', 'C', 'H']) {
        Some(Instruction::Xchg { addr, mode })
    } else if eq_upper(m, seq!['J', 'M', 'P']) || eq_upper(m, seq!['J', 'P']) || eq_upper(
        m,
        seq!['J'],
    ) {
        Some(Instruction::Jmp { addr, mode })
    } else if eq_upper(m, seq!['J', 'Z']) || eq_upper(m, seq!['J', 'E']) {
        Some(Instruction::Jz { addr, mode })
    } else if eq_upper(m, seq!['J', 'P', 'O']) || eq_upper(m, seq!['J', 'G', 'T']) {
        Some(Instruction::Jp { addr, mode })
    } else if eq_upper(m, seq!['J', 'N', 'E']) || eq_upper(m, seq!['J', 'L', 'T']) {
        Some(Instruction::Jn { addr, mode })
    } else if eq_upper(m, seq!['J', 'O', 'P']) {
        Some(Instruction::Jop { addr, mode })
    } else if eq_upper(m, seq!['J', 'O', 'N']) {
        Some(Instruction::Jon { addr, mode })
    } else if eq_upper(m, seq!['H', 'L', 'T']) || eq_upper(m, seq!['H', 'A', 'L', 'T']) {
        Some(Instruction::Hlt)
    } else if eq_upper(m, seq!['S', 'H', 'L']) || eq_upper(m, seq!['A', 'S', 'L']) {
        Some(Instruction::Shl { count })
    } else if eq_upper(m, seq!['S', 'H', 'R']) || eq_upper(m, seq!['A', 'S', 'R']) {
        Some(Instruction::Shr { count })
    } else if eq_upper(m, seq!['N', 'O', 'P']) {
        Some(Instruction::Nop)
    } else if eq_upper(m, seq!['T', 'S', 'T']) {
        Some(Instruction::Tst)
    } else {
        None
    }
}

/// A value reduced to the signed 8-bit range the shift count field
/// uses, as a narrowing cast reduces it.
pub open spec fn wrap_i8(v: int) -> int {
    ((v + 128) % 256) - 128
}

/// Reduce a value to the signed 8-bit range.
fn to_wrapped_i8(v: i32) -> (r: i8)
    ensures
        r as int == wrap_i8(v as int),
{
    let shifted: i64 = v as i64 + 128;
    let m = match shifted.checked_rem(256) {
        Some(m) => m,
        None => 0,
    };
    let m2: i64 = if m < 0 {
        m + 256
    } else {
        m
    };
    proof {
        crate::ternary::arith::lemma_trunc_matches_signed(shifted as int, 256);
        crate::ternary::arith::lemma_tdiv_tmod_bounds(shifted as int, 256);
        let x = shifted as int;
        vstd::arithmetic::div_mod::lemma_fundamental_div_mod(x, 256);
        vstd::arithmetic::div_mod::lemma_mod_division_less_than_divisor(x, 256);
        // Both the truncating and the euclidean remainder differ from x
        // by a multiple of 256, so the adjusted remainder is x % 256.
        let td = crate::ternary::arith::tdiv(x, 256);
        let tm = crate::ternary::arith::tmod(x, 256);
        if tm < 0 {
            vstd::arithmetic::div_mod::lemma_fundamental_div_mod_converse(x, 256, td - 1, tm + 256);
        } else {
            vstd::arithmetic::div_mod::lemma_fundamental_div_mod_converse(x, 256, td, tm);
        }
    }
    (m2 - 128) as i8
}

/// The first occurrence of a character in a text, or -1.
pub open spec fn first_char(s: Seq<char>, c: char) -> int
    decreases s.len(),
{
    if s.len() == 0 {
        -1
    } else if s[0] == c {
        0
    } else {
        let r = first_char(s.drop_first(), c);
        if r == -1 {
            -1
        } else {
            r + 1
        }
    }
}

/// The first whitespace of a text, or -1.
pub open spec fn first_space(s: Seq<char>) -> int
    decreases s.len(),
{
    if s.len() == 0 {
        -1
    } else if is_space_char(s[0]) {
        0
    } else {
        let r = first_space(s.drop_first());
        if r == -1 {
            -1
        } else {
            r + 1
        }
    }
}

proof fn lemma_first_char_at(s: Seq<char>, c: char, k: int)
    requires
        0 <= k < s.len(),
        s[k] == c,
        forall|j: int| 0 <= j < k ==> s[j] != c,
    ensures
        first_char(s, c) == k,
    decreases k,
{
    if k > 0 {
        lemma_first_char_at(s.drop_first(), c, k - 1);
    }
}

proof fn lemma_first_char_none(s: Seq<char>, c: char)
    requires
        forall|j: int| 0 <= j < s.len() ==> s[j] != c,
    ensures
        first_char(s, c) == -1,
    decreases s.len(),
{
    if s.len() > 0 {
        lemma_first_char_none(s.drop_first(), c);
    }
}

proof fn lemma_first_space_at(s: Seq<char>, k: int)
    requires
        0 <= k < s.len(),
        is_space_char(s[k]),
        forall|j: int| 0 <= j < k ==> !is_space_char(s[j]),
    ensures
        first_space(s) == k,
    decreases k,
{
    if k > 0 {
        lemma_first_space_at(s.drop_first(), k - 1);
    }
}

proof fn lemma_first_space_none(s: Seq<char>)
    requires
        forall|j: int| 0 <= j < s.len() ==> !is_space_char(s[j]),
    ensures
        first_space(s) == -1,
    decreases s.len(),
{
    if s.len() > 0 {
        lemma_first_space_none(s.drop_first());
    }
}

/// A line reduced to the text the assembler reads: trimmed, the
/// inline comment cut off, then trimmed at the end again.
pub open spec fn line_code(l: Seq<char>) -> Seq<char> {
    let t = trimmed(l);
    let cut = if first_char(t, ';') == -1 {
        t
    } else {
        t.take(first_char(t, ';'))
    };
    crate::ternary::word::trim_back(cut)
}

/// True for the lines the assembler passes over: blank ones and
/// whole-line comments.
pub open spec fn line_blank(l: Seq<char>) -> bool {
    trimmed(l).len() == 0 || trimmed(l)[0] == ';'
}

/// The first whitespace-separated token of a text.
pub open spec fn first_token(s: Seq<char>) -> Seq<char> {
    if first_space(s) == -1 {
        s
    } else {
        s.take(first_space(s))
    }
}

/// What follows the first token, with the separating whitespace
/// removed.
pub open spec fn rest_after_token(s: Seq<char>) -> Seq<char> {
    if first_space(s) == -1 {
        Seq::empty()
    } else {
        crate::ternary::word::trim_front(s.skip(first_space(s)))
    }
}

/// The value of a plain data statement: DAT or DATA followed by a
/// decimal number in the 9-trit range, with no label on the line.
/// None for anything else this spec does not cover.
pub open spec fn dat_code_value(code: Seq<char>) -> Option<int> {
    let m = first_token(code);
    let operand = first_token(rest_after_token(code));
    if first_char(code, ':') == -1 && (eq_upper(m, seq!['D', 'A', 'T']) || eq_upper(
        m,
        seq!['D', 'A', 'T', 'A'],
    )) && is_dec_i32(operand) && -9841 <= dec_signed(operand) <= 9841 {
        Some(dec_signed(operand))
    } else {
        None
    }
}

/// The two tokens of a statement: its mnemonic and its operand.
pub open spec fn statement_tokens(code: Seq<char>) -> (Seq<char>, Seq<char>) {
    (first_token(code), first_token(rest_after_token(code)))
}

/// The operand value of a plain statement: the decimal operand, or
/// zero when the statement has none.
pub open spec fn instr_line_operand_val(code: Seq<char>) -> int {
    let operand = statement_tokens(code).1;
    if operand.len() == 0 {
        0
    } else {
        dec_signed(operand)
    }
}

/// A plain instruction statement: a mnemonic the instruction set
/// knows, alone or with one decimal operand in the 9-trit range, and
/// no label or mode suffix on the line.
pub open spec fn plain_instr_line(code: Seq<char>) -> bool {
    let (m, operand) = statement_tokens(code);
    &&& first_char(code, ':') == -1
    &&& (operand.len() == 0 || (is_dec_i32(operand) && -9841 <= dec_signed(operand) <= 9841))
    &&& (exists|a: Tryte9, md: AddrMode, c: i8| (#[trigger] instr_of_mnemonic(m, a, md, c)) is Some)
}

/// The word a plain instruction statement lays down: the encoding of
/// the mnemonic's instruction, addressed directly at the operand.
pub open spec fn emits_instr_word(code: Seq<char>, w: Tryte9) -> bool {
    exists|i: Instruction, a: Tryte9, c: i8|
        #![trigger instr_of_mnemonic(first_token(code), a, AddrMode::Direct, c), crate::cpu::decode::encode_post(i, w)]
        {
            &&& a.val() == instr_line_operand_val(code)
            &&& c as int == wrap_i8(instr_line_operand_val(code))
            &&& instr_of_mnemonic(first_token(code), a, AddrMode::Direct, c) == Some(i)
            &&& crate::cpu::decode::encode_post(i, w)
        }
}

/// The value a whole source line lays down as data, if it is a plain
/// data line.
pub open spec fn dat_line_value(l: Seq<char>) -> Option<int> {
    if line_blank(l) {
        None
    } else {
        dat_code_value(line_code(l))
    }
}

/// True when every line of a text is blank, a comment, or a plain
/// data line.
pub open spec fn data_lines_only(lines: Seq<Seq<char>>) -> bool {
    forall|k: int|
        0 <= k < lines.len() ==> line_blank(#[trigger] lines[k]) || dat_line_value(
            lines[k],
        ) is Some
}

/// The data values such a text lays out, in order.
pub open spec fn data_values(lines: Seq<Seq<char>>) -> Seq<int>
    decreases lines.len(),
{
    if lines.len() == 0 {
        Seq::empty()
    } else {
        (if line_blank(lines[0]) {
            Seq::empty()
        } else {
            match dat_line_value(lines[0]) {
                Some(v) => seq![v],
                None => seq![0],
            }
        }) + data_values(lines.drop_first())
    }
}

/// A line the simple-statement contract covers: blank, a comment, a
/// plain data line, or a plain instruction statement.
pub open spec fn simple_line(l: Seq<char>) -> bool {
    line_blank(l) || dat_line_value(l) is Some || plain_instr_line(line_code(l))
}

/// True when every line of a text is a simple statement.
pub open spec fn simple_lines_only(lines: Seq<Seq<char>>) -> bool {
    forall|k: int| 0 <= k < lines.len() ==> simple_line(#[trigger] lines[k])
}

/// The lines that lay a word down, in order: everything but blanks
/// and comments.
pub open spec fn emitting_lines(lines: Seq<Seq<char>>) -> Seq<Seq<char>>
    decreases lines.len(),
{
    if lines.len() == 0 {
        Seq::empty()
    } else {
        (if line_blank(lines[0]) {
            Seq::empty()
        } else {
            seq![lines[0]]
        }) + emitting_lines(lines.drop_first())
    }
}

/// The word a simple statement line lays down: for a data line the
/// word with the line's value, for an instruction statement the
/// encoding of its instruction.
pub open spec fn line_lays_down(l: Seq<char>, w: Tryte9) -> bool {
    match dat_line_value(l) {
        Some(v) => w.val() == v,
        None => emits_instr_word(line_code(l), w),
    }
}

/// What became of one operand text: a number, or a label to resolve
/// in the second pass.
enum OperandValue {
    /// A literal value.
    Number(i32),
    /// A label reference, by its window in the source.
    Label,
}

/// The assembler's working state.
struct Assembler {
    /// The address the next emitted word will occupy.
    current_addr: i32,
    /// Labels defined so far, with their addresses.  A label defined
    /// twice counts by its later definition.
    symbols: Vec<(String, i32)>,
    /// Words that named a label not yet resolved: output index, the
    /// label, and the source line for error reports.
    pending: Vec<(usize, String, usize)>,
    /// The words emitted so far.
    output: Vec<Tryte9>,
}

/// Look a label up among the defined symbols, ignoring ASCII case;
/// the latest definition wins.
fn lookup_symbol(symbols: &Vec<(String, i32)>, name: &str) -> (r: Option<i32>)
{
    let mut i: usize = symbols.len();
    while i > 0
        invariant
            i <= symbols@.len(),
        decreases i,
    {
        i = i - 1;
        let entry = &symbols[i];
        if eq_upper_range(entry.0.as_str(), (0, entry.0.as_str().unicode_len()), name) {
            return Some(entry.1);
        }
    }
    None
}

impl Assembler {
    fn new() -> (r: Self)
        ensures
            r.output@.len() == 0,
            r.pending@.len() == 0,
    {
        Assembler {
            current_addr: 0,
            symbols: Vec::new(),
            pending: Vec::new(),
            output: Vec::new(),
        }
    }

    /// Append one word and move the origin forward.
    fn emit(&mut self, word: Tryte9)
        ensures
            final(self).output@ == old(self).output@.push(word),
            final(self).symbols@ == old(self).symbols@,
            final(self).pending@ == old(self).pending@,
    {
        self.output.push(word);
        // The origin saturates rather than leaving the 32-bit range.
        if self.current_addr < i32::MAX {
            self.current_addr = self.current_addr + 1;
        }
    }

    /// Parse one operand window: a ternary literal (0t...), a
    /// hexadecimal literal (0x...), a decimal number, or a label
    /// reference left for the second pass.
    fn parse_operand_value(&self, source: &str, lo: usize, hi: usize, line_num: usize) -> (r:
        Result<OperandValue, AssemblerError>)
        requires
            lo <= hi <= source@.len(),
        ensures
            ({
                let t = source@.subrange(lo as int, hi as int);
                if t.len() >= 2 && t[0] == '0' && (t[1] == 't' || t[1] == 'T') {
                    let body = t.skip(2);
                    if body.len() > 9 || !crate::ternary::word::text_trits_ok(body) {
                        r matches Err(AssemblerError::SyntaxError { line, .. }) && line == line_num
                    } else {
                        r matches Ok(OperandValue::Number(n)) && n as int == seq_val(
                            crate::ternary::word::text_trits(body),
                        )
                    }
                } else if t.len() >= 2 && t[0] == '0' && (t[1] == 'x' || t[1] == 'X') {
                    if is_hex_i32(t.skip(2)) {
                        r matches Ok(OperandValue::Number(n)) && n as int == hex_signed(t.skip(2))
                    } else {
                        r matches Err(AssemblerError::SyntaxError { line, .. }) && line == line_num
                    }
                } else if is_dec_i32(t) {
                    r matches Ok(OperandValue::Number(n)) && n as int == dec_signed(t)
                } else {
                    r matches Ok(v) && v matches OperandValue::Label
                }
            }),
    {
        let ghost t = source@.subrange(lo as int, hi as int);
        if hi - lo >= 2 && source.get_char(lo) == '0' && (source.get_char(lo + 1) == 't'
            || source.get_char(lo + 1) == 'T') {
            // A ternary literal of at most nine trits, most
            // significant first.
            let ghost body = t.skip(2);
            proof {
                assert(t[0] == source@[lo as int] && t[1] == source@[lo as int + 1]);
                assert(body =~= source@.subrange(lo as int + 2, hi as int));
            }
            if hi - lo - 2 > 9 {
                let mut message = String::new();
                message.append("invalid ternary literal");
                return Err(AssemblerError::SyntaxError { line: line_num, message });
            }
            let mut trits: [Trit; 9] = vstd::array::array_fill_for_copy_types::<Trit, 9>(Trit::O);
            let count = hi - lo - 2;
            let mut k: usize = 0;
            while k < count
                invariant
                    k <= count,
                    count == hi - lo - 2,
                    count <= 9,
                    lo + 2 <= hi <= source@.len(),
                    t == source@.subrange(lo as int, hi as int),
                    t.len() >= 2 && t[0] == '0' && (t[1] == 't' || t[1] == 'T'),
                    body == t.skip(2),
                    body == source@.subrange(lo as int + 2, hi as int),
                    body.len() == count,
                    trits@.len() == 9,
                    forall|j: int| 0 <= j < k ==> #[trigger] char_trit(body[count - 1 - j]) is Some,
                    forall|j: int|
                        0 <= j < k ==> Some(#[trigger] trits@[j]) == char_trit(body[count - 1 - j]),
                    forall|j: int| k <= j < 9 ==> trits@[j] == Trit::O,
                decreases count - k,
            {
                let c = source.get_char(hi - 1 - k);
                proof {
                    assert(body[count - 1 - k] == source@[hi - 1 - k]);
                }
                let tr = match c {
                    'N' | 'n' | '-' => Trit::N,
                    'O' | 'o' | '0' => Trit::O,
                    'P' | 'p' | '+' => Trit::P,
                    _ => {
                        let mut message = String::new();
                        message.append("invalid ternary literal");
                        return Err(AssemblerError::SyntaxError { line: line_num, message });
                    },
                };
                trits[k] = tr;
                k = k + 1;
            }
            let word = Tryte9::from_trits(trits);
            proof {
                assert forall|i2: int| 0 <= i2 < count implies char_trit(body[i2]) is Some by {
                    assert(char_trit(body[count - 1 - (count - 1 - i2)]) is Some);
                }
                assert(crate::ternary::word::text_trits_ok(body));
                // The filled word is the literal's trits padded with
                // zeros above, so the values agree.
                let ts = crate::ternary::word::text_trits(body);
                let zeros = Seq::new((9 - count) as nat, |j: int| Trit::O);
                assert forall|j: int| 0 <= j < count implies trits@[j] == ts[j] by {
                    assert(Some(trits@[j]) == char_trit(body[count - 1 - j]));
                }
                assert(word@ =~= ts + zeros);
                lemma_seq_val_append(ts, zeros);
                crate::ternary::word::lemma_all_zero_iff(zeros);
            }
            return Ok(OperandValue::Number(word.to_i32()));
        }
        if hi - lo >= 2 && source.get_char(lo) == '0' && (source.get_char(lo + 1) == 'x'
            || source.get_char(lo + 1) == 'X') {
            proof {
                assert(t[0] == source@[lo as int] && t[1] == source@[lo as int + 1]);
                assert(t.skip(2) =~= source@.subrange(lo as int + 2, hi as int));
            }
            return match parse_hex(source, lo + 2, hi) {
                Some(v) => Ok(OperandValue::Number(v)),
                None => {
                    let mut message = String::new();
                    message.append("invalid hex literal");
                    Err(AssemblerError::SyntaxError { line: line_num, message })
                },
            };
        }
        proof {
            if t.len() >= 2 {
                assert(t[0] == source@[lo as int] && t[1] == source@[lo as int + 1]);
            } else if t.len() == 1 {
                assert(t[0] == source@[lo as int]);
            }
        }
        match parse_decimal(source, lo, hi) {
            Some(v) => Ok(OperandValue::Number(v)),
            None => Ok(OperandValue::Label),
        }
    }
}

impl Assembler {
    /// Assemble one instruction or directive, already stripped of
    /// labels and comments.
    #[verifier::rlimit(100)]
    #[verifier::spinoff_prover]
    fn process_instruction(&mut self, source: &str, ts: usize, te: usize, line_num: usize) -> (r:
        Result<(), AssemblerError>)
        requires
            ts <= te <= source@.len(),
        ensures
            final(self).output@.len() <= old(self).output@.len() + 1,
            final(self).output@.take(old(self).output@.len() as int) == old(self).output@,
            final(self).symbols@ == old(self).symbols@,
            ({
                let code = source@.subrange(ts as int, te as int);
                dat_code_value(code) matches Some(dv) ==> {
                    &&& r == Ok::<(), AssemblerError>(())
                    &&& final(self).output@.len() == old(self).output@.len() + 1
                    &&& final(self).output@.last().val() == dv
                    &&& final(self).pending@ == old(self).pending@
                }
            }),
            ({
                let code = source@.subrange(ts as int, te as int);
                plain_instr_line(code) ==> {
                    &&& r == Ok::<(), AssemblerError>(())
                    &&& final(self).output@.len() == old(self).output@.len() + 1
                    &&& emits_instr_word(code, final(self).output@.last())
                    &&& final(self).pending@ == old(self).pending@
                }
            }),
    {
        let ghost code = source@.subrange(ts as int, te as int);
        proof {
            assert(self.output@.take(self.output@.len() as int) =~= self.output@);
            reveal_strlit("ORG");
            reveal_strlit("DAT");
            reveal_strlit("DATA");
            assert("ORG"@ =~= seq!['O', 'R', 'G']);
            assert("DAT"@ =~= seq!['D', 'A', 'T']);
            assert("DATA"@ =~= seq!['D', 'A', 'T', 'A']);
        }
        // The mnemonic is the first whitespace-separated token, the
        // operand the second; anything further is ignored.
        let mut m1: usize = ts;
        while m1 < te && !is_space(source.get_char(m1))
            invariant
                ts <= m1 <= te <= source@.len(),
                forall|j: int| ts <= j < m1 ==> !is_space_char(source@[j]),
            decreases te - m1,
        {
            m1 = m1 + 1;
        }
        let mut o0: usize = m1;
        while o0 < te && is_space(source.get_char(o0))
            invariant
                m1 <= o0 <= te <= source@.len(),
                forall|j: int| m1 <= j < o0 ==> is_space_char(source@[j]),
            decreases te - o0,
        {
            o0 = o0 + 1;
        }
        let mut o1: usize = o0;
        while o1 < te && !is_space(source.get_char(o1))
            invariant
                o0 <= o1 <= te <= source@.len(),
                forall|j: int| o0 <= j < o1 ==> !is_space_char(source@[j]),
            decreases te - o1,
        {
            o1 = o1 + 1;
        }
        // Tie the scanned windows to the spec's token split.
        proof {
            assert forall|j: int| 0 <= j < m1 - ts implies !is_space_char(code[j]) by {
                assert(code[j] == source@[ts + j]);
            }
            if m1 < te {
                assert(code[m1 - ts] == source@[m1 as int]);
                lemma_first_space_at(code, m1 - ts);
            } else {
                lemma_first_space_none(code);
            }
            assert(first_token(code) =~= source@.subrange(ts as int, m1 as int));
            let tail = code.skip(m1 - ts);
            assert forall|j: int| 0 <= j < o0 - m1 implies is_space_char(tail[j]) by {
                assert(tail[j] == source@[m1 + j]);
            }
            if o0 < te {
                assert(tail[o0 - m1] == source@[o0 as int]);
            }
            crate::ternary::word::lemma_trim_front_skip(tail, o0 - m1);
            if m1 < te {
                assert(rest_after_token(code) == crate::ternary::word::trim_front(tail));
                assert(tail.skip(o0 - m1) =~= source@.subrange(o0 as int, te as int));
            } else {
                assert(o0 == m1 && o1 == m1);
                assert(rest_after_token(code) =~= source@.subrange(o0 as int, te as int));
            }
            assert(rest_after_token(code) == source@.subrange(o0 as int, te as int));
            let rest = rest_after_token(code);
            assert forall|j: int| 0 <= j < o1 - o0 implies !is_space_char(rest[j]) by {
                assert(rest[j] == source@[o0 + j]);
            }
            if o1 < te {
                assert(rest[o1 - o0] == source@[o1 as int]);
                lemma_first_space_at(rest, o1 - o0);
            } else {
                lemma_first_space_none(rest);
            }
            assert(first_token(rest) =~= source@.subrange(o0 as int, o1 as int));
            if plain_instr_line(code) {
                let (a0, md0, c0) = choose|a0: Tryte9, md0: AddrMode, c0: i8|
                    instr_of_mnemonic(first_token(code), a0, md0, c0) is Some;
                lemma_mnemonic_not_directive(first_token(code), a0, md0, c0);
            }
        }
        if m1 == ts {
            return Ok(());
        }
        let has_operand = o0 < o1;
        // Directives first.
        if eq_upper_range(source, (ts, m1), "ORG") {
            if !has_operand {
                let mut message = String::new();
                message.append("ORG requires address");
                return Err(AssemblerError::SyntaxError { line: line_num, message });
            }
            let v = match self.operand_number(source, o0, o1, line_num)? {
                Some(v) => v,
                None => 0,
            };
            self.current_addr = v;
            return Ok(());
        }
        if eq_upper_range(source, (ts, m1), "DAT") || eq_upper_range(source, (ts, m1), "DATA") {
            if !has_operand {
                let mut message = String::new();
                message.append("DAT requires value");
                return Err(AssemblerError::SyntaxError { line: line_num, message });
            }
            let v = match self.operand_number(source, o0, o1, line_num)? {
                Some(v) => v,
                None => 0,
            };
            if v < -9841 || v > 9841 {
                return Err(AssemblerError::ValueOutOfRange { line: line_num, value: v });
            }
            self.emit(Tryte9::from_i32(v));
            proof {
                assert(self.output@.take(old(self).output@.len() as int) =~= old(self).output@);
            }
            return Ok(());
        }
        // An instruction: split the operand into address and mode.
        let (addr_val, mode) = if has_operand {
            let split = split_mode(source, o0, o1);
            let av = match self.operand_number(source, o0, split.0, line_num)? {
                Some(v) => v,
                None => 0,
            };
            (av, split.1)
        } else {
            (0i32, AddrMode::Direct)
        };
        if addr_val < -9841 || addr_val > 9841 {
            return Err(AssemblerError::ValueOutOfRange { line: line_num, value: addr_val });
        }
        let addr = Tryte9::from_i32(addr_val);
        let count = to_wrapped_i8(addr_val);
        proof {
            if plain_instr_line(code) {
                let (a0, md0, c0) = choose|a0: Tryte9, md0: AddrMode, c0: i8|
                    instr_of_mnemonic(first_token(code), a0, md0, c0) is Some;
                lemma_mnemonic_someness(first_token(code), a0, md0, c0, addr, mode, count);
            }
        }
        let instr = match lookup_mnemonic(source, ts, m1, addr, mode, count) {
            Some(i) => i,
            None => {
                let mnemonic = source.substring_char(ts, m1).to_owned();
                return Err(AssemblerError::UnknownMnemonic { line: line_num, mnemonic });
            },
        };
        self.emit(encode(&instr));
        proof {
            assert(self.output@.take(old(self).output@.len() as int) =~= old(self).output@);
            if plain_instr_line(code) {
                assert(addr.val() == instr_line_operand_val(code));
                assert(count as int == wrap_i8(instr_line_operand_val(code)));
                assert(instr_of_mnemonic(first_token(code), addr, AddrMode::Direct, count)
                    == Some(instr));
                assert(crate::cpu::decode::encode_post(instr, self.output@.last()));
                assert(emits_instr_word(code, self.output@.last()));
            }
        }
        Ok(())
    }

    /// The numeric value of an operand window; a label reference is
    /// recorded for the second pass and reads as None.
    fn operand_number(&mut self, source: &str, lo: usize, hi: usize, line_num: usize) -> (r:
        Result<Option<i32>, AssemblerError>)
        requires
            lo <= hi <= source@.len(),
        ensures
            final(self).output@ == old(self).output@,
            final(self).symbols@ == old(self).symbols@,
            final(self).current_addr == old(self).current_addr,
            ({
                let t = source@.subrange(lo as int, hi as int);
                (!(t.len() >= 2 && t[0] == '0' && (t[1] == 't' || t[1] == 'T')) && !(t.len() >= 2
                    && t[0] == '0' && (t[1] == 'x' || t[1] == 'X')) && is_dec_i32(t)) ==> (r
                    matches Ok(v2) && v2 matches Some(n) && n as int == dec_signed(t)
                    && final(self).pending@ == old(self).pending@)
            }),
    {
        match self.parse_operand_value(source, lo, hi, line_num)? {
            OperandValue::Number(v) => Ok(Some(v)),
            OperandValue::Label => {
                let label = source.substring_char(lo, hi).to_owned();
                self.pending.push((self.output.len(), label, line_num));
                Ok(None)
            },
        }
    }

    /// Assemble one source line: labels, comments, then the
    /// instruction on it, if any.
    fn process_line(&mut self, source: &str, ls: usize, le: usize, line_num: usize) -> (r: Result<
        (),
        AssemblerError,
    >)
        requires
            ls <= le <= source@.len(),
        ensures
            final(self).output@.len() <= old(self).output@.len() + 1,
            final(self).output@.take(old(self).output@.len() as int) == old(self).output@,
            ({
                let l = source@.subrange(ls as int, le as int);
                &&& (line_blank(l) ==> r == Ok::<(), AssemblerError>(()) && *final(self) == *old(
                    self,
                ))
                &&& (dat_line_value(l) matches Some(dv) ==> {
                    &&& r == Ok::<(), AssemblerError>(())
                    &&& final(self).output@.len() == old(self).output@.len() + 1
                    &&& final(self).output@.last().val() == dv
                    &&& final(self).pending@ == old(self).pending@
                })
                &&& (!line_blank(l) && plain_instr_line(line_code(l)) ==> {
                    &&& r == Ok::<(), AssemblerError>(())
                    &&& final(self).output@.len() == old(self).output@.len() + 1
                    &&& emits_instr_word(line_code(l), final(self).output@.last())
                    &&& final(self).pending@ == old(self).pending@
                })
            }),
    {
        let ghost l = source@.subrange(ls as int, le as int);
        proof {
            assert(self.output@.take(self.output@.len() as int) =~= self.output@);
        }
        // Trim the line.
        let mut ts: usize = ls;
        while ts < le && is_space(source.get_char(ts))
            invariant
                ls <= ts <= le <= source@.len(),
                forall|j: int| ls <= j < ts ==> is_space_char(source@[j]),
            decreases le - ts,
        {
            ts = ts + 1;
        }
        let mut te: usize = le;
        while te > ts && is_space(source.get_char(te - 1))
            invariant
                ts <= te <= le <= source@.len(),
                ts < le ==> !is_space_char(source@[ts as int]),
                forall|j: int| ls <= j < ts ==> is_space_char(source@[j]),
                forall|j: int| te <= j < le ==> is_space_char(source@[j]),
            decreases te,
        {
            te = te - 1;
        }
        proof {
            crate::ternary::word::lemma_trim_front_skip(l, ts - ls);
            crate::ternary::word::lemma_trim_back_take(l.skip(ts - ls), te - ts);
            assert(trimmed(l) =~= source@.subrange(ts as int, te as int));
        }
        if ts == te || source.get_char(ts) == ';' {
            proof {
                if ts < te {
                    assert(trimmed(l)[0] == source@[ts as int]);
                }
                assert(line_blank(l));
            }
            return Ok(());
        }
        proof {
            assert(trimmed(l)[0] == source@[ts as int]);
            assert(!line_blank(l));
        }
        // Strip an inline comment and trim again.
        let mut ce: usize = ts;
        while ce < te && !(source.get_char(ce) == ';')
            invariant
                ts <= ce <= te <= source@.len(),
                forall|j: int| ts <= j < ce ==> source@[j] != ';',
            decreases te - ce,
        {
            ce = ce + 1;
        }
        let mut te2: usize = ce;
        while te2 > ts && is_space(source.get_char(te2 - 1))
            invariant
                ts <= te2 <= ce <= te <= source@.len(),
                forall|j: int| ts <= j < ce ==> source@[j] != ';',
                forall|j: int| te2 <= j < ce ==> is_space_char(source@[j]),
            decreases te2,
        {
            te2 = te2 - 1;
        }
        let ghost code = source@.subrange(ts as int, te2 as int);
        proof {
            // Tie the scans to the spec's comment cut: line_code(l) is
            // the window [ts, te2).
            let t = trimmed(l);
            assert forall|j: int| 0 <= j < ce - ts implies t[j] != ';' by {
                assert(t[j] == source@[ts + j]);
            }
            if ce < te {
                assert(t[ce - ts] == source@[ce as int]);
                lemma_first_char_at(t, ';', ce - ts);
            } else {
                lemma_first_char_none(t, ';');
            }
            let cut = if first_char(t, ';') == -1 {
                t
            } else {
                t.take(first_char(t, ';'))
            };
            assert(cut =~= source@.subrange(ts as int, ce as int));
            crate::ternary::word::lemma_trim_back_take(cut, te2 - ts);
            assert(line_code(l) =~= code);
        }
        if ts == te2 {
            proof {
                // Unreachable: the trimmed line starts with a character
                // that is neither whitespace nor a semicolon.
                assert(source@[ts as int] != ';');
                assert(ts < ce);
                assert(!is_space_char(source@[ts as int]));
                assert(false);
            }
            return Ok(());
        }
        // A label definition, possibly followed by an instruction.
        let mut ci: usize = ts;
        while ci < te2 && !(source.get_char(ci) == ':')
            invariant
                ts <= ci <= te2 <= source@.len(),
                forall|j: int| ts <= j < ci ==> source@[j] != ':',
            decreases te2 - ci,
        {
            ci = ci + 1;
        }
        if ci < te2 {
            proof {
                // A labelled line is outside the plain-data shape.
                assert(code[ci - ts] == source@[ci as int]);
                lemma_first_char_at(code, ':', ci - ts);
                assert(dat_line_value(l) is None);
            }
            // Trim the label part.
            let mut lbe: usize = ci;
            while lbe > ts && is_space(source.get_char(lbe - 1))
                invariant
                    ts <= lbe <= ci <= source@.len(),
                decreases lbe,
            {
                lbe = lbe - 1;
            }
            if ts < lbe {
                let label = source.substring_char(ts, lbe).to_owned();
                self.symbols.push((label, self.current_addr));
            }
            // The rest of the line, trimmed at the front.
            let mut rs: usize = ci + 1;
            while rs < te2 && is_space(source.get_char(rs))
                invariant
                    ci + 1 <= rs <= te2 <= source@.len(),
                decreases te2 - rs,
            {
                rs = rs + 1;
            }
            if rs < te2 {
                let res = self.process_instruction(source, rs, te2, line_num);
                proof {
                    assert(self.output@.take(old(self).output@.len() as int) =~= old(
                        self,
                    ).output@);
                }
                return res;
            }
            return Ok(());
        }
        proof {
            assert forall|j: int| 0 <= j < code.len() implies code[j] != ':' by {
                assert(code[j] == source@[ts + j]);
            }
            lemma_first_char_none(code, ':');
        }
        let res = self.process_instruction(source, ts, te2, line_num);
        proof {
            assert(self.output@.take(old(self).output@.len() as int) =~= old(self).output@);
        }
        res
    }

    /// The second pass: patch every word that referred to a label
    /// with the label's address.
    fn resolve_references(&mut self) -> (r: Result<(), AssemblerError>)
        ensures
            final(self).output@.len() == old(self).output@.len(),
            old(self).pending@.len() == 0 ==> *final(self) == *old(self) && r == Ok::<
                (),
                AssemblerError,
            >(()),
    {
        let mut k: usize = 0;
        while k < self.pending.len()
            invariant
                k <= self.pending@.len(),
                self.output@.len() == old(self).output@.len(),
                self.pending@ == old(self).pending@,
                old(self).pending@.len() == 0 ==> *self == *old(self),
            decreases self.pending@.len() - k,
        {
            let out_idx = self.pending[k].0;
            let line_num = self.pending[k].2;
            let addr = match lookup_symbol(&self.symbols, self.pending[k].1.as_str()) {
                Some(a) => a,
                None => {
                    let label = self.pending[k].1.clone();
                    return Err(AssemblerError::UndefinedLabel { line: line_num, label });
                },
            };
            if addr < -9841 || addr > 9841 {
                return Err(AssemblerError::ValueOutOfRange { line: line_num, value: addr });
            }
            if out_idx < self.output.len() {
                self.output[out_idx] = Tryte9::from_i32(addr);
            }
            k = k + 1;
        }
        Ok(())
    }
}

/// Split an operand window into its address part and mode suffix.
/// A plain decimal operand holds no comma, so it never carries a
/// suffix and is taken whole with the direct mode.
fn split_mode(source: &str, o0: usize, o1: usize) -> (r: (usize, AddrMode))
    requires
        o0 <= o1 <= source@.len(),
    ensures
        o0 <= r.0 <= o1,
        (source@.subrange(r.0 as int, o1 as int).len() >= 2) || r.1 == AddrMode::Direct,
        is_dec_i32(source@.subrange(o0 as int, o1 as int)) ==> r.0 == o1 && r.1
            == AddrMode::Direct,
{
    let ghost t = source@.subrange(o0 as int, o1 as int);
    proof {
        if is_dec_i32(t) {
            // Every character of a decimal number is a digit or a
            // leading sign; none is a comma.
            assert forall|p: int| 0 <= p < t.len() implies t[p] != ',' by {
                if t.len() > 0 && (t[0] == '-' || t[0] == '+') {
                    if p > 0 {
                        assert(num_body(t)[p - 1] == t[p]);
                        assert(digit_val(num_body(t)[p - 1]) >= 0);
                    }
                } else {
                    assert(num_body(t)[p] == t[p]);
                    assert(digit_val(num_body(t)[p]) >= 0);
                }
            }
            if o1 - o0 >= 3 {
                assert(t[o1 - o0 - 3] == source@[o1 - 3]);
            }
            if o1 - o0 >= 2 {
                assert(t[o1 - o0 - 2] == source@[o1 - 2]);
            }
        }
    }
    if o1 - o0 >= 3 && source.get_char(o1 - 3) == ',' && (source.get_char(o1 - 2) == 'F'
        || source.get_char(o1 - 2) == 'f') && source.get_char(o1 - 1) == '+' {
        (o1 - 3, AddrMode::IndexAdd)
    } else if o1 - o0 >= 3 && source.get_char(o1 - 3) == ',' && (source.get_char(o1 - 2) == 'F'
        || source.get_char(o1 - 2) == 'f') && source.get_char(o1 - 1) == '-' {
        (o1 - 3, AddrMode::IndexSub)
    } else if o1 - o0 >= 2 && source.get_char(o1 - 2) == ',' && (source.get_char(o1 - 1) == 'F'
        || source.get_char(o1 - 1) == 'f') {
        (o1 - 2, AddrMode::IndexAdd)
    } else {
        (o1, AddrMode::Direct)
    }
}

/// The instruction a mnemonic window names.
#[verifier::rlimit(100)]
#[verifier::spinoff_prover]
fn lookup_mnemonic(
    source: &str,
    m0: usize,
    m1: usize,
    addr: Tryte9,
    mode: AddrMode,
    count: i8,
) -> (r: Option<Instruction>)
    requires
        m0 <= m1 <= source@.len(),
    ensures
        r == instr_of_mnemonic(source@.subrange(m0 as int, m1 as int), addr, mode, count),
{
    proof {
        reveal_strlit("ADD");
        reveal_strlit("SUB");
        reveal_strlit("MUL");
        reveal_strlit("DIV");
        reveal_strlit("ADDABS");
        reveal_strlit("ADA");
        reveal_strlit("SUBABS");
        reveal_strlit("SBA");
        reveal_strlit("LDA");
        reveal_strlit("LD");
        reveal_strlit("STA");
        reveal_strlit("ST");
        reveal_strlit("LDAU");
        reveal_strlit("LDF");
        reveal_strlit("STF");
        reveal_strlit("LDR");
        reveal_strlit("STR");
        reveal_strlit("XCHG");
        reveal_strlit("XCH");
        reveal_strlit("JMP");
        reveal_strlit("JP");
        reveal_strlit("J");
        reveal_strlit("JZ");
        reveal_strlit("JE");
        reveal_strlit("JPO");
        reveal_strlit("JGT");
        reveal_strlit("JNE");
        reveal_strlit("JLT");
        reveal_strlit("JOP");
        reveal_strlit("JON");
        reveal_strlit("HLT");
        reveal_strlit("HALT");
        reveal_strlit("SHL");
        reveal_strlit("ASL");
        reveal_strlit("SHR");
        reveal_strlit("ASR");
        reveal_strlit("NOP");
        reveal_strlit("TST");
        assert("ADD"@ =~= seq!['A', 'D', 'D']);
        assert("SUB"@ =~= seq!['S', 'U', 'B']);
        assert("MUL"@ =~= seq!['M', 'U', 'L']);
        assert("DIV"@ =~= seq!['D', 'I', 'V']);
        assert("ADDABS"@ =~= seq!['A', 'D', 'D', 'A', 'B', 'S']);
        assert("ADA"@ =~= seq!['A', 'D', 'A']);
        assert("SUBABS"@ =~= seq!['S', 'U', 'B', 'A', 'B', 'S']);
        assert("SBA"@ =~= seq!['S', 'B', 'A']);
        assert("LDA"@ =~= seq!['L', 'D', 'A']);
        assert("LD"@ =~= seq!['L', 'D']);
        assert("STA"@ =~= seq!['S', 'T', 'A']);
        assert("ST"@ =~= seq!['S', 'T']);
        assert("LDAU"@ =~= seq!['L', 'D', 'A', 'U']);
        assert("LDF"@ =~= seq!['L', 'D', 'F']);
        assert("STF"@ =~= seq!['S', 'T', 'F']);
        assert("LDR"@ =~= seq!['L', 'D', 'R']);
        assert("STR"@ =~= seq!['S', 'T', 'R']);
        assert("XCHG"@ =~= seq!['X', 'C', 'H', 'G']);
        assert("XCH"@ =~= seq!['X', 'C', 'H']);
        assert("JMP"@ =~= seq!['J', 'M', 'P']);
        assert("JP"@ =~= seq!['J', 'P']);
        assert("J"@ =~= seq!['J']);
        assert("JZ"@ =~= seq!['J', 'Z']);
        assert("JE"@ =~= seq!['J', 'E']);
        assert("JPO"@ =~= seq!['J', 'P', 'O']);
        assert("JGT"@ =~= seq!['J', 'G', 'T']);
        assert("JNE"@ =~= seq!['J', 'N', 'E']);
        assert("JLT"@ =~= seq!['J', 'L', 'T']);
        assert("JOP"@ =~= seq!['J', 'O', 'P']);
        assert("JON"@ =~= seq!['J', 'O', 'N']);
        assert("HLT"@ =~= seq!['H', 'L', 'T']);
        assert("HALT"@ =~= seq!['H', 'A', 'L', 'T']);
        assert("SHL"@ =~= seq!['S', 'H', 'L']);
        assert("ASL"@ =~= seq!['A', 'S', 'L']);
        assert("SHR"@ =~= seq!['S', 'H', 'R']);
        assert("ASR"@ =~= seq!['A', 'S', 'R']);
        assert("NOP"@ =~= seq!['N', 'O', 'P']);
        assert("TST"@ =~= seq!['T', 'S', 'T']);
    }
    let w = (m0, m1);
    if eq_upper_range(source, w, "ADD") {
        Some(Instruction::Add { addr, mode })
    } else if eq_upper_range(source, w, "SUB") {
        Some(Instruction::Sub { addr, mode })
    } else if eq_upper_range(source, w, "MUL") {
        Some(Instruction::Mul { addr, mode })
    } else if eq_upper_range(source, w, "DIV") {
        Some(Instruction::Div { addr, mode })
    } else if eq_upper_range(source, w, "ADDABS") || eq_upper_range(source, w, "ADA") {
        Some(Instruction::AddAbs { addr, mode })
    } else if eq_upper_range(source, w, "SUBABS") || eq_upper_range(source, w, "SBA") {
        Some(Instruction::SubAbs { addr, mode })
    } else if eq_upper_range(source, w, "LDA") || eq_upper_range(source, w, "LD") {
        Some(Instruction::Lda { addr, mode })
    } else if eq_upper_range(source, w, "STA") || eq_upper_range(source, w, "ST") {
        Some(Instruction::Sta { addr, mode })
    } else if eq_upper_range(source, w, "LDAU") {
        Some(Instruction::LdaUnsigned { addr, mode })
    } else if eq_upper_range(source, w, "LDF") {
        Some(Instruction::Ldf { addr, mode })
    } else if eq_upper_range(source, w, "STF") {
        Some(Instruction::Stf { addr, mode })
    } else if eq_upper_range(source, w, "LDR") {
        Some(Instruction::Ldr { addr, mode })
    } else if eq_upper_range(source, w, "STR") {
        Some(Instruction::Str { addr, mode })
    } else if eq_upper_range(source, w, "XCHG") || eq_upper_range(source, w, "XCH") {
        Some(Instruction::Xchg { addr, mode })
    } else if eq_upper_range(source, w, "JMP") || eq_upper_range(source, w, "JP")
        || eq_upper_range(source, w, "J") {
        Some(Instruction::Jmp { addr, mode })
    } else if eq_upper_range(source, w, "JZ") || eq_upper_range(source, w, "JE") {
        Some(Instruction::Jz { addr, mode })
    } else if eq_upper_range(source, w, "JPO") || eq_upper_range(source, w, "JGT") {
        Some(Instruction::Jp { addr, mode })
    } else if eq_upper_range(source, w, "JNE") || eq_upper_range(source, w, "JLT") {
        Some(Instruction::Jn { addr, mode })
    } else if eq_upper_range(source, w, "JOP") {
        Some(Instruction::Jop { addr, mode })
    } else if eq_upper_range(source, w, "JON") {
        Some(Instruction::Jon { addr, mode })
    } else if eq_upper_range(source, w, "HLT") || eq_upper_range(source, w, "HALT") {
        Some(Instruction::Hlt)
    } else if eq_upper_range(source, w, "SHL") || eq_upper_range(source, w, "ASL") {
        Some(Instruction::Shl { count })
    } else if eq_upper_range(source, w, "SHR") || eq_upper_range(source, w, "ASR") {
        Some(Instruction::Shr { count })
    } else if eq_upper_range(source, w, "NOP") {
        Some(Instruction::Nop)
    } else if eq_upper_range(source, w, "TST") {
        Some(Instruction::Tst)
    } else {
        None
    }
}

/// Appending one processed line to the emitting lines gathered so far.
proof fn lemma_emitting_lines_snoc(lines: Seq<Seq<char>>, k: int)
    requires
        0 <= k < lines.len(),
    ensures
        emitting_lines(lines.take(k + 1)) == emitting_lines(lines.take(k)) + (if line_blank(
            lines[k],
        ) {
            Seq::<Seq<char>>::empty()
        } else {
            seq![lines[k]]
        }),
    decreases k,
{
    if k == 0 {
        assert(lines.take(1)[0] == lines[0]);
        assert(lines.take(1).drop_first() =~= Seq::<Seq<char>>::empty());
        assert(lines.take(0) =~= Seq::<Seq<char>>::empty());
        assert(emitting_lines(lines.take(1)) =~= emitting_lines(lines.take(0)) + (if line_blank(
            lines[0],
        ) {
            Seq::<Seq<char>>::empty()
        } else {
            seq![lines[0]]
        }));
    } else {
        lemma_emitting_lines_snoc(lines.drop_first(), k - 1);
        assert(lines.take(k + 1).drop_first() =~= lines.drop_first().take(k));
        assert(lines.take(k).drop_first() =~= lines.drop_first().take(k - 1));
        assert(lines.take(k + 1)[0] == lines[0]);
        assert(lines.take(k)[0] == lines[0]);
        assert(lines.drop_first()[k - 1] == lines[k]);
        assert(emitting_lines(lines.take(k + 1)) =~= emitting_lines(lines.take(k)) + (
        if line_blank(lines[k]) {
            Seq::<Seq<char>>::empty()
        } else {
            seq![lines[k]]
        }));
    }
}

/// Whether a mnemonic is known does not depend on the operand passed
/// alongside it.
#[verifier::rlimit(100)]
#[verifier::spinoff_prover]
proof fn lemma_mnemonic_someness(
    m: Seq<char>,
    a1: Tryte9,
    md1: AddrMode,
    c1: i8,
    a2: Tryte9,
    md2: AddrMode,
    c2: i8,
)
    requires
        instr_of_mnemonic(m, a1, md1, c1) is Some,
    ensures
        instr_of_mnemonic(m, a2, md2, c2) is Some,
{
}

/// No instruction mnemonic reads as one of the directives.
#[verifier::rlimit(100)]
#[verifier::spinoff_prover]
proof fn lemma_mnemonic_not_directive(m: Seq<char>, a: Tryte9, md: AddrMode, c: i8)
    requires
        instr_of_mnemonic(m, a, md, c) is Some,
    ensures
        !eq_upper(m, seq!['O', 'R', 'G']),
        !eq_upper(m, seq!['D', 'A', 'T']),
        !eq_upper(m, seq!['D', 'A', 'T', 'A']),
{
    if eq_upper(m, seq!['O', 'R', 'G']) {
        assert(upper_char_spec(m[0]) == 'O' && upper_char_spec(m[1]) == 'R' && upper_char_spec(
            m[2],
        ) == 'G');
        assert(false);
    }
    if eq_upper(m, seq!['D', 'A', 'T']) {
        assert(upper_char_spec(m[0]) == 'D' && upper_char_spec(m[1]) == 'A' && upper_char_spec(
            m[2],
        ) == 'T');
        assert(false);
    }
    if eq_upper(m, seq!['D', 'A', 'T', 'A']) {
        assert(upper_char_spec(m[0]) == 'D' && upper_char_spec(m[1]) == 'A' && upper_char_spec(
            m[2],
        ) == 'T' && upper_char_spec(m[3]) == 'A');
        assert(false);
    }
}

/// Appending one processed line to the data words gathered so far.
proof fn lemma_data_values_snoc(lines: Seq<Seq<char>>, k: int)
    requires
        0 <= k < lines.len(),
    ensures
        data_values(lines.take(k + 1)) == data_values(lines.take(k)) + (if line_blank(lines[k]) {
            Seq::<int>::empty()
        } else {
            match dat_line_value(lines[k]) {
                Some(v) => seq![v],
                None => seq![0],
            }
        }),
    decreases k,
{
    if k == 0 {
        assert(lines.take(1)[0] == lines[0]);
        assert(lines.take(1).drop_first() =~= Seq::<Seq<char>>::empty());
        assert(lines.take(0) =~= Seq::<Seq<char>>::empty());
        assert(data_values(lines.take(1)) =~= data_values(lines.take(0)) + (if line_blank(
            lines[0],
        ) {
            Seq::<int>::empty()
        } else {
            match dat_line_value(lines[0]) {
                Some(v) => seq![v],
                None => seq![0],
            }
        }));
    } else {
        lemma_data_values_snoc(lines.drop_first(), k - 1);
        assert(lines.take(k + 1).drop_first() =~= lines.drop_first().take(k));
        assert(lines.take(k).drop_first() =~= lines.drop_first().take(k - 1));
        assert(lines.take(k + 1)[0] == lines[0]);
        assert(lines.take(k)[0] == lines[0]);
        assert(lines.drop_first()[k - 1] == lines[k]);
        assert(data_values(lines.take(k + 1)) =~= data_values(lines.take(k)) + (if line_blank(
            lines[k],
        ) {
            Seq::<int>::empty()
        } else {
            match dat_line_value(lines[k]) {
                Some(v) => seq![v],
                None => seq![0],
            }
        }));
    }
}

/// Whether a character is whitespace.
fn is_space(c: char) -> (r: bool)
    ensures
        r == is_space_char(c),
{
    crate::ternary::word::is_space(c)
}

/// Assemble a whole source text into a program image.  The first pass
/// walks the lines, defining labels and emitting words; the second
/// patches label references.  Every reported error carries its
/// one-based line number.
pub fn assemble(source: &str) -> (r: Result<Vec<Tryte9>, AssemblerError>)
    requires
        source@.len() < usize::MAX,
    ensures
        r matches Ok(v) ==> v@.len() <= crate::assembly::trom::split_lines(source@).len(),
        data_lines_only(crate::assembly::trom::split_lines(source@)) ==> (r matches Ok(v) && {
            let values = data_values(crate::assembly::trom::split_lines(source@));
            &&& v@.len() == values.len()
            &&& forall|k: int| 0 <= k < values.len() ==> (#[trigger] v@[k]).val() == values[k]
        }),
        simple_lines_only(crate::assembly::trom::split_lines(source@)) ==> (r matches Ok(v) && {
            let emitting = emitting_lines(crate::assembly::trom::split_lines(source@));
            &&& v@.len() == emitting.len()
            &&& forall|k: int|
                0 <= k < emitting.len() ==> line_lays_down(emitting[k], #[trigger] v@[k])
        }),
{
    let n = source.unicode_len();
    let ghost view = source@;
    let ghost all_lines = crate::assembly::trom::split_lines(view);
    let mut worker = Assembler::new();
    let mut pos: usize = 0;
    let mut lineno: usize = 0;
    proof {
        assert(view.skip(0) =~= view);
        assert(all_lines.skip(0) =~= all_lines);
    }
    while pos <= n
        invariant
            pos <= n + 1,
            lineno <= pos,
            n < usize::MAX,
            n == view.len(),
            view == source@,
            lineno <= all_lines.len(),
            all_lines == crate::assembly::trom::split_lines(view),
            pos <= n ==> all_lines.skip(lineno as int) == crate::assembly::trom::split_lines(
                view.skip(pos as int),
            ),
            pos <= n ==> lineno < all_lines.len(),
            pos == n + 1 ==> lineno == all_lines.len(),
            worker.output@.len() <= lineno,
            data_lines_only(all_lines.take(lineno as int)) ==> {
                let values = data_values(all_lines.take(lineno as int));
                &&& worker.output@.len() == values.len()
                &&& (forall|k: int|
                    0 <= k < values.len() ==> (#[trigger] worker.output@[k]).val() == values[k])
                &&& worker.pending@.len() == 0
            },
            simple_lines_only(all_lines.take(lineno as int)) ==> {
                let emitting = emitting_lines(all_lines.take(lineno as int));
                &&& worker.output@.len() == emitting.len()
                &&& (forall|k: int|
                    0 <= k < emitting.len() ==> line_lays_down(
                        emitting[k],
                        #[trigger] worker.output@[k],
                    ))
                &&& worker.pending@.len() == 0
            },
        decreases n + 1 - pos,
    {
        let mut le: usize = pos;
        while le < n && !(source.get_char(le) == '\n')
            invariant
                pos <= le <= n,
                n == view.len(),
                view == source@,
                forall|j: int| pos <= j < le ==> view[j] != '\n',
            decreases n - le,
        {
            le = le + 1;
        }
        let ghost rest = view.skip(pos as int);
        proof {
            if le < n {
                crate::assembly::trom::lemma_first_nl(rest, le - pos);
                assert(all_lines.skip(lineno as int)[0] == rest.take(le - pos));
            } else {
                crate::assembly::trom::lemma_first_nl_none(rest);
                assert(all_lines.skip(lineno as int)[0] == rest);
            }
            assert(all_lines[lineno as int] == all_lines.skip(lineno as int)[0]);
            assert(rest.take(le - pos) =~= view.subrange(pos as int, le as int));
            assert(rest =~= view.subrange(pos as int, n as int));
            assert(all_lines[lineno as int] == view.subrange(pos as int, le as int));
        }
        let ghost before = worker;
        match worker.process_line(source, pos, le, lineno + 1) {
            Ok(()) => (),
            Err(e) => {
                proof {
                    if data_lines_only(all_lines) {
                        assert(line_blank(all_lines[lineno as int]) || dat_line_value(
                            all_lines[lineno as int],
                        ) is Some);
                        assert(false);
                    }
                    if simple_lines_only(all_lines) {
                        assert(simple_line(all_lines[lineno as int]));
                        assert(false);
                    }
                }
                return Err(e);
            },
        }
        proof {
            lemma_data_values_snoc(all_lines, lineno as int);
            assert(all_lines.take(lineno as int + 1).take(lineno as int) =~= all_lines.take(
                lineno as int,
            ));
            if data_lines_only(all_lines.take(lineno as int + 1)) {
                assert forall|k2: int|
                    0 <= k2 < all_lines.take(lineno as int).len() implies line_blank(
                    #[trigger] all_lines.take(lineno as int)[k2],
                ) || dat_line_value(all_lines.take(lineno as int)[k2]) is Some by {
                    assert(all_lines.take(lineno as int + 1)[k2] == all_lines.take(
                        lineno as int,
                    )[k2]);
                }
                assert(data_lines_only(all_lines.take(lineno as int)));
                assert(all_lines.take(lineno as int + 1)[lineno as int] == all_lines[lineno as int]);
                let l_line = all_lines[lineno as int];
                let values_old = data_values(all_lines.take(lineno as int));
                let values_new = data_values(all_lines.take(lineno as int + 1));
                assert(before.output@.len() == values_old.len());
                assert(before.pending@.len() == 0);
                if line_blank(l_line) {
                    assert(values_new =~= values_old);
                    assert(worker == before);
                } else {
                    match dat_line_value(l_line) {
                        Some(dv) => {
                            assert(values_new =~= values_old + seq![dv]);
                            assert(worker.output@.len() == before.output@.len() + 1);
                            assert(worker.output@.last().val() == dv);
                            assert(worker.pending@ == before.pending@);
                            assert forall|k2: int|
                                0 <= k2 < values_new.len() implies (
                            #[trigger] worker.output@[k2]).val() == values_new[k2] by {
                                if k2 < values_old.len() {
                                    assert(worker.output@.take(before.output@.len() as int)[k2]
                                        == worker.output@[k2]);
                                    assert(worker.output@.take(before.output@.len() as int)
                                        == before.output@);
                                    assert(before.output@[k2].val() == values_old[k2]);
                                    assert(values_new[k2] == values_old[k2]);
                                } else {
                                    assert(k2 == values_new.len() - 1);
                                    assert(worker.output@[k2] == worker.output@.last());
                                }
                            }
                        },
                        None => {
                            assert(false);
                        },
                    }
                }
            }
            if simple_lines_only(all_lines.take(lineno as int + 1)) {
                assert forall|k2: int|
                    0 <= k2 < all_lines.take(lineno as int).len() implies simple_line(
                    #[trigger] all_lines.take(lineno as int)[k2],
                ) by {
                    assert(all_lines.take(lineno as int + 1)[k2] == all_lines.take(
                        lineno as int,
                    )[k2]);
                }
                assert(simple_lines_only(all_lines.take(lineno as int)));
                assert(all_lines.take(lineno as int + 1)[lineno as int] == all_lines[lineno as int]);
                lemma_emitting_lines_snoc(all_lines, lineno as int);
                let l_line = all_lines[lineno as int];
                let em_old = emitting_lines(all_lines.take(lineno as int));
                let em_new = emitting_lines(all_lines.take(lineno as int + 1));
                assert(before.output@.len() == em_old.len());
                assert(before.pending@.len() == 0);
                if line_blank(l_line) {
                    assert(em_new =~= em_old);
                    assert(worker == before);
                } else {
                    assert(em_new =~= em_old + seq![l_line]);
                    assert(simple_line(l_line));
                    assert(worker.output@.len() == before.output@.len() + 1);
                    assert(line_lays_down(l_line, worker.output@.last()));
                    assert(worker.pending@ == before.pending@);
                    assert forall|k2: int|
                        0 <= k2 < em_new.len() implies line_lays_down(
                        em_new[k2],
                        #[trigger] worker.output@[k2],
                    ) by {
                        if k2 < em_old.len() {
                            assert(worker.output@.take(before.output@.len() as int)[k2]
                                == worker.output@[k2]);
                            assert(worker.output@.take(before.output@.len() as int)
                                == before.output@);
                            assert(line_lays_down(em_old[k2], before.output@[k2]));
                            assert(em_new[k2] == em_old[k2]);
                        } else {
                            assert(k2 == em_new.len() - 1);
                            assert(worker.output@[k2] == worker.output@.last());
                            assert(em_new[k2] == l_line);
                        }
                    }
                }
            }
        }
        proof {
            assert(all_lines.skip(lineno as int + 1) =~= all_lines.skip(
                lineno as int,
            ).drop_first());
            if le < n {
                assert(view.skip(pos as int).skip(le - pos + 1) =~= view.skip(le + 1));
                assert(crate::assembly::trom::split_lines(rest).drop_first()
                    =~= crate::assembly::trom::split_lines(rest.skip(le - pos + 1)));
            } else {
                assert(crate::assembly::trom::split_lines(rest) =~= seq![rest]);
                assert(all_lines.skip(lineno as int).len() == 1);
            }
        }
        lineno = lineno + 1;
        pos = le + 1;
    }
    proof {
        assert(all_lines.take(all_lines.len() as int) =~= all_lines);
    }
    let ghost before_resolve = worker;
    match worker.resolve_references() {
        Ok(()) => (),
        Err(e) => {
            proof {
                if data_lines_only(all_lines) {
                    assert(before_resolve.pending@.len() == 0);
                    assert(false);
                }
            }
            return Err(e);
        },
    }
    proof {
        if data_lines_only(all_lines) {
            assert(before_resolve.pending@.len() == 0);
            assert(worker == before_resolve);
        }
        if simple_lines_only(all_lines) {
            assert(before_resolve.pending@.len() == 0);
            assert(worker == before_resolve);
        }
    }
    Ok(worker.output)
}

/// Parse a window as a signed hexadecimal number; None when it is
/// not one, or does not fit a 32-bit word.
fn parse_hex(s: &str, lo: usize, hi: usize) -> (r: Option<i32>)
    requires
        lo <= hi <= s@.len(),
    ensures
        ({
            let t = s@.subrange(lo as int, hi as int);
            match r {
                Some(v) => is_hex_i32(t) && v as int == hex_signed(t),
                None => !is_hex_i32(t),
            }
        }),
{
    let ghost t = s@.subrange(lo as int, hi as int);
    if lo == hi {
        return None;
    }
    let first = s.get_char(lo);
    let negative = first == '-';
    let start: usize = if first == '-' || first == '+' {
        lo + 1
    } else {
        lo
    };
    proof {
        assert(t[0] == s@[lo as int]);
        assert(num_body(t) =~= s@.subrange(start as int, hi as int));
    }
    let ghost body = s@.subrange(start as int, hi as int);
    if start == hi {
        return None;
    }
    let mut acc: i64 = 0;
    let mut i: usize = start;
    while i < hi
        invariant
            start <= i <= hi <= s@.len(),
            lo <= start,
            t == s@.subrange(lo as int, hi as int),
            num_body(t) == body,
            negative == (t.len() > 0 && t[0] == '-'),
            body == s@.subrange(start as int, hi as int),
            all_hex(body.take(i - start)),
            acc == hex_num(body.take(i - start)),
            0 <= acc <= 0x8000_0000,
        decreases hi - i,
    {
        let c = s.get_char(i);
        let d: i64 = match c {
            '0' => 0,
            '1' => 1,
            '2' => 2,
            '3' => 3,
            '4' => 4,
            '5' => 5,
            '6' => 6,
            '7' => 7,
            '8' => 8,
            '9' => 9,
            'a' | 'A' => 10,
            'b' | 'B' => 11,
            'c' | 'C' => 12,
            'd' | 'D' => 13,
            'e' | 'E' => 14,
            'f' | 'F' => 15,
            _ => {
                proof {
                    assert(body[i - start] == s@[i as int]);
                    assert(hex_digit_val(body[i - start]) < 0);
                }
                return None;
            },
        };
        proof {
            assert(body[i - start] == s@[i as int]);
            assert(body.take(i - start + 1).drop_last() =~= body.take(i - start));
            assert(body.take(i - start + 1).last() == body[i - start]);
        }
        acc = acc * 16 + d;
        if acc > 0x8000_0000 {
            proof {
                if all_hex(body) {
                    lemma_hex_num_grows(body, i - start + 1);
                    assert(body.take(body.len() as int) =~= body);
                    assert(hex_num(body) >= acc);
                }
            }
            return None;
        }
        i = i + 1;
    }
    proof {
        assert(body.take(hi - start) =~= body);
    }
    if negative {
        Some((-acc) as i32)
    } else {
        if acc > 0x7fff_ffff {
            proof {
                assert(hex_signed(t) == hex_num(body));
            }
            return None;
        }
        Some(acc as i32)
    }
}

} // verus!
