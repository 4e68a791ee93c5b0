//! The instruction codec.
//!
//! One instruction lives in a 9-trit word: trits 8..6 hold the opcode
//! as a signed 3-trit integer in [-13, +13], trit 5 holds the address
//! mode, and trits 4..0 hold the signed 5-trit operand.  `decode` and
//! `encode` translate between the word and the typed instruction; the
//! round-trip law `lemma_decode_encode_roundtrip` states that decoding
//! inverts encoding for every instruction the layout can hold.

use vstd::prelude::*;

use crate::ternary::trit::{trit_val, Trit};
use crate::ternary::word::{
    bal_trits,
    bal_word_trunc,
    lemma_bal_trits_canonical,
    lemma_bal_trits_val,
    lemma_bal_trits_zero_ext,
    lemma_pow3_values,
    lemma_seq_val_append,
    lemma_seq_val_bound,
    lemma_tryte9_width,
    pow3,
    seq_val,
    Tryte9,
};

verus! {

broadcast use lemma_tryte9_width;

/// Address modification mode: how the index register F changes the
/// operand address.
#[derive(Debug, Clone, Copy, PartialEq, Eq, Structural)]
pub enum AddrMode {
    /// Address is used as-is (mode trit O).
    Direct,
    /// Effective address is operand + F (mode trit P).
    IndexAdd,
    /// Effective address is operand - F (mode trit N).
    IndexSub,
}

/// The mode a mode trit selects.
pub open spec fn mode_of_trit(t: Trit) -> AddrMode {
    match t {
        Trit::O => AddrMode::Direct,
        Trit::P => AddrMode::IndexAdd,
        Trit::N => AddrMode::IndexSub,
    }
}

/// The mode trit of a mode.
pub open spec fn trit_of_mode(m: AddrMode) -> Trit {
    match m {
        AddrMode::Direct => Trit::O,
        AddrMode::IndexAdd => Trit::P,
        AddrMode::IndexSub => Trit::N,
    }
}

impl AddrMode {
    /// The mode a mode trit selects.
    pub fn from_trit(t: Trit) -> (r: Self)
        ensures
            r == mode_of_trit(t),
    {
        match t {
            Trit::O => AddrMode::Direct,
            Trit::P => AddrMode::IndexAdd,
            Trit::N => AddrMode::IndexSub,
        }
    }

    /// The mode trit of this mode.
    pub fn to_trit(self) -> (r: Trit)
        ensures
            r == trit_of_mode(self),
    {
        match self {
            AddrMode::Direct => Trit::O,
            AddrMode::IndexAdd => Trit::P,
            AddrMode::IndexSub => Trit::N,
        }
    }
}

/// A decoded instruction: 24 variants over five groups (arithmetic,
/// transfer, control, shift, misc).
#[derive(Debug, Clone, Copy, PartialEq, Eq)]
pub enum Instruction {
    /// S := S + [addr]
    Add { addr: Tryte9, mode: AddrMode },
    /// S := S - [addr]
    Sub { addr: Tryte9, mode: AddrMode },
    /// (S, R) := S * [addr]
    Mul { addr: Tryte9, mode: AddrMode },
    /// S := S / [addr], R := remainder
    Div { addr: Tryte9, mode: AddrMode },
    /// S := S + |[addr]|
    AddAbs { addr: Tryte9, mode: AddrMode },
    /// S := S - |[addr]|
    SubAbs { addr: Tryte9, mode: AddrMode },
    /// S := [addr], zero-extended
    Lda { addr: Tryte9, mode: AddrMode },
    /// [addr] := low 9 trits of S
    Sta { addr: Tryte9, mode: AddrMode },
    /// S := [addr]; in balanced ternary zero- and sign-extension
    /// coincide, so this acts exactly as Lda.
    LdaUnsigned { addr: Tryte9, mode: AddrMode },
    /// F := low 5 trits of [addr]
    Ldf { addr: Tryte9, mode: AddrMode },
    /// [addr] := F, zero-extended
    Stf { addr: Tryte9, mode: AddrMode },
    /// R := [addr], zero-extended
    Ldr { addr: Tryte9, mode: AddrMode },
    /// [addr] := low 9 trits of R
    Str { addr: Tryte9, mode: AddrMode },
    /// Exchange S and [addr]
    Xchg { addr: Tryte9, mode: AddrMode },
    /// C := addr
    Jmp { addr: Tryte9, mode: AddrMode },
    /// If S = 0 then C := addr
    Jz { addr: Tryte9, mode: AddrMode },
    /// If S > 0 then C := addr
    Jp { addr: Tryte9, mode: AddrMode },
    /// If S < 0 then C := addr
    Jn { addr: Tryte9, mode: AddrMode },
    /// If omega = P then C := addr
    Jop { addr: Tryte9, mode: AddrMode },
    /// If omega = N then C := addr
    Jon { addr: Tryte9, mode: AddrMode },
    /// Halt execution
    Hlt,
    /// S := S shifted left by count trits
    Shl { count: i8 },
    /// S := S shifted right by count trits
    Shr { count: i8 },
    /// No operation
    Nop,
    /// omega := sign of S
    Tst,
}

/// Errors of instruction decoding.
#[derive(Debug, Clone, PartialEq, Eq, Structural)]
pub enum DecodeError {
    /// The opcode field holds an unassigned value.
    InvalidOpcode(i8),
    /// Reserved for malformed instruction words.
    FormatError,
}

/// The opcode an instruction encodes to.  TST's value +14 does not fit
/// the 3-trit opcode field, a quirk of the historical table: its
/// encoding collides with JON and it can never be decoded back.
pub open spec fn opcode_of(i: Instruction) -> int {
    match i {
        Instruction::Add { .. } => 1,
        Instruction::Sub { .. } => -1,
        Instruction::Mul { .. } => 2,
        Instruction::Div { .. } => -2,
        Instruction::Lda { .. } => 3,
        Instruction::Sta { .. } => -3,
        Instruction::Ldf { .. } => 4,
        Instruction::Stf { .. } => -4,
        Instruction::Jmp { .. } => 5,
        Instruction::LdaUnsigned { .. } => -5,
        Instruction::Jz { .. } => 6,
        Instruction::Jp { .. } => 7,
        Instruction::Jn { .. } => -7,
        Instruction::Nop => 8,
        Instruction::Shl { .. } => 9,
        Instruction::Shr { .. } => -9,
        Instruction::Ldr { .. } => 10,
        Instruction::Str { .. } => -10,
        Instruction::AddAbs { .. } => 11,
        Instruction::SubAbs { .. } => -11,
        Instruction::Xchg { .. } => 12,
        Instruction::Jop { .. } => 13,
        Instruction::Jon { .. } => -13,
        Instruction::Hlt => 0,
        Instruction::Tst => 14,
    }
}

/// The opcode field of an instruction word: a signed 3-trit integer.
pub open spec fn opcode_val(w: Seq<Trit>) -> int {
    9 * trit_val(w[8]) + 3 * trit_val(w[7]) + trit_val(w[6])
}

/// The operand field of an instruction word: a signed 5-trit integer.
pub open spec fn operand_val(w: Seq<Trit>) -> int {
    seq_val(w.take(5))
}

/// The operand field widened to a full 9-trit word.
pub open spec fn operand_word(w: Seq<Trit>) -> Seq<Trit> {
    w.take(5) + Seq::new(4, |i: int| Trit::O)
}

/// True for the opcode values the machine assigns.  Of the signed
/// 3-trit range only -6, -8 and -12 are unassigned.
pub open spec fn valid_opcode(op: int) -> bool {
    -13 <= op <= 13 && op != -6 && op != -8 && op != -12
}

/// What it means for an instruction to be the decoding of a word:
/// the variant matches the opcode field, the address is the operand
/// field zero-extended, and the mode is the mode trit's.  No word
/// decodes to TST.
pub open spec fn decoded(w: Tryte9, i: Instruction) -> bool {
    let op = opcode_val(w@);
    let m = mode_of_trit(w@[5]);
    match i {
        Instruction::Add { addr, mode } => op == 1 && addr@ == operand_word(w@) && mode == m,
        Instruction::Sub { addr, mode } => op == -1 && addr@ == operand_word(w@) && mode == m,
        Instruction::Mul { addr, mode } => op == 2 && addr@ == operand_word(w@) && mode == m,
        Instruction::Div { addr, mode } => op == -2 && addr@ == operand_word(w@) && mode == m,
        Instruction::Lda { addr, mode } => op == 3 && addr@ == operand_word(w@) && mode == m,
        Instruction::Sta { addr, mode } => op == -3 && addr@ == operand_word(w@) && mode == m,
        Instruction::LdaUnsigned { addr, mode } => op == -5 && addr@ == operand_word(w@) && mode
            == m,
        Instruction::Ldf { addr, mode } => op == 4 && addr@ == operand_word(w@) && mode == m,
        Instruction::Stf { addr, mode } => op == -4 && addr@ == operand_word(w@) && mode == m,
        Instruction::Ldr { addr, mode } => op == 10 && addr@ == operand_word(w@) && mode == m,
        Instruction::Str { addr, mode } => op == -10 && addr@ == operand_word(w@) && mode == m,
        Instruction::Xchg { addr, mode } => op == 12 && addr@ == operand_word(w@) && mode == m,
        Instruction::AddAbs { addr, mode } => op == 11 && addr@ == operand_word(w@) && mode == m,
        Instruction::SubAbs { addr, mode } => op == -11 && addr@ == operand_word(w@) && mode == m,
        Instruction::Jmp { addr, mode } => op == 5 && addr@ == operand_word(w@) && mode == m,
        Instruction::Jz { addr, mode } => op == 6 && addr@ == operand_word(w@) && mode == m,
        Instruction::Jp { addr, mode } => op == 7 && addr@ == operand_word(w@) && mode == m,
        Instruction::Jn { addr, mode } => op == -7 && addr@ == operand_word(w@) && mode == m,
        Instruction::Jop { addr, mode } => op == 13 && addr@ == operand_word(w@) && mode == m,
        Instruction::Jon { addr, mode } => op == -13 && addr@ == operand_word(w@) && mode == m,
        Instruction::Hlt => op == 0,
        Instruction::Shl { count } => op == 9 && count as int == operand_val(w@),
        Instruction::Shr { count } => op == -9 && count as int == operand_val(w@),
        Instruction::Nop => op == 8,
        Instruction::Tst => false,
    }
}

/// Decode a 9-trit instruction word: the typed instruction for an
/// assigned opcode, InvalidOpcode with the field's value otherwise.
pub fn decode(nitrit: Tryte9) -> (r: Result<Instruction, DecodeError>)
    ensures
        valid_opcode(opcode_val(nitrit@)) ==> (r matches Ok(i) && decoded(nitrit, i)),
        !valid_opcode(opcode_val(nitrit@)) ==> (r matches Err(e) && e matches
            DecodeError::InvalidOpcode(v) && v as int == opcode_val(nitrit@)),
{
    let t8 = nitrit.get(8);
    let t7 = nitrit.get(7);
    let t6 = nitrit.get(6);
    let op_val: i8 = t8.to_i8() * 9 + t7.to_i8() * 3 + t6.to_i8();
    let mode = AddrMode::from_trit(nitrit.get(5));
    // The operand zero-extended to a full word.
    let mut addr_trits: [Trit; 9] = vstd::array::array_fill_for_copy_types::<Trit, 9>(Trit::O);
    let mut i: usize = 0;
    while i < 5
        invariant
            i <= 5,
            addr_trits@.len() == 9,
            nitrit@.len() == 9,
            forall|j: int| 0 <= j < i ==> addr_trits@[j] == nitrit@[j],
            forall|j: int| 5 <= j < 9 ==> addr_trits@[j] == Trit::O,
        decreases 5 - i,
    {
        addr_trits[i] = nitrit.get(i);
        i = i + 1;
    }
    let addr = Tryte9::from_trits(addr_trits);
    proof {
        assert(addr@ =~= operand_word(nitrit@));
        assert(addr@ =~= nitrit@.take(5) + Seq::new(4, |k: int| Trit::O));
        lemma_seq_val_append(nitrit@.take(5), Seq::new(4, |k: int| Trit::O));
        crate::ternary::word::lemma_all_zero_iff(Seq::new(4, |k: int| Trit::O));
        lemma_seq_val_bound(nitrit@.take(5));
        lemma_pow3_values();
    }
    // addr.val() is the signed operand field, within [-121, 121].
    let addr_val: i32 = addr.to_i32();
    let count: i8 = addr_val as i8;
    match op_val {
        1 => Ok(Instruction::Add { addr, mode }),
        -1 => Ok(Instruction::Sub { addr, mode }),
        2 => Ok(Instruction::Mul { addr, mode }),
        -2 => Ok(Instruction::Div { addr, mode }),
        3 => Ok(Instruction::Lda { addr, mode }),
        -3 => Ok(Instruction::Sta { addr, mode }),
        -5 => Ok(Instruction::LdaUnsigned { addr, mode }),
        4 => Ok(Instruction::Ldf { addr, mode }),
        -4 => Ok(Instruction::Stf { addr, mode }),
        10 => Ok(Instruction::Ldr { addr, mode }),
        -10 => Ok(Instruction::Str { addr, mode }),
        12 => Ok(Instruction::Xchg { addr, mode }),
        11 => Ok(Instruction::AddAbs { addr, mode }),
        -11 => Ok(Instruction::SubAbs { addr, mode }),
        5 => Ok(Instruction::Jmp { addr, mode }),
        6 => Ok(Instruction::Jz { addr, mode }),
        7 => Ok(Instruction::Jp { addr, mode }),
        -7 => Ok(Instruction::Jn { addr, mode }),
        13 => Ok(Instruction::Jop { addr, mode }),
        -13 => Ok(Instruction::Jon { addr, mode }),
        0 => Ok(Instruction::Hlt),
        8 => Ok(Instruction::Nop),
        9 => Ok(Instruction::Shl { count }),
        -9 => Ok(Instruction::Shr { count }),
        _ => Err(DecodeError::InvalidOpcode(op_val)),
    }
}

/// What it means for a word to be the encoding of an instruction:
/// operand trits (the address's low five, a shift count's balanced
/// digits, or zeros), then the mode trit, then the opcode's low three
/// balanced digits.  An address wider than the field and TST's opcode
/// +14 lose their high digits here.
pub open spec fn encode_post(i: Instruction, w: Tryte9) -> bool {
    let zeros5 = Seq::new(5, |k: int| Trit::O);
    match i {
        Instruction::Add { addr, mode } => w@ == addr@.take(5) + seq![trit_of_mode(mode)]
            + bal_trits(1, 3),
        Instruction::Sub { addr, mode } => w@ == addr@.take(5) + seq![trit_of_mode(mode)]
            + bal_trits(-1, 3),
        Instruction::Mul { addr, mode } => w@ == addr@.take(5) + seq![trit_of_mode(mode)]
            + bal_trits(2, 3),
        Instruction::Div { addr, mode } => w@ == addr@.take(5) + seq![trit_of_mode(mode)]
            + bal_trits(-2, 3),
        Instruction::Lda { addr, mode } => w@ == addr@.take(5) + seq![trit_of_mode(mode)]
            + bal_trits(3, 3),
        Instruction::Sta { addr, mode } => w@ == addr@.take(5) + seq![trit_of_mode(mode)]
            + bal_trits(-3, 3),
        Instruction::LdaUnsigned { addr, mode } => w@ == addr@.take(5) + seq![trit_of_mode(mode)]
            + bal_trits(-5, 3),
        Instruction::Ldf { addr, mode } => w@ == addr@.take(5) + seq![trit_of_mode(mode)]
            + bal_trits(4, 3),
        Instruction::Stf { addr, mode } => w@ == addr@.take(5) + seq![trit_of_mode(mode)]
            + bal_trits(-4, 3),
        Instruction::Ldr { addr, mode } => w@ == addr@.take(5) + seq![trit_of_mode(mode)]
            + bal_trits(10, 3),
        Instruction::Str { addr, mode } => w@ == addr@.take(5) + seq![trit_of_mode(mode)]
            + bal_trits(-10, 3),
        Instruction::Xchg { addr, mode } => w@ == addr@.take(5) + seq![trit_of_mode(mode)]
            + bal_trits(12, 3),
        Instruction::AddAbs { addr, mode } => w@ == addr@.take(5) + seq![trit_of_mode(mode)]
            + bal_trits(11, 3),
        Instruction::SubAbs { addr, mode } => w@ == addr@.take(5) + seq![trit_of_mode(mode)]
            + bal_trits(-11, 3),
        Instruction::Jmp { addr, mode } => w@ == addr@.take(5) + seq![trit_of_mode(mode)]
            + bal_trits(5, 3),
        Instruction::Jz { addr, mode } => w@ == addr@.take(5) + seq![trit_of_mode(mode)]
            + bal_trits(6, 3),
        Instruction::Jp { addr, mode } => w@ == addr@.take(5) + seq![trit_of_mode(mode)]
            + bal_trits(7, 3),
        Instruction::Jn { addr, mode } => w@ == addr@.take(5) + seq![trit_of_mode(mode)]
            + bal_trits(-7, 3),
        Instruction::Jop { addr, mode } => w@ == addr@.take(5) + seq![trit_of_mode(mode)]
            + bal_trits(13, 3),
        Instruction::Jon { addr, mode } => w@ == addr@.take(5) + seq![trit_of_mode(mode)]
            + bal_trits(-13, 3),
        Instruction::Hlt => w@ == zeros5 + seq![Trit::O] + bal_trits(0, 3),
        Instruction::Shl { count } => w@ == bal_trits(count as int, 5) + seq![Trit::O] + bal_trits(
            9,
            3,
        ),
        Instruction::Shr { count } => w@ == bal_trits(count as int, 5) + seq![Trit::O] + bal_trits(
            -9,
            3,
        ),
        Instruction::Nop => w@ == zeros5 + seq![Trit::O] + bal_trits(8, 3),
        Instruction::Tst => w@ == zeros5 + seq![Trit::O] + bal_trits(14, 3),
    }
}

/// The low five trits of a word: the part of an address that fits the
/// operand field.
fn low5(addr: &Tryte9) -> (r: [Trit; 5])
    ensures
        r@ == addr@.take(5),
{
    let mut out: [Trit; 5] = vstd::array::array_fill_for_copy_types::<Trit, 5>(Trit::O);
    let mut i: usize = 0;
    while i < 5
        invariant
            i <= 5,
            out@.len() == 5,
            addr@.len() == 9,
            forall|j: int| 0 <= j < i ==> out@[j] == addr@[j],
        decreases 5 - i,
    {
        out[i] = addr.get(i);
        i = i + 1;
    }
    proof {
        assert(out@ =~= addr@.take(5));
    }
    out
}

/// Assemble operand trits, mode trit and opcode into one word.
fn pack(low: [Trit; 5], mode: Trit, opcode: i8) -> (r: Tryte9)
    ensures
        r@ == low@ + seq![mode] + bal_trits(opcode as int, 3),
{
    let op3: [Trit; 3] = bal_word_trunc::<3>(opcode as i64);
    let mut out: [Trit; 9] = vstd::array::array_fill_for_copy_types::<Trit, 9>(Trit::O);
    let mut i: usize = 0;
    while i < 5
        invariant
            i <= 5,
            out@.len() == 9,
            low@.len() == 5,
            forall|j: int| 0 <= j < i ==> out@[j] == low@[j],
        decreases 5 - i,
    {
        out[i] = low[i];
        i = i + 1;
    }
    out[5] = mode;
    let mut k: usize = 0;
    while k < 3
        invariant
            k <= 3,
            out@.len() == 9,
            low@.len() == 5,
            op3@.len() == 3,
            out@[5] == mode,
            forall|j: int| 0 <= j < 5 ==> out@[j] == low@[j],
            forall|j: int| 0 <= j < k ==> out@[6 + j] == op3@[j],
        decreases 3 - k,
    {
        out[6 + k] = op3[k];
        k = k + 1;
    }
    proof {
        assert(out@ =~= low@ + seq![mode] + op3@);
    }
    Tryte9::from_trits(out)
}

/// Encode an instruction into its 9-trit word; the inverse of `decode`
/// on everything the layout can represent.
pub fn encode(instr: &Instruction) -> (r: Tryte9)
    ensures
        encode_post(*instr, r),
{
    let zeros: [Trit; 5] = vstd::array::array_fill_for_copy_types::<Trit, 5>(Trit::O);
    proof {
        assert(zeros@ =~= Seq::new(5, |k: int| Trit::O));
    }
    match instr {
        Instruction::Add { addr, mode } => pack(low5(addr), mode.to_trit(), 1),
        Instruction::Sub { addr, mode } => pack(low5(addr), mode.to_trit(), -1),
        Instruction::Mul { addr, mode } => pack(low5(addr), mode.to_trit(), 2),
        Instruction::Div { addr, mode } => pack(low5(addr), mode.to_trit(), -2),
        Instruction::Lda { addr, mode } => pack(low5(addr), mode.to_trit(), 3),
        Instruction::Sta { addr, mode } => pack(low5(addr), mode.to_trit(), -3),
        Instruction::LdaUnsigned { addr, mode } => pack(low5(addr), mode.to_trit(), -5),
        Instruction::Ldf { addr, mode } => pack(low5(addr), mode.to_trit(), 4),
        Instruction::Stf { addr, mode } => pack(low5(addr), mode.to_trit(), -4),
        Instruction::Ldr { addr, mode } => pack(low5(addr), mode.to_trit(), 10),
        Instruction::Str { addr, mode } => pack(low5(addr), mode.to_trit(), -10),
        Instruction::Xchg { addr, mode } => pack(low5(addr), mode.to_trit(), 12),
        Instruction::AddAbs { addr, mode } => pack(low5(addr), mode.to_trit(), 11),
        Instruction::SubAbs { addr, mode } => pack(low5(addr), mode.to_trit(), -11),
        Instruction::Jmp { addr, mode } => pack(low5(addr), mode.to_trit(), 5),
        Instruction::Jz { addr, mode } => pack(low5(addr), mode.to_trit(), 6),
        Instruction::Jp { addr, mode } => pack(low5(addr), mode.to_trit(), 7),
        Instruction::Jn { addr, mode } => pack(low5(addr), mode.to_trit(), -7),
        Instruction::Jop { addr, mode } => pack(low5(addr), mode.to_trit(), 13),
        Instruction::Jon { addr, mode } => pack(low5(addr), mode.to_trit(), -13),
        Instruction::Hlt => pack(zeros, Trit::O, 0),
        Instruction::Shl { count } => pack(bal_word_trunc::<5>(*count as i64), Trit::O, 9),
        Instruction::Shr { count } => pack(bal_word_trunc::<5>(*count as i64), Trit::O, -9),
        Instruction::Nop => pack(zeros, Trit::O, 8),
        Instruction::Tst => pack(zeros, Trit::O, 14),
    }
}

/// True when the 9-trit layout can hold the instruction exactly: the
/// address or shift count fits the signed 5-trit operand field, and
/// the instruction is not TST, whose opcode does not fit its field.
pub open spec fn representable(i: Instruction) -> bool {
    match i {
        Instruction::Add { addr, .. } => -121 <= addr.val() <= 121,
        Instruction::Sub { addr, .. } => -121 <= addr.val() <= 121,
        Instruction::Mul { addr, .. } => -121 <= addr.val() <= 121,
        Instruction::Div { addr, .. } => -121 <= addr.val() <= 121,
        Instruction::AddAbs { addr, .. } => -121 <= addr.val() <= 121,
        Instruction::SubAbs { addr, .. } => -121 <= addr.val() <= 121,
        Instruction::Lda { addr, .. } => -121 <= addr.val() <= 121,
        Instruction::Sta { addr, .. } => -121 <= addr.val() <= 121,
        Instruction::LdaUnsigned { addr, .. } => -121 <= addr.val() <= 121,
        Instruction::Ldf { addr, .. } => -121 <= addr.val() <= 121,
        Instruction::Stf { addr, .. } => -121 <= addr.val() <= 121,
        Instruction::Ldr { addr, .. } => -121 <= addr.val() <= 121,
        Instruction::Str { addr, .. } => -121 <= addr.val() <= 121,
        Instruction::Xchg { addr, .. } => -121 <= addr.val() <= 121,
        Instruction::Jmp { addr, .. } => -121 <= addr.val() <= 121,
        Instruction::Jz { addr, .. } => -121 <= addr.val() <= 121,
        Instruction::Jp { addr, .. } => -121 <= addr.val() <= 121,
        Instruction::Jn { addr, .. } => -121 <= addr.val() <= 121,
        Instruction::Jop { addr, .. } => -121 <= addr.val() <= 121,
        Instruction::Jon { addr, .. } => -121 <= addr.val() <= 121,
        Instruction::Shl { count } => -121 <= count <= 121,
        Instruction::Shr { count } => -121 <= count <= 121,
        Instruction::Hlt => true,
        Instruction::Nop => true,
        Instruction::Tst => false,
    }
}

/// The value of a 3-trit field read as a little-endian word.
proof fn lemma_seq_val3(s: Seq<Trit>)
    requires
        s.len() == 3,
    ensures
        seq_val(s) == trit_val(s[0]) + 3 * trit_val(s[1]) + 9 * trit_val(s[2]),
{
    let s1 = s.drop_first();
    let s2 = s1.drop_first();
    assert(s2.drop_first() =~= Seq::<Trit>::empty());
    assert(s2[0] == s[2]);
    assert(s1[0] == s[1]);
    assert(seq_val(s2) == trit_val(s[2]) + 3 * seq_val(s2.drop_first()));
    assert(seq_val(s1) == trit_val(s[1]) + 3 * seq_val(s2));
    assert(seq_val(s) == trit_val(s[0]) + 3 * seq_val(s1));
}

/// The shared shape of an encoded word with an address operand: its
/// fields read back as the opcode, the mode and the operand.
proof fn lemma_fields_of_packed(w: Tryte9, low: Seq<Trit>, m: Trit, op: int)
    requires
        w@ == low + seq![m] + bal_trits(op, 3),
        low.len() == 5,
        -13 <= op <= 14,
    ensures
        op <= 13 ==> opcode_val(w@) == op,
        op == 14 ==> opcode_val(w@) == -13,
        w@[5] == m,
        w@.take(5) == low,
{
    crate::ternary::word::lemma_bal_trits_len(op, 3);
    let op3 = bal_trits(op, 3);
    assert(w@.take(5) =~= low);
    assert(w@[5] == m);
    assert(w@[6] == op3[0] && w@[7] == op3[1] && w@[8] == op3[2]);
    lemma_seq_val3(op3);
    lemma_pow3_values();
    if op <= 13 {
        lemma_bal_trits_val(op, 3);
    } else {
        // 14 and -13 agree modulo 27, so they share their 3 low digits.
        crate::ternary::word::lemma_bal_trits_mod(-13, 1, 3);
        assert(pow3(3) == 27);
        lemma_bal_trits_val(-13, 3);
    }
}

/// Decoding inverts encoding for every instruction the 9-trit layout
/// represents: the round trip is the identity away from over-wide
/// operands and TST.
#[verifier::rlimit(100)]
#[verifier::spinoff_prover]
pub proof fn lemma_decode_encode_roundtrip(i: Instruction, w: Tryte9)
    requires
        encode_post(i, w),
        representable(i),
    ensures
        valid_opcode(opcode_val(w@)),
        decoded(w, i),
{
    match i {
        Instruction::Hlt | Instruction::Nop | Instruction::Tst | Instruction::Shl { .. }
        | Instruction::Shr { .. } => lemma_roundtrip_plain(i, w),
        Instruction::Add { .. } | Instruction::Sub { .. } | Instruction::Mul { .. }
        | Instruction::Div { .. } | Instruction::Lda { .. } | Instruction::Sta { .. } => {
            lemma_roundtrip_group_a(i, w)
        },
        Instruction::LdaUnsigned { .. } | Instruction::Ldf { .. } | Instruction::Stf { .. }
        | Instruction::Ldr { .. } | Instruction::Str { .. } | Instruction::Xchg { .. } => {
            lemma_roundtrip_group_b(i, w)
        },
        Instruction::AddAbs { .. } | Instruction::SubAbs { .. } | Instruction::Jmp { .. }
        | Instruction::Jz { .. } | Instruction::Jp { .. } | Instruction::Jn { .. }
        | Instruction::Jop { .. } | Instruction::Jon { .. } => lemma_roundtrip_group_c(i, w),
    }
}

#[verifier::rlimit(100)]
#[verifier::spinoff_prover]
proof fn lemma_roundtrip_plain(i: Instruction, w: Tryte9)
    requires
        encode_post(i, w),
        representable(i),
        i matches Instruction::Hlt || i matches Instruction::Nop || i matches Instruction::Tst
            || i matches Instruction::Shl { .. } || i matches Instruction::Shr { .. },
    ensures
        valid_opcode(opcode_val(w@)),
        decoded(w, i),
{
    lemma_pow3_values();
    let zeros5 = Seq::new(5, |k: int| Trit::O);
    match i {
        Instruction::Hlt => {
            lemma_fields_of_packed(w, zeros5, Trit::O, 0);
        },
        Instruction::Nop => {
            lemma_fields_of_packed(w, zeros5, Trit::O, 8);
        },
        Instruction::Tst => {
            assert(false);
        },
        Instruction::Shl { count } => {
            crate::ternary::word::lemma_bal_trits_len(count as int, 5);
            lemma_fields_of_packed(w, bal_trits(count as int, 5), Trit::O, 9);
            lemma_bal_trits_val(count as int, 5);
            assert(w@.take(5) == bal_trits(count as int, 5));
        },
        Instruction::Shr { count } => {
            crate::ternary::word::lemma_bal_trits_len(count as int, 5);
            lemma_fields_of_packed(w, bal_trits(count as int, 5), Trit::O, -9);
            lemma_bal_trits_val(count as int, 5);
            assert(w@.take(5) == bal_trits(count as int, 5));
        },
        _ => {},
    }
}

#[verifier::rlimit(100)]
#[verifier::spinoff_prover]
proof fn lemma_roundtrip_group_a(i: Instruction, w: Tryte9)
    requires
        encode_post(i, w),
        representable(i),
        i matches Instruction::Add { .. } || i matches Instruction::Sub { .. } || i matches
            Instruction::Mul { .. } || i matches Instruction::Div { .. } || i matches
            Instruction::Lda { .. } || i matches Instruction::Sta { .. },
    ensures
        valid_opcode(opcode_val(w@)),
        decoded(w, i),
{
    match i {
        Instruction::Add { addr, mode } => lemma_addr_case(w, addr, mode, 1),
        Instruction::Sub { addr, mode } => lemma_addr_case(w, addr, mode, -1),
        Instruction::Mul { addr, mode } => lemma_addr_case(w, addr, mode, 2),
        Instruction::Div { addr, mode } => lemma_addr_case(w, addr, mode, -2),
        Instruction::Lda { addr, mode } => lemma_addr_case(w, addr, mode, 3),
        Instruction::Sta { addr, mode } => lemma_addr_case(w, addr, mode, -3),
        _ => {},
    }
}

#[verifier::rlimit(100)]
#[verifier::spinoff_prover]
proof fn lemma_roundtrip_group_b(i: Instruction, w: Tryte9)
    requires
        encode_post(i, w),
        representable(i),
        i matches Instruction::LdaUnsigned { .. } || i matches Instruction::Ldf { .. } || i
            matches Instruction::Stf { .. } || i matches Instruction::Ldr { .. } || i matches
            Instruction::Str { .. } || i matches Instruction::Xchg { .. },
    ensures
        valid_opcode(opcode_val(w@)),
        decoded(w, i),
{
    match i {
        Instruction::LdaUnsigned { addr, mode } => lemma_addr_case(w, addr, mode, -5),
        Instruction::Ldf { addr, mode } => lemma_addr_case(w, addr, mode, 4),
        Instruction::Stf { addr, mode } => lemma_addr_case(w, addr, mode, -4),
        Instruction::Ldr { addr, mode } => lemma_addr_case(w, addr, mode, 10),
        Instruction::Str { addr, mode } => lemma_addr_case(w, addr, mode, -10),
        Instruction::Xchg { addr, mode } => lemma_addr_case(w, addr, mode, 12),
        _ => {},
    }
}

#[verifier::rlimit(100)]
#[verifier::spinoff_prover]
proof fn lemma_roundtrip_group_c(i: Instruction, w: Tryte9)
    requires
        encode_post(i, w),
        representable(i),
        i matches Instruction::AddAbs { .. } || i matches Instruction::SubAbs { .. } || i
            matches Instruction::Jmp { .. } || i matches Instruction::Jz { .. } || i matches
            Instruction::Jp { .. } || i matches Instruction::Jn { .. } || i matches
            Instruction::Jop { .. } || i matches Instruction::Jon { .. },
    ensures
        valid_opcode(opcode_val(w@)),
        decoded(w, i),
{
    match i {
        Instruction::AddAbs { addr, mode } => lemma_addr_case(w, addr, mode, 11),
        Instruction::SubAbs { addr, mode } => lemma_addr_case(w, addr, mode, -11),
        Instruction::Jmp { addr, mode } => lemma_addr_case(w, addr, mode, 5),
        Instruction::Jz { addr, mode } => lemma_addr_case(w, addr, mode, 6),
        Instruction::Jp { addr, mode } => lemma_addr_case(w, addr, mode, 7),
        Instruction::Jn { addr, mode } => lemma_addr_case(w, addr, mode, -7),
        Instruction::Jop { addr, mode } => lemma_addr_case(w, addr, mode, 13),
        Instruction::Jon { addr, mode } => lemma_addr_case(w, addr, mode, -13),
        _ => {},
    }
}

/// The round-trip argument shared by every address-carrying variant:
/// an address within the operand field survives truncation to five
/// trits and zero-extension back.
proof fn lemma_addr_case(w: Tryte9, addr: Tryte9, mode: AddrMode, op: int)
    requires
        w@ == addr@.take(5) + seq![trit_of_mode(mode)] + bal_trits(op, 3),
        -121 <= addr.val() <= 121,
        -13 <= op <= 13,
    ensures
        opcode_val(w@) == op,
        w@[5] == trit_of_mode(mode),
        mode_of_trit(w@[5]) == mode,
        operand_word(w@) == addr@,
{
    lemma_fields_of_packed(w, addr@.take(5), trit_of_mode(mode), op);
    lemma_pow3_values();
    // The address's nine digits are the canonical expansion of its value,
    // whose high four digits vanish inside the field's range.
    lemma_bal_trits_canonical(addr@);
    lemma_bal_trits_zero_ext(addr.val(), 5, 4);
    assert(addr@ == bal_trits(addr.val(), 5) + Seq::new(4, |k: int| Trit::O));
    crate::ternary::word::lemma_bal_trits_len(addr.val(), 5);
    assert(addr@.take(5) =~= bal_trits(addr.val(), 5));
    assert(operand_word(w@) =~= addr@.take(5) + Seq::new(4, |k: int| Trit::O));
}

} // verus!
