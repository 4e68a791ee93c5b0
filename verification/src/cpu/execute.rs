//! The fetch-decode-execute engine.
//!
//! A step fetches the cell the program counter names, advances the
//! counter, decodes the word and executes the typed instruction.  The
//! whole cycle is specified by `step_rel`, a relation between the
//! machine before the step, the machine after it, and the result: it
//! spells out every register, every memory cell, the run state, the
//! cycle counter and the returned instruction or error, per
//! instruction.  The laws at the end of the module — the program
//! counter advances by exactly one on every non-jump, a halted machine
//! never changes again, and omega tracks the sign of S after every
//! marked instruction — are proved from that relation.

use vstd::prelude::*;

use crate::cpu::decode::{
    decoded,
    opcode_val,
    operand_word,
    trit_of_mode,
    valid_opcode,
    AddrMode,
    DecodeError,
    Instruction,
};
use crate::cpu::memory::{addr_in_range, lemma_memory_len, mem_index, Memory, MemoryError};
use crate::cpu::registers::{lemma_tryte5_width, regs_zeroed, Registers, Tryte5};
use crate::ternary::arith;
use crate::ternary::arith::{abs_of, tdiv, tmod};
use crate::ternary::trit::{trit_val, Trit};
use crate::ternary::word::{
    bal_trits,
    lemma_pow3_values,
    lemma_seq_val_append,
    lemma_seq_val_bound,
    lemma_tryte9_width,
    lemma_word18_width,
    pow3,
    seq_val,
    sign_of,
    Tryte9,
    Word18,
};

verus! {

broadcast use lemma_tryte9_width, lemma_word18_width, lemma_tryte5_width, lemma_memory_len;

/// The run state of the machine.
#[derive(Debug, Clone, Copy, PartialEq, Eq, Structural)]
pub enum CpuState {
    /// Executing normally.
    Running,
    /// Stopped by a HLT instruction; only a reset revives it.
    Halted,
    /// Stopped by a fault; only a reset revives it.
    Error,
}

/// Errors a step can return.
#[derive(Debug, Clone, PartialEq, Eq, Structural)]
pub enum CpuError {
    /// step was called while the machine was not Running; nothing
    /// changed, and the caller may keep the machine as it is.
    NotRunning(CpuState),
    /// A fetch or an effective address left the memory range.
    MemoryError(MemoryError),
    /// The fetched word does not decode.
    DecodeError(DecodeError),
    /// DIV with a zero divisor.
    DivisionByZero,
    /// Reserved: additions wrap at the word boundary instead of
    /// trapping, so the engine never raises this.
    Overflow,
}

/// The machine: registers, memory, run state and a cycle counter.
#[derive(Clone, Copy, Debug)]
pub struct Cpu {
    /// The register file.
    pub regs: Registers,
    /// Main memory.
    pub mem: Memory,
    /// Current run state.
    pub state: CpuState,
    /// Completed fetch-decode-execute cycles.
    pub cycles: u64,
    /// The instruction the last completed cycle executed.
    pub last_instr: Option<Instruction>,
}

impl Cpu {
    /// The last instruction a completed cycle executed.
    pub open spec fn last(self) -> Option<Instruction> {
        self.last_instr
    }
}

/// The effective address of an operand: the address itself, or the
/// address plus or minus the index register, as the mode directs.
pub open spec fn eff_val(f: Tryte5, addr: Tryte9, mode: AddrMode) -> int {
    addr.val() + trit_val(trit_of_mode(mode)) * f.val()
}

/// The memory cells after one cell was replaced by a word with the
/// given trits; everything else kept.
pub open spec fn mem_written(mem: Seq<Tryte9>, post: Seq<Tryte9>, idx: int, cell: Seq<Trit>) -> bool {
    &&& post.len() == 162
    &&& post[idx]@ == cell
    &&& forall|j: int| 0 <= j < 162 && j != idx ==> post[j] == mem[j]
}

/// An instruction's operand addresses fit the 5-trit field decoding
/// guarantees; what `execute` relies on to form effective addresses.
pub open spec fn operand_fits(i: Instruction) -> bool {
    match i {
        Instruction::Add { addr, .. } => -121 <= addr.val() <= 121,
        Instruction::Sub { addr, .. } => -121 <= addr.val() <= 121,
        Instruction::Mul { addr, .. } => -121 <= addr.val() <= 121,
        Instruction::Div { addr, .. } => -121 <= addr.val() <= 121,
        Instruction::AddAbs { addr, .. } => -121 <= addr.val() <= 121,
        Instruction::SubAbs { addr, .. } => -121 <= addr.val() <= 121,
        Instruction::Lda { addr, .. } => -121 <= addr.val() <= 121,
        Instruction::Sta { addr, .. } => -121 <= addr.val() <= 121,
        Instruction::LdaUnsigned { addr, .. } => -121 <= addr.val() <= 121,
        Instruction::Ldf { addr, .. } => -121 <= addr.val() <= 121,
        Instruction::Stf { addr, .. } => -121 <= addr.val() <= 121,
        Instruction::Ldr { addr, .. } => -121 <= addr.val() <= 121,
        Instruction::Str { addr, .. } => -121 <= addr.val() <= 121,
        Instruction::Xchg { addr, .. } => -121 <= addr.val() <= 121,
        Instruction::Jmp { addr, .. } => -121 <= addr.val() <= 121,
        Instruction::Jz { addr, .. } => -121 <= addr.val() <= 121,
        Instruction::Jp { addr, .. } => -121 <= addr.val() <= 121,
        Instruction::Jn { addr, .. } => -121 <= addr.val() <= 121,
        Instruction::Jop { addr, .. } => -121 <= addr.val() <= 121,
        Instruction::Jon { addr, .. } => -121 <= addr.val() <= 121,
        _ => true,
    }
}

/// The registers and memory an instruction that faulted leaves behind:
/// the program counter stands past the instruction, nothing else has
/// moved, and the state shows Error.
pub open spec fn faulted(
    s: Word18,
    r0: Word18,
    f: Tryte5,
    om: Trit,
    mem: Seq<Tryte9>,
    p1: int,
    post: Cpu,
) -> bool {
    &&& post.regs.s == s
    &&& post.regs.r == r0
    &&& post.regs.f == f
    &&& post.regs.omega == om
    &&& post.regs.c.val() == p1
    &&& post.mem@ == mem
    &&& post.state == CpuState::Error
}

/// What executing one decoded instruction does to the registers, the
/// memory and the run state.  The relation is read against the machine
/// parts before the instruction (accumulator s, register r0, index f,
/// flag om, memory cells mem) and the already-advanced program counter
/// value p1; `res` is the instruction's own outcome.  The cycle
/// counter and the instruction record are the step's business, not
/// this relation's.
pub open spec fn exec_post(
    s: Word18,
    r0: Word18,
    f: Tryte5,
    om: Trit,
    mem: Seq<Tryte9>,
    p1: int,
    i: Instruction,
    post: Cpu,
    res: Result<(), CpuError>,
) -> bool {
    match i {
        Instruction::Add { addr, mode } => {
            let a = eff_val(f, addr, mode);
            if !addr_in_range(a) {
                faulted(s, r0, f, om, mem, p1, post) && (res matches Err(CpuError::MemoryError(
                    MemoryError::AddressOutOfRange(v),
                )) && v as int == a)
            } else {
                let operand = seq_val(mem[mem_index(a)]@);
                &&& res == Ok::<(), CpuError>(())
                &&& post.state == CpuState::Running
                &&& post.regs.s@ == bal_trits(s.val() + operand, 18)
                &&& trit_val(post.regs.omega) == sign_of(post.regs.s.val())
                &&& post.regs.r == r0
                &&& post.regs.f == f
                &&& post.regs.c.val() == p1
                &&& post.mem@ == mem
            }
        },
        Instruction::Sub { addr, mode } => {
            let a = eff_val(f, addr, mode);
            if !addr_in_range(a) {
                faulted(s, r0, f, om, mem, p1, post) && (res matches Err(CpuError::MemoryError(
                    MemoryError::AddressOutOfRange(v),
                )) && v as int == a)
            } else {
                let operand = seq_val(mem[mem_index(a)]@);
                &&& res == Ok::<(), CpuError>(())
                &&& post.state == CpuState::Running
                &&& post.regs.s@ == bal_trits(s.val() - operand, 18)
                &&& trit_val(post.regs.omega) == sign_of(post.regs.s.val())
                &&& post.regs.r == r0
                &&& post.regs.f == f
                &&& post.regs.c.val() == p1
                &&& post.mem@ == mem
            }
        },
        Instruction::Mul { addr, mode } => {
            let a = eff_val(f, addr, mode);
            if !addr_in_range(a) {
                faulted(s, r0, f, om, mem, p1, post) && (res matches Err(CpuError::MemoryError(
                    MemoryError::AddressOutOfRange(v),
                )) && v as int == a)
            } else {
                let operand = seq_val(mem[mem_index(a)]@);
                &&& res == Ok::<(), CpuError>(())
                &&& post.state == CpuState::Running
                &&& post.regs.r.val() + pow3(18) * post.regs.s.val() == s.val() * operand
                &&& trit_val(post.regs.omega) == sign_of(post.regs.s.val())
                &&& post.regs.f == f
                &&& post.regs.c.val() == p1
                &&& post.mem@ == mem
            }
        },
        Instruction::Div { addr, mode } => {
            let a = eff_val(f, addr, mode);
            if !addr_in_range(a) {
                faulted(s, r0, f, om, mem, p1, post) && (res matches Err(CpuError::MemoryError(
                    MemoryError::AddressOutOfRange(v),
                )) && v as int == a)
            } else {
                let operand = seq_val(mem[mem_index(a)]@);
                if operand == 0 {
                    faulted(s, r0, f, om, mem, p1, post) && res == Err::<(), CpuError>(
                        CpuError::DivisionByZero,
                    )
                } else {
                    &&& res == Ok::<(), CpuError>(())
                    &&& post.state == CpuState::Running
                    &&& post.regs.s.val() == tdiv(s.val(), operand)
                    &&& post.regs.r.val() == tmod(s.val(), operand)
                    &&& trit_val(post.regs.omega) == sign_of(post.regs.s.val())
                    &&& post.regs.f == f
                    &&& post.regs.c.val() == p1
                    &&& post.mem@ == mem
                }
            }
        },
        Instruction::AddAbs { addr, mode } => {
            let a = eff_val(f, addr, mode);
            if !addr_in_range(a) {
                faulted(s, r0, f, om, mem, p1, post) && (res matches Err(CpuError::MemoryError(
                    MemoryError::AddressOutOfRange(v),
                )) && v as int == a)
            } else {
                let operand = seq_val(mem[mem_index(a)]@);
                &&& res == Ok::<(), CpuError>(())
                &&& post.state == CpuState::Running
                &&& post.regs.s@ == bal_trits(s.val() + abs_of(operand), 18)
                &&& trit_val(post.regs.omega) == sign_of(post.regs.s.val())
                &&& post.regs.r == r0
                &&& post.regs.f == f
                &&& post.regs.c.val() == p1
                &&& post.mem@ == mem
            }
        },
        Instruction::SubAbs { addr, mode } => {
            let a = eff_val(f, addr, mode);
            if !addr_in_range(a) {
                faulted(s, r0, f, om, mem, p1, post) && (res matches Err(CpuError::MemoryError(
                    MemoryError::AddressOutOfRange(v),
                )) && v as int == a)
            } else {
                let operand = seq_val(mem[mem_index(a)]@);
                &&& res == Ok::<(), CpuError>(())
                &&& post.state == CpuState::Running
                &&& post.regs.s@ == bal_trits(s.val() - abs_of(operand), 18)
                &&& trit_val(post.regs.omega) == sign_of(post.regs.s.val())
                &&& post.regs.r == r0
                &&& post.regs.f == f
                &&& post.regs.c.val() == p1
                &&& post.mem@ == mem
            }
        },
        Instruction::Lda { addr, mode } => {
            let a = eff_val(f, addr, mode);
            if !addr_in_range(a) {
                faulted(s, r0, f, om, mem, p1, post) && (res matches Err(CpuError::MemoryError(
                    MemoryError::AddressOutOfRange(v),
                )) && v as int == a)
            } else {
                let operand = seq_val(mem[mem_index(a)]@);
                &&& res == Ok::<(), CpuError>(())
                &&& post.state == CpuState::Running
                &&& post.regs.s.val() == operand
                &&& trit_val(post.regs.omega) == sign_of(post.regs.s.val())
                &&& post.regs.r == r0
                &&& post.regs.f == f
                &&& post.regs.c.val() == p1
                &&& post.mem@ == mem
            }
        },
        Instruction::LdaUnsigned { addr, mode } => {
            let a = eff_val(f, addr, mode);
            if !addr_in_range(a) {
                faulted(s, r0, f, om, mem, p1, post) && (res matches Err(CpuError::MemoryError(
                    MemoryError::AddressOutOfRange(v),
                )) && v as int == a)
            } else {
                let operand = seq_val(mem[mem_index(a)]@);
                &&& res == Ok::<(), CpuError>(())
                &&& post.state == CpuState::Running
                &&& post.regs.s.val() == operand
                &&& trit_val(post.regs.omega) == sign_of(post.regs.s.val())
                &&& post.regs.r == r0
                &&& post.regs.f == f
                &&& post.regs.c.val() == p1
                &&& post.mem@ == mem
            }
        },
        Instruction::Sta { addr, mode } => {
            let a = eff_val(f, addr, mode);
            if !addr_in_range(a) {
                faulted(s, r0, f, om, mem, p1, post) && (res matches Err(CpuError::MemoryError(
                    MemoryError::AddressOutOfRange(v),
                )) && v as int == a)
            } else {
                &&& res == Ok::<(), CpuError>(())
                &&& post.state == CpuState::Running
                &&& mem_written(mem, post.mem@, mem_index(a), s@.subrange(0, 9))
                &&& post.regs.s == s
                &&& post.regs.r == r0
                &&& post.regs.f == f
                &&& post.regs.omega == om
                &&& post.regs.c.val() == p1
            }
        },
        Instruction::Ldf { addr, mode } => {
            let a = eff_val(f, addr, mode);
            if !addr_in_range(a) {
                faulted(s, r0, f, om, mem, p1, post) && (res matches Err(CpuError::MemoryError(
                    MemoryError::AddressOutOfRange(v),
                )) && v as int == a)
            } else {
                &&& res == Ok::<(), CpuError>(())
                &&& post.state == CpuState::Running
                &&& post.regs.f@ == mem[mem_index(a)]@.subrange(0, 5)
                &&& post.regs.s == s
                &&& post.regs.r == r0
                &&& post.regs.omega == om
                &&& post.regs.c.val() == p1
                &&& post.mem@ == mem
            }
        },
        Instruction::Stf { addr, mode } => {
            let a = eff_val(f, addr, mode);
            if !addr_in_range(a) {
                faulted(s, r0, f, om, mem, p1, post) && (res matches Err(CpuError::MemoryError(
                    MemoryError::AddressOutOfRange(v),
                )) && v as int == a)
            } else {
                &&& res == Ok::<(), CpuError>(())
                &&& post.state == CpuState::Running
                &&& mem_written(mem, post.mem@, mem_index(a), f@ + Seq::new(4, |k: int| Trit::O))
                &&& post.regs.s == s
                &&& post.regs.r == r0
                &&& post.regs.f == f
                &&& post.regs.omega == om
                &&& post.regs.c.val() == p1
            }
        },
        Instruction::Ldr { addr, mode } => {
            let a = eff_val(f, addr, mode);
            if !addr_in_range(a) {
                faulted(s, r0, f, om, mem, p1, post) && (res matches Err(CpuError::MemoryError(
                    MemoryError::AddressOutOfRange(v),
                )) && v as int == a)
            } else {
                let operand = seq_val(mem[mem_index(a)]@);
                &&& res == Ok::<(), CpuError>(())
                &&& post.state == CpuState::Running
                &&& post.regs.r.val() == operand
                &&& post.regs.s == s
                &&& post.regs.f == f
                &&& post.regs.omega == om
                &&& post.regs.c.val() == p1
                &&& post.mem@ == mem
            }
        },
        Instruction::Str { addr, mode } => {
            let a = eff_val(f, addr, mode);
            if !addr_in_range(a) {
                faulted(s, r0, f, om, mem, p1, post) && (res matches Err(CpuError::MemoryError(
                    MemoryError::AddressOutOfRange(v),
                )) && v as int == a)
            } else {
                &&& res == Ok::<(), CpuError>(())
                &&& post.state == CpuState::Running
                &&& mem_written(mem, post.mem@, mem_index(a), r0@.subrange(0, 9))
                &&& post.regs.s == s
                &&& post.regs.r == r0
                &&& post.regs.f == f
                &&& post.regs.omega == om
                &&& post.regs.c.val() == p1
            }
        },
        Instruction::Xchg { addr, mode } => {
            let a = eff_val(f, addr, mode);
            if !addr_in_range(a) {
                faulted(s, r0, f, om, mem, p1, post) && (res matches Err(CpuError::MemoryError(
                    MemoryError::AddressOutOfRange(v),
                )) && v as int == a)
            } else {
                let operand = seq_val(mem[mem_index(a)]@);
                &&& res == Ok::<(), CpuError>(())
                &&& post.state == CpuState::Running
                &&& mem_written(mem, post.mem@, mem_index(a), s@.subrange(0, 9))
                &&& post.regs.s.val() == operand
                &&& trit_val(post.regs.omega) == sign_of(post.regs.s.val())
                &&& post.regs.r == r0
                &&& post.regs.f == f
                &&& post.regs.c.val() == p1
            }
        },
        Instruction::Jmp { addr, mode } => {
            &&& res == Ok::<(), CpuError>(())
            &&& post.state == CpuState::Running
            &&& post.regs.c.val() == eff_val(f, addr, mode)
            &&& post.regs.s == s
            &&& post.regs.r == r0
            &&& post.regs.f == f
            &&& post.regs.omega == om
            &&& post.mem@ == mem
        },
        Instruction::Jz { addr, mode } => {
            &&& res == Ok::<(), CpuError>(())
            &&& post.state == CpuState::Running
            &&& post.regs.c.val() == if s.val() == 0 {
                eff_val(f, addr, mode)
            } else {
                p1
            }
            &&& post.regs.s == s
            &&& post.regs.r == r0
            &&& post.regs.f == f
            &&& post.regs.omega == om
            &&& post.mem@ == mem
        },
        Instruction::Jp { addr, mode } => {
            &&& res == Ok::<(), CpuError>(())
            &&& post.state == CpuState::Running
            &&& post.regs.c.val() == if s.val() > 0 {
                eff_val(f, addr, mode)
            } else {
                p1
            }
            &&& post.regs.s == s
            &&& post.regs.r == r0
            &&& post.regs.f == f
            &&& post.regs.omega == om
            &&& post.mem@ == mem
        },
        Instruction::Jn { addr, mode } => {
            &&& res == Ok::<(), CpuError>(())
            &&& post.state == CpuState::Running
            &&& post.regs.c.val() == if s.val() < 0 {
                eff_val(f, addr, mode)
            } else {
                p1
            }
            &&& post.regs.s == s
            &&& post.regs.r == r0
            &&& post.regs.f == f
            &&& post.regs.omega == om
            &&& post.mem@ == mem
        },
        Instruction::Jop { addr, mode } => {
            &&& res == Ok::<(), CpuError>(())
            &&& post.state == CpuState::Running
            &&& post.regs.c.val() == if om == Trit::P {
                eff_val(f, addr, mode)
            } else {
                p1
            }
            &&& post.regs.s == s
            &&& post.regs.r == r0
            &&& post.regs.f == f
            &&& post.regs.omega == om
            &&& post.mem@ == mem
        },
        Instruction::Jon { addr, mode } => {
            &&& res == Ok::<(), CpuError>(())
            &&& post.state == CpuState::Running
            &&& post.regs.c.val() == if om == Trit::N {
                eff_val(f, addr, mode)
            } else {
                p1
            }
            &&& post.regs.s == s
            &&& post.regs.r == r0
            &&& post.regs.f == f
            &&& post.regs.omega == om
            &&& post.mem@ == mem
        },
        Instruction::Hlt => {
            &&& res == Ok::<(), CpuError>(())
            &&& post.state == CpuState::Halted
            &&& post.regs.s == s
            &&& post.regs.r == r0
            &&& post.regs.f == f
            &&& post.regs.omega == om
            &&& post.regs.c.val() == p1
            &&& post.mem@ == mem
        },
        Instruction::Shl { count } => {
            &&& res == Ok::<(), CpuError>(())
            &&& post.state == CpuState::Running
            &&& post.regs.s.val() == if 0 <= count < 18 {
                pow3(count as nat) * seq_val(s@.take(18 - count as int))
            } else {
                0int
            }
            &&& trit_val(post.regs.omega) == sign_of(post.regs.s.val())
            &&& post.regs.r == r0
            &&& post.regs.f == f
            &&& post.regs.c.val() == p1
            &&& post.mem@ == mem
        },
        Instruction::Shr { count } => {
            &&& res == Ok::<(), CpuError>(())
            &&& post.state == CpuState::Running
            &&& post.regs.s.val() == if 0 <= count < 18 {
                seq_val(s@.skip(count as int))
            } else {
                0int
            }
            &&& trit_val(post.regs.omega) == sign_of(post.regs.s.val())
            &&& post.regs.r == r0
            &&& post.regs.f == f
            &&& post.regs.c.val() == p1
            &&& post.mem@ == mem
        },
        Instruction::Nop => {
            &&& res == Ok::<(), CpuError>(())
            &&& post.state == CpuState::Running
            &&& post.regs.s == s
            &&& post.regs.r == r0
            &&& post.regs.f == f
            &&& post.regs.omega == om
            &&& post.regs.c.val() == p1
            &&& post.mem@ == mem
        },
        Instruction::Tst => {
            &&& res == Ok::<(), CpuError>(())
            &&& post.state == CpuState::Running
            &&& post.regs.s == s
            &&& trit_val(post.regs.omega) == sign_of(s.val())
            &&& post.regs.r == r0
            &&& post.regs.f == f
            &&& post.regs.c.val() == p1
            &&& post.mem@ == mem
        },
    }
}

/// One whole step of the machine, as a relation between the machine
/// before (pre), the machine after (post) and the returned value:
///
/// - a machine that is not Running returns NotRunning and does not
///   change at all;
/// - a program counter outside memory faults the fetch;
/// - a word whose opcode field is unassigned faults the decode, with
///   the counter already advanced past it;
/// - otherwise the decoded instruction runs as `exec_post` says, the
///   cycle counter grows by one and the instruction is recorded, or
///   the instruction's own fault is returned.
pub open spec fn step_rel(pre: Cpu, post: Cpu, r: Result<Instruction, CpuError>) -> bool {
    if pre.state != CpuState::Running {
        post == pre && r == Err::<Instruction, CpuError>(CpuError::NotRunning(pre.state))
    } else {
        let p = pre.regs.c.val();
        if !addr_in_range(p) {
            &&& post.regs == pre.regs
            &&& post.mem@ == pre.mem@
            &&& post.state == CpuState::Error
            &&& post.cycles == pre.cycles
            &&& post.last() == pre.last()
            &&& (r matches Err(CpuError::MemoryError(MemoryError::AddressOutOfRange(v)))
                && v as int == p)
        } else {
            let w = pre.mem@[mem_index(p)];
            if !valid_opcode(opcode_val(w@)) {
                &&& post.regs.s == pre.regs.s
                &&& post.regs.r == pre.regs.r
                &&& post.regs.f == pre.regs.f
                &&& post.regs.omega == pre.regs.omega
                &&& post.regs.c.val() == p + 1
                &&& post.mem@ == pre.mem@
                &&& post.state == CpuState::Error
                &&& post.cycles == pre.cycles
                &&& post.last() == pre.last()
                &&& (r matches Err(CpuError::DecodeError(DecodeError::InvalidOpcode(v)))
                    && v as int == opcode_val(w@))
            } else {
                exists|i: Instruction|
                    {
                        &&& #[trigger] decoded(w, i)
                        &&& match r {
                            Ok(j) => {
                                &&& j == i
                                &&& exec_post(
                                    pre.regs.s,
                                    pre.regs.r,
                                    pre.regs.f,
                                    pre.regs.omega,
                                    pre.mem@,
                                    p + 1,
                                    i,
                                    post,
                                    Ok(()),
                                )
                                &&& post.cycles == pre.cycles + 1
                                &&& post.last() == Some(i)
                            },
                            Err(e) => {
                                &&& exec_post(
                                    pre.regs.s,
                                    pre.regs.r,
                                    pre.regs.f,
                                    pre.regs.omega,
                                    pre.mem@,
                                    p + 1,
                                    i,
                                    post,
                                    Err(e),
                                )
                                &&& post.cycles == pre.cycles
                                &&& post.last() == pre.last()
                            },
                        }
                    }
            }
        }
    }
}

/// Two machines linked by one completed fetch-decode-execute cycle.
pub open spec fn chained(a: Cpu, b: Cpu) -> bool {
    exists|i: Instruction| #[trigger] step_rel(a, b, Ok(i))
}

/// A run's trace: consecutive machines linked pairwise by completed
/// steps.
pub open spec fn stepped_chain(trace: Seq<Cpu>) -> bool {
    forall|k: int| 0 <= k < trace.len() - 1 ==> chained(#[trigger] trace[k], trace[k + 1])
}

/// What a whole `run` call leaves behind, witnessed by the machines
/// it stepped through.  The trace begins at the machine before the
/// call and each link is one completed step, so everything `step_rel`
/// pins — registers, memory, run state, cycle counter, the recorded
/// instruction — is pinned for the whole run.  On Ok the machine
/// after the call is the trace's last, the count is the number of
/// links, and the run stopped only because the machine left Running
/// (or the cycle counter reached its ceiling); on Err the error is
/// the failing step's own, taken from the trace's last machine, so an
/// error can only be the first fault the program reaches.
pub open spec fn run_rel(pre: Cpu, post: Cpu, r: Result<u64, CpuError>, trace: Seq<Cpu>) -> bool {
    &&& trace.len() >= 1
    &&& trace[0] == pre
    &&& stepped_chain(trace)
    &&& match r {
        Ok(n) => {
            &&& post == trace.last()
            &&& n as int == trace.len() - 1
            &&& (post.state != CpuState::Running || post.cycles == u64::MAX)
        },
        Err(e) => {
            // The failing step starts from a machine that was still
            // Running: a run that reached HLT or a fault cannot be
            // reported as NotRunning.
            &&& trace.last().state == CpuState::Running
            &&& step_rel(trace.last(), post, Err(e))
        },
    }
}

/// What a whole `run_limited` call leaves behind: as `run_rel`, but
/// at most `max` links are taken, stopping with the machine still
/// Running is allowed exactly when the budget is spent, and an error
/// can only cut the run short of the budget.
pub open spec fn run_limited_rel(
    pre: Cpu,
    post: Cpu,
    max: u64,
    r: Result<u64, CpuError>,
    trace: Seq<Cpu>,
) -> bool {
    &&& trace.len() >= 1
    &&& trace[0] == pre
    &&& stepped_chain(trace)
    &&& trace.len() - 1 <= max
    &&& match r {
        Ok(n) => {
            &&& post == trace.last()
            &&& n as int == trace.len() - 1
            &&& (post.state != CpuState::Running || n == max)
        },
        Err(e) => {
            &&& trace.last().state == CpuState::Running
            &&& step_rel(trace.last(), post, Err(e))
            &&& trace.len() - 1 < max
        },
    }
}

/// Along a stepped chain the cycle counter counts the links: every
/// completed step adds exactly one, so a run's returned count is also
/// the growth of the counter.
pub proof fn lemma_chain_counts_cycles(trace: Seq<Cpu>)
    requires
        trace.len() >= 1,
        stepped_chain(trace),
    ensures
        trace.last().cycles == trace[0].cycles + trace.len() - 1,
    decreases trace.len(),
{
    if trace.len() > 1 {
        let shorter = trace.drop_last();
        assert forall|k: int| 0 <= k < shorter.len() - 1 implies chained(
            #[trigger] shorter[k],
            shorter[k + 1],
        ) by {
            assert(shorter[k] == trace[k] && shorter[k + 1] == trace[k + 1]);
            assert(chained(trace[k], trace[k + 1]));
        }
        lemma_chain_counts_cycles(shorter);
        let a = trace[trace.len() - 2];
        let b = trace.last();
        assert(chained(a, b));
        let i = choose|i: Instruction| step_rel(a, b, Ok(i));
        assert(b.cycles == a.cycles + 1);
        assert(shorter.last() == a && shorter[0] == trace[0]);
    }
}

/// exec_post looks only at the registers, the memory and the state of
/// the machine after the instruction: the cycle counter and the
/// instruction record may change freely around it.
proof fn lemma_exec_post_frame(
    s: Word18,
    r0: Word18,
    f: Tryte5,
    om: Trit,
    mem: Seq<Tryte9>,
    p1: int,
    i: Instruction,
    post1: Cpu,
    post2: Cpu,
    res: Result<(), CpuError>,
)
    requires
        exec_post(s, r0, f, om, mem, p1, i, post1, res),
        post2.regs == post1.regs,
        post2.mem@ == post1.mem@,
        post2.state == post1.state,
    ensures
        exec_post(s, r0, f, om, mem, p1, i, post2, res),
{
}

impl Cpu {
    /// A machine with zeroed registers and memory, Running, at cycle 0.
    pub fn new() -> (r: Self)
        ensures
            regs_zeroed(r.regs),
            forall|i: int| 0 <= i < 162 ==> (#[trigger] r.mem@[i]).val() == 0,
            r.state == CpuState::Running,
            r.cycles == 0,
            r.last() == Option::<Instruction>::None,
    {
        Cpu {
            regs: Registers::new(),
            mem: Memory::new(),
            state: CpuState::Running,
            cycles: 0,
            last_instr: None,
        }
    }

    /// Zero the registers and the memory and return to Running.
    pub fn reset(&mut self)
        ensures
            regs_zeroed(final(self).regs),
            forall|i: int| 0 <= i < 162 ==> (#[trigger] final(self).mem@[i]).val() == 0,
            final(self).state == CpuState::Running,
            final(self).cycles == 0,
            final(self).last() == Option::<Instruction>::None,
    {
        self.regs.reset();
        self.mem.clear();
        self.state = CpuState::Running;
        self.cycles = 0;
        self.last_instr = None;
    }

    /// Load a program image at cell index 81 — signed address 0, where
    /// a program counter of zero points.  Refused when it overruns
    /// memory; nothing else changes either way.
    pub fn load_program(&mut self, program: &[Tryte9]) -> (r: Result<(), MemoryError>)
        ensures
            program@.len() <= 81 ==> {
                &&& r == Ok::<(), MemoryError>(())
                &&& forall|j: int|
                    81 <= j < 81 + program@.len() ==> final(self).mem@[j] == program@[j - 81]
                &&& forall|j: int|
                    0 <= j < 162 && !(81 <= j < 81 + program@.len()) ==> final(self).mem@[j] == old(
                        self,
                    ).mem@[j]
            },
            program@.len() > 81 ==> final(self).mem == old(self).mem && (r matches Err(
            MemoryError::ProgramTooLarge { size, available }) && size == program@.len()
                && available == 81),
            final(self).regs == old(self).regs,
            final(self).state == old(self).state,
            final(self).cycles == old(self).cycles,
            final(self).last() == old(self).last(),
    {
        self.mem.load_program(81, program)
    }

    /// The effective address of an operand under the current index
    /// register.
    fn eff(&self, addr: Tryte9, mode: AddrMode) -> (r: Tryte9)
        requires
            -121 <= addr.val() <= 121,
        ensures
            r.val() == eff_val(self.regs.f, addr, mode),
    {
        proof {
            lemma_seq_val_bound(self.regs.f@);
            lemma_pow3_values();
        }
        self.regs.effective_address(addr, mode.to_trit())
    }

    /// Fetch a memory cell as an 18-trit operand; zero-extension keeps
    /// its value.
    fn load_word(&self, addr: Tryte9) -> (r: Result<Word18, CpuError>)
        ensures
            addr_in_range(addr.val()) ==> (r matches Ok(w) && w.val() == seq_val(
                self.mem@[mem_index(addr.val())]@,
            )),
            !addr_in_range(addr.val()) ==> (r matches Err(e) && e matches CpuError::MemoryError(
                MemoryError::AddressOutOfRange(v),
            ) && v as int == addr.val()),
    {
        match self.mem.read_ternary(addr) {
            Ok(value) => Ok(value.to_word18()),
            Err(e) => Err(CpuError::MemoryError(e)),
        }
    }

    /// S := S + [x], with omega tracking the new sign.
    fn exec_add(&mut self, addr: Tryte9, mode: AddrMode) -> (r: Result<(), CpuError>)
        requires
            old(self).state == CpuState::Running,
            -121 <= addr.val() <= 121,
        ensures
            exec_post(
                old(self).regs.s,
                old(self).regs.r,
                old(self).regs.f,
                old(self).regs.omega,
                old(self).mem@,
                old(self).regs.c.val(),
                Instruction::Add { addr, mode },
                *final(self),
                r,
            ),
            final(self).cycles == old(self).cycles,
            final(self).last() == old(self).last(),
    {
        let eff_addr = self.eff(addr, mode);
        let operand = match self.load_word(eff_addr) {
            Ok(w) => w,
            Err(e) => {
                self.state = CpuState::Error;
                return Err(e);
            },
        };
        let (result, _carry) = arith::add(&self.regs.s, &operand);
        self.regs.s = result;
        let sign = self.regs.s.sign();
        self.regs.set_omega(sign);
        Ok(())
    }

    /// S := S - [x], with omega tracking the new sign.
    fn exec_sub(&mut self, addr: Tryte9, mode: AddrMode) -> (r: Result<(), CpuError>)
        requires
            old(self).state == CpuState::Running,
            -121 <= addr.val() <= 121,
        ensures
            exec_post(
                old(self).regs.s,
                old(self).regs.r,
                old(self).regs.f,
                old(self).regs.omega,
                old(self).mem@,
                old(self).regs.c.val(),
                Instruction::Sub { addr, mode },
                *final(self),
                r,
            ),
            final(self).cycles == old(self).cycles,
            final(self).last() == old(self).last(),
    {
        let eff_addr = self.eff(addr, mode);
        let operand = match self.load_word(eff_addr) {
            Ok(w) => w,
            Err(e) => {
                self.state = CpuState::Error;
                return Err(e);
            },
        };
        let (result, _carry) = arith::subtract(&self.regs.s, &operand);
        self.regs.s = result;
        let sign = self.regs.s.sign();
        self.regs.set_omega(sign);
        Ok(())
    }

    /// S := S + |[x]| or S := S - |[x]|.
    fn exec_addsub_abs(&mut self, addr: Tryte9, mode: AddrMode, subtract: bool) -> (r: Result<
        (),
        CpuError,
    >)
        requires
            old(self).state == CpuState::Running,
            -121 <= addr.val() <= 121,
        ensures
            exec_post(
                old(self).regs.s,
                old(self).regs.r,
                old(self).regs.f,
                old(self).regs.omega,
                old(self).mem@,
                old(self).regs.c.val(),
                if subtract {
                    Instruction::SubAbs { addr, mode }
                } else {
                    Instruction::AddAbs { addr, mode }
                },
                *final(self),
                r,
            ),
            final(self).cycles == old(self).cycles,
            final(self).last() == old(self).last(),
    {
        let eff_addr = self.eff(addr, mode);
        let operand = match self.load_word(eff_addr) {
            Ok(w) => w,
            Err(e) => {
                self.state = CpuState::Error;
                return Err(e);
            },
        };
        let abs_operand = if operand.sign() == Trit::N {
            operand.neg()
        } else {
            operand
        };
        let (result, _carry) = if subtract {
            arith::subtract(&self.regs.s, &abs_operand)
        } else {
            arith::add(&self.regs.s, &abs_operand)
        };
        self.regs.s = result;
        let sign = self.regs.s.sign();
        self.regs.set_omega(sign);
        Ok(())
    }

    /// (S, R) := S * [x]: the high half of the product goes to S, the
    /// low half to R.
    fn exec_mul(&mut self, addr: Tryte9, mode: AddrMode) -> (r: Result<(), CpuError>)
        requires
            old(self).state == CpuState::Running,
            -121 <= addr.val() <= 121,
        ensures
            exec_post(
                old(self).regs.s,
                old(self).regs.r,
                old(self).regs.f,
                old(self).regs.omega,
                old(self).mem@,
                old(self).regs.c.val(),
                Instruction::Mul { addr, mode },
                *final(self),
                r,
            ),
            final(self).cycles == old(self).cycles,
            final(self).last() == old(self).last(),
    {
        let eff_addr = self.eff(addr, mode);
        let operand = match self.load_word(eff_addr) {
            Ok(w) => w,
            Err(e) => {
                self.state = CpuState::Error;
                return Err(e);
            },
        };
        let (low, high) = arith::multiply(&self.regs.s, &operand);
        self.regs.s = high;
        self.regs.r = low;
        let sign = self.regs.s.sign();
        self.regs.set_omega(sign);
        Ok(())
    }

    /// S := S / [x] truncated toward zero, R := the remainder, whose
    /// sign follows the dividend; a zero divisor faults.
    fn exec_div(&mut self, addr: Tryte9, mode: AddrMode) -> (r: Result<(), CpuError>)
        requires
            old(self).state == CpuState::Running,
            -121 <= addr.val() <= 121,
        ensures
            exec_post(
                old(self).regs.s,
                old(self).regs.r,
                old(self).regs.f,
                old(self).regs.omega,
                old(self).mem@,
                old(self).regs.c.val(),
                Instruction::Div { addr, mode },
                *final(self),
                r,
            ),
            final(self).cycles == old(self).cycles,
            final(self).last() == old(self).last(),
    {
        let eff_addr = self.eff(addr, mode);
        let divisor = match self.load_word(eff_addr) {
            Ok(w) => w,
            Err(e) => {
                self.state = CpuState::Error;
                return Err(e);
            },
        };
        if divisor.is_zero() {
            self.state = CpuState::Error;
            return Err(CpuError::DivisionByZero);
        }
        let dividend = self.regs.s.to_i64();
        let divisor_val = divisor.to_i64();
        proof {
            arith::lemma_trunc_matches_signed(dividend as int, divisor_val as int);
            arith::lemma_tdiv_tmod_bounds(dividend as int, divisor_val as int);
        }
        let quotient = match dividend.checked_div(divisor_val) {
            Some(q) => q,
            None => {
                proof {
                    assert(false);
                }
                0
            },
        };
        let remainder = match dividend.checked_rem(divisor_val) {
            Some(m) => m,
            None => {
                proof {
                    assert(false);
                }
                0
            },
        };
        self.regs.s = Word18::from_i64(quotient);
        self.regs.r = Word18::from_i64(remainder);
        let sign = self.regs.s.sign();
        self.regs.set_omega(sign);
        Ok(())
    }

    /// S := [x] zero-extended; omega tracks the new sign.  LDA and the
    /// historical unsigned load are one operation here, because in
    /// balanced ternary zero- and sign-extension coincide.
    fn exec_lda(&mut self, addr: Tryte9, mode: AddrMode, unsigned: bool) -> (r: Result<
        (),
        CpuError,
    >)
        requires
            old(self).state == CpuState::Running,
            -121 <= addr.val() <= 121,
        ensures
            exec_post(
                old(self).regs.s,
                old(self).regs.r,
                old(self).regs.f,
                old(self).regs.omega,
                old(self).mem@,
                old(self).regs.c.val(),
                if unsigned {
                    Instruction::LdaUnsigned { addr, mode }
                } else {
                    Instruction::Lda { addr, mode }
                },
                *final(self),
                r,
            ),
            final(self).cycles == old(self).cycles,
            final(self).last() == old(self).last(),
    {
        let eff_addr = self.eff(addr, mode);
        let value = match self.mem.read_ternary(eff_addr) {
            Ok(v) => v,
            Err(e) => {
                self.state = CpuState::Error;
                return Err(CpuError::MemoryError(e));
            },
        };
        self.regs.s = value.to_word18();
        let sign = self.regs.s.sign();
        self.regs.set_omega(sign);
        Ok(())
    }

    /// [x] := the low 9 trits of S.
    fn exec_sta(&mut self, addr: Tryte9, mode: AddrMode) -> (r: Result<(), CpuError>)
        requires
            old(self).state == CpuState::Running,
            -121 <= addr.val() <= 121,
        ensures
            exec_post(
                old(self).regs.s,
                old(self).regs.r,
                old(self).regs.f,
                old(self).regs.omega,
                old(self).mem@,
                old(self).regs.c.val(),
                Instruction::Sta { addr, mode },
                *final(self),
                r,
            ),
            final(self).cycles == old(self).cycles,
            final(self).last() == old(self).last(),
    {
        let eff_addr = self.eff(addr, mode);
        let value = self.regs.s.low();
        match self.mem.write_ternary(eff_addr, value) {
            Ok(()) => Ok(()),
            Err(e) => {
                self.state = CpuState::Error;
                Err(CpuError::MemoryError(e))
            },
        }
    }

    /// F := the low 5 trits of [x].
    fn exec_ldf(&mut self, addr: Tryte9, mode: AddrMode) -> (r: Result<(), CpuError>)
        requires
            old(self).state == CpuState::Running,
            -121 <= addr.val() <= 121,
        ensures
            exec_post(
                old(self).regs.s,
                old(self).regs.r,
                old(self).regs.f,
                old(self).regs.omega,
                old(self).mem@,
                old(self).regs.c.val(),
                Instruction::Ldf { addr, mode },
                *final(self),
                r,
            ),
            final(self).cycles == old(self).cycles,
            final(self).last() == old(self).last(),
    {
        let eff_addr = self.eff(addr, mode);
        let value = match self.mem.read_ternary(eff_addr) {
            Ok(v) => v,
            Err(e) => {
                self.state = CpuState::Error;
                return Err(CpuError::MemoryError(e));
            },
        };
        // The value of the low five trits; its canonical 5-trit word is
        // exactly those trits again.
        let f_val: i32 = value.get(0).to_i8() as i32 + value.get(1).to_i8() as i32 * 3 + value.get(
            2,
        ).to_i8() as i32 * 9 + value.get(3).to_i8() as i32 * 27 + value.get(4).to_i8() as i32 * 81;
        proof {
            lemma_low5_value(value@);
            crate::ternary::word::lemma_bal_trits_canonical(value@.subrange(0, 5));
            crate::ternary::word::lemma_seq_val_bound(value@.subrange(0, 5));
            lemma_pow3_values();
        }
        self.regs.f = Tryte5::from_i32(f_val);
        Ok(())
    }

    /// [x] := F zero-extended to a full cell.
    fn exec_stf(&mut self, addr: Tryte9, mode: AddrMode) -> (r: Result<(), CpuError>)
        requires
            old(self).state == CpuState::Running,
            -121 <= addr.val() <= 121,
        ensures
            exec_post(
                old(self).regs.s,
                old(self).regs.r,
                old(self).regs.f,
                old(self).regs.omega,
                old(self).mem@,
                old(self).regs.c.val(),
                Instruction::Stf { addr, mode },
                *final(self),
                r,
            ),
            final(self).cycles == old(self).cycles,
            final(self).last() == old(self).last(),
    {
        let eff_addr = self.eff(addr, mode);
        let value = self.regs.f.to_tryte9();
        match self.mem.write_ternary(eff_addr, value) {
            Ok(()) => Ok(()),
            Err(e) => {
                self.state = CpuState::Error;
                Err(CpuError::MemoryError(e))
            },
        }
    }

    /// R := [x] zero-extended.
    fn exec_ldr(&mut self, addr: Tryte9, mode: AddrMode) -> (r: Result<(), CpuError>)
        requires
            old(self).state == CpuState::Running,
            -121 <= addr.val() <= 121,
        ensures
            exec_post(
                old(self).regs.s,
                old(self).regs.r,
                old(self).regs.f,
                old(self).regs.omega,
                old(self).mem@,
                old(self).regs.c.val(),
                Instruction::Ldr { addr, mode },
                *final(self),
                r,
            ),
            final(self).cycles == old(self).cycles,
            final(self).last() == old(self).last(),
    {
        let eff_addr = self.eff(addr, mode);
        let value = match self.mem.read_ternary(eff_addr) {
            Ok(v) => v,
            Err(e) => {
                self.state = CpuState::Error;
                return Err(CpuError::MemoryError(e));
            },
        };
        self.regs.r = value.to_word18();
        Ok(())
    }

    /// [x] := the low 9 trits of R.
    fn exec_str(&mut self, addr: Tryte9, mode: AddrMode) -> (r: Result<(), CpuError>)
        requires
            old(self).state == CpuState::Running,
            -121 <= addr.val() <= 121,
        ensures
            exec_post(
                old(self).regs.s,
                old(self).regs.r,
                old(self).regs.f,
                old(self).regs.omega,
                old(self).mem@,
                old(self).regs.c.val(),
                Instruction::Str { addr, mode },
                *final(self),
                r,
            ),
            final(self).cycles == old(self).cycles,
            final(self).last() == old(self).last(),
    {
        let eff_addr = self.eff(addr, mode);
        let value = self.regs.r.low();
        match self.mem.write_ternary(eff_addr, value) {
            Ok(()) => Ok(()),
            Err(e) => {
                self.state = CpuState::Error;
                Err(CpuError::MemoryError(e))
            },
        }
    }

    /// Exchange S and [x]: the cell gets S's low trits, S gets the
    /// old cell zero-extended, omega the new sign.
    fn exec_xchg(&mut self, addr: Tryte9, mode: AddrMode) -> (r: Result<(), CpuError>)
        requires
            old(self).state == CpuState::Running,
            -121 <= addr.val() <= 121,
        ensures
            exec_post(
                old(self).regs.s,
                old(self).regs.r,
                old(self).regs.f,
                old(self).regs.omega,
                old(self).mem@,
                old(self).regs.c.val(),
                Instruction::Xchg { addr, mode },
                *final(self),
                r,
            ),
            final(self).cycles == old(self).cycles,
            final(self).last() == old(self).last(),
    {
        let eff_addr = self.eff(addr, mode);
        let mem_value = match self.mem.read_ternary(eff_addr) {
            Ok(v) => v,
            Err(e) => {
                self.state = CpuState::Error;
                return Err(CpuError::MemoryError(e));
            },
        };
        let s_low = self.regs.s.low();
        match self.mem.write_ternary(eff_addr, s_low) {
            Ok(()) => (),
            Err(e) => {
                self.state = CpuState::Error;
                return Err(CpuError::MemoryError(e));
            },
        }
        self.regs.s = mem_value.to_word18();
        let sign = self.regs.s.sign();
        self.regs.set_omega(sign);
        Ok(())
    }

    /// The jumps: C := the effective address when the condition holds.
    fn exec_jump(&mut self, i: Instruction, addr: Tryte9, mode: AddrMode) -> (r: Result<
        (),
        CpuError,
    >)
        requires
            old(self).state == CpuState::Running,
            -121 <= addr.val() <= 121,
            i == (Instruction::Jmp { addr, mode }) || i == (Instruction::Jz { addr, mode }) || i
                == (Instruction::Jp { addr, mode }) || i == (Instruction::Jn { addr, mode }) || i
                == (Instruction::Jop { addr, mode }) || i == (Instruction::Jon { addr, mode }),
        ensures
            exec_post(
                old(self).regs.s,
                old(self).regs.r,
                old(self).regs.f,
                old(self).regs.omega,
                old(self).mem@,
                old(self).regs.c.val(),
                i,
                *final(self),
                r,
            ),
            final(self).cycles == old(self).cycles,
            final(self).last() == old(self).last(),
    {
        let taken: bool = match i {
            Instruction::Jmp { .. } => true,
            Instruction::Jz { .. } => self.regs.s.is_zero(),
            Instruction::Jp { .. } => self.regs.s.sign() == Trit::P,
            Instruction::Jn { .. } => self.regs.s.sign() == Trit::N,
            Instruction::Jop { .. } => self.regs.omega == Trit::P,
            _ => self.regs.omega == Trit::N,
        };
        if taken {
            let eff_addr = self.eff(addr, mode);
            self.regs.jump(eff_addr);
        }
        Ok(())
    }

    /// S := S shifted by count trit positions; a count at or beyond
    /// the width (or a negative one) clears S.
    fn exec_shift(&mut self, count: i8, right: bool) -> (r: Result<(), CpuError>)
        requires
            old(self).state == CpuState::Running,
        ensures
            exec_post(
                old(self).regs.s,
                old(self).regs.r,
                old(self).regs.f,
                old(self).regs.omega,
                old(self).mem@,
                old(self).regs.c.val(),
                if right {
                    Instruction::Shr { count }
                } else {
                    Instruction::Shl { count }
                },
                *final(self),
                r,
            ),
            final(self).cycles == old(self).cycles,
            final(self).last() == old(self).last(),
    {
        // A negative count moves every trit out of the word, exactly
        // as a shift by the full width does.
        let n: usize = if count >= 0 {
            count as usize
        } else {
            18
        };
        let shifted = if right {
            arith::shift_right(&self.regs.s, n)
        } else {
            arith::shift_left(&self.regs.s, n)
        };
        self.regs.s = shifted;
        let sign = self.regs.s.sign();
        self.regs.set_omega(sign);
        Ok(())
    }

    /// Dispatch one decoded instruction.
    #[verifier::rlimit(100)]
    #[verifier::spinoff_prover]
    fn execute(&mut self, instr: Instruction) -> (r: Result<(), CpuError>)
        requires
            old(self).state == CpuState::Running,
            operand_fits(instr),
        ensures
            exec_post(
                old(self).regs.s,
                old(self).regs.r,
                old(self).regs.f,
                old(self).regs.omega,
                old(self).mem@,
                old(self).regs.c.val(),
                instr,
                *final(self),
                r,
            ),
            final(self).cycles == old(self).cycles,
            final(self).last() == old(self).last(),
    {
        match instr {
            Instruction::Add { addr, mode } => self.exec_add(addr, mode),
            Instruction::Sub { addr, mode } => self.exec_sub(addr, mode),
            Instruction::Mul { addr, mode } => self.exec_mul(addr, mode),
            Instruction::Div { addr, mode } => self.exec_div(addr, mode),
            Instruction::AddAbs { addr, mode } => self.exec_addsub_abs(addr, mode, false),
            Instruction::SubAbs { addr, mode } => self.exec_addsub_abs(addr, mode, true),
            Instruction::Lda { addr, mode } => self.exec_lda(addr, mode, false),
            Instruction::LdaUnsigned { addr, mode } => self.exec_lda(addr, mode, true),
            Instruction::Sta { addr, mode } => self.exec_sta(addr, mode),
            Instruction::Ldf { addr, mode } => self.exec_ldf(addr, mode),
            Instruction::Stf { addr, mode } => self.exec_stf(addr, mode),
            Instruction::Ldr { addr, mode } => self.exec_ldr(addr, mode),
            Instruction::Str { addr, mode } => self.exec_str(addr, mode),
            Instruction::Xchg { addr, mode } => self.exec_xchg(addr, mode),
            Instruction::Jmp { addr, mode } => self.exec_jump(instr, addr, mode),
            Instruction::Jz { addr, mode } => self.exec_jump(instr, addr, mode),
            Instruction::Jp { addr, mode } => self.exec_jump(instr, addr, mode),
            Instruction::Jn { addr, mode } => self.exec_jump(instr, addr, mode),
            Instruction::Jop { addr, mode } => self.exec_jump(instr, addr, mode),
            Instruction::Jon { addr, mode } => self.exec_jump(instr, addr, mode),
            Instruction::Hlt => {
                self.state = CpuState::Halted;
                Ok(())
            },
            Instruction::Shl { count } => self.exec_shift(count, false),
            Instruction::Shr { count } => self.exec_shift(count, true),
            Instruction::Nop => Ok(()),
            Instruction::Tst => {
                let sign = self.regs.s.sign();
                self.regs.set_omega(sign);
                Ok(())
            },
        }
    }

    /// One fetch-decode-execute cycle, exactly as `step_rel` states it.
    pub fn step(&mut self) -> (r: Result<Instruction, CpuError>)
        requires
            old(self).cycles < u64::MAX,
        ensures
            step_rel(*old(self), *final(self), r),
    {
        if !(self.state == CpuState::Running) {
            return Err(CpuError::NotRunning(self.state));
        }
        let pc = self.regs.c;
        let raw = match self.mem.read_ternary(pc) {
            Ok(w) => w,
            Err(e) => {
                self.state = CpuState::Error;
                return Err(CpuError::MemoryError(e));
            },
        };
        self.regs.advance_pc();
        let instr = match crate::cpu::decode::decode(raw) {
            Ok(i) => i,
            Err(e) => {
                self.state = CpuState::Error;
                return Err(CpuError::DecodeError(e));
            },
        };
        proof {
            lemma_decoded_operand_fits(raw, instr);
        }
        let ghost mid = *self;
        let result = self.execute(instr);
        match result {
            Ok(()) => {
                let ghost before_book = *self;
                self.cycles = self.cycles + 1;
                self.last_instr = Some(instr);
                proof {
                    lemma_exec_post_frame(
                        mid.regs.s,
                        mid.regs.r,
                        mid.regs.f,
                        mid.regs.omega,
                        mid.mem@,
                        mid.regs.c.val(),
                        instr,
                        before_book,
                        *self,
                        Ok(()),
                    );
                }
                Ok(instr)
            },
            Err(e) => Err(e),
        }
    }

    /// Step while the machine is Running; returns how many cycles ran.
    /// Returns as soon as the machine halts or faults; a machine that
    /// was not Running runs zero cycles.  (Should the cycle counter
    /// ever reach its maximum the loop also stops, so that the counter
    /// cannot wrap.)  The whole call is witnessed by a trace of
    /// machines chained by `step_rel`, one link per completed step, so
    /// the final registers, memory and state are exactly what stepping
    /// the loaded program produces.
    pub fn run(&mut self) -> (r: Result<u64, CpuError>)
        ensures
            exists|trace: Seq<Cpu>| run_rel(*old(self), *final(self), r, trace),
            r matches Ok(n) ==> final(self).cycles == old(self).cycles + n && (final(self).state
                != CpuState::Running || final(self).cycles == u64::MAX),
            old(self).state != CpuState::Running ==> *final(self) == *old(self) && r == Ok::<
                u64,
                CpuError,
            >(0),
            r matches Err(e) ==> final(self).state == CpuState::Error && final(self).cycles >= old(
                self,
            ).cycles,
    {
        let start_cycles = self.cycles;
        let ghost mut trace: Seq<Cpu> = seq![*self];
        while self.state == CpuState::Running && self.cycles < u64::MAX
            invariant
                trace.len() >= 1,
                trace[0] == *old(self),
                trace.last() == *self,
                stepped_chain(trace),
                self.cycles >= start_cycles,
                self.cycles - start_cycles == trace.len() - 1,
                old(self).state != CpuState::Running ==> *self == *old(self) && start_cycles
                    == self.cycles,
                start_cycles == old(self).cycles,
            decreases u64::MAX - self.cycles,
        {
            let ghost prev = *self;
            let ghost old_trace = trace;
            let res = self.step();
            match res {
                Ok(instr) => {
                    proof {
                        assert(step_rel(prev, *self, Ok(instr)));
                        assert(chained(prev, *self));
                        assert(self.cycles == prev.cycles + 1);
                        trace = trace.push(*self);
                        assert(trace.last() == *self);
                        assert(trace[0] == old_trace[0]);
                        assert forall|k: int| 0 <= k < trace.len() - 1 implies chained(
                            #[trigger] trace[k],
                            trace[k + 1],
                        ) by {
                            if k < old_trace.len() - 1 {
                                assert(trace[k] == old_trace[k]);
                                assert(trace[k + 1] == old_trace[k + 1]);
                                assert(chained(old_trace[k], old_trace[k + 1]));
                            } else {
                                assert(trace[k] == prev && trace[k + 1] == *self);
                            }
                        }
                    }
                },
                Err(e) => {
                    proof {
                        assert(step_rel(prev, *self, Err(e)));
                        assert(run_rel(*old(self), *self, Err::<u64, CpuError>(e), trace));
                    }
                    return Err(e);
                },
            }
        }
        let executed = self.cycles - start_cycles;
        proof {
            assert(run_rel(*old(self), *self, Ok::<u64, CpuError>(executed), trace));
        }
        Ok(executed)
    }

    /// Step at most `max_cycles` cycles; returns how many ran.  The
    /// machine may still be Running when the budget is spent: spending
    /// it is a normal return, not an error.  As for `run`, a trace of
    /// machines chained by `step_rel` witnesses the whole call.
    pub fn run_limited(&mut self, max_cycles: u64) -> (r: Result<u64, CpuError>)
        requires
            old(self).cycles + max_cycles <= u64::MAX,
        ensures
            exists|trace: Seq<Cpu>| run_limited_rel(*old(self), *final(self), max_cycles, r, trace),
            final(self).cycles - old(self).cycles <= max_cycles,
            r matches Ok(n) ==> n <= max_cycles && final(self).cycles == old(self).cycles + n && (
            final(self).state != CpuState::Running || n == max_cycles),
            old(self).state != CpuState::Running ==> *final(self) == *old(self) && r == Ok::<
                u64,
                CpuError,
            >(0),
            r matches Err(e) ==> final(self).state == CpuState::Error && final(self).cycles < old(
                self,
            ).cycles + max_cycles,
    {
        let start_cycles = self.cycles;
        let limit = self.cycles + max_cycles;
        let ghost mut trace: Seq<Cpu> = seq![*self];
        while self.state == CpuState::Running && self.cycles < limit
            invariant
                trace.len() >= 1,
                trace[0] == *old(self),
                trace.last() == *self,
                stepped_chain(trace),
                start_cycles <= self.cycles <= limit,
                limit == start_cycles + max_cycles,
                limit <= u64::MAX,
                self.cycles - start_cycles == trace.len() - 1,
                old(self).state != CpuState::Running ==> *self == *old(self) && start_cycles
                    == self.cycles,
                start_cycles == old(self).cycles,
            decreases limit - self.cycles,
        {
            let ghost prev = *self;
            let ghost old_trace = trace;
            let res = self.step();
            match res {
                Ok(instr) => {
                    proof {
                        assert(step_rel(prev, *self, Ok(instr)));
                        assert(chained(prev, *self));
                        assert(self.cycles == prev.cycles + 1);
                        trace = trace.push(*self);
                        assert(trace.last() == *self);
                        assert(trace[0] == old_trace[0]);
                        assert forall|k: int| 0 <= k < trace.len() - 1 implies chained(
                            #[trigger] trace[k],
                            trace[k + 1],
                        ) by {
                            if k < old_trace.len() - 1 {
                                assert(trace[k] == old_trace[k]);
                                assert(trace[k + 1] == old_trace[k + 1]);
                                assert(chained(old_trace[k], old_trace[k + 1]));
                            } else {
                                assert(trace[k] == prev && trace[k + 1] == *self);
                            }
                        }
                    }
                },
                Err(e) => {
                    proof {
                        assert(step_rel(prev, *self, Err(e)));
                        assert(self.cycles == prev.cycles);
                        assert(run_limited_rel(
                            *old(self),
                            *self,
                            max_cycles,
                            Err::<u64, CpuError>(e),
                            trace,
                        ));
                    }
                    return Err(e);
                },
            }
        }
        let executed = self.cycles - start_cycles;
        proof {
            assert(run_limited_rel(
                *old(self),
                *self,
                max_cycles,
                Ok::<u64, CpuError>(executed),
                trace,
            ));
        }
        Ok(executed)
    }

    /// The instruction the last completed cycle executed.
    pub fn last_instruction(&self) -> (r: Option<Instruction>)
        ensures
            r == self.last(),
    {
        self.last_instr
    }

    /// True when the machine stopped on HLT.
    pub fn is_halted(&self) -> (r: bool)
        ensures
            r == (self.state == CpuState::Halted),
    {
        self.state == CpuState::Halted
    }

    /// True when the machine is still executing.
    pub fn is_running(&self) -> (r: bool)
        ensures
            r == (self.state == CpuState::Running),
    {
        self.state == CpuState::Running
    }
}

/// The value of a cell's low five trits, as the index-register load
/// reads them.
proof fn lemma_low5_value(c: Seq<Trit>)
    requires
        c.len() == 9,
    ensures
        seq_val(c.subrange(0, 5)) == trit_val(c[0]) + 3 * trit_val(c[1]) + 9 * trit_val(c[2]) + 27
            * trit_val(c[3]) + 81 * trit_val(c[4]),
{
    let s = c.subrange(0, 5);
    let s1 = s.drop_first();
    let s2 = s1.drop_first();
    let s3 = s2.drop_first();
    let s4 = s3.drop_first();
    assert(s4.drop_first() =~= Seq::<Trit>::empty());
    assert(s[0] == c[0] && s1[0] == c[1] && s2[0] == c[2] && s3[0] == c[3] && s4[0] == c[4]);
    assert(seq_val(s4) == trit_val(c[4]) + 3 * seq_val(s4.drop_first()));
    assert(seq_val(s3) == trit_val(c[3]) + 3 * seq_val(s4));
    assert(seq_val(s2) == trit_val(c[2]) + 3 * seq_val(s3));
    assert(seq_val(s1) == trit_val(c[1]) + 3 * seq_val(s2));
    assert(seq_val(s) == trit_val(c[0]) + 3 * seq_val(s1));
}

/// The six control-flow instructions, the only ones that may set the
/// program counter to anything but the next cell.
pub open spec fn is_jump(i: Instruction) -> bool {
    match i {
        Instruction::Jmp { .. } => true,
        Instruction::Jz { .. } => true,
        Instruction::Jp { .. } => true,
        Instruction::Jn { .. } => true,
        Instruction::Jop { .. } => true,
        Instruction::Jon { .. } => true,
        _ => false,
    }
}

/// The instructions that update the sign flag omega.
pub open spec fn sets_omega(i: Instruction) -> bool {
    match i {
        Instruction::Add { .. } => true,
        Instruction::Sub { .. } => true,
        Instruction::Mul { .. } => true,
        Instruction::Div { .. } => true,
        Instruction::AddAbs { .. } => true,
        Instruction::SubAbs { .. } => true,
        Instruction::Lda { .. } => true,
        Instruction::LdaUnsigned { .. } => true,
        Instruction::Xchg { .. } => true,
        Instruction::Shl { .. } => true,
        Instruction::Shr { .. } => true,
        Instruction::Tst => true,
        _ => false,
    }
}

/// After a completed non-jump instruction fetched from counter value
/// p, the counter stands at exactly p + 1.
pub proof fn lemma_pc_advances(pre: Cpu, post: Cpu, i: Instruction)
    requires
        step_rel(pre, post, Ok(i)),
        !is_jump(i),
    ensures
        post.regs.c.val() == pre.regs.c.val() + 1,
{
    let p = pre.regs.c.val();
    let w = pre.mem@[mem_index(p)];
    let i2 = choose|i2: Instruction|
        decoded(w, i2) && i2 == i && exec_post(
            pre.regs.s,
            pre.regs.r,
            pre.regs.f,
            pre.regs.omega,
            pre.mem@,
            p + 1,
            i2,
            post,
            Ok(()),
        );
    assert(decoded(w, i2));
}

/// Once the machine has stopped — halted or faulted — further steps
/// return NotRunning and change nothing: no register, no cell, no
/// counter moves again until an external reset.
pub proof fn lemma_halt_is_stable(pre: Cpu, post: Cpu, r: Result<Instruction, CpuError>)
    requires
        step_rel(pre, post, r),
        pre.state != CpuState::Running,
    ensures
        post == pre,
        r == Err::<Instruction, CpuError>(CpuError::NotRunning(pre.state)),
{
}

/// After any completed instruction that updates the sign flag, omega
/// holds exactly the sign of the accumulator.
pub proof fn lemma_omega_tracks_sign(pre: Cpu, post: Cpu, i: Instruction)
    requires
        step_rel(pre, post, Ok(i)),
        sets_omega(i),
    ensures
        trit_val(post.regs.omega) == sign_of(post.regs.s.val()),
{
    let p = pre.regs.c.val();
    let w = pre.mem@[mem_index(p)];
    let i2 = choose|i2: Instruction|
        decoded(w, i2) && i2 == i && exec_post(
            pre.regs.s,
            pre.regs.r,
            pre.regs.f,
            pre.regs.omega,
            pre.mem@,
            p + 1,
            i2,
            post,
            Ok(()),
        );
    assert(decoded(w, i2));
}

/// Decoded instructions carry operands the 5-trit field produced, so
/// their addresses always fit the effective-address arithmetic.
proof fn lemma_decoded_operand_fits(w: Tryte9, i: Instruction)
    requires
        decoded(w, i),
    ensures
        operand_fits(i),
{
    broadcast use lemma_tryte9_width;

    lemma_pow3_values();
    lemma_seq_val_bound(w@.take(5));
    let zeros = Seq::new(4, |k: int| Trit::O);
    lemma_seq_val_append(w@.take(5), zeros);
    crate::ternary::word::lemma_all_zero_iff(zeros);
    assert(seq_val(operand_word(w@)) == seq_val(w@.take(5)));
}

} // verus!
