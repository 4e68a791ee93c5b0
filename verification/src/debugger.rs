//! Interactive debugger state: a machine, its program, breakpoints,
//! and the stepping decisions.  A front end draws this state and
//! feeds key presses in; everything it decides happens here.

use vstd::prelude::*;

use crate::assembly::disasm::{disassemble_instruction, line_body_ok};
use crate::assembly::text::push_i32;
use crate::cpu::execute::{step_rel, Cpu, CpuState};
use crate::cpu::memory::lemma_memory_len;
use crate::ternary::word::{lemma_seq_val_bound, lemma_tryte9_width, Tryte9};

verus! {

broadcast use lemma_tryte9_width, lemma_memory_len;

/// The debugger's state.
pub struct DebuggerApp {
    /// The machine being driven.
    pub cpu: Cpu,
    /// The loaded program, kept for resets.
    pub program: Vec<Tryte9>,
    /// Breakpoints, by signed cell address, each held once.
    pub breakpoints: Vec<i32>,
    /// Whether the debugger is running continuously.
    pub running: bool,
    /// Whether the front end should leave.
    pub should_quit: bool,
    /// The line of text the front end shows.
    pub status: String,
    /// The memory view's scroll offset.
    pub mem_scroll: usize,
    /// The selected memory cell, as an array index.
    pub selected_addr: usize,
}

impl DebuggerApp {
    /// A debugger over a fresh machine with the program loaded at
    /// address zero.
    pub fn new(program: Vec<Tryte9>) -> (r: Self)
        ensures
            r.program@ == program@,
            r.breakpoints@.len() == 0,
            !r.running,
            !r.should_quit,
            r.cpu.state == CpuState::Running,
            r.cpu.cycles == 0,
            r.mem_scroll == 0,
            r.selected_addr == 81,
    {
        let mut cpu = Cpu::new();
        let _ = cpu.load_program(program.as_slice());
        let mut status = String::new();
        status.append("ready: s steps, r runs, q quits");
        DebuggerApp {
            cpu,
            program,
            breakpoints: Vec::new(),
            running: false,
            should_quit: false,
            status,
            mem_scroll: 0,
            selected_addr: 81,
        }
    }

    /// Step the machine once; a machine that is no longer Running
    /// only stops the continuous run.
    pub fn step(&mut self)
        requires
            old(self).cpu.cycles < u64::MAX,
        ensures
            old(self).cpu.state != CpuState::Running ==> final(self).cpu == old(self).cpu
                && !final(self).running,
            old(self).cpu.state == CpuState::Running ==> (exists|r: Result<
                crate::cpu::decode::Instruction,
                crate::cpu::execute::CpuError,
            >| step_rel(old(self).cpu, final(self).cpu, r)),
            final(self).program@ == old(self).program@,
            final(self).breakpoints@ == old(self).breakpoints@,
    {
        if !self.cpu.is_running() {
            let mut status = String::new();
            status.append("machine stopped");
            self.status = status;
            self.running = false;
            return;
        }
        let pc = self.cpu.regs.c.to_i32();
        let result = self.cpu.step();
        match result {
            Ok(instr) => {
                let mut status = String::new();
                status.append("PC=");
                push_i32(&mut status, pc);
                status.append(": ");
                let text = disassemble_instruction(crate::cpu::decode::encode(&instr));
                let status2 = status.concat(text.as_str());
                self.status = status2;
            },
            Err(_) => {
                let mut status = String::new();
                status.append("fault; the machine stopped");
                self.status = status;
                self.running = false;
            },
        }
    }

    /// Start running continuously.
    pub fn run(&mut self)
        ensures
            final(self).running,
            final(self).cpu == old(self).cpu,
            final(self).program@ == old(self).program@,
            final(self).breakpoints@ == old(self).breakpoints@,
    {
        self.running = true;
        let mut status = String::new();
        status.append("running");
        self.status = status;
    }

    /// One round of continuous running: stop at a halt, a fault or a
    /// breakpoint, otherwise step once.
    pub fn tick(&mut self)
        requires
            old(self).cpu.cycles < u64::MAX,
        ensures
            !old(self).running ==> *final(self) == *old(self),
            final(self).program@ == old(self).program@,
            final(self).breakpoints@ == old(self).breakpoints@,
    {
        if !self.running {
            return;
        }
        if !self.cpu.is_running() {
            self.running = false;
            let mut status = String::new();
            status.append("stopped after ");
            crate::assembly::text::push_dec(&mut status, self.cpu.cycles);
            status.append(" cycles");
            self.status = status;
            return;
        }
        let pc = self.cpu.regs.c.to_i32();
        if contains(&self.breakpoints, pc) {
            self.running = false;
            let mut status = String::new();
            status.append("breakpoint at PC=");
            push_i32(&mut status, pc);
            self.status = status;
            return;
        }
        self.step();
    }

    /// Set a breakpoint at the current program counter, or take an
    /// existing one away.
    pub fn toggle_breakpoint(&mut self)
        ensures
            final(self).cpu == old(self).cpu,
            final(self).program@ == old(self).program@,
            ({
                let pc = old(self).cpu.regs.c;
                ||| (forall|k: int|
                    0 <= k < old(self).breakpoints@.len() ==> old(self).breakpoints@[k] as int
                        != pc.val()) && final(self).breakpoints@.len() == old(
                    self,
                ).breakpoints@.len() + 1 && final(self).breakpoints@.last() as int == pc.val()
                ||| (exists|k: int|
                    0 <= k < old(self).breakpoints@.len() && old(self).breakpoints@[k] as int
                        == pc.val()) && final(self).breakpoints@.len() < old(
                    self,
                ).breakpoints@.len() + 1
            }),
    {
        let pc = self.cpu.regs.c.to_i32();
        if contains(&self.breakpoints, pc) {
            let mut kept: Vec<i32> = Vec::new();
            let mut i: usize = 0;
            while i < self.breakpoints.len()
                invariant
                    i <= self.breakpoints@.len(),
                    kept@.len() <= i,
                decreases self.breakpoints@.len() - i,
            {
                let b = self.breakpoints[i];
                if !(b == pc) {
                    kept.push(b);
                }
                i = i + 1;
            }
            proof {
                let bs = self.breakpoints@;
                let k = choose|k: int| 0 <= k < bs.len() && bs[k] == pc;
                assert(bs[k] == pc);
            }
            self.breakpoints = kept;
            let mut status = String::new();
            status.append("removed breakpoint at PC=");
            push_i32(&mut status, pc);
            self.status = status;
        } else {
            self.breakpoints.push(pc);
            let mut status = String::new();
            status.append("set breakpoint at PC=");
            push_i32(&mut status, pc);
            self.status = status;
        }
    }

    /// Reset the machine and load the program again.
    pub fn reset(&mut self)
        ensures
            final(self).cpu.state == CpuState::Running,
            final(self).cpu.cycles == 0,
            !final(self).running,
            final(self).program@ == old(self).program@,
            final(self).breakpoints@ == old(self).breakpoints@,
    {
        self.cpu = Cpu::new();
        let _ = self.cpu.load_program(self.program.as_slice());
        self.running = false;
        let mut status = String::new();
        status.append("reset");
        self.status = status;
    }

    /// The listing around the program counter: for each line its
    /// signed address, its text and whether it is the current cell.
    pub fn get_disassembly(&self, lines: usize) -> (r: Vec<(i32, String, bool)>)
        requires
            lines < 1000,
        ensures
            forall|k: int|
                0 <= k < r@.len() ==> {
                    let entry = #[trigger] r@[k];
                    let idx = entry.0 + 81;
                    &&& 0 <= idx < 162
                    &&& entry.2 == (entry.0 as int == self.cpu.regs.c.val())
                    &&& line_body_ok(self.cpu.mem@[idx as int], entry.1@)
                },
    {
        proof {
            lemma_seq_val_bound(self.cpu.regs.c@);
            crate::ternary::word::lemma_pow3_values();
        }
        let pc = self.cpu.regs.c.to_i32();
        let half = (lines / 2) as i32;
        let start = if pc - half < -81 {
            -81
        } else {
            pc - half
        };
        let mut out: Vec<(i32, String, bool)> = Vec::new();
        let mut i: usize = 0;
        while i < lines
            invariant
                i <= lines,
                lines < 1000,
                -81 <= start <= 9841,
                pc as int == self.cpu.regs.c.val(),
                forall|k: int|
                    0 <= k < out@.len() ==> {
                        let entry = #[trigger] out@[k];
                        let idx = entry.0 + 81;
                        &&& 0 <= idx < 162
                        &&& entry.2 == (entry.0 as int == self.cpu.regs.c.val())
                        &&& line_body_ok(self.cpu.mem@[idx as int], entry.1@)
                    },
            decreases lines - i,
        {
            let addr = start + i as i32;
            let idx = addr + 81;
            if 0 <= idx && idx < 162 {
                let instr = self.cpu.mem.read(idx as usize);
                let text = disassemble_instruction(instr);
                let is_current = addr == pc;
                out.push((addr, text, is_current));
            }
            i = i + 1;
        }
        out
    }
}

/// Whether a list of addresses holds one.
fn contains(list: &Vec<i32>, value: i32) -> (r: bool)
    ensures
        r == (exists|k: int| 0 <= k < list@.len() && list@[k] == value),
{
    let mut i: usize = 0;
    while i < list.len()
        invariant
            i <= list@.len(),
            forall|k: int| 0 <= k < i ==> list@[k] != value,
        decreases list@.len() - i,
    {
        if list[i] == value {
            return true;
        }
        i = i + 1;
    }
    false
}

} // verus!
