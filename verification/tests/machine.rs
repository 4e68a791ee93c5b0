//! Tests of the memory, the registers and the execution engine,
//! including the end-to-end programs the machine is specified by.

use setun::cpu::decode::{encode, AddrMode, Instruction};
use setun::cpu::execute::{Cpu, CpuError, CpuState};
use setun::cpu::memory::{Memory, MemoryError};
use setun::cpu::registers::{Registers, Tryte5};
use setun::{Trit, Tryte9, Word18};

fn make_program(instructions: &[Instruction]) -> Vec<Tryte9> {
    instructions.iter().map(|i| encode(i)).collect()
}

#[test]
fn test_memory_read_write() {
    let mut mem = Memory::new();
    let value = Tryte9::from_i32(42);

    mem.write(10, value);
    assert_eq!(mem.read(10).to_i32(), 42);
}

#[test]
fn test_memory_ternary_addr() {
    let mut mem = Memory::new();
    let value = Tryte9::from_i32(123);
    let addr = Tryte9::from_i32(0);

    mem.write_ternary(addr, value).unwrap();
    assert_eq!(mem.read_ternary(addr).unwrap().to_i32(), 123);
}

#[test]
fn test_memory_bounds() {
    let mem = Memory::new();

    assert!(mem.read_ternary(Tryte9::from_i32(-81)).is_ok());
    assert!(mem.read_ternary(Tryte9::from_i32(80)).is_ok());

    assert!(mem.read_ternary(Tryte9::from_i32(-82)).is_err());
    assert!(mem.read_ternary(Tryte9::from_i32(81)).is_err());
}

#[test]
fn test_load_program() {
    let mut mem = Memory::new();
    let program = vec![Tryte9::from_i32(1), Tryte9::from_i32(2), Tryte9::from_i32(3)];

    mem.load_program(0, &program).unwrap();

    assert_eq!(mem.read(0).to_i32(), 1);
    assert_eq!(mem.read(1).to_i32(), 2);
    assert_eq!(mem.read(2).to_i32(), 3);
}

#[test]
fn test_tryte5_conversion() {
    assert_eq!(Tryte5::from_i32(0).to_i32(), 0);
    assert_eq!(Tryte5::from_i32(42).to_i32(), 42);
    assert_eq!(Tryte5::from_i32(-42).to_i32(), -42);
    assert_eq!(Tryte5::from_i32(121).to_i32(), 121);
    assert_eq!(Tryte5::from_i32(-121).to_i32(), -121);
}

#[test]
fn test_effective_address() {
    let mut regs = Registers::new();
    regs.f = Tryte5::from_i32(10);

    let base = Tryte9::from_i32(50);

    assert_eq!(regs.effective_address(base, Trit::O).to_i32(), 50);
    assert_eq!(regs.effective_address(base, Trit::P).to_i32(), 60);
    assert_eq!(regs.effective_address(base, Trit::N).to_i32(), 40);
}

#[test]
fn test_omega_from_value() {
    let mut regs = Registers::new();

    regs.set_omega_from_word(&Word18::from_i64(100));
    assert_eq!(regs.omega, Trit::P);

    regs.set_omega_from_word(&Word18::from_i64(-100));
    assert_eq!(regs.omega, Trit::N);

    regs.set_omega_from_word(&Word18::zero());
    assert_eq!(regs.omega, Trit::O);
}

#[test]
fn test_advance_pc() {
    let mut regs = Registers::new();
    regs.c = Tryte9::from_i32(10);

    let old = regs.advance_pc();
    assert_eq!(old.to_i32(), 10);
    assert_eq!(regs.c.to_i32(), 11);
}

#[test]
fn test_cpu_halt() {
    let mut cpu = Cpu::new();
    let program = make_program(&[Instruction::Hlt]);
    cpu.load_program(&program).unwrap();

    let executed = cpu.run().unwrap();

    assert_eq!(executed, 1);
    assert!(cpu.is_halted());
}

#[test]
fn test_cpu_nop_then_halt() {
    let mut cpu = Cpu::new();
    let program = make_program(&[
        Instruction::Nop,
        Instruction::Nop,
        Instruction::Nop,
        Instruction::Hlt,
    ]);
    cpu.load_program(&program).unwrap();

    let executed = cpu.run().unwrap();

    assert_eq!(executed, 4);
    assert!(cpu.is_halted());
}

#[test]
fn test_cpu_load_store() {
    let mut cpu = Cpu::new();

    cpu.mem.write(91, Tryte9::from_i32(42));

    let program = make_program(&[
        Instruction::Lda { addr: Tryte9::from_i32(10), mode: AddrMode::Direct },
        Instruction::Hlt,
    ]);
    cpu.load_program(&program).unwrap();

    cpu.run().unwrap();

    assert_eq!(cpu.regs.s.to_i64(), 42);
}

#[test]
fn test_cpu_arithmetic() {
    let mut cpu = Cpu::new();

    cpu.mem.write(91, Tryte9::from_i32(10));
    cpu.mem.write(92, Tryte9::from_i32(5));

    let program = make_program(&[
        Instruction::Lda { addr: Tryte9::from_i32(10), mode: AddrMode::Direct },
        Instruction::Add { addr: Tryte9::from_i32(11), mode: AddrMode::Direct },
        Instruction::Hlt,
    ]);
    cpu.load_program(&program).unwrap();

    cpu.run().unwrap();

    assert_eq!(cpu.regs.s.to_i64(), 15);
}

#[test]
fn test_cpu_conditional_jump() {
    let mut cpu = Cpu::new();

    cpu.mem.write(91, Tryte9::from_i32(1));

    let program = make_program(&[
        Instruction::Lda { addr: Tryte9::from_i32(10), mode: AddrMode::Direct },
        Instruction::Jp { addr: Tryte9::from_i32(3), mode: AddrMode::Direct },
        Instruction::Nop,
        Instruction::Hlt,
    ]);
    cpu.load_program(&program).unwrap();

    let executed = cpu.run().unwrap();

    assert_eq!(executed, 3);
}

#[test]
fn test_cpu_shift() {
    let mut cpu = Cpu::new();

    cpu.mem.write(91, Tryte9::from_i32(1));

    let program = make_program(&[
        Instruction::Lda { addr: Tryte9::from_i32(10), mode: AddrMode::Direct },
        Instruction::Shl { count: 2 },
        Instruction::Hlt,
    ]);
    cpu.load_program(&program).unwrap();

    cpu.run().unwrap();

    assert_eq!(cpu.regs.s.to_i64(), 9);
}

#[test]
fn test_cpu_multiply_into_s_and_r() {
    // 123 * 456 lands entirely in R; S holds the empty high half.
    let mut cpu = Cpu::new();
    cpu.mem.write(91, Tryte9::from_i32(123));
    cpu.mem.write(92, Tryte9::from_i32(456));
    let program = make_program(&[
        Instruction::Lda { addr: Tryte9::from_i32(10), mode: AddrMode::Direct },
        Instruction::Mul { addr: Tryte9::from_i32(11), mode: AddrMode::Direct },
        Instruction::Hlt,
    ]);
    cpu.load_program(&program).unwrap();
    cpu.run().unwrap();
    assert_eq!(cpu.regs.s.to_i64(), 0);
    assert_eq!(cpu.regs.r.to_i64(), 56088);
}

#[test]
fn test_cpu_divide() {
    // 100 / 7 truncates toward zero; the remainder keeps the
    // dividend's sign.
    let mut cpu = Cpu::new();
    cpu.mem.write(91, Tryte9::from_i32(100));
    cpu.mem.write(92, Tryte9::from_i32(7));
    let program = make_program(&[
        Instruction::Lda { addr: Tryte9::from_i32(10), mode: AddrMode::Direct },
        Instruction::Div { addr: Tryte9::from_i32(11), mode: AddrMode::Direct },
        Instruction::Hlt,
    ]);
    cpu.load_program(&program).unwrap();
    cpu.run().unwrap();
    assert_eq!(cpu.regs.s.to_i64(), 14);
    assert_eq!(cpu.regs.r.to_i64(), 2);
}

#[test]
fn test_cpu_divide_by_zero_faults() {
    let mut cpu = Cpu::new();
    cpu.mem.write(91, Tryte9::from_i32(100));
    let program = make_program(&[
        Instruction::Lda { addr: Tryte9::from_i32(10), mode: AddrMode::Direct },
        Instruction::Div { addr: Tryte9::from_i32(11), mode: AddrMode::Direct },
        Instruction::Hlt,
    ]);
    cpu.load_program(&program).unwrap();
    let r = cpu.run();
    assert!(matches!(r, Err(CpuError::DivisionByZero)));
    assert_eq!(cpu.state, CpuState::Error);
}

#[test]
fn test_cpu_bad_address_faults() {
    // An effective address past the end of memory stops the machine.
    let mut cpu = Cpu::new();
    let program = make_program(&[
        Instruction::Lda { addr: Tryte9::from_i32(121), mode: AddrMode::Direct },
        Instruction::Hlt,
    ]);
    cpu.load_program(&program).unwrap();
    let r = cpu.run();
    assert!(matches!(r, Err(CpuError::MemoryError(MemoryError::AddressOutOfRange(121)))));
    assert_eq!(cpu.state, CpuState::Error);
}

#[test]
fn test_cpu_invalid_opcode_faults() {
    // Opcode -6 is unassigned: -6 * 729 puts exactly that value in
    // the opcode field.
    let mut cpu = Cpu::new();
    cpu.load_program(&[Tryte9::from_i32(-6 * 729)]).unwrap();
    let r = cpu.run();
    match r {
        Err(CpuError::DecodeError(setun::cpu::decode::DecodeError::InvalidOpcode(v))) => {
            assert_eq!(v, -6);
        },
        other => panic!("expected an invalid opcode fault, got {:?}", other),
    }
    assert_eq!(cpu.state, CpuState::Error);
}

#[test]
fn test_halt_is_stable() {
    // Once halted, further steps return NotRunning and nothing moves.
    let mut cpu = Cpu::new();
    cpu.mem.write(91, Tryte9::from_i32(5));
    let program = make_program(&[
        Instruction::Lda { addr: Tryte9::from_i32(10), mode: AddrMode::Direct },
        Instruction::Hlt,
    ]);
    cpu.load_program(&program).unwrap();
    cpu.run().unwrap();
    let s_before = cpu.regs.s.to_i64();
    let cycles_before = cpu.cycles;
    for _ in 0..3 {
        let r = cpu.step();
        assert!(matches!(r, Err(CpuError::NotRunning(CpuState::Halted))));
        assert_eq!(cpu.regs.s.to_i64(), s_before);
        assert_eq!(cpu.cycles, cycles_before);
        assert_eq!(cpu.mem.read(91).to_i32(), 5);
    }
}

#[test]
fn test_pc_advances_on_non_jump() {
    // After each non-jump the counter moves by exactly one cell.
    let mut cpu = Cpu::new();
    let program = make_program(&[Instruction::Nop, Instruction::Nop, Instruction::Hlt]);
    cpu.load_program(&program).unwrap();
    assert_eq!(cpu.regs.c.to_i32(), 0);
    cpu.step().unwrap();
    assert_eq!(cpu.regs.c.to_i32(), 1);
    cpu.step().unwrap();
    assert_eq!(cpu.regs.c.to_i32(), 2);
}

#[test]
fn test_omega_follows_sign() {
    // After the instructions that set it, omega is the sign of S.
    let mut cpu = Cpu::new();
    cpu.mem.write(91, Tryte9::from_i32(-7));
    let program = make_program(&[
        Instruction::Lda { addr: Tryte9::from_i32(10), mode: AddrMode::Direct },
        Instruction::Sub { addr: Tryte9::from_i32(10), mode: AddrMode::Direct },
        Instruction::Tst,
        Instruction::Hlt,
    ]);
    cpu.load_program(&program).unwrap();
    cpu.step().unwrap();
    assert_eq!(cpu.regs.omega, Trit::N);
    cpu.step().unwrap();
    assert_eq!(cpu.regs.omega, Trit::O);
    cpu.step().unwrap();
    assert_eq!(cpu.regs.omega, Trit::O);
}

#[test]
fn test_omega_jumps() {
    // JOP follows a positive omega; JON a negative one.
    let mut cpu = Cpu::new();
    cpu.mem.write(91, Tryte9::from_i32(3));
    let program = make_program(&[
        Instruction::Lda { addr: Tryte9::from_i32(10), mode: AddrMode::Direct },
        Instruction::Jop { addr: Tryte9::from_i32(3), mode: AddrMode::Direct },
        Instruction::Nop,
        Instruction::Hlt,
    ]);
    cpu.load_program(&program).unwrap();
    let executed = cpu.run().unwrap();
    assert_eq!(executed, 3);
}

#[test]
fn test_index_register_modifies_address() {
    // LDF pulls the low five trits; the mode trit adds F to the
    // operand address.
    let mut cpu = Cpu::new();
    cpu.mem.write(91, Tryte9::from_i32(2));  // F := 2
    cpu.mem.write(93, Tryte9::from_i32(77));  // cell at address 12
    let program = make_program(&[
        Instruction::Ldf { addr: Tryte9::from_i32(10), mode: AddrMode::Direct },
        Instruction::Lda { addr: Tryte9::from_i32(10), mode: AddrMode::IndexAdd },
        Instruction::Hlt,
    ]);
    cpu.load_program(&program).unwrap();
    cpu.run().unwrap();
    assert_eq!(cpu.regs.f.to_i32(), 2);
    assert_eq!(cpu.regs.s.to_i64(), 77);
}

#[test]
fn test_store_and_exchange() {
    let mut cpu = Cpu::new();
    cpu.mem.write(91, Tryte9::from_i32(42));
    cpu.mem.write(92, Tryte9::from_i32(7));
    let program = make_program(&[
        Instruction::Lda { addr: Tryte9::from_i32(10), mode: AddrMode::Direct },
        Instruction::Sta { addr: Tryte9::from_i32(20), mode: AddrMode::Direct },
        Instruction::Xchg { addr: Tryte9::from_i32(11), mode: AddrMode::Direct },
        Instruction::Hlt,
    ]);
    cpu.load_program(&program).unwrap();
    cpu.run().unwrap();
    assert_eq!(cpu.mem.read(101).to_i32(), 42);
    assert_eq!(cpu.regs.s.to_i64(), 7);
    assert_eq!(cpu.mem.read(92).to_i32(), 42);
}

#[test]
fn test_run_limited_budget() {
    // An endless loop spends exactly the budget and stays Running.
    let mut cpu = Cpu::new();
    let program = make_program(&[Instruction::Jmp {
        addr: Tryte9::from_i32(0),
        mode: AddrMode::Direct,
    }]);
    cpu.load_program(&program).unwrap();
    let executed = cpu.run_limited(25).unwrap();
    assert_eq!(executed, 25);
    assert!(cpu.is_running());
}

#[test]
fn test_reset_zeroes_everything() {
    let mut cpu = Cpu::new();
    cpu.mem.write(91, Tryte9::from_i32(9));
    let program = make_program(&[
        Instruction::Lda { addr: Tryte9::from_i32(10), mode: AddrMode::Direct },
        Instruction::Hlt,
    ]);
    cpu.load_program(&program).unwrap();
    cpu.run().unwrap();
    cpu.reset();
    assert!(cpu.is_running());
    assert_eq!(cpu.cycles, 0);
    assert_eq!(cpu.regs.s.to_i64(), 0);
    assert_eq!(cpu.mem.read(91).to_i32(), 0);
    assert!(cpu.last_instruction().is_none());
}

#[test]
fn test_program_too_large() {
    let mut cpu = Cpu::new();
    let program = vec![Tryte9::zero(); 82];
    let r = cpu.load_program(&program);
    assert!(matches!(
        r,
        Err(MemoryError::ProgramTooLarge { size: 82, available: 81 })
    ));
}

#[test]
fn test_addabs_subabs() {
    let mut cpu = Cpu::new();
    cpu.mem.write(91, Tryte9::from_i32(-30));
    let program = make_program(&[
        Instruction::AddAbs { addr: Tryte9::from_i32(10), mode: AddrMode::Direct },
        Instruction::SubAbs { addr: Tryte9::from_i32(10), mode: AddrMode::Direct },
        Instruction::SubAbs { addr: Tryte9::from_i32(10), mode: AddrMode::Direct },
        Instruction::Hlt,
    ]);
    cpu.load_program(&program).unwrap();
    cpu.run().unwrap();
    assert_eq!(cpu.regs.s.to_i64(), -30);
    assert_eq!(cpu.regs.omega, Trit::N);
}
