//! Tests of the assembler, the disassembler and the program file
//! format.

use setun::assembly::assembler::assemble;
use setun::assembly::disasm::{disassemble, disassemble_instruction};
use setun::assembly::trom::{parse_trom, render_trom, TromFile};
use setun::cpu::decode::{encode, AddrMode, Instruction};
use setun::Tryte9;

#[test]
fn test_assemble_simple() {
    let source = r#"
            ; Simple test program
            LDA 10
            ADD 11
            STA 12
            HLT
        "#;

    let result = assemble(source).unwrap();
    assert_eq!(result.len(), 4);
}

#[test]
fn test_assemble_with_labels() {
    let source = r#"
        START:
            LDA 10
            JMP END
            NOP
        END:
            HLT
        "#;

    let result = assemble(source).unwrap();
    assert_eq!(result.len(), 4);
}

#[test]
fn test_assemble_data() {
    let source = r#"
            DAT 42
            DAT -17
            DAT 0
        "#;

    let result = assemble(source).unwrap();
    assert_eq!(result.len(), 3);
    assert_eq!(result[0].to_i32(), 42);
    assert_eq!(result[1].to_i32(), -17);
    assert_eq!(result[2].to_i32(), 0);
}

#[test]
fn test_disassemble_hlt() {
    let hlt = encode(&Instruction::Hlt);
    let result = disassemble_instruction(hlt);
    assert!(result.contains("HLT"));
}

#[test]
fn test_disassemble_add() {
    let add = encode(&Instruction::Add { addr: Tryte9::from_i32(10), mode: AddrMode::Direct });
    let result = disassemble_instruction(add);
    assert!(result.contains("ADD"));
}

#[test]
fn test_disassemble_with_mode() {
    let jmp = encode(&Instruction::Jmp { addr: Tryte9::from_i32(5), mode: AddrMode::IndexAdd });
    let result = disassemble_instruction(jmp);
    assert!(result.contains("JMP"));
    assert!(result.contains("F+"));
}

#[test]
fn test_trom_roundtrip() {
    let mut trom = TromFile::new();
    trom.push(Tryte9::from_i32(0), "HLT");
    trom.push(Tryte9::from_i32(42), "DATA");

    assert_eq!(trom.len(), 2);
}

#[test]
fn test_assembled_program_runs() {
    // The assembled text of the load/add program computes 10 + 5.
    let source = "
        LDA 10
        ADD 11
        HLT
    ";
    let program = assemble(source).unwrap();
    let mut cpu = setun::cpu::execute::Cpu::new();
    cpu.mem.write(91, Tryte9::from_i32(10));
    cpu.mem.write(92, Tryte9::from_i32(5));
    cpu.load_program(&program).unwrap();
    cpu.run().unwrap();
    assert_eq!(cpu.regs.s.to_i64(), 15);
}

#[test]
fn test_assemble_modes_and_literals() {
    // Mode suffixes and ternary/hex literals all assemble.
    let source = "
        LDA 10,F+
        STA 10,F-
        ADD 0x0A
        SUB 0tPON
    ";
    let program = assemble(source).unwrap();
    assert_eq!(program.len(), 4);
    match setun::cpu::decode::decode(program[0]).unwrap() {
        Instruction::Lda { addr, mode } => {
            assert_eq!(addr.to_i32(), 10);
            assert_eq!(mode, AddrMode::IndexAdd);
        },
        other => panic!("expected LDA, got {:?}", other),
    }
    match setun::cpu::decode::decode(program[2]).unwrap() {
        Instruction::Add { addr, .. } => assert_eq!(addr.to_i32(), 10),
        other => panic!("expected ADD, got {:?}", other),
    }
    match setun::cpu::decode::decode(program[3]).unwrap() {
        Instruction::Sub { addr, .. } => assert_eq!(addr.to_i32(), 8),
        other => panic!("expected SUB, got {:?}", other),
    }
}

#[test]
fn test_assemble_unknown_mnemonic() {
    assert!(assemble("FROB 10").is_err());
}

#[test]
fn test_assemble_fixes_plain_statements() {
    // Plain statements assemble to exactly their encodings.
    let program = assemble("LDA 10\nADD -3\nHLT\n").unwrap();
    assert_eq!(program.len(), 3);
    assert_eq!(
        program[0],
        encode(&Instruction::Lda { addr: Tryte9::from_i32(10), mode: AddrMode::Direct })
    );
    assert_eq!(
        program[1],
        encode(&Instruction::Add { addr: Tryte9::from_i32(-3), mode: AddrMode::Direct })
    );
    assert_eq!(program[2], encode(&Instruction::Hlt));
}

#[test]
fn test_assemble_syntax_errors() {
    // A directive without its operand, and a malformed hex literal.
    assert!(matches!(
        assemble("ORG"),
        Err(setun::assembly::assembler::AssemblerError::SyntaxError { line: 1, .. })
    ));
    assert!(matches!(
        assemble("LDA 0xZZ"),
        Err(setun::assembly::assembler::AssemblerError::SyntaxError { line: 1, .. })
    ));
}

#[test]
fn test_assemble_undefined_label() {
    assert!(assemble("JMP NOWHERE").is_err());
}

#[test]
fn test_assemble_value_out_of_range() {
    assert!(assemble("DAT 100000").is_err());
}

#[test]
fn test_parse_trom_text() {
    let text = "; a program\nOOOOOOOOO\nOOOOOOPON ; eight\n\nPPPPPPPPP\n";
    let trom = parse_trom(text).unwrap();
    assert_eq!(trom.len(), 3);
    assert_eq!(trom.instructions[0].to_i32(), 0);
    assert_eq!(trom.instructions[1].to_i32(), 8);
    assert_eq!(trom.instructions[2].to_i32(), 9841);
}

#[test]
fn test_parse_trom_short_line() {
    let text = "OOOOOOOOO\nPON\n";
    match parse_trom(text) {
        Err(setun::assembly::trom::TromError::ParseError { line, .. }) => assert_eq!(line, 2),
        other => panic!("expected a parse error, got {:?}", other),
    }
}

#[test]
fn test_render_trom_lists_words() {
    let mut trom = TromFile::new();
    trom.push(Tryte9::from_i32(0), "HLT");
    let text = render_trom(&trom);
    assert!(text.contains("0tOOOOOOOOO"));
    assert!(text.contains("instructions"));
}

#[test]
fn test_disassemble_listing() {
    let program = [encode(&Instruction::Hlt), encode(&Instruction::Nop)];
    let text = disassemble(&program);
    assert!(text.contains("HLT"));
    assert!(text.contains("NOP"));
    assert!(text.contains("000:"));
    assert!(text.contains("001:"));
}

#[test]
fn test_disassemble_negative_operand() {
    let jn = encode(&Instruction::Jn { addr: Tryte9::from_i32(-12), mode: AddrMode::IndexSub });
    let text = disassemble_instruction(jn);
    assert_eq!(text, "JN -12,F-");
}
