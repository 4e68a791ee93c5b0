//! Tests of the instruction codec.

use setun::cpu::decode::{decode, encode, AddrMode, DecodeError, Instruction};
use setun::{Trit, Tryte9};

#[test]
fn test_decode_hlt() {
    let nitrit = Tryte9::from_i32(0);
    let instr = decode(nitrit).unwrap();
    assert_eq!(instr, Instruction::Hlt);
}

#[test]
fn test_addr_mode_roundtrip() {
    for mode in [AddrMode::Direct, AddrMode::IndexAdd, AddrMode::IndexSub] {
        assert_eq!(AddrMode::from_trit(mode.to_trit()), mode);
    }
}

#[test]
fn test_encode_decode_roundtrip() {
    let test_cases = [
        Instruction::Hlt,
        Instruction::Nop,
        Instruction::Add { addr: Tryte9::from_i32(10), mode: AddrMode::Direct },
        Instruction::Jmp { addr: Tryte9::from_i32(-5), mode: AddrMode::IndexAdd },
    ];

    for instr in test_cases {
        let encoded = encode(&instr);
        let decoded = decode(encoded).unwrap();
        match (&instr, &decoded) {
            (Instruction::Hlt, Instruction::Hlt) => (),
            (Instruction::Nop, Instruction::Nop) => (),
            _ => (),
        }
    }
}

#[test]
fn test_roundtrip_is_identity_in_field_range() {
    // Every representable instruction survives encode then decode.
    let addrs = [-121, -5, 0, 7, 121];
    let modes = [AddrMode::Direct, AddrMode::IndexAdd, AddrMode::IndexSub];
    for &a in addrs.iter() {
        for &mode in modes.iter() {
            let addr = Tryte9::from_i32(a);
            let cases = [
                Instruction::Add { addr, mode },
                Instruction::Sub { addr, mode },
                Instruction::Mul { addr, mode },
                Instruction::Div { addr, mode },
                Instruction::AddAbs { addr, mode },
                Instruction::SubAbs { addr, mode },
                Instruction::Lda { addr, mode },
                Instruction::LdaUnsigned { addr, mode },
                Instruction::Sta { addr, mode },
                Instruction::Ldf { addr, mode },
                Instruction::Stf { addr, mode },
                Instruction::Ldr { addr, mode },
                Instruction::Str { addr, mode },
                Instruction::Xchg { addr, mode },
                Instruction::Jmp { addr, mode },
                Instruction::Jz { addr, mode },
                Instruction::Jp { addr, mode },
                Instruction::Jn { addr, mode },
                Instruction::Jop { addr, mode },
                Instruction::Jon { addr, mode },
            ];
            for i in cases {
                assert_eq!(decode(encode(&i)).unwrap(), i);
            }
        }
    }
    for c in [-121i8, -1, 0, 2, 121] {
        assert_eq!(decode(encode(&Instruction::Shl { count: c })).unwrap(), Instruction::Shl {
            count: c,
        });
        assert_eq!(decode(encode(&Instruction::Shr { count: c })).unwrap(), Instruction::Shr {
            count: c,
        });
    }
    assert_eq!(decode(encode(&Instruction::Hlt)).unwrap(), Instruction::Hlt);
    assert_eq!(decode(encode(&Instruction::Nop)).unwrap(), Instruction::Nop);
}

#[test]
fn test_tst_encodes_outside_its_field() {
    // TST's opcode +14 does not fit the signed 3-trit field: its
    // encoding reads back as JON, the historical collision.
    let w = encode(&Instruction::Tst);
    assert_eq!(
        decode(w).unwrap(),
        Instruction::Jon { addr: Tryte9::from_i32(0), mode: AddrMode::Direct }
    );
}

#[test]
fn test_unassigned_opcodes_are_errors() {
    for op in [-6, -8, -12] {
        let w = Tryte9::from_i32(op * 729);
        match decode(w) {
            Err(DecodeError::InvalidOpcode(v)) => assert_eq!(v as i32, op),
            other => panic!("opcode {} should not decode, got {:?}", op, other),
        }
    }
}

#[test]
fn test_decode_reads_fields() {
    // ADD 10 with index addition: opcode +1, mode trit P, operand 10.
    let w = encode(&Instruction::Add { addr: Tryte9::from_i32(10), mode: AddrMode::IndexAdd });
    assert_eq!(w.get(5), Trit::P);
    match decode(w).unwrap() {
        Instruction::Add { addr, mode } => {
            assert_eq!(addr.to_i32(), 10);
            assert_eq!(mode, AddrMode::IndexAdd);
        },
        other => panic!("expected ADD, got {:?}", other),
    }
}
