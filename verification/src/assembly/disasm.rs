//! The disassembler: renders instruction words back as assembly text.

use vstd::prelude::*;

use crate::assembly::text::{dec_text, dec_text3, push_dec3, push_i32};
use crate::cpu::decode::{
    decode,
    decoded,
    opcode_val,
    AddrMode,
    Instruction,
};
use crate::ternary::word::{
    lemma_tryte9_width,
    word_text,
    Tryte9,
};

verus! {

broadcast use lemma_tryte9_width;

/// The mode suffix an operand prints with.
pub open spec fn mode_suffix(m: AddrMode) -> Seq<char> {
    match m {
        AddrMode::Direct => Seq::empty(),
        AddrMode::IndexAdd => seq![',', 'F', '+'],
        AddrMode::IndexSub => seq![',', 'F', '-'],
    }
}

/// The text of an address operand: its decimal value and the mode
/// suffix.
pub open spec fn operand_text(v: int, m: AddrMode) -> Seq<char> {
    dec_text(v) + mode_suffix(m)
}

/// The assembly text of one decoded instruction.
pub open spec fn instr_text(i: Instruction) -> Seq<char> {
    match i {
        Instruction::Add { addr, mode } => seq!['A', 'D', 'D', ' '] + operand_text(
            addr.val(),
            mode,
        ),
        Instruction::Sub { addr, mode } => seq!['S', 'U', 'B', ' '] + operand_text(
            addr.val(),
            mode,
        ),
        Instruction::Mul { addr, mode } => seq!['M', 'U', 'L', ' '] + operand_text(
            addr.val(),
            mode,
        ),
        Instruction::Div { addr, mode } => seq!['D', 'I', 'V', ' '] + operand_text(
            addr.val(),
            mode,
        ),
        Instruction::AddAbs { addr, mode } => seq!['A', 'D', 'D', 'A', 'B', 'S', ' ']
            + operand_text(addr.val(), mode),
        Instruction::SubAbs { addr, mode } => seq!['S', 'U', 'B', 'A', 'B', 'S', ' ']
            + operand_text(addr.val(), mode),
        Instruction::Lda { addr, mode } => seq!['L', 'D', 'A', ' '] + operand_text(
            addr.val(),
            mode,
        ),
        Instruction::LdaUnsigned { addr, mode } => seq!['L', 'D', 'A', 'U', ' '] + operand_text(
            addr.val(),
            mode,
        ),
        Instruction::Sta { addr, mode } => seq!['S', 'T', 'A', ' '] + operand_text(
            addr.val(),
            mode,
        ),
        Instruction::Ldf { addr, mode } => seq!['L', 'D', 'F', ' '] + operand_text(
            addr.val(),
            mode,
        ),
        Instruction::Stf { addr, mode } => seq!['S', 'T', 'F', ' '] + operand_text(
            addr.val(),
            mode,
        ),
        Instruction::Ldr { addr, mode } => seq!['L', 'D', 'R', ' '] + operand_text(
            addr.val(),
            mode,
        ),
        Instruction::Str { addr, mode } => seq!['S', 'T', 'R', ' '] + operand_text(
            addr.val(),
            mode,
        ),
        Instruction::Xchg { addr, mode } => seq!['X', 'C', 'H', 'G', ' '] + operand_text(
            addr.val(),
            mode,
        ),
        Instruction::Jmp { addr, mode } => seq!['J', 'M', 'P', ' '] + operand_text(
            addr.val(),
            mode,
        ),
        Instruction::Jz { addr, mode } => seq!['J', 'Z', ' '] + operand_text(addr.val(), mode),
        Instruction::Jp { addr, mode } => seq!['J', 'P', ' '] + operand_text(addr.val(), mode),
        Instruction::Jn { addr, mode } => seq!['J', 'N', ' '] + operand_text(addr.val(), mode),
        Instruction::Jop { addr, mode } => seq!['J', 'O', 'P', ' '] + operand_text(
            addr.val(),
            mode,
        ),
        Instruction::Jon { addr, mode } => seq!['J', 'O', 'N', ' '] + operand_text(
            addr.val(),
            mode,
        ),
        Instruction::Hlt => seq!['H', 'L', 'T'],
        Instruction::Shl { count } => seq!['S', 'H', 'L', ' '] + dec_text(count as int),
        Instruction::Shr { count } => seq!['S', 'H', 'R', ' '] + dec_text(count as int),
        Instruction::Nop => seq!['N', 'O', 'P'],
        Instruction::Tst => seq!['T', 'S', 'T'],
    }
}

/// The text an undecodable word prints as: a question and the raw
/// trits.
pub open spec fn bad_word_text(w: Tryte9) -> Seq<char> {
    seq!['?', '?', '?', ' ', ';', ' ', '0', 't'] + word_text(w@)
}

/// Append an address operand with its mode suffix.
fn push_operand(out: &mut String, addr: &Tryte9, mode: &AddrMode)
    ensures
        final(out)@ == old(out)@ + operand_text(addr.val(), *mode),
{
    proof {
        reveal_strlit(",F+");
        reveal_strlit(",F-");
    }
    push_i32(out, addr.to_i32());
    match mode {
        AddrMode::Direct => (),
        AddrMode::IndexAdd => out.append(",F+"),
        AddrMode::IndexSub => out.append(",F-"),
    }
    proof {
        assert(out@ =~= old(out)@ + operand_text(addr.val(), *mode));
    }
}

/// The assembly text of an instruction with an address operand.
fn fmt_addr(mnemonic: &str, addr: &Tryte9, mode: &AddrMode) -> (r: String)
    ensures
        r@ == mnemonic@ + operand_text(addr.val(), *mode),
{
    let mut out = String::new();
    out.append(mnemonic);
    push_operand(&mut out, addr, mode);
    proof {
        assert(out@ =~= mnemonic@ + operand_text(addr.val(), *mode));
    }
    out
}

/// Render one decoded instruction as assembly text.
fn format_instruction(instr: &Instruction) -> (r: String)
    ensures
        r@ == instr_text(*instr),
{
    proof {
        reveal_strlit("ADD ");
        reveal_strlit("SUB ");
        reveal_strlit("MUL ");
        reveal_strlit("DIV ");
        reveal_strlit("ADDABS ");
        reveal_strlit("SUBABS ");
        reveal_strlit("LDA ");
        reveal_strlit("LDAU ");
        reveal_strlit("STA ");
        reveal_strlit("LDF ");
        reveal_strlit("STF ");
        reveal_strlit("LDR ");
        reveal_strlit("STR ");
        reveal_strlit("XCHG ");
        reveal_strlit("JMP ");
        reveal_strlit("JZ ");
        reveal_strlit("JP ");
        reveal_strlit("JN ");
        reveal_strlit("JOP ");
        reveal_strlit("JON ");
        reveal_strlit("HLT");
        reveal_strlit("SHL ");
        reveal_strlit("SHR ");
        reveal_strlit("NOP");
        reveal_strlit("TST");
    }
    match instr {
        Instruction::Add { addr, mode } => fmt_addr("ADD ", addr, mode),
        Instruction::Sub { addr, mode } => fmt_addr("SUB ", addr, mode),
        Instruction::Mul { addr, mode } => fmt_addr("MUL ", addr, mode),
        Instruction::Div { addr, mode } => fmt_addr("DIV ", addr, mode),
        Instruction::AddAbs { addr, mode } => fmt_addr("ADDABS ", addr, mode),
        Instruction::SubAbs { addr, mode } => fmt_addr("SUBABS ", addr, mode),
        Instruction::Lda { addr, mode } => fmt_addr("LDA ", addr, mode),
        Instruction::LdaUnsigned { addr, mode } => fmt_addr("LDAU ", addr, mode),
        Instruction::Sta { addr, mode } => fmt_addr("STA ", addr, mode),
        Instruction::Ldf { addr, mode } => fmt_addr("LDF ", addr, mode),
        Instruction::Stf { addr, mode } => fmt_addr("STF ", addr, mode),
        Instruction::Ldr { addr, mode } => fmt_addr("LDR ", addr, mode),
        Instruction::Str { addr, mode } => fmt_addr("STR ", addr, mode),
        Instruction::Xchg { addr, mode } => fmt_addr("XCHG ", addr, mode),
        Instruction::Jmp { addr, mode } => fmt_addr("JMP ", addr, mode),
        Instruction::Jz { addr, mode } => fmt_addr("JZ ", addr, mode),
        Instruction::Jp { addr, mode } => fmt_addr("JP ", addr, mode),
        Instruction::Jn { addr, mode } => fmt_addr("JN ", addr, mode),
        Instruction::Jop { addr, mode } => fmt_addr("JOP ", addr, mode),
        Instruction::Jon { addr, mode } => fmt_addr("JON ", addr, mode),
        Instruction::Hlt => {
            let mut out = String::new();
            out.append("HLT");
            proof {
                assert(out@ =~= instr_text(*instr));
            }
            out
        },
        Instruction::Shl { count } => {
            let mut out = String::new();
            out.append("SHL ");
            push_i32(&mut out, *count as i32);
            proof {
                assert(out@ =~= instr_text(*instr));
            }
            out
        },
        Instruction::Shr { count } => {
            let mut out = String::new();
            out.append("SHR ");
            push_i32(&mut out, *count as i32);
            proof {
                assert(out@ =~= instr_text(*instr));
            }
            out
        },
        Instruction::Nop => {
            let mut out = String::new();
            out.append("NOP");
            proof {
                assert(out@ =~= instr_text(*instr));
            }
            out
        },
        Instruction::Tst => {
            let mut out = String::new();
            out.append("TST");
            proof {
                assert(out@ =~= instr_text(*instr));
            }
            out
        },
    }
}

/// Render one instruction word as assembly text; a word that does not
/// decode prints as a question mark comment with its raw trits.
pub fn disassemble_instruction(instr: Tryte9) -> (r: String)
    ensures
        crate::cpu::decode::valid_opcode(opcode_val(instr@)) ==> (exists|i: Instruction|
            #[trigger] decoded(instr, i) && r@ == instr_text(i)),
        !crate::cpu::decode::valid_opcode(opcode_val(instr@)) ==> r@ == bad_word_text(instr),
{
    match decode(instr) {
        Ok(i) => format_instruction(&i),
        Err(_) => {
            proof {
                reveal_strlit("??? ; ");
            }
            let mut out = String::new();
            out.append("??? ; ");
            let word = instr.to_text();
            let out2 = out.concat(word.as_str());
            proof {
                assert(out2@ =~= bad_word_text(instr));
            }
            out2
        },
    }
}

/// The text of one listing line: the cell index, the assembly text,
/// and the raw word as a comment.
pub open spec fn listing_line(idx: int, w: Tryte9, body: Seq<char>) -> Seq<char> {
    dec_text3(idx) + seq![':', ' '] + body + seq![' ', ' ', ';', ' ', '0', 't'] + word_text(w@)
        + seq!['\n']
}

/// What a listing body may be for a word: its assembly text when it
/// decodes, the question-mark comment otherwise.
pub open spec fn line_body_ok(w: Tryte9, body: Seq<char>) -> bool {
    if crate::cpu::decode::valid_opcode(opcode_val(w@)) {
        exists|i: Instruction| #[trigger] decoded(w, i) && body == instr_text(i)
    } else {
        body == bad_word_text(w)
    }
}

/// A full listing from one index on, given the body of each line.
pub open spec fn listing_text(ws: Seq<Tryte9>, bodies: Seq<Seq<char>>, idx: int) -> Seq<char>
    decreases ws.len(),
{
    if ws.len() == 0 || bodies.len() == 0 {
        Seq::empty()
    } else {
        listing_line(idx, ws[0], bodies[0]) + listing_text(
            ws.drop_first(),
            bodies.drop_first(),
            idx + 1,
        )
    }
}

/// The header of a disassembly listing.
pub open spec fn listing_header() -> Seq<char> {
    seq![';', ' ', 'S', 'e', 't', 'u', 'n', ' ', 'D', 'i', 's', 'a', 's', 's', 'e', 'm', 'b', 'l', 'y', '\n', ';', ' ', '-', '-', '-', '-', '-', '-', '-', '-', '-', '-', '-', '-', '-', '-', '-', '-', '-', '\n', '\n']
}

/// Disassemble a whole program image into a listing: a header, then
/// one line per word with its index, its assembly text and the raw
/// trits.
pub fn disassemble(instructions: &[Tryte9]) -> (r: String)
    ensures
        exists|bodies: Seq<Seq<char>>|
            {
                &&& bodies.len() == instructions@.len()
                &&& (forall|k: int|
                    0 <= k < bodies.len() ==> line_body_ok(
                        instructions@[k],
                        #[trigger] bodies[k],
                    ))
                &&& r@ == listing_header() + listing_text(instructions@, bodies, 0)
            },
{
    let mut out = String::new();
    out.append("; Setun Disassembly\n");
    out.append("; -----------------\n\n");
    proof {
        reveal_strlit("; Setun Disassembly\n");
        reveal_strlit("; -----------------\n\n");
        assert(out@ =~= listing_header());
    }
    let ghost mut bodies: Seq<Seq<char>> = Seq::empty();
    let mut addr: usize = 0;
    while addr < instructions.len()
        invariant
            0 <= addr <= instructions@.len(),
            bodies.len() == addr,
            forall|k: int|
                0 <= k < addr ==> line_body_ok(instructions@[k], #[trigger] bodies[k]),
            out@ == listing_header() + listing_text(
                instructions@.take(addr as int),
                bodies,
                0,
            ),
        decreases instructions@.len() - addr,
    {
        let w = instructions[addr];
        let body = disassemble_instruction(w);
        let mut line = String::new();
        push_dec3(&mut line, addr as u64);
        line.append(": ");
        let line2 = line.concat(body.as_str());
        let mut line3 = line2;
        line3.append("  ; ");
        let word = w.to_text();
        let line4 = line3.concat(word.as_str());
        let mut line5 = line4;
        line5.append("\n");
        let out2 = out.concat(line5.as_str());
        out = out2;
        proof {
            reveal_strlit(": ");
            reveal_strlit("  ; ");
            reveal_strlit("\n");
            assert(line5@ =~= listing_line(addr as int, w, body@));
            let old_bodies = bodies;
            bodies = bodies.push(body@);
            lemma_listing_snoc(instructions@.take(addr as int + 1), bodies, 0);
            assert(instructions@.take(addr as int + 1).drop_last() =~= instructions@.take(
                addr as int,
            ));
            assert(bodies.drop_last() =~= old_bodies);
            assert(out@ =~= listing_header() + listing_text(
                instructions@.take(addr as int + 1),
                bodies,
                0,
            ));
        }
        addr = addr + 1;
    }
    proof {
        assert(instructions@.take(instructions@.len() as int) =~= instructions@);
    }
    out
}

/// Peeling the last line off a listing.
proof fn lemma_listing_snoc(ws: Seq<Tryte9>, bodies: Seq<Seq<char>>, idx: int)
    requires
        ws.len() == bodies.len(),
        ws.len() > 0,
    ensures
        listing_text(ws, bodies, idx) == listing_text(ws.drop_last(), bodies.drop_last(), idx)
            + listing_line(idx + ws.len() - 1, ws.last(), bodies.last()),
    decreases ws.len(),
{
    if ws.len() == 1 {
        assert(ws.drop_last() =~= Seq::<Tryte9>::empty());
        assert(listing_text(ws.drop_last(), bodies.drop_last(), idx) =~= Seq::<char>::empty());
        assert(ws.drop_first() =~= Seq::<Tryte9>::empty());
        assert(listing_text(ws, bodies, idx) == listing_line(idx, ws[0], bodies[0]) + listing_text(
            ws.drop_first(),
            bodies.drop_first(),
            idx + 1,
        ));
        assert(listing_text(ws.drop_first(), bodies.drop_first(), idx + 1) =~= Seq::<char>::empty());
        assert(listing_line(idx, ws[0], bodies[0]) + Seq::<char>::empty() =~= listing_line(
            idx,
            ws[0],
            bodies[0],
        ));
        assert(listing_line(idx, ws[0], bodies[0]) =~= Seq::<char>::empty() + listing_line(
            idx,
            ws[0],
            bodies[0],
        ));
    } else {
        lemma_listing_snoc(ws.drop_first(), bodies.drop_first(), idx + 1);
        assert(ws.drop_first().drop_last() =~= ws.drop_last().drop_first());
        assert(bodies.drop_first().drop_last() =~= bodies.drop_last().drop_first());
        assert(ws.drop_first().last() == ws.last());
        assert(bodies.drop_first().last() == bodies.last());
        assert(ws.drop_last()[0] == ws[0]);
        assert(bodies.drop_last()[0] == bodies[0]);
        assert(listing_text(ws, bodies, idx) =~= listing_text(ws.drop_last(), bodies.drop_last(), idx)
            + listing_line(idx + ws.len() - 1, ws.last(), bodies.last()));
    }
}

} // verus!
