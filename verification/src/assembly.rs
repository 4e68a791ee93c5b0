//! The program tooling around the machine: the assembler, the
//! disassembler, the textual program file format, and decimal text
//! rendering shared between them.

pub mod assembler;
pub mod disasm;
pub mod text;
pub mod trom;

pub use assembler::assemble;
pub use assembler::AssemblerError;
pub use trom::TromError;
pub use trom::TromFile;

pub use disasm::disassemble;
pub use disasm::disassemble_instruction;
pub use text::push_dec;
pub use text::push_i32;
