//! A verified emulator of the Setun, the Soviet balanced-ternary computer.
//!
//! The machine works in balanced ternary: every digit (trit) is -1, 0 or +1.
//! Memory cells and instructions are 9-trit words, the accumulator and the
//! multiplier register are 18-trit words, and the index register is 5 trits
//! wide.  The crate provides the numeric kernel (trit algebra, fixed-width
//! words, ripple-carry arithmetic), the instruction codec, the memory and
//! register files, and the fetch-decode-execute engine, each with contracts
//! that state its behaviour over the mathematical value of the words.

pub mod assembly;
pub mod cpu;
pub mod debugger;
pub mod ternary;

pub use ternary::trit::Trit;
pub use ternary::word::Tryte9;
pub use ternary::word::Word18;
