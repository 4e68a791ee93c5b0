//! The machine itself: registers, memory, the instruction codec and the
//! fetch-decode-execute engine.

pub mod decode;
pub mod execute;
pub mod memory;
pub mod registers;

pub use execute::Cpu;
pub use execute::CpuError;
pub use execute::CpuState;

pub use decode::AddrMode;
pub use decode::DecodeError;
pub use decode::Instruction;
pub use memory::Memory;
pub use memory::MemoryError;
pub use registers::Registers;
