//! Balanced ternary primitives: single digits, fixed-width words and
//! multi-digit arithmetic.

pub mod arith;
pub mod ops;
pub mod trit;
pub mod word;

pub use trit::Trit;
pub use word::Tryte9;
pub use word::Word18;
