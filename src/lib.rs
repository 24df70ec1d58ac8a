//! Arbitrary-precision unsigned integers stored as little-endian sequences
//! of 64-bit limbs, with addition, wrapping subtraction, schoolbook
//! multiplication, exponentiation and hexadecimal text conversion.
pub mod addition;
pub mod hex;
pub mod limb;
pub mod multiplication;
pub mod number;
pub mod power;
pub mod subtraction;

pub use hex::ParseError;
pub use number::Number;
