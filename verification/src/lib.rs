//! Arbitrary-precision unsigned integers in radix 2^64.
//!
//! A [`BigInteger`](big_integer::BigInteger) is a canonical sequence of
//! 64-bit words, least-significant first, with no trailing zero word.
//! The crate provides addition, subtraction, multiplication, remainder,
//! exponentiation, modular multiplication and modular exponentiation,
//! each with a contract relating the result to the numeric value of its
//! operands.

pub mod big_integer;
pub mod laws;
pub mod words;

pub use crate::big_integer::BigIntError;
pub use crate::big_integer::BigInteger;
pub use crate::big_integer::Comparison;
