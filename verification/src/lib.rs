//! Fixed-width multi-precision unsigned integers.
//!
//! A value is an ordered sequence of exactly `N` 64-bit limbs, least
//! significant limb first; it represents the natural number
//! `sum limb[i] * 2^(64*i)`. Addition, subtraction, multiplication and
//! left shift are provided under three overflow policies (wrapping,
//! checked, strict), together with hexadecimal parsing and formatting.
//! Beside the arithmetic engine stand a few small verified exercises:
//! temperature and Fibonacci helpers, a tic-tac-toe rules engine, and
//! borrowing utilities.

pub mod biguint;
pub mod biguint4096;
pub mod calc;
pub mod hex;
pub mod laws;
pub mod limb;
pub mod modular;
pub mod mul;
pub mod radix;
pub mod refs;
pub mod shift;
pub mod tictac;

pub use biguint::BigUInt;
pub use biguint4096::BigUInt4096;
pub use hex::ParseError;
pub use radix::nat_of_limbs;
