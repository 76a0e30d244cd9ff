//! Generation of large probable primes on top of a fixed-width
//! multi-precision unsigned integer.
//!
//! The integer, [`bigint::BigInt`], holds 2048 bits in thirty-two limbs;
//! its arithmetic is stated over the natural number that the limbs denote.
//! On it stand modular exponentiation, the Miller-Rabin test and the
//! worker that searches for a probable prime. Nothing here draws
//! randomness or starts a thread: entropy comes in as bytes.

pub mod limbs;
pub mod limb_ops;
pub mod bigint;
pub mod bytes;
pub mod division;
pub mod arith;
pub mod compare;
pub mod identities;
pub mod format;
pub mod rng;
pub mod number_theory;
pub mod utils;
pub mod algos;
pub mod search;
