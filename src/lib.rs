//! Wesolowski verifiable delay function over a fixed RSA-style group.
//!
//! The arithmetic is done by `num-bigint`; the numbers cross into verified
//! code as big-endian byte strings (`BigNat`), whose meaning is `be_value`.

pub mod bignat;
pub mod error;
pub mod primes;
pub mod codec;
pub mod vdf;
