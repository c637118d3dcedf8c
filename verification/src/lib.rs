//! Jump consistent hashing: a stateless map from a 64-bit key to one of `n`
//! buckets that moves as few keys as possible when `n` grows.
//!
//! The arithmetic of the jump sequence is that of IEEE 754 binary64
//! numbers. It is carried out here on integers, against a mathematical
//! model of rounding to 53 significant bits (module [`binary64`]), so that
//! every step has an exact contract.

pub mod algo;
pub mod binary64;
pub mod binary64_laws;

pub use algo::jump_hash;
