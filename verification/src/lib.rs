//! Threshold protection of a file-encryption key.
//!
//! A payload is sealed under a fresh 256-bit key with AES-256-GCM, and the key
//! is split with Shamir's scheme over GF(2^8) into `n` shares of which any `k`
//! recover it.

pub mod field;
pub mod lagrange;
pub mod scheme;
pub mod secrecy;
pub mod sss;
pub mod theorems;
pub mod crypto;
pub mod envelope;
