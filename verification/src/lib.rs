//! A shielded-pool spend library: commitments derived from secrets, a Merkle
//! accumulator over leaf commitments, and the spend relation that binds a
//! secret, an authentication path and a public (root, nullifier) pair.
//!
//! The arithmetic of the two hash functions and of the elliptic-curve group is
//! supplied by outside crates; everything that combines them — the accumulator,
//! the authentication paths, the spend relation and the conjugate-secret
//! construction that yields a second valid nullifier for the same leaf — is
//! verified here.

pub mod limbs;
pub mod field;
pub mod hash;
pub mod commit;
pub mod merkle;
pub mod spend;
