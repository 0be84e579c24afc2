//! Commitments: Merkle caps, openings against them, and the hash functions
//! that instantiate them.
pub mod merkle_proofs;
pub mod rescue_hash;
