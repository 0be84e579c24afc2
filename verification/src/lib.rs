//! Verifier for a FRI-style low-degree test and batched polynomial openings,
//! in a native form over field values and in an arithmetized form that emits
//! the same checks as gates of a constraint system.
pub mod alu;
pub mod constraint_consumer;
pub mod field;
pub mod fri;
pub mod gates;
pub mod hash;
pub mod iop;
pub mod plonk;
pub mod polynomial;
pub mod poseidon;
pub mod rescue;
pub mod util;
