//! Wires of a constraint system.
pub mod target;
pub mod wire;
