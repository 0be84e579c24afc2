//! The constraint system: its gates, what they compute, and the builder that
//! appends them.
pub mod bits;
pub mod circuit_builder;
pub mod gates;
pub mod vars;
pub mod witness;
