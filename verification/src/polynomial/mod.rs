//! Polynomials.
pub mod polynomial;
