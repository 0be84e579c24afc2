//! Field algebra: the operations the verifier needs of a field and of its
//! extension, a concrete prime field, and its quadratic extension.
pub mod biguint;
pub mod crandall_field;
pub mod extension_field;
pub mod field_types;
pub mod interpolation;
pub mod modular;
pub mod quadratic;
pub mod random;
