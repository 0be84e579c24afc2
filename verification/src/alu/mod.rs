//! The arithmetic unit of a machine whose words are 256 bits wide, held in
//! sixteen limbs of sixteen bits.
pub mod add;
pub mod columns;
pub mod utils;
