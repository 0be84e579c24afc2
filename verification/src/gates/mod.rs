//! Custom gates, by the layout of their wires.
pub mod insertion;
pub mod wire_counts;
