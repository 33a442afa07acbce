//! Counting chips.
pub mod chips;
