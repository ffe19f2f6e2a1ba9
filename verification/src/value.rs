//! The runtime values and their operations.

pub mod codex;
pub mod compare;
pub mod journey;
pub mod numeral;
pub mod text;
