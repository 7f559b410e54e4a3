//! Consensus rules.
pub mod pow;

pub use pow::{extend_total_difficulty, pow_valid, validate_pow_received, work_target_for_genesis};
