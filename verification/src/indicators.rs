//! The indicators.
pub mod heiken_ashi;
