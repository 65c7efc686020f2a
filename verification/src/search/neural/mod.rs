//! Local-pattern features of candidate moves, and position helpers.
pub mod features;
pub mod position;
