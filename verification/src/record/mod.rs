//! The MSR record format: data model, initial cross, validator and the compact
//! `MS1:` envelope.
pub mod codec;
pub mod cross;
pub mod model;
pub mod validate;
