//! Packed Encoding Rules for schema-described values, and the mapping between
//! raw entropy and such values that drives structure-aware fuzzing.

pub mod error;
pub mod numeric;
pub mod wire;
pub mod schema;
pub mod value;
pub mod per;
pub mod entropy;
pub mod pipeline;
