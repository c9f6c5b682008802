//! The mapping between raw entropy and values.

pub mod flatten;
pub mod generate;
pub mod laws;
pub mod scheme;
