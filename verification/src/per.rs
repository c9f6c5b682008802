//! The packed encoding rules, aligned and unaligned.

pub mod decode;
pub mod encode;
pub mod laws;
pub mod rules;
