//! Value marshaling between a dynamic host object model and the canonical,
//! JSON-shaped value model of an embedded expression-evaluation engine.
//!
//! The crate classifies dynamically-typed host values into a strict tagged
//! model, converts engine results back into host-representable values, and
//! manages the write-once sentinel that stands for "absent/undefined".

pub mod decode;
pub mod encode;
pub mod errors;
pub mod host;
pub mod invoke;
pub mod laws;
pub mod sentinel;
pub mod value;
