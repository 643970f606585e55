//! The stored form of sketches: the envelope around them, and how a key is
//! written inside one.

pub mod envelope;
pub mod wire_key;
