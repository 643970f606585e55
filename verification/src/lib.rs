//! Sketches for telemetry streams, with contracts proved by Verus.
//!
//! [`sketches`] holds the sketches, [`common`] the containers and the hashing
//! that they share, and [`message_pack_format`] the frame of their stored form.

pub mod arith;
pub mod common;
pub mod message_pack_format;
pub mod sketches;
pub mod text;

pub use common::structures::{MatrixFastHash, MatrixHashType, Vector3D, Vector3DError};
pub use common::{DataInput, DefaultXxHasher, HashProfile, SketchHasher, CANONICAL_HASH_SEED};
pub use sketches::bloom::{BloomFilter, CountingBloomFilter};
pub use sketches::countminsketch_hll::CountMinHll;
