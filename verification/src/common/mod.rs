//! Containers and hashing shared by the sketches.

pub mod bytes;
pub mod hash;
pub mod input;
pub mod structures;

pub use hash::{DefaultXxHasher, HashProfile, SketchHasher, CANONICAL_HASH_SEED};
pub use input::DataInput;
