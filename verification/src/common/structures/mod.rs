//! Containers that the sketches store their cells in.

pub mod matrix_storage;
pub mod vector3d;

pub use matrix_storage::{MatrixFastHash, MatrixHashType};
pub use vector3d::{Vector3D, Vector3DError};
