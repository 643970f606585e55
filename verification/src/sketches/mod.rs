//! The sketches.

pub mod bloom;
pub mod countminsketch_hll;
pub mod hll;
pub mod microscope;
