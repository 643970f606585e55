//! MicroscopeSketch: sliding-window frequency estimation with adaptive zoom.
//!
//! A sliding-window counter normally pays for its window in memory: one
//! counter per sub-window, each wide enough for the largest count it might
//! ever hold. A MicroscopeSketch cell instead has `T + 2` narrow **pixels**
//! and one shared **zoom** exponent `Z`, so a pixel is worth `c^Z` items and
//! the cell rescales itself when a pixel is about to overflow.
//!
//! [`cell`] holds the record layout and the operations on one cell, on byte
//! slices and nothing else. [`laws`] states what those operations keep, and
//! [`record_laws`], [`boundary_laws`] and [`merge_laws`] what each of them owes.

pub mod boundary_laws;
pub mod cell;
pub mod laws;
pub mod merge_laws;
pub mod model;
pub mod record_laws;

pub use cell::{MicroLayout, MicroParams, Rounding, WindowPixels};
