//! Exposure fusion for raw sensor captures.
//!
//! The library merges several raw captures of one scene, taken at different
//! exposures, into a single higher dynamic-range buffer: it detects clipped
//! 2x2 CFA blocks, normalizes every capture to a common exposure reference,
//! and blends the captures with a saturation-aware weighted mean. All
//! intensities are exact fixed-point numbers, so every arithmetic step is
//! stated and proved precisely; decoding sensor formats and writing the
//! result to a container file are left to the callers.

pub mod blend;
pub mod cfa;
pub mod multizip;
pub mod sample;

pub use cfa::block_to_indices;
pub use cfa::is_saturated;
pub use sample::Sample;
pub use sample::weighted_mean;
pub use blend::RawCapture;
pub use blend::BlendError;
pub use blend::normalize;
pub use blend::blend_captures;
pub use multizip::DynMultiZip;
