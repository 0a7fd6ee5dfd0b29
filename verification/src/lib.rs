//! Delta-based codecs for sequences of fixed-dimension vectors.
//!
//! A vector component is carried as the 32-bit pattern of its IEEE-754
//! single-precision value; the codecs treat such a word as opaque. Every
//! variant writes a self-describing blob: a little-endian header with the
//! vector count and dimension, an uncompressed anchor, and a compressed
//! payload for the remaining vectors.

pub mod ans;
pub mod ans_simple;
pub mod attractor;
pub mod backends;
pub mod baseline;
pub mod delta;
pub mod delta_lossless;
pub mod entropy;
pub mod histogram;
pub mod polar;
pub mod rle;
pub mod wire;

use vstd::prelude::*;

verus! {

/// Error returned when a blob's internal lengths point outside the buffer
/// or a compressed payload cannot be restored.
#[derive(Clone, Copy, PartialEq, Eq, Structural, Debug)]
pub struct MalformedBlobError;

/// Error returned when a compressed payload grows past the 32-bit length
/// field that carries it inside a blob.
#[derive(Clone, Copy, PartialEq, Eq, Structural, Debug)]
pub struct PayloadTooLargeError;

} // verus!
