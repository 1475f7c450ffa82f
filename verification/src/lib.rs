//! A compact image placeholder codec.
//!
//! An RGBA raster of at most 100×100 pixels is compressed into a short byte
//! string (roughly 5–25 bytes) holding a bit-packed header and 4-bit
//! quantized frequency coefficients.  The byte string can later be decoded
//! into a small blurred approximation of the original image, or probed
//! cheaply for its average color or aspect ratio alone.
//!
//! All arithmetic is fixed-point over 64-bit integers, so every transform is
//! deterministic and fully specified by the contracts in this crate.

use vstd::prelude::*;

verus! {

} // verus!

mod fixed;
mod trig;
mod grid;
mod channels;
mod dct;
mod header;
mod encode;
mod decode;
mod laws;

pub use encode::rgba_to_thumb_hash;
pub use decode::thumb_hash_to_rgba;
pub use decode::thumb_hash_to_average_rgba;
pub use decode::thumb_hash_to_approximate_aspect_ratio;
pub use decode::AverageRgba;
pub use decode::AspectRatio;
pub use laws::lemma_header_round_trip;
pub use laws::lemma_alpha_detection;
pub use laws::lemma_orientation;
pub use laws::lemma_codec_deterministic;
