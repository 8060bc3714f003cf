//! A lossless image codec in the style of QOI: run-length compression, a
//! 64-slot recently-seen-color cache, and delta-encoded pixel predictions.
//!
//! The byte format is: a 4-byte magic marker `qoif`, width and height as
//! big-endian 32-bit integers, a channel-count byte and a color-space byte,
//! a body of variable-length tokens, and a 4-byte end marker.

pub mod decode;
pub mod encode;
pub mod laws;
pub mod model;
pub mod pixel;
pub mod raster;

pub use decode::decode;
pub use encode::encode;

pub use pixel::Pixel;
pub use pixel::color_hash;
pub use pixel::pack_rgba;
pub use raster::CodecError;
pub use raster::Image;
pub use raster::images_equal;
