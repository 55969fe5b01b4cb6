//! A lossless codec for 8-bit RGB and RGBA images: pixels are turned into a
//! stream of small tagged chunks (runs, cache hits, small deltas, literals)
//! framed by a 14-byte header and an 8-byte end marker, and back.

pub mod error;
pub mod pixel;
pub mod header;
pub mod chunk;
pub mod encode;
pub mod decode;
pub mod round_trip;

pub use decode::decode;
pub use encode::{encode, encode_to_buf};
pub use error::Error;
pub use header::Header;
pub use pixel::Pixel;
