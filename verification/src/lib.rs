//! Encoded polylines over fixed-point positions.
//!
//! A path is a sequence of positions, each a latitude and a longitude counted
//! in units of `10^-precision` degrees. Its encoding is a string over the
//! characters `'?'..='~'`: each axis of each position is written as the
//! difference to the position before it, mapped to a non-negative number and
//! cut into groups of five bits, lowest group first.
pub mod chunk;
pub mod decoder;
pub mod encoder;
pub mod laws;
pub mod point;

pub use chunk::{encode_signed, encode_unsigned};
pub use decoder::decode;
pub use encoder::{encode, polyline_encode_line, validate};
pub use point::{InvalidEncodingError, InvalidLatLngError, LatLng, Point};
