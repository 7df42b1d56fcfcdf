//! An in-memory grid of colors and a codec for the plain-text pixel-map
//! format: a `P3` identifier line, a `width height` line, a line with the
//! largest channel value, then whitespace-separated `r g b` triplets.
//!
//! Channels are fixed-point numbers (see [`color::UNIT`]), so every rule
//! of the codec is exact integer arithmetic.

pub mod canvas;
pub mod codec;
pub mod color;
pub mod round_trip;
pub mod text;

pub use canvas::{Canvas, CanvasView};
pub use codec::{
    clamp, decode, encode, encode_channel, generate_body, generate_header, parse_body,
    parse_header, round_decimal, DecodeError, OUTPUT_SCALE,
};
pub use color::{Color, HUNDREDTH, UNIT};
