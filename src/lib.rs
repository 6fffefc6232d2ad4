//! Colour pixels and the decisions that colour conversion and dithering
//! rest on.
//!
//! - [`conversions`]: the graph of single-step conversions between colour
//!   representations, and the route between any two of them.
//! - [`hex`]: reading a colour written as six hexadecimal digits.
//! - [`mono`]: monochromatic pixels, with error diffusion and quantization.
//! - [`nearest`]: choosing the nearest palette entry from distance keys,
//!   with ties going to the earliest entry.

pub mod conversions;
pub mod hex;
pub mod mono;
pub mod nearest;
