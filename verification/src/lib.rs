//! Palette quantization of raster images against a fixed set of named
//! material colors, with optional Floyd–Steinberg error diffusion and a
//! three-tier "staircase" variant scheme, plus the derived placement
//! instruction stream and materials tally.

pub mod color;
pub mod palette;
pub mod resolve;
pub mod engine;
pub mod aggregate;
pub mod pipeline;
