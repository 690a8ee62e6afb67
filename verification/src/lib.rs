//! Decoding and rendering of Hershey vector fonts.
//!
//! A Hershey font is a line-oriented text file: each line encodes one glyph
//! as an identifier, a vertex count, a pair of side bearings and a list of
//! pen strokes. [`reader`] turns one such line into a [`reader::HersheyChar`],
//! [`raster`] generates the discrete pixel path of a straight line segment,
//! and [`render`] paints glyphs and whole strings into a pixel buffer.

pub mod raster;
pub mod render;
pub mod reader;
