//! Verified core of a Mandelbrot renderer.
//!
//! The renderer maps each pixel of a raster grid to a point of the complex
//! plane, runs the escape-time iteration there, and shades the pixel by the
//! iteration count.  This crate holds everything of that pipeline that can be
//! stated and proved over exact values: parsing the command-line number
//! formats, the affine pixel-to-plane mapping in exact rational arithmetic,
//! the partition of the image into disjoint horizontal bands for the worker
//! threads, and the shading of escape counts into the flat pixel buffer.
//! The floating-point escape iteration itself, the threads, and the image
//! encoding live outside, in the unverified shell around this library.

pub mod bands;
pub mod geometry;
pub mod numbers;
pub mod parse;
pub mod render;
