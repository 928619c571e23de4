//! Image comparison engine for print-production rasters.
//!
//! The engine compares a layered picture file with its flattened raster,
//! or two pictures of one kind, and marks the regions in which they
//! differ.  It works on file contents and plain values; reading files and
//! serving a front end is left to the caller.
//!
//! - [`reader`], [`packbits`], [`lpf`]: the decoder of the flattened
//!   composite of a layered picture file.
//! - [`raster`]: the RGBA raster buffer and its crop.
//! - [`diff`], [`heatmap`]: the sharp and the density-weighted difference.
//! - [`cluster`]: from differing pixels to circular markers.
//! - [`codec`]: the boundary to the raster codecs and to base64.
//! - [`pipeline`]: the comparison and parsing operations.
//! - [`cache`], [`viewer`]: the bounded image cache and the operations
//!   that it backs.
//! - [`error`], [`text`]: errors with their messages.

pub mod cache;
pub mod cluster;
pub mod codec;
pub mod diff;
pub mod error;
pub mod heatmap;
pub mod lpf;
pub mod packbits;
pub mod pipeline;
pub mod raster;
pub mod reader;
pub mod text;
pub mod viewer;
