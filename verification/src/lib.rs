//! Core of a 2D vector path rasterizer.
//!
//! Paths are scan-converted in 24.8 fixed-point coordinates: every segment
//! contributes signed cover and area to a sparse grid of cells, and rows of
//! cells are then folded into 8-bit alpha coverage under a fill rule.
//! The modules here hold the fixed-point arithmetic, the cell stores, the
//! rasterizer itself, the SVG path-data scanner, and the small data types
//! (fill rules, stroke styles, mask placement) shared with the surrounding
//! floating-point path machinery.

use vstd::prelude::*;

pub mod buf;
pub mod cell;
pub mod fixed;
pub mod raster;
pub mod style;
pub mod svg;
pub mod types;

verus! {

} // verus!
