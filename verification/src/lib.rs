//! Pixel sorting: runs of pixels along a path whose lightness lies in a
//! selection band are rearranged by ascending lightness, and nothing else in
//! the raster changes.

pub mod batch;
pub mod color;
pub mod direction;
pub mod engine;
pub mod error;
pub mod grid;
pub mod path;
pub mod raster;
pub mod segment;
pub mod select;
pub mod sorter;
