//! Grid and raster logic of a small robot simulator: an integer line walker,
//! occupancy-grid queries, the on-disk grid format and the framebuffer layout.
#![allow(non_camel_case_types)]

pub mod bresenham;
pub mod occupancy;
pub mod map_draw;
pub mod grid_file;
pub mod canvas;
