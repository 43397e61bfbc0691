//! A small software rasteriser: packed RGB colours, a bounded pixel buffer
//! with line and outline drawing, and a canvas whose rows count upwards.

pub mod bresenham;
pub mod buffer;
pub mod canvas;
pub mod colors;
pub mod grid;
