//! Perfect mazes on a rectangular grid, and their picture in box-drawing glyphs.

pub mod cell;
pub mod grid;
pub mod graph;
pub mod random;
pub mod carve;
pub mod generate;
pub mod glyph;
pub mod render;
