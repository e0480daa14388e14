//! A small raster engine: bounds-checked grids, two-tone bitmaps, positioned
//! sprites with pixel-exact collision tests, and a board that composites
//! sprites onto one screen.
pub mod engine;
pub mod game;
