//! A toroidal pixel grid with verified drawing primitives, and the snake
//! game engine that runs on it.
pub mod color;
pub mod geometry;
pub mod raster;
pub mod shape;
pub mod game;
pub mod font;
pub mod letters;
pub mod level;
