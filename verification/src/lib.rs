//! A generalisation of Conway's Game of Life from a square grid to the
//! tessellation drawn by a raster image: every maximal same-coloured region of
//! the image is one cell of the automaton, and regions that touch are
//! neighbours.

pub mod image;
pub mod topology;
pub mod world;
pub mod segmentation;
pub mod fill;
pub mod flood;
pub mod random;
pub mod world_builder;
pub mod window;
