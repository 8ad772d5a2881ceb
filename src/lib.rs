//! Generation of symmetric two-player tile boards: a grid model, point symmetry, weighted
//! random choice, a corridor carver that builds a road and its mirror in lockstep, and a
//! builder pipeline whose stages keep the two halves of the board mirror images.

pub mod builder;
pub mod geometry;
pub mod symmetry;
pub mod tile_path;
pub mod tile_type;
pub mod utils;
pub mod world;
