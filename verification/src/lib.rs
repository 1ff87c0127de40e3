//! Perfect mazes on a grid: the grid model, three randomized generators that
//! advance one step at a time, and the passes that measure the finished maze.
//!
//! A maze lives on a doubled lattice. Positions with two even coordinates are
//! rooms, positions with one odd coordinate are the slots between two rooms,
//! and positions with two odd coordinates are corners. A generator opens
//! rooms and slots until a walk leads from the origin to every open cell, and
//! closes the rest.
//!
//! - `geometry`, `maze`: sizes, positions, and the grid with its primitives.
//! - `dice`, `frontier`: the draws, and the lists of walls from which a draw
//!   takes one.
//! - `prim`, `kruskal`, `backtracker`: the generators, each a state that one
//!   step takes to the next; `algorithm` runs them behind one interface.
//! - `search`, `solution`: walks that spread over the open cells, and the
//!   grading of a maze by its solution.
//! - `lattice`, `walks`, `prim_proof`, `kruskal_proof`: the facts that the
//!   invariants of the generators rest on, and what they give at the end.
//! - `options`, `colours`, `tiles`: what command lines and renderers need.
//!
//! Every step of a generator is a function of the state before and of the
//! numbers drawn, so that a run can be replayed from its draws. Numbers with a
//! fraction are not held here: an open cell holds a count, and the maze says on
//! which scale the counts are to be read.

pub mod algorithm;
pub mod backtracker;
pub mod colours;
pub mod dice;
pub mod frontier;
pub mod geometry;
pub mod kruskal;
pub mod kruskal_proof;
pub mod lattice;
pub mod maze;
pub mod options;
pub mod prim;
pub mod prim_proof;
pub mod rendering;
pub mod search;
pub mod solution;
pub mod tiles;
pub mod walks;

pub use crate::algorithm::{
    generate, generate_algorithm, generate_with, run, Algorithm, AlgorithmKind, Generator,
};
pub use crate::backtracker::Backtracker;
pub use crate::colours::{color_parse, colors_parse};
pub use crate::dice::{under_bias, wall_direction, Draws};
pub use crate::frontier::{add_walls, pop_random_wall, take_wall};
pub use crate::geometry::{opposite, Coord, Direction, Geometry};
pub use crate::kruskal::Kruskal;
pub use crate::maze::{CellKind, ConfigError, Maze, Scale, BIAS_RANGE, MAX_CELLS, UNVISITED};
pub use crate::options::{algorithm_parse, geometry_parse, gradient_parse, Gradient};
pub use crate::prim::Prim;
pub use crate::rendering::Rendering;
pub use crate::search::Probe;
pub use crate::tiles::{
    draw_cell_plain_gif, grid_geometry, image_geometry, invader_pixel, square_ceil_7,
    RendererMosaic, Shade,
};
