//! Perfect mazes on a rectangular grid.
//!
//! A [`Maze`] is a grid of [`Cell`]s, each with four wall flags. It is built
//! with every wall standing and then carved by randomized depth-first
//! backtracking: from the cell at the origin the generator walks to a randomly
//! chosen unvisited neighbour, removing the wall on the way, and steps back
//! where no such neighbour is left.
//!
//! The generator is proved to end with every cell visited, the walls removed
//! on both sides or on none, the outer walls standing, one wall removed for
//! each cell but the first, and exactly one route between any two cells. The
//! maze it carves is a function of the size of the grid and of the state of
//! the random generator it is given.
//!
//! - [`model`]: the grid as a mathematical value, and the vocabulary of the
//!   contracts.
//! - [`routes`]: routes through open passages, and why a tree of passages
//!   joins any two cells by exactly one route.
//! - [`carving`]: the steps of the generator on the model, and what every
//!   step keeps.
//! - [`maze`]: the grid itself, its queries and updates.
//! - [`generator`]: the generator.
//! - [`random`]: the calls into the `rand` crate, whose contracts are taken
//!   on trust.
//! - [`config`], [`error`]: the size asked for, and why a maze can be refused.

pub mod carving;
pub mod config;
pub mod error;
pub mod generator;
pub mod maze;
pub mod model;
pub mod random;
pub mod routes;

pub use crate::config::MazeConfig;
pub use crate::error::MazeError;
pub use crate::maze::{Cell, Maze};
