//! The size of the maze to build.

use vstd::prelude::*;

verus! {

/// Configuration for the maze.
pub struct MazeConfig {
    pub width: usize,
    pub height: usize,
}

impl MazeConfig {
    /// Creates a new maze configuration.
    pub fn new(width: usize, height: usize) -> (config: MazeConfig)
        ensures
            config.width == width,
            config.height == height,
    {
        MazeConfig { width, height }
    }
}

impl Default for MazeConfig {
    /// The empty configuration: both dimensions zero.
    fn default() -> (config: MazeConfig)
        ensures
            config.width == 0,
            config.height == 0,
    {
        MazeConfig { width: 0, height: 0 }
    }
}

} // verus!
