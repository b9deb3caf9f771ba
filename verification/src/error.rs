//! The ways in which building a maze can be refused.

use vstd::prelude::*;

verus! {

/// Why a maze was not built.
#[derive(Clone, Copy, Debug, PartialEq, Eq, Structural)]
pub enum MazeError {
    /// The width or the height asked for is zero: such a grid has no cell to
    /// start carving from.
    InvalidDimensions,
}

} // verus!
