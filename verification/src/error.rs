//! The reasons for which a maze cannot be built.

use vstd::prelude::*;

verus! {

/// Why a grid was refused.
#[derive(Debug, Clone, Copy, PartialEq, Eq, Structural)]
pub enum MazeError {
    /// The width or the height is below one.
    InvalidDimension,
    /// The grid has more wall slots than a wall identifier can number.
    CapacityOverflow,
}

impl MazeError {
    /// A short description of the error.
    pub fn message(&self) -> (text: &'static str)
        ensures
            text@ == match *self {
                MazeError::InvalidDimension => "width and height must be at least 1"@,
                MazeError::CapacityOverflow => "the grid has too many walls"@,
            },
    {
        match self {
            MazeError::InvalidDimension => "width and height must be at least 1",
            MazeError::CapacityOverflow => "the grid has too many walls",
        }
    }
}

} // verus!
