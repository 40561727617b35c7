//! A maze that is built once and kept: construction carves it, and the
//! getter hands the stored bytes out unchanged.

use vstd::prelude::*;
use crate::builder::{MazeBuilder, grid_of, refusal};
use crate::carve::maze_walls;
use crate::error::MazeError;
use crate::packer::pack_walls;

verus! {

/// A maze in its packed form.
pub struct MazeGeneratorContract {
    opened_doors: Vec<u8>,
}

impl View for MazeGeneratorContract {
    type V = Seq<u8>;

    closed spec fn view(&self) -> Seq<u8> {
        self.opened_doors@
    }
}

impl MazeGeneratorContract {
    /// Carves the maze for a grid of `width` by `height` rooms from the seed
    /// `random_state` and stores its packed form. The stored bytes depend on
    /// these three values alone.
    pub fn new(width: i32, height: i32, random_state: u32) -> (made: Result<Self, MazeError>)
        ensures
            match made {
                Ok(maze) => {
                    &&& refusal(grid_of(width, height)).is_none()
                    &&& maze@ == pack_walls(maze_walls(grid_of(width, height), random_state))
                },
                Err(error) => refusal(grid_of(width, height)) == Some(error),
            },
    {
        match MazeBuilder::new(width, height, random_state) {
            Ok(mut builder) => {
                let opened_doors: Vec<u8> = builder.build();
                Ok(MazeGeneratorContract { opened_doors })
            },
            Err(error) => Err(error),
        }
    }

    /// The stored maze, as it was computed at construction.
    pub fn get(&self) -> (bytes: Vec<u8>)
        ensures
            bytes@ == self@,
    {
        self.opened_doors.clone()
    }
}

} // verus!
