//! The maze carver: the carving walk on machine integers.

use vstd::prelude::*;
use crate::carve::{CarveState, lemma_exits_among, lemma_start, lemma_step};
use crate::error::MazeError;
use crate::grid::{Grid, lemma_room_coordinates, lemma_room_count, lemma_walls_of_join};
use crate::packer::{pack, pack_walls};
use crate::rng::lcg_next;

verus! {

/// Room or wall identifiers as mathematical integers.
pub open spec fn as_ints(ids: Seq<i32>) -> Seq<int> {
    ids.map_values(|id: i32| id as int)
}

/// The grid of `width` by `height` rooms.
pub open spec fn grid_of(width: i32, height: i32) -> Grid {
    Grid { width: width as int, height: height as int }
}

/// A grid can be built on: it has a room, and its wall slots can be numbered.
pub open spec fn buildable(grid: Grid) -> bool {
    grid.valid() && grid.wall_count() <= i32::MAX
}

/// The error for which a grid is refused, if it is.
pub open spec fn refusal(grid: Grid) -> Option<MazeError> {
    if !grid.valid() {
        Some(MazeError::InvalidDimension)
    } else if grid.wall_count() > i32::MAX {
        Some(MazeError::CapacityOverflow)
    } else {
        None
    }
}

/// A carving walk over one grid, with all its state.
pub struct MazeBuilder {
    width: i32,
    height: i32,
    visited_rooms: Vec<bool>,
    stack: Vec<i32>,
    random_state: u32,
    opened_doors: Vec<bool>,
}

impl View for MazeBuilder {
    type V = CarveState;

    closed spec fn view(&self) -> CarveState {
        CarveState {
            visited: self.visited_rooms@,
            open: self.opened_doors@,
            stack: as_ints(self.stack@),
            rng: self.random_state,
        }
    }
}

impl MazeBuilder {
    /// The grid that the builder works on.
    pub closed spec fn grid(&self) -> Grid {
        grid_of(self.width, self.height)
    }

    /// The builder's grid can be built on and its state fits that grid.
    pub open spec fn wf(&self) -> bool {
        buildable(self.grid()) && self@.wf(self.grid())
    }

    /// Makes the builder for a grid of `width` by `height` rooms and the
    /// seed `random_state`, with nothing entered and nothing opened. A grid
    /// without rooms, and one with more wall slots than `i32` can number,
    /// is refused before anything is allocated.
    pub fn new(width: i32, height: i32, random_state: u32) -> (made: Result<Self, MazeError>)
        ensures
            match made {
                Ok(builder) => {
                    &&& refusal(grid_of(width, height)).is_none()
                    &&& builder.wf()
                    &&& builder.grid() == grid_of(width, height)
                    &&& builder@ == CarveState::fresh(grid_of(width, height), random_state)
                },
                Err(error) => refusal(grid_of(width, height)) == Some(error),
            },
    {
        if width < 1 || height < 1 {
            return Err(MazeError::InvalidDimension);
        }
        let room_count: i32 = match width.checked_mul(height) {
            Some(count) => count,
            None => {
                return Err(MazeError::CapacityOverflow);
            },
        };
        let wall_count: i32 = match room_count.checked_mul(2) {
            Some(count) => count,
            None => {
                return Err(MazeError::CapacityOverflow);
            },
        };
        assert(room_count >= 1) by (nonlinear_arith)
            requires
                width >= 1,
                height >= 1,
                room_count == width * height,
        ;
        let mut visited_rooms: Vec<bool> = Vec::with_capacity(room_count as usize);
        visited_rooms.resize(room_count as usize, false);
        let mut opened_doors: Vec<bool> = Vec::with_capacity(wall_count as usize);
        opened_doors.resize(wall_count as usize, false);
        let builder = MazeBuilder {
            width,
            height,
            visited_rooms,
            stack: Vec::new(),
            random_state,
            opened_doors,
        };
        proof {
            let fresh = CarveState::fresh(grid_of(width, height), random_state);
            assert(builder@.visited =~= fresh.visited);
            assert(builder@.open =~= fresh.open);
            assert(builder@.stack =~= fresh.stack);
        }
        Ok(builder)
    }

    /// The number of wall slots of the grid.
    pub fn wall_count(&self) -> (count: i32)
        requires
            self.wf(),
        ensures
            count == self.grid().wall_count(),
    {
        proof {
            lemma_room_count(self.grid());
        }
        self.width * self.height * 2
    }

    /// The wall slots through which `room` can be left: left, right, top,
    /// bottom, each only where the grid has a room on the other side.
    pub fn get_walls(&self, room: i32) -> (walls: Vec<i32>)
        requires
            self.wf(),
            self.grid().has_room(room as int),
        ensures
            as_ints(walls@) == self.grid().walls_of(room as int),
            walls.len() <= 4,
    {
        let mut result: Vec<i32> = Vec::new();
        proof {
            lemma_room_coordinates(self.grid(), room as int);
            lemma_room_count(self.grid());
        }
        let y: i32 = room / self.width;
        let x: i32 = room % self.width;
        if x > 0 {
            result.push(2 * room - 2);
        }
        if x < self.width - 1 {
            result.push(2 * room);
        }
        if y > 0 {
            result.push(2 * room - 2 * self.width + 1);
        }
        if y < self.height - 1 {
            result.push(2 * room + 1);
        }
        assert(as_ints(result@) =~= self.grid().walls_of(room as int));
        result
    }

    /// The room on the other side of `wall`, seen from `room`.
    pub fn get_room_behind_wall(&self, room: i32, wall: i32) -> (behind: i32)
        requires
            self.wf(),
            self.grid().has_room(room as int),
        ensures
            behind == self.grid().neighbor_through(room as int, wall as int),
    {
        proof {
            lemma_room_coordinates(self.grid(), room as int);
            lemma_room_count(self.grid());
        }
        if wall == 2 * room {
            room + 1
        } else if wall == 2 * room + 1 {
            room + self.width
        } else if wall == 2 * room - 2 {
            room - 1
        } else {
            room - self.width
        }
    }

    /// The walls through which the walk can leave `room` now: those of its
    /// walls that are closed and lead to a room that has not been entered.
    pub fn find_all_possible_next_rooms(&self, room: i32) -> (candidates: Vec<i32>)
        requires
            self.wf(),
            self.grid().has_room(room as int),
        ensures
            as_ints(candidates@) == self@.exits(self.grid(), room as int),
            candidates.len() <= 4,
    {
        let walls: Vec<i32> = self.get_walls(room);
        proof {
            lemma_room_count(self.grid());
        }
        let room_count: i32 = self.width * self.height;
        let mut candidates: Vec<i32> = Vec::new();
        let mut i: usize = 0;
        while i < walls.len()
            invariant
                self.wf(),
                self.grid().has_room(room as int),
                room_count == self.grid().room_count(),
                as_ints(walls@) == self.grid().walls_of(room as int),
                i <= walls.len(),
                candidates.len() <= i,
                as_ints(candidates@) == self@.exits_among(
                    self.grid(),
                    room as int,
                    as_ints(walls@).subrange(0, i as int),
                ),
            decreases walls.len() - i,
        {
            let wall: i32 = walls[i];
            proof {
                assert(as_ints(walls@)[i as int] == wall);
                lemma_walls_of_join(self.grid(), room as int, wall as int);
                assert(as_ints(walls@).subrange(0, i + 1).drop_last() =~= as_ints(walls@).subrange(
                    0,
                    i as int,
                ));
            }
            let ghost found = as_ints(candidates@);
            if !self.opened_doors[wall as usize] {
                let other_room: i32 = self.get_room_behind_wall(room, wall);
                if 0 <= other_room && other_room < room_count {
                    if !self.visited_rooms[other_room as usize] {
                        candidates.push(wall);
                        assert(as_ints(candidates@) =~= found.push(wall as int));
                    }
                }
            }
            i += 1;
        }
        assert(as_ints(walls@).subrange(0, walls.len() as int) =~= as_ints(walls@));
        candidates
    }

    /// Enters `room`: marks it and makes it the current room.
    pub fn visit_room(&mut self, room: i32)
        requires
            old(self).wf(),
            old(self).grid().has_room(room as int),
        ensures
            final(self).wf(),
            final(self).grid() == old(self).grid(),
            final(self)@ == old(self)@.visit(room as int),
    {
        self.visited_rooms.set(room as usize, true);
        self.stack.push(room);
        assert(as_ints(self.stack@) =~= as_ints(old(self).stack@).push(room as int));
        assert forall|i: int| 0 <= i < self@.stack.len() implies self.grid().has_room(
            #[trigger] self@.stack[i],
        ) by {
            if i < old(self)@.stack.len() {
                assert(self@.stack[i] == old(self)@.stack[i]);
            }
        }
    }

    /// Carves the maze and returns it packed. The walk sets out from room 0
    /// with only that room on the stack and runs until no room is left to
    /// branch from, which takes less than two transitions for every room.
    pub fn build(&mut self) -> (bytes: Vec<u8>)
        requires
            old(self).wf(),
        ensures
            final(self).wf(),
            final(self).grid() == old(self).grid(),
            final(self)@ == old(self)@.start().run(
                old(self).grid(),
                old(self).grid().wall_count() as nat,
            ),
            final(self)@.done(),
            bytes@ == pack_walls(final(self)@.open),
    {
        let ghost grid = self.grid();
        self.stack = Vec::new();
        assert(as_ints(self.stack@) =~= Seq::empty());
        proof {
            lemma_room_count(grid);
            lemma_start(old(self)@, grid);
        }
        assert(self.height * self.width == self.width * self.height) by (nonlinear_arith);
        let target_room: i32 = self.height * self.width - 1;
        self.visit_room(0);
        let ghost start = self@;
        let ghost mut steps: nat = grid.wall_count() as nat;
        while self.stack.len() > 0
            invariant
                self.wf(),
                self.grid() == grid,
                target_room == grid.target(),
                self@.steps_left(grid) <= steps,
                self@.run(grid, steps) == start.run(grid, grid.wall_count() as nat),
            decreases steps,
        {
            let ghost before = self@;
            proof {
                lemma_step(before, grid);
                assert(before.stack.last() == self.stack@[self.stack.len() - 1]);
            }
            let room: i32 = self.stack[self.stack.len() - 1];
            if room == target_room {
                self.stack.pop();
                assert(as_ints(self.stack@) =~= before.stack.drop_last());
            } else {
                let candidates: Vec<i32> = self.find_all_possible_next_rooms(room);
                if candidates.len() == 0 {
                    self.stack.pop();
                    assert(as_ints(self.stack@) =~= before.stack.drop_last());
                } else {
                    let mut choice: u32 = 0;
                    if candidates.len() > 1 {
                        choice = lcg_next(&mut self.random_state, candidates.len() as u32);
                    }
                    let wall: i32 = candidates[choice as usize];
                    proof {
                        assert(as_ints(candidates@)[choice as int] == wall);
                        lemma_exits_among(
                            before,
                            grid,
                            room as int,
                            grid.walls_of(room as int),
                            choice as int,
                        );
                        lemma_walls_of_join(grid, room as int, wall as int);
                    }
                    self.opened_doors.set(wall as usize, true);
                    let next_room: i32 = self.get_room_behind_wall(room, wall);
                    self.visit_room(next_room);
                }
            }
            proof {
                assert(self@ == before.step(grid));
                steps = (steps - 1) as nat;
            }
        }
        self.pack_result()
    }

    /// The wall states packed into bytes, a set bit for every closed wall.
    pub fn pack_result(&self) -> (bytes: Vec<u8>)
        ensures
            bytes@ == pack_walls(self@.open),
    {
        pack(&self.opened_doors)
    }
}

} // verus!
