//! The carving walk as a state machine.
//!
//! The walk keeps a flag for every room that it has entered, a flag for every
//! wall slot that it has opened, the rooms that it may still branch from as a
//! stack, and the state of the sequence generator. One transition looks at
//! the room on top of the stack: it either opens a wall into a room that has
//! not been entered and moves there, or gives the room up.

use vstd::prelude::*;
use crate::grid::{Grid, lemma_walls_of_join};
use crate::rng::lcg_advance;
use crate::tally::{
    count_true, lemma_count_true_bounded, lemma_count_true_has, lemma_count_true_set,
};

verus! {

/// The state of a carving walk.
pub struct CarveState {
    /// For every room, whether the walk has entered it.
    pub visited: Seq<bool>,
    /// For every wall slot, whether the walk has opened it.
    pub open: Seq<bool>,
    /// The rooms that the walk may still branch from, the current one last.
    pub stack: Seq<int>,
    /// The state of the sequence generator.
    pub rng: u32,
}

impl CarveState {
    /// The state before the walk: nothing entered, nothing opened.
    pub open spec fn fresh(grid: Grid, seed: u32) -> CarveState {
        CarveState {
            visited: Seq::new(grid.room_count() as nat, |i: int| false),
            open: Seq::new(grid.wall_count() as nat, |i: int| false),
            stack: Seq::empty(),
            rng: seed,
        }
    }

    /// The state fits the grid: a flag for every room and every wall slot,
    /// and only rooms of the grid on the stack.
    pub open spec fn wf(self, grid: Grid) -> bool {
        &&& self.visited.len() == grid.room_count()
        &&& self.open.len() == grid.wall_count()
        &&& forall|i: int| 0 <= i < self.stack.len() ==> grid.has_room(#[trigger] self.stack[i])
    }

    /// The walk enters `room`: the room is marked and becomes the current
    /// one.
    pub open spec fn visit(self, room: int) -> CarveState {
        CarveState {
            visited: self.visited.update(room, true),
            stack: self.stack.push(room),
            ..self
        }
    }

    /// The walk sets out: the stack is emptied and room 0 entered.
    pub open spec fn start(self) -> CarveState {
        CarveState { stack: Seq::empty(), ..self }.visit(0)
    }

    /// The walk can leave `room` through `wall`: the wall is closed, and the
    /// room behind it is a room of the grid that has not been entered.
    pub open spec fn is_exit(self, grid: Grid, room: int, wall: int) -> bool {
        &&& !self.open[wall]
        &&& grid.has_room(grid.neighbor_through(room, wall))
        &&& !self.visited[grid.neighbor_through(room, wall)]
    }

    /// Those of `walls` through which the walk can leave `room`, in the
    /// order of `walls`.
    pub open spec fn exits_among(self, grid: Grid, room: int, walls: Seq<int>) -> Seq<int>
        decreases walls.len(),
    {
        if walls.len() == 0 {
            Seq::empty()
        } else {
            let before = self.exits_among(grid, room, walls.drop_last());
            if self.is_exit(grid, room, walls.last()) {
                before.push(walls.last())
            } else {
                before
            }
        }
    }

    /// The walls through which the walk can leave `room`.
    pub open spec fn exits(self, grid: Grid, room: int) -> Seq<int> {
        self.exits_among(grid, room, grid.walls_of(room))
    }

    /// The walk gives up the current room.
    pub open spec fn backtrack(self) -> CarveState {
        CarveState { stack: self.stack.drop_last(), ..self }
    }

    /// The walk opens `wall` and enters the room behind it, seen from
    /// `room`.
    pub open spec fn advance(self, grid: Grid, room: int, wall: int) -> CarveState {
        CarveState { open: self.open.update(wall, true), ..self }.visit(
            grid.neighbor_through(room, wall),
        )
    }

    /// One transition of a walk that is not over, from the room on top of
    /// the stack. The far corner is given up at once, and so is a room
    /// without an exit. A single exit is taken as it is; among several the
    /// sequence generator draws one, and only then does its state change.
    pub open spec fn step(self, grid: Grid) -> CarveState {
        let room = self.stack.last();
        let exits = self.exits(grid, room);
        if room == grid.target() || exits.len() == 0 {
            self.backtrack()
        } else if exits.len() == 1 {
            self.advance(grid, room, exits[0])
        } else {
            let rng = lcg_advance(self.rng);
            let drawn = rng as int % exits.len() as int;
            CarveState { rng, ..self }.advance(grid, room, exits[drawn])
        }
    }

    /// The walk is over: no room is left to branch from.
    pub open spec fn done(self) -> bool {
        self.stack.len() == 0
    }

    /// The state after at most `steps` transitions; the walk stops earlier
    /// where it is over.
    pub open spec fn run(self, grid: Grid, steps: nat) -> CarveState
        decreases steps,
    {
        if steps == 0 || self.done() {
            self
        } else {
            self.step(grid).run(grid, (steps - 1) as nat)
        }
    }

    /// A bound on the transitions that are left: two for every room that
    /// has not been entered, and one for every room on the stack.
    pub open spec fn steps_left(self, grid: Grid) -> int {
        2 * (grid.room_count() - count_true(self.visited)) + self.stack.len()
    }
}

/// The state in which the walk over `grid` with the seed `seed` ends. Twice
/// the number of rooms is enough transitions for any walk.
pub open spec fn carve(grid: Grid, seed: u32) -> CarveState {
    CarveState::fresh(grid, seed).start().run(grid, grid.wall_count() as nat)
}

/// The maze for `grid` and `seed`: for every wall slot, whether it is open.
pub open spec fn maze_walls(grid: Grid, seed: u32) -> Seq<bool> {
    carve(grid, seed).open
}

/// Every exit that is found among `walls` is one of `walls` and is an exit.
pub proof fn lemma_exits_among(state: CarveState, grid: Grid, room: int, walls: Seq<int>, i: int)
    requires
        0 <= i < state.exits_among(grid, room, walls).len(),
    ensures
        walls.contains(state.exits_among(grid, room, walls)[i]),
        state.is_exit(grid, room, state.exits_among(grid, room, walls)[i]),
    decreases walls.len(),
{
    let before = state.exits_among(grid, room, walls.drop_last());
    if i < before.len() {
        lemma_exits_among(state, grid, room, walls.drop_last(), i);
        let found = before[i];
        let k = choose|k: int| 0 <= k < walls.drop_last().len() && walls.drop_last()[k] == found;
        assert(walls[k] == found);
    } else {
        assert(walls[walls.len() - 1] == walls.last());
    }
}

/// Where no exit is found among `walls`, none of `walls` is an exit.
pub proof fn lemma_no_exit_among(
    state: CarveState,
    grid: Grid,
    room: int,
    walls: Seq<int>,
    wall: int,
)
    requires
        state.exits_among(grid, room, walls).len() == 0,
        walls.contains(wall),
    ensures
        !state.is_exit(grid, room, wall),
    decreases walls.len(),
{
    let k = choose|k: int| 0 <= k < walls.len() && walls[k] == wall;
    if k < walls.len() - 1 {
        assert(walls.drop_last()[k] == wall);
        lemma_no_exit_among(state, grid, room, walls.drop_last(), wall);
    }
}

/// The walk sets out into a state that fits the grid, with less than twice
/// the number of rooms in transitions left.
pub proof fn lemma_start(state: CarveState, grid: Grid)
    requires
        grid.valid(),
        state.wf(grid),
    ensures
        state.start().wf(grid),
        !state.start().done(),
        state.start().steps_left(grid) < grid.wall_count(),
{
    assert(grid.room_count() >= 1) by (nonlinear_arith)
        requires
            grid.valid(),
            grid.room_count() == grid.width * grid.height,
    ;
    lemma_count_true_has(state.start().visited, 0);
}

/// A transition keeps the state fitting the grid and uses up one of the
/// transitions that are left.
pub proof fn lemma_step(state: CarveState, grid: Grid)
    requires
        grid.valid(),
        state.wf(grid),
        !state.done(),
    ensures
        state.step(grid).wf(grid),
        state.step(grid).steps_left(grid) == state.steps_left(grid) - 1,
        state.steps_left(grid) >= 1,
{
    let room = state.stack.last();
    let exits = state.exits(grid, room);
    lemma_count_true_bounded(state.visited);
    assert(grid.has_room(state.stack[state.stack.len() - 1]));
    if room == grid.target() || exits.len() == 0 {
    } else {
        let drawn = if exits.len() == 1 {
            0
        } else {
            lcg_advance(state.rng) as int % exits.len() as int
        };
        let wall = exits[drawn];
        lemma_exits_among(state, grid, room, grid.walls_of(room), drawn);
        lemma_walls_of_join(grid, room, wall);
        lemma_count_true_set(state.visited, grid.neighbor_through(room, wall));
    }
}

/// A transition takes nothing back: a room that has been entered stays
/// entered, and a wall that has been opened stays open.
pub proof fn lemma_step_keeps_flags(state: CarveState, grid: Grid)
    requires
        grid.valid(),
        state.wf(grid),
        !state.done(),
    ensures
        forall|room: int|
            0 <= room < state.visited.len() && state.visited[room] ==> #[trigger] state.step(
                grid,
            ).visited[room],
        forall|wall: int|
            0 <= wall < state.open.len() && state.open[wall] ==> #[trigger] state.step(
                grid,
            ).open[wall],
{
    let room = state.stack.last();
    let exits = state.exits(grid, room);
    assert(grid.has_room(state.stack[state.stack.len() - 1]));
    if room != grid.target() && exits.len() > 0 {
        let drawn = if exits.len() == 1 {
            0
        } else {
            lcg_advance(state.rng) as int % exits.len() as int
        };
        lemma_exits_among(state, grid, room, grid.walls_of(room), drawn);
        lemma_walls_of_join(grid, room, exits[drawn]);
    }
}

/// The same holds of any number of transitions.
pub proof fn lemma_run_keeps_flags(state: CarveState, grid: Grid, steps: nat)
    requires
        grid.valid(),
        state.wf(grid),
    ensures
        forall|room: int|
            0 <= room < state.visited.len() && state.visited[room] ==> #[trigger] state.run(
                grid,
                steps,
            ).visited[room],
        forall|wall: int|
            0 <= wall < state.open.len() && state.open[wall] ==> #[trigger] state.run(
                grid,
                steps,
            ).open[wall],
    decreases steps,
{
    if steps > 0 && !state.done() {
        let next = state.step(grid);
        lemma_step(state, grid);
        lemma_step_keeps_flags(state, grid);
        lemma_run_keeps_flags(next, grid, (steps - 1) as nat);
        assert forall|room: int|
            0 <= room < state.visited.len() && state.visited[room] implies #[trigger] state.run(
            grid,
            steps,
        ).visited[room] by {
            assert(next.visited[room]);
            assert(next.run(grid, (steps - 1) as nat).visited[room]);
        }
        assert forall|wall: int|
            0 <= wall < state.open.len() && state.open[wall] implies #[trigger] state.run(
            grid,
            steps,
        ).open[wall] by {
            assert(next.open[wall]);
            assert(next.run(grid, (steps - 1) as nat).open[wall]);
        }
    }
}

/// A walk that is given at least the transitions that are left gets done.
pub proof fn lemma_run_gets_done(state: CarveState, grid: Grid, steps: nat)
    requires
        grid.valid(),
        state.wf(grid),
        state.steps_left(grid) <= steps,
    ensures
        state.run(grid, steps).wf(grid),
        state.run(grid, steps).done(),
    decreases steps,
{
    if state.done() {
    } else {
        lemma_step(state, grid);
        lemma_run_gets_done(state.step(grid), grid, (steps - 1) as nat);
    }
}

} // verus!
