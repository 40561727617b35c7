//! The carved maze is a spanning tree of the grid.
//!
//! Rooms are the nodes and open walls the edges. The walk enters every room,
//! opens one wall for each room but the first, joins every room to room 0,
//! and closes no cycle.

use vstd::prelude::*;
use crate::carve::{
    CarveState, carve, lemma_exits_among, lemma_no_exit_among, lemma_run_gets_done, lemma_start,
    maze_walls,
};
use crate::grid::{
    Grid, lemma_inner_wall_rooms, lemma_room_at, lemma_room_coordinates, lemma_room_count,
    lemma_walls_of_join, lemma_walls_of_lists,
};
use crate::tally::{count_true, lemma_count_true_all, lemma_count_true_none, lemma_count_true_set};

verus! {

/// The rooms `a` and `b` lie on the two sides of an open wall. `walls[i]`
/// tells whether slot `i` is open.
pub open spec fn adjacent(grid: Grid, walls: Seq<bool>, a: int, b: int) -> bool {
    exists|wall: int| #[trigger] grid.joins(wall, a, b) && walls[wall]
}

/// The room at place `i` of `path` and the one after it are adjacent.
pub open spec fn linked(grid: Grid, walls: Seq<bool>, path: Seq<int>, i: int) -> bool {
    adjacent(grid, walls, path[i], path[i + 1])
}

/// `path` is a walk through open walls: a sequence of at least one room in
/// which each room is adjacent to the next.
pub open spec fn is_path(grid: Grid, walls: Seq<bool>, path: Seq<int>) -> bool {
    &&& path.len() > 0
    &&& forall|i: int| 0 <= i < path.len() ==> grid.has_room(#[trigger] path[i])
    &&& forall|i: int| 0 <= i < path.len() - 1 ==> #[trigger] linked(grid, walls, path, i)
}

/// A walk through open walls leads from `a` to `b`.
pub open spec fn connected(grid: Grid, walls: Seq<bool>, a: int, b: int) -> bool {
    exists|path: Seq<int>|
        #[trigger] is_path(grid, walls, path) && path[0] == a && path.last() == b
}

/// The place after `i` on a round trip of `len` places.
pub open spec fn place_after(len: int, i: int) -> int {
    if i + 1 == len {
        0
    } else {
        i + 1
    }
}

/// The room at place `i` of `cycle` is adjacent to the one at the place
/// after it.
pub open spec fn linked_round(grid: Grid, walls: Seq<bool>, cycle: Seq<int>, i: int) -> bool {
    adjacent(grid, walls, cycle[i], cycle[place_after(cycle.len() as int, i)])
}

/// `cycle` is a round trip through open walls: at least three different
/// rooms, each adjacent to the next and the last to the first.
pub open spec fn is_cycle(grid: Grid, walls: Seq<bool>, cycle: Seq<int>) -> bool {
    &&& cycle.len() >= 3
    &&& cycle.no_duplicates()
    &&& forall|i: int| 0 <= i < cycle.len() ==> #[trigger] linked_round(grid, walls, cycle, i)
}

/// How the walk came to each room: its distance from room 0 along the walk,
/// and the wall through which it was entered.
struct Discovery {
    depth: Seq<int>,
    entered_by: Seq<int>,
}

/// The room on the other side of `wall`, seen from `room`.
spec fn other_side(grid: Grid, wall: int, room: int) -> int {
    if room == grid.wall_owner(wall) {
        grid.wall_far_room(wall)
    } else {
        grid.wall_owner(wall)
    }
}

/// A room that has been entered, other than room 0, was entered through an
/// open wall from a room that is nearer to room 0.
spec fn entry_ok(
    grid: Grid,
    visited: Seq<bool>,
    open: Seq<bool>,
    found: Discovery,
    room: int,
) -> bool {
    visited[room] ==> {
        &&& found.depth[room] >= 0
        &&& room != 0 ==> {
            let wall = found.entered_by[room];
            let from = other_side(grid, wall, room);
            &&& grid.joins(wall, from, room)
            &&& open[wall]
            &&& visited[from]
            &&& found.depth[from] < found.depth[room]
        }
    }
}

/// An open wall lies between two rooms that have been entered, one of them
/// through this wall.
spec fn passage_ok(
    grid: Grid,
    visited: Seq<bool>,
    open: Seq<bool>,
    found: Discovery,
    wall: int,
) -> bool {
    open[wall] ==> {
        let a = grid.wall_owner(wall);
        let b = grid.wall_far_room(wall);
        &&& grid.is_inner_wall(wall)
        &&& visited[a]
        &&& visited[b]
        &&& (a != 0 && found.entered_by[a] == wall) || (b != 0 && found.entered_by[b] == wall)
    }
}

/// A room that the walk has entered and given up, other than the far
/// corner, has its right and bottom neighbours entered.
spec fn settled(grid: Grid, visited: Seq<bool>, stack: Seq<int>, room: int) -> bool {
    visited[room] && room != grid.target() && !stack.contains(room) ==> {
        &&& grid.x(room) < grid.width - 1 ==> visited[room + 1]
        &&& grid.y(room) < grid.height - 1 ==> visited[room + grid.width]
    }
}

/// What holds of every state of a walk that set out from the fresh state.
spec fn tree_inv(
    grid: Grid,
    visited: Seq<bool>,
    open: Seq<bool>,
    stack: Seq<int>,
    found: Discovery,
) -> bool {
    &&& grid.valid()
    &&& visited.len() == grid.room_count()
    &&& open.len() == grid.wall_count()
    &&& found.depth.len() == grid.room_count()
    &&& found.entered_by.len() == grid.room_count()
    &&& visited[0]
    &&& forall|i: int|
        0 <= i < stack.len() ==> grid.has_room(#[trigger] stack[i]) && visited[stack[i]]
    &&& count_true(open) + 1 == count_true(visited)
    &&& forall|room: int|
        grid.has_room(room) ==> #[trigger] entry_ok(grid, visited, open, found, room)
    &&& forall|wall: int|
        grid.has_wall(wall) ==> #[trigger] passage_ok(grid, visited, open, found, wall)
    &&& forall|room: int| grid.has_room(room) ==> #[trigger] settled(grid, visited, stack, room)
}

/// The walk sets out from the fresh state into a state of which the
/// invariant holds.
proof fn lemma_tree_at_start(grid: Grid, seed: u32) -> (found: Discovery)
    requires
        grid.valid(),
    ensures
        ({
            let state = CarveState::fresh(grid, seed).start();
            tree_inv(grid, state.visited, state.open, state.stack, found)
        }),
{
    let state = CarveState::fresh(grid, seed).start();
    let found = Discovery {
        depth: Seq::new(grid.room_count() as nat, |i: int| 0int),
        entered_by: Seq::new(grid.room_count() as nat, |i: int| 0int),
    };
    lemma_room_count(grid);
    lemma_count_true_none(state.open);
    lemma_count_true_none(CarveState::fresh(grid, seed).visited);
    lemma_count_true_set(CarveState::fresh(grid, seed).visited, 0);
    assert(state.stack[0] == 0);
    assert forall|room: int| grid.has_room(room) implies #[trigger] settled(
        grid,
        state.visited,
        state.stack,
        room,
    ) by {
        if state.visited[room] {
            assert(room == 0);
            assert(state.stack[0] == room);
        }
    }
    found
}

/// Giving up the current room keeps the invariant, where that room is the
/// far corner or has no exit.
proof fn lemma_tree_after_backtrack(
    grid: Grid,
    visited: Seq<bool>,
    open: Seq<bool>,
    stack: Seq<int>,
    found: Discovery,
)
    requires
        tree_inv(grid, visited, open, stack, found),
        stack.len() > 0,
        stack.last() == grid.target() || forall|wall: int|
            grid.walls_of(stack.last()).contains(wall) ==> open[wall]
                || visited[grid.neighbor_through(stack.last(), wall)],
    ensures
        tree_inv(grid, visited, open, stack.drop_last(), found),
{
    let room = stack.last();
    let rest = stack.drop_last();
    assert(grid.has_room(stack[stack.len() - 1]));
    assert forall|i: int| 0 <= i < rest.len() implies grid.has_room(#[trigger] rest[i])
        && visited[rest[i]] by {
        assert(rest[i] == stack[i]);
    }
    assert forall|other: int| grid.has_room(other) implies #[trigger] settled(
        grid,
        visited,
        rest,
        other,
    ) by {
        if visited[other] && other != grid.target() && !rest.contains(other) {
            if other == room {
                lemma_walls_of_lists(grid, room);
                if grid.x(room) < grid.width - 1 {
                    let wall = grid.right_wall(room);
                    lemma_walls_of_join(grid, room, wall);
                    assert(passage_ok(grid, visited, open, found, wall));
                }
                if grid.y(room) < grid.height - 1 {
                    let wall = grid.bottom_wall(room);
                    lemma_walls_of_join(grid, room, wall);
                    assert(passage_ok(grid, visited, open, found, wall));
                }
            } else {
                if stack.contains(other) {
                    let k = choose|k: int| 0 <= k < stack.len() && stack[k] == other;
                    assert(rest[k] == other);
                }
                assert(settled(grid, visited, stack, other));
            }
        }
    }
}

/// Opening a closed wall of the current room and entering the room behind
/// it, which had not been entered, keeps the invariant.
proof fn lemma_tree_after_advance(
    grid: Grid,
    visited: Seq<bool>,
    open: Seq<bool>,
    stack: Seq<int>,
    found: Discovery,
    wall: int,
) -> (found_after: Discovery)
    requires
        tree_inv(grid, visited, open, stack, found),
        stack.len() > 0,
        grid.walls_of(stack.last()).contains(wall),
        grid.has_wall(wall) && !open[wall],
        grid.has_room(grid.neighbor_through(stack.last(), wall)) && !visited[grid.neighbor_through(
            stack.last(),
            wall,
        )],
    ensures
        tree_inv(
            grid,
            visited.update(grid.neighbor_through(stack.last(), wall), true),
            open.update(wall, true),
            stack.push(grid.neighbor_through(stack.last(), wall)),
            found_after,
        ),
{
    let room = stack.last();
    let next = grid.neighbor_through(room, wall);
    let visited_after = visited.update(next, true);
    let open_after = open.update(wall, true);
    let stack_after = stack.push(next);
    let found_after = Discovery {
        depth: found.depth.update(next, found.depth[room] + 1),
        entered_by: found.entered_by.update(next, wall),
    };
    assert(grid.has_room(stack[stack.len() - 1]) && visited[stack[stack.len() - 1]]);
    lemma_walls_of_join(grid, room, wall);
    lemma_inner_wall_rooms(grid, wall);
    lemma_count_true_set(visited, next);
    lemma_count_true_set(open, wall);
    assert(entry_ok(grid, visited, open, found, room));
    assert(other_side(grid, wall, next) == room);
    assert forall|i: int| 0 <= i < stack_after.len() implies grid.has_room(
        #[trigger] stack_after[i],
    ) && visited_after[stack_after[i]] by {
        if i < stack.len() {
            assert(stack_after[i] == stack[i]);
        }
    }
    assert forall|other: int| grid.has_room(other) implies #[trigger] entry_ok(
        grid,
        visited_after,
        open_after,
        found_after,
        other,
    ) by {
        if other != next {
            assert(entry_ok(grid, visited, open, found, other));
            if visited[other] && other != 0 {
                let by_wall = found.entered_by[other];
                lemma_inner_wall_rooms(grid, by_wall);
            }
        }
    }
    assert forall|other: int| grid.has_wall(other) implies #[trigger] passage_ok(
        grid,
        visited_after,
        open_after,
        found_after,
        other,
    ) by {
        if other != wall {
            assert(passage_ok(grid, visited, open, found, other));
            if open[other] {
                lemma_inner_wall_rooms(grid, other);
            }
        }
    }
    assert forall|other: int| grid.has_room(other) implies #[trigger] settled(
        grid,
        visited_after,
        stack_after,
        other,
    ) by {
        if visited_after[other] && other != grid.target() && !stack_after.contains(other) {
            assert(stack_after[stack.len() as int] == next);
            assert(other != next);
            if stack.contains(other) {
                let k = choose|k: int| 0 <= k < stack.len() && stack[k] == other;
                assert(stack_after[k] == other);
            }
            assert(settled(grid, visited, stack, other));
            lemma_room_coordinates(grid, other);
            if grid.x(other) < grid.width - 1 {
                lemma_room_at(grid, grid.x(other) + 1, grid.y(other));
            }
            if grid.y(other) < grid.height - 1 {
                lemma_room_at(grid, grid.x(other), grid.y(other) + 1);
                assert((grid.y(other) + 1) * grid.width == grid.y(other) * grid.width + grid.width)
                    by (nonlinear_arith);
            }
        }
    }
    found_after
}

/// A transition keeps the invariant.
proof fn lemma_tree_after_step(
    grid: Grid,
    state: CarveState,
    found: Discovery,
) -> (found_after: Discovery)
    requires
        tree_inv(grid, state.visited, state.open, state.stack, found),
        !state.done(),
    ensures
        ({
            let after = state.step(grid);
            tree_inv(grid, after.visited, after.open, after.stack, found_after)
        }),
{
    let room = state.stack.last();
    let exits = state.exits(grid, room);
    assert(grid.has_room(state.stack[state.stack.len() - 1]));
    if room == grid.target() || exits.len() == 0 {
        if room != grid.target() {
            assert forall|wall: int| grid.walls_of(room).contains(wall) implies state.open[wall]
                || state.visited[grid.neighbor_through(room, wall)] by {
                lemma_no_exit_among(state, grid, room, grid.walls_of(room), wall);
                lemma_walls_of_join(grid, room, wall);
            }
        }
        lemma_tree_after_backtrack(grid, state.visited, state.open, state.stack, found);
        found
    } else {
        let drawn = if exits.len() == 1 {
            0
        } else {
            crate::rng::lcg_advance(state.rng) as int % exits.len() as int
        };
        let wall = exits[drawn];
        lemma_exits_among(state, grid, room, grid.walls_of(room), drawn);
        lemma_walls_of_join(grid, room, wall);
        lemma_tree_after_advance(grid, state.visited, state.open, state.stack, found, wall)
    }
}

/// Any number of transitions keeps the invariant.
proof fn lemma_tree_after_run(
    grid: Grid,
    state: CarveState,
    found: Discovery,
    steps: nat,
) -> (found_after: Discovery)
    requires
        tree_inv(grid, state.visited, state.open, state.stack, found),
    ensures
        ({
            let after = state.run(grid, steps);
            tree_inv(grid, after.visited, after.open, after.stack, found_after)
        }),
    decreases steps,
{
    if steps == 0 || state.done() {
        found
    } else {
        let next = lemma_tree_after_step(grid, state, found);
        lemma_tree_after_run(grid, state.step(grid), next, (steps - 1) as nat)
    }
}

/// Once the walk is over, the rooms of the first row have been entered.
proof fn lemma_first_row_entered(
    grid: Grid,
    visited: Seq<bool>,
    open: Seq<bool>,
    found: Discovery,
    x: int,
)
    requires
        tree_inv(grid, visited, open, Seq::empty(), found),
        0 <= x < grid.width,
    ensures
        visited[x],
    decreases x,
{
    if x > 0 {
        lemma_first_row_entered(grid, visited, open, found, x - 1);
        lemma_room_at(grid, x - 1, 0);
        lemma_room_count(grid);
        assert(0 * grid.width + (x - 1) == x - 1);
        assert(settled(grid, visited, Seq::empty(), x - 1));
    }
}

/// Once the walk is over, the room in column `x` of row `y` has been
/// entered: the first row leads to its column, and the column down to it,
/// without passing the far corner.
proof fn lemma_room_entered(
    grid: Grid,
    visited: Seq<bool>,
    open: Seq<bool>,
    found: Discovery,
    x: int,
    y: int,
)
    requires
        tree_inv(grid, visited, open, Seq::empty(), found),
        0 <= x < grid.width,
        0 <= y < grid.height,
    ensures
        visited[y * grid.width + x],
    decreases y,
{
    if y == 0 {
        lemma_first_row_entered(grid, visited, open, found, x);
        assert(0 * grid.width + x == x);
    } else {
        let above = (y - 1) * grid.width + x;
        lemma_room_entered(grid, visited, open, found, x, y - 1);
        lemma_room_at(grid, x, y - 1);
        lemma_room_at(grid, x, y);
        assert(y * grid.width == (y - 1) * grid.width + grid.width) by (nonlinear_arith);
        assert(settled(grid, visited, Seq::empty(), above));
    }
}

/// A room that has been entered is joined to room 0 by a walk through open
/// walls: the one that leads to the room it was entered from, and on.
proof fn lemma_entered_is_connected(
    grid: Grid,
    visited: Seq<bool>,
    open: Seq<bool>,
    stack: Seq<int>,
    found: Discovery,
    room: int,
)
    requires
        tree_inv(grid, visited, open, stack, found),
        grid.has_room(room),
        visited[room],
    ensures
        connected(grid, open, 0, room),
    decreases found.depth[room],
{
    assert(entry_ok(grid, visited, open, found, room));
    if room == 0 {
        let path = seq![0int];
        assert(is_path(grid, open, path));
        assert(path[0] == 0 && path.last() == room);
    } else {
        let wall = found.entered_by[room];
        let from = other_side(grid, wall, room);
        lemma_inner_wall_rooms(grid, wall);
        assert(entry_ok(grid, visited, open, found, from));
        lemma_entered_is_connected(grid, visited, open, stack, found, from);
        let before = choose|path: Seq<int>|
            #[trigger] is_path(grid, open, path) && path[0] == 0 && path.last() == from;
        let path = before.push(room);
        assert forall|i: int| 0 <= i < path.len() implies grid.has_room(#[trigger] path[i]) by {
            if i < before.len() {
                assert(path[i] == before[i]);
            }
        }
        assert forall|i: int| 0 <= i < path.len() - 1 implies #[trigger] linked(
            grid,
            open,
            path,
            i,
        ) by {
            if i < before.len() - 1 {
                assert(linked(grid, open, before, i));
                assert(path[i] == before[i] && path[i + 1] == before[i + 1]);
            } else {
                assert(path[i] == from && path[i + 1] == room);
                assert(grid.joins(wall, from, room) && open[wall]);
            }
        }
        assert(is_path(grid, open, path));
        assert(path[0] == before[0] && path.last() == room);
    }
}

/// Among the first `upto` places of `rooms` there is one whose room is at
/// least as deep as the room at any other of them.
proof fn lemma_deepest(depth: Seq<int>, rooms: Seq<int>, upto: int) -> (at: int)
    requires
        0 < upto <= rooms.len(),
    ensures
        0 <= at < upto,
        forall|i: int| 0 <= i < upto ==> depth[#[trigger] rooms[i]] <= depth[rooms[at]],
    decreases upto,
{
    if upto == 1 {
        0
    } else {
        let before = lemma_deepest(depth, rooms, upto - 1);
        if depth[rooms[upto - 1]] > depth[rooms[before]] {
            upto - 1
        } else {
            before
        }
    }
}

/// An open wall between two rooms was the way into the deeper of them.
proof fn lemma_passage_enters_deeper(
    grid: Grid,
    visited: Seq<bool>,
    open: Seq<bool>,
    stack: Seq<int>,
    found: Discovery,
    wall: int,
    deep: int,
    other: int,
)
    requires
        tree_inv(grid, visited, open, stack, found),
        grid.joins(wall, deep, other),
        open[wall],
        found.depth[other] <= found.depth[deep],
    ensures
        grid.has_room(deep),
        grid.has_room(other),
        visited[deep],
        visited[other],
        deep != 0,
        found.entered_by[deep] == wall,
        other_side(grid, wall, deep) == other,
{
    lemma_inner_wall_rooms(grid, wall);
    assert(passage_ok(grid, visited, open, found, wall));
    assert(entry_ok(grid, visited, open, found, other));
    assert(entry_ok(grid, visited, open, found, deep));
}

/// No round trip leads through open walls: the deepest room of one would
/// have been entered through two walls.
proof fn lemma_tree_has_no_cycle(
    grid: Grid,
    visited: Seq<bool>,
    open: Seq<bool>,
    stack: Seq<int>,
    found: Discovery,
    cycle: Seq<int>,
)
    requires
        tree_inv(grid, visited, open, stack, found),
    ensures
        !is_cycle(grid, open, cycle),
{
    if is_cycle(grid, open, cycle) {
        let len = cycle.len() as int;
        let at = lemma_deepest(found.depth, cycle, len);
        let before = if at == 0 {
            len - 1
        } else {
            at - 1
        };
        let after = place_after(len, at);
        assert(place_after(len, before) == at);
        assert(linked_round(grid, open, cycle, before));
        assert(linked_round(grid, open, cycle, at));
        let wall_in = choose|wall: int|
            #[trigger] grid.joins(wall, cycle[before], cycle[at]) && open[wall];
        let wall_out = choose|wall: int|
            #[trigger] grid.joins(wall, cycle[at], cycle[after]) && open[wall];
        lemma_passage_enters_deeper(
            grid,
            visited,
            open,
            stack,
            found,
            wall_in,
            cycle[at],
            cycle[before],
        );
        lemma_passage_enters_deeper(
            grid,
            visited,
            open,
            stack,
            found,
            wall_out,
            cycle[at],
            cycle[after],
        );
        assert(cycle[before] == cycle[after]);
        assert(before != after);
    }
}

/// The walk over `grid` with the seed `seed` ends in a state of which the
/// invariant holds.
proof fn lemma_carved_tree(grid: Grid, seed: u32) -> (found: Discovery)
    requires
        grid.valid(),
    ensures
        carve(grid, seed).done(),
        carve(grid, seed).wf(grid),
        tree_inv(
            grid,
            carve(grid, seed).visited,
            carve(grid, seed).open,
            Seq::empty(),
            found,
        ),
{
    let fresh = CarveState::fresh(grid, seed);
    let start = fresh.start();
    let steps = grid.wall_count() as nat;
    let at_start = lemma_tree_at_start(grid, seed);
    lemma_start(fresh, grid);
    lemma_run_gets_done(start, grid, steps);
    let found = lemma_tree_after_run(grid, start, at_start, steps);
    assert(carve(grid, seed).stack =~= Seq::empty());
    found
}

/// The walk ends, and it has then entered every room of the grid.
pub proof fn lemma_walk_enters_every_room(grid: Grid, seed: u32)
    requires
        grid.valid(),
    ensures
        carve(grid, seed).done(),
        carve(grid, seed).wf(grid),
        forall|room: int| grid.has_room(room) ==> carve(grid, seed).visited[room],
{
    let found = lemma_carved_tree(grid, seed);
    let end = carve(grid, seed);
    assert forall|room: int| grid.has_room(room) implies end.visited[room] by {
        lemma_room_coordinates(grid, room);
        lemma_room_entered(grid, end.visited, end.open, found, grid.x(room), grid.y(room));
    }
}

/// The rooms that a walk through open walls joins to room 0, as a flag for
/// every room.
pub open spec fn reachable_rooms(grid: Grid, walls: Seq<bool>) -> Seq<bool> {
    Seq::new(grid.room_count() as nat, |room: int| connected(grid, walls, 0, room))
}

/// Every room of the maze is joined to room 0 by a walk through open walls.
pub proof fn lemma_maze_connected(grid: Grid, seed: u32, room: int)
    requires
        grid.valid(),
        grid.has_room(room),
    ensures
        connected(grid, maze_walls(grid, seed), 0, room),
{
    let found = lemma_carved_tree(grid, seed);
    let end = carve(grid, seed);
    lemma_walk_enters_every_room(grid, seed);
    lemma_entered_is_connected(grid, end.visited, end.open, Seq::empty(), found, room);
}

/// The maze has one open wall less than rooms that are joined to room 0,
/// and these are all the rooms of the grid.
pub proof fn lemma_maze_wall_count(grid: Grid, seed: u32)
    requires
        grid.valid(),
    ensures
        count_true(maze_walls(grid, seed)) == count_true(
            reachable_rooms(grid, maze_walls(grid, seed)),
        ) - 1,
        count_true(maze_walls(grid, seed)) == grid.room_count() - 1,
{
    let found = lemma_carved_tree(grid, seed);
    let end = carve(grid, seed);
    let reachable = reachable_rooms(grid, maze_walls(grid, seed));
    lemma_walk_enters_every_room(grid, seed);
    assert forall|room: int| 0 <= room < end.visited.len() implies end.visited[room] by {
        assert(grid.has_room(room));
    }
    lemma_count_true_all(end.visited);
    assert forall|room: int| 0 <= room < reachable.len() implies reachable[room] by {
        lemma_maze_connected(grid, seed, room);
    }
    lemma_count_true_all(reachable);
}

/// The maze has a state for every wall slot, and only slots that lie
/// between two rooms of the grid are open.
pub proof fn lemma_maze_opens_inner_walls(grid: Grid, seed: u32)
    requires
        grid.valid(),
    ensures
        maze_walls(grid, seed).len() == grid.wall_count(),
        forall|wall: int|
            grid.has_wall(wall) && maze_walls(grid, seed)[wall] ==> #[trigger] grid.is_inner_wall(
                wall,
            ),
{
    let found = lemma_carved_tree(grid, seed);
    let end = carve(grid, seed);
    assert forall|wall: int|
        grid.has_wall(wall) && maze_walls(grid, seed)[wall] implies #[trigger] grid.is_inner_wall(
        wall,
    ) by {
        assert(passage_ok(grid, end.visited, end.open, found, wall));
    }
}

/// No round trip leads through the open walls of the maze.
pub proof fn lemma_maze_acyclic(grid: Grid, seed: u32, cycle: Seq<int>)
    requires
        grid.valid(),
    ensures
        !is_cycle(grid, maze_walls(grid, seed), cycle),
{
    let found = lemma_carved_tree(grid, seed);
    let end = carve(grid, seed);
    lemma_tree_has_no_cycle(grid, end.visited, end.open, Seq::empty(), found, cycle);
}

} // verus!
