//! Grid addressing: rooms and wall slots as plain integers.
//!
//! A grid of `width` by `height` rooms numbers its rooms row by row from
//! the top left corner. Every room owns two wall slots, the one on its right
//! and the one below it, so a room is joined to its left and top neighbours
//! through slots that those neighbours own.

use vstd::prelude::*;
use vstd::arithmetic::div_mod::{lemma_fundamental_div_mod, lemma_fundamental_div_mod_converse};
use vstd::arithmetic::mul::{lemma_mul_inequality, lemma_mul_is_distributive_add_other_way};

verus! {

/// The dimensions of a rectangular grid of rooms.
pub struct Grid {
    pub width: int,
    pub height: int,
}

impl Grid {
    /// A grid has at least one column and one row.
    pub open spec fn valid(self) -> bool {
        self.width >= 1 && self.height >= 1
    }

    /// The number of rooms.
    pub open spec fn room_count(self) -> int {
        self.width * self.height
    }

    /// The number of wall slots: two for every room.
    pub open spec fn wall_count(self) -> int {
        2 * self.room_count()
    }

    /// `room` names a room of the grid.
    pub open spec fn has_room(self, room: int) -> bool {
        0 <= room < self.room_count()
    }

    /// `wall` names a wall slot of the grid.
    pub open spec fn has_wall(self, wall: int) -> bool {
        0 <= wall < self.wall_count()
    }

    /// The column of `room`.
    pub open spec fn x(self, room: int) -> int {
        room % self.width
    }

    /// The row of `room`.
    pub open spec fn y(self, room: int) -> int {
        room / self.width
    }

    /// The room in the far corner, at which the walk does not branch.
    pub open spec fn target(self) -> int {
        self.room_count() - 1
    }

    /// The slot between `room` and the room on its left.
    pub open spec fn left_wall(self, room: int) -> int {
        2 * room - 2
    }

    /// The slot between `room` and the room on its right.
    pub open spec fn right_wall(self, room: int) -> int {
        2 * room
    }

    /// The slot between `room` and the room above it.
    pub open spec fn top_wall(self, room: int) -> int {
        2 * room - 2 * self.width + 1
    }

    /// The slot between `room` and the room below it.
    pub open spec fn bottom_wall(self, room: int) -> int {
        2 * room + 1
    }

    /// The wall slots through which `room` can be left, in the order left,
    /// right, top, bottom. A slot is listed only if the grid has a room
    /// on its other side: the tests on the far edges use the width for the
    /// right wall and the height for the bottom wall.
    pub open spec fn walls_of(self, room: int) -> Seq<int> {
        let left = if self.x(room) > 0 {
            seq![self.left_wall(room)]
        } else {
            Seq::empty()
        };
        let right = if self.x(room) < self.width - 1 {
            seq![self.right_wall(room)]
        } else {
            Seq::empty()
        };
        let top = if self.y(room) > 0 {
            seq![self.top_wall(room)]
        } else {
            Seq::empty()
        };
        let bottom = if self.y(room) < self.height - 1 {
            seq![self.bottom_wall(room)]
        } else {
            Seq::empty()
        };
        left + right + top + bottom
    }

    /// The room on the other side of `wall`, seen from `room`. It is meant
    /// for a wall of `walls_of(room)`; any other wall is read as the top
    /// wall.
    pub open spec fn neighbor_through(self, room: int, wall: int) -> int {
        if wall == self.right_wall(room) {
            room + 1
        } else if wall == self.bottom_wall(room) {
            room + self.width
        } else if wall == self.left_wall(room) {
            room - 1
        } else {
            room - self.width
        }
    }

    /// The room that owns the slot `wall`.
    pub open spec fn wall_owner(self, wall: int) -> int {
        wall / 2
    }

    /// The room on the far side of the slot `wall`: to the right of its
    /// owner for an even slot, below its owner for an odd one.
    pub open spec fn wall_far_room(self, wall: int) -> int {
        if wall % 2 == 0 {
            wall / 2 + 1
        } else {
            wall / 2 + self.width
        }
    }

    /// The slot `wall` lies between two rooms of the grid. The right slots
    /// of the last column and the bottom slots of the last row do not.
    pub open spec fn is_inner_wall(self, wall: int) -> bool {
        &&& self.has_wall(wall)
        &&& if wall % 2 == 0 {
            self.x(self.wall_owner(wall)) < self.width - 1
        } else {
            self.y(self.wall_owner(wall)) < self.height - 1
        }
    }

    /// The slot `wall` lies between the rooms `a` and `b`.
    pub open spec fn joins(self, wall: int, a: int, b: int) -> bool {
        &&& self.is_inner_wall(wall)
        &&& {
            ||| a == self.wall_owner(wall) && b == self.wall_far_room(wall)
            ||| b == self.wall_owner(wall) && a == self.wall_far_room(wall)
        }
    }
}

/// A grid has at least one room, and no more columns or rows than rooms.
pub proof fn lemma_room_count(grid: Grid)
    requires
        grid.valid(),
    ensures
        grid.room_count() >= 1,
        grid.width <= grid.room_count(),
        grid.height <= grid.room_count(),
{
    assert(grid.width * grid.height >= grid.width && grid.width * grid.height >= grid.height)
        by (nonlinear_arith)
        requires
            grid.width >= 1,
            grid.height >= 1,
    ;
}

/// A room of the grid has a column below the width and a row below the
/// height, and is numbered row by row.
pub proof fn lemma_room_coordinates(grid: Grid, room: int)
    requires
        grid.valid(),
        grid.has_room(room),
    ensures
        0 <= grid.x(room) < grid.width,
        0 <= grid.y(room) < grid.height,
        room == grid.y(room) * grid.width + grid.x(room),
{
    let w = grid.width;
    let h = grid.height;
    lemma_fundamental_div_mod(room, w);
    assert(w * (room / w) == (room / w) * w) by (nonlinear_arith);
    if room / w >= h {
        lemma_mul_inequality(h, room / w, w);
        assert(h * w == w * h) by (nonlinear_arith);
    }
    if room / w < 0 {
        lemma_mul_inequality(room / w, -1, w);
    }
}

/// The room in column `x` of row `y` has the number `y * width + x`.
pub proof fn lemma_room_at(grid: Grid, x: int, y: int)
    requires
        grid.valid(),
        0 <= x < grid.width,
        0 <= y < grid.height,
    ensures
        grid.has_room(y * grid.width + x),
        grid.x(y * grid.width + x) == x,
        grid.y(y * grid.width + x) == y,
{
    let w = grid.width;
    let h = grid.height;
    lemma_fundamental_div_mod_converse(y * w + x, w, y, x);
    lemma_mul_inequality(0, y, w);
    lemma_mul_inequality(y, h - 1, w);
    lemma_mul_is_distributive_add_other_way(w, h - 1, 1);
    assert(h * w == w * h) by (nonlinear_arith);
}

/// Every wall listed for a room lies between that room and the room that
/// `neighbor_through` gives for it, and that room is in the grid.
pub proof fn lemma_walls_of_join(grid: Grid, room: int, wall: int)
    requires
        grid.valid(),
        grid.has_room(room),
        grid.walls_of(room).contains(wall),
    ensures
        grid.has_wall(wall),
        grid.has_room(grid.neighbor_through(room, wall)),
        grid.neighbor_through(room, wall) != room,
        grid.joins(wall, room, grid.neighbor_through(room, wall)),
{
    let w = grid.width;
    let x = grid.x(room);
    let y = grid.y(room);
    lemma_room_coordinates(grid, room);
    lemma_mul_is_distributive_add_other_way(w, y, 1);
    lemma_mul_is_distributive_add_other_way(w, y - 1, 1);
    if x > 0 && wall == grid.left_wall(room) {
        lemma_room_at(grid, x - 1, y);
    } else if x < w - 1 && wall == grid.right_wall(room) {
        lemma_room_at(grid, x + 1, y);
    } else if y > 0 && wall == grid.top_wall(room) {
        lemma_room_at(grid, x, y - 1);
    } else {
        assert(y < grid.height - 1 && wall == grid.bottom_wall(room));
        lemma_room_at(grid, x, y + 1);
    }
}

/// A wall slot between two rooms has both of them in the grid, its owner
/// first.
pub proof fn lemma_inner_wall_rooms(grid: Grid, wall: int)
    requires
        grid.valid(),
        grid.is_inner_wall(wall),
    ensures
        grid.has_room(grid.wall_owner(wall)),
        grid.has_room(grid.wall_far_room(wall)),
        grid.wall_owner(wall) < grid.wall_far_room(wall),
{
    let room = grid.wall_owner(wall);
    let x = grid.x(room);
    let y = grid.y(room);
    lemma_room_coordinates(grid, room);
    lemma_mul_is_distributive_add_other_way(grid.width, y, 1);
    if wall % 2 == 0 {
        lemma_room_at(grid, x + 1, y);
    } else {
        lemma_room_at(grid, x, y + 1);
    }
}

/// A room that is not in the last column lists its right wall, and one that
/// is not in the last row lists its bottom wall.
pub proof fn lemma_walls_of_lists(grid: Grid, room: int)
    requires
        grid.valid(),
        grid.has_room(room),
    ensures
        grid.x(room) < grid.width - 1 ==> grid.walls_of(room).contains(grid.right_wall(room)),
        grid.y(room) < grid.height - 1 ==> grid.walls_of(room).contains(grid.bottom_wall(room)),
{
    let walls = grid.walls_of(room);
    let left: int = if grid.x(room) > 0 {
        1
    } else {
        0
    };
    let right: int = if grid.x(room) < grid.width - 1 {
        1
    } else {
        0
    };
    let top: int = if grid.y(room) > 0 {
        1
    } else {
        0
    };
    if grid.x(room) < grid.width - 1 {
        assert(walls[left] == grid.right_wall(room));
    }
    if grid.y(room) < grid.height - 1 {
        assert(walls[left + right + top] == grid.bottom_wall(room));
    }
}

} // verus!
