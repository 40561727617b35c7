//! What a renderer draws of a maze: which walls, each as which figure and
//! with which stroke, and the marks on the first and the last room.

use vstd::prelude::*;

verus! {

/// Where a wall of the drawing lies.
#[derive(Debug, Clone, Copy, PartialEq, Eq, Structural)]
pub enum WallType {
    /// Between two rooms.
    Inner,
    /// On the border of the grid.
    Outer,
}

/// The figure that draws a wall.
#[derive(Debug, Clone, Copy, PartialEq, Eq, Structural)]
pub enum Figure {
    /// A straight line between the two ends of the wall.
    Line,
    /// An arc between the two ends, around the centre.
    Arc,
    /// A full circle around the centre.
    Circle,
}

/// The radius of the marks on the first and the last room.
pub const MARK_RADIUS: i32 = 16;

/// The stroke of a wall: an outer wall is three times as thick as an inner
/// one.
pub open spec fn stroke_of(kind: WallType) -> Seq<char> {
    match kind {
        WallType::Inner => "stroke:black;stroke-width:1"@,
        WallType::Outer => "stroke:black;stroke-width:3"@,
    }
}

/// The colour of the mark on `room`, if it has one: red on the first room of
/// the way, green on the last. A room that is both is the first.
pub open spec fn fill_of(room: int, start_room: int, target_room: int) -> Option<Seq<char>> {
    if room == start_room {
        Some("rgb(255,0,0)"@)
    } else if room == target_room {
        Some("rgb(0,255,0)"@)
    } else {
        None
    }
}

/// The stroke style of a wall of the kind `kind`.
pub fn wall_style(kind: WallType) -> (style: &'static str)
    ensures
        style@ == stroke_of(kind),
{
    match kind {
        WallType::Inner => "stroke:black;stroke-width:1",
        WallType::Outer => "stroke:black;stroke-width:3",
    }
}

/// Tells whether the wall with the slot `wall` is drawn. A wall without a
/// slot, which has a negative number, always is; any other is drawn where
/// `instance` has its slot set, which means that the wall is closed.
pub fn wall_is_drawn(wall: i32, instance: &Vec<bool>) -> (drawn: bool)
    requires
        wall < instance.len(),
    ensures
        drawn == (wall < 0 || instance[wall as int]),
{
    wall < 0 || instance[wall as usize]
}

/// The figure for a wall from `(x1, y1)` to `(x2, y2)`. In polar
/// coordinates `y` is the distance from the centre, so a wall that keeps
/// its distance is an arc, and a full circle where its two ends meet.
/// Every other wall is a line.
pub fn wall_figure(is_polar: bool, x1: i32, y1: i32, x2: i32, y2: i32) -> (figure: Figure)
    ensures
        figure == if is_polar && y1 == y2 {
            if x1 == x2 {
                Figure::Circle
            } else {
                Figure::Arc
            }
        } else {
            Figure::Line
        },
{
    if is_polar && y1 == y2 {
        if x1 == x2 {
            Figure::Circle
        } else {
            Figure::Arc
        }
    } else {
        Figure::Line
    }
}

/// The colour of the mark on `room`, or `None` for a room without a mark.
pub fn mark_fill(room: i32, start_room: i32, target_room: i32) -> (fill: Option<&'static str>)
    ensures
        fill matches Some(colour) ==> fill_of(room as int, start_room as int, target_room as int)
            == Some(colour@),
        fill is None ==> fill_of(room as int, start_room as int, target_room as int) is None,
{
    if room == start_room {
        Some("rgb(255,0,0)")
    } else if room == target_room {
        Some("rgb(0,255,0)")
    } else {
        None
    }
}

} // verus!
