use maze_generator::drawing::{
    mark_fill, wall_figure, wall_is_drawn, wall_style, Figure, WallType, MARK_RADIUS,
};

#[test]
fn outer_walls_are_thicker() {
    assert_eq!(wall_style(WallType::Inner), "stroke:black;stroke-width:1");
    assert_eq!(wall_style(WallType::Outer), "stroke:black;stroke-width:3");
}

#[test]
fn walls_without_a_slot_are_always_drawn() {
    assert!(wall_is_drawn(-1, &Vec::new()));
    assert!(wall_is_drawn(-1, &vec![false, false]));
    assert!(wall_is_drawn(i32::MIN, &vec![false]));
}

#[test]
fn closed_walls_are_drawn_and_open_ones_are_not() {
    let instance = vec![true, false, true];
    assert!(wall_is_drawn(0, &instance));
    assert!(!wall_is_drawn(1, &instance));
    assert!(wall_is_drawn(2, &instance));
}

#[test]
fn rectangular_walls_are_lines() {
    assert_eq!(wall_figure(false, 0, 0, 1, 0), Figure::Line);
    assert_eq!(wall_figure(false, 1, 1, 1, 1), Figure::Line);
    assert_eq!(wall_figure(false, 0, 0, 0, 1), Figure::Line);
}

#[test]
fn polar_walls_at_one_distance_are_arcs_or_circles() {
    assert_eq!(wall_figure(true, 0, 3, 2, 3), Figure::Arc);
    assert_eq!(wall_figure(true, 2, 3, 2, 3), Figure::Circle);
    assert_eq!(wall_figure(true, 2, 3, 2, 4), Figure::Line);
    assert_eq!(wall_figure(true, 1, 3, 2, 4), Figure::Line);
}

#[test]
fn first_room_is_red_and_last_room_green() {
    assert_eq!(mark_fill(0, 0, 5), Some("rgb(255,0,0)"));
    assert_eq!(mark_fill(5, 0, 5), Some("rgb(0,255,0)"));
    assert_eq!(mark_fill(3, 0, 5), None);
    assert_eq!(mark_fill(0, 0, 0), Some("rgb(255,0,0)"));
    assert_eq!(MARK_RADIUS, 16);
}
