use maze_generator::builder::MazeBuilder;

#[test]
fn walls_of_a_corner_room() {
    let builder = MazeBuilder::new(3, 2, 0).unwrap();
    assert_eq!(builder.get_walls(0), vec![0, 1]);
    assert_eq!(builder.get_walls(2), vec![2, 5]);
    assert_eq!(builder.get_walls(3), vec![6, 1]);
    assert_eq!(builder.get_walls(5), vec![8, 5]);
}

#[test]
fn walls_of_an_edge_room() {
    let builder = MazeBuilder::new(3, 2, 0).unwrap();
    assert_eq!(builder.get_walls(1), vec![0, 2, 3]);
    assert_eq!(builder.get_walls(4), vec![6, 8, 3]);
}

#[test]
fn walls_of_an_inner_room_come_left_right_top_bottom() {
    let builder = MazeBuilder::new(3, 3, 0).unwrap();
    assert_eq!(builder.get_walls(4), vec![6, 8, 3, 9]);
}

#[test]
fn bottom_wall_goes_by_the_height() {
    let tall = MazeBuilder::new(2, 5, 0).unwrap();
    assert_eq!(tall.get_walls(2), vec![4, 1, 5]);
    assert_eq!(tall.get_walls(6), vec![12, 9, 13]);
    assert_eq!(tall.get_walls(8), vec![16, 13]);
    let wide = MazeBuilder::new(5, 2, 0).unwrap();
    assert_eq!(wide.get_walls(0), vec![0, 1]);
    assert_eq!(wide.get_walls(5), vec![10, 1]);
    assert_eq!(wide.get_walls(7), vec![12, 14, 5]);
}

#[test]
fn single_room_has_no_walls_to_leave_by() {
    let builder = MazeBuilder::new(1, 1, 0).unwrap();
    assert_eq!(builder.get_walls(0), Vec::<i32>::new());
}

#[test]
fn single_column_and_single_row() {
    let column = MazeBuilder::new(1, 3, 0).unwrap();
    assert_eq!(column.get_walls(0), vec![1]);
    assert_eq!(column.get_walls(1), vec![1, 3]);
    assert_eq!(column.get_walls(2), vec![3]);
    assert_eq!(column.get_room_behind_wall(1, 1), 0);
    assert_eq!(column.get_room_behind_wall(1, 3), 2);
    let row = MazeBuilder::new(3, 1, 0).unwrap();
    assert_eq!(row.get_walls(0), vec![0]);
    assert_eq!(row.get_walls(1), vec![0, 2]);
    assert_eq!(row.get_walls(2), vec![2]);
}

#[test]
fn room_behind_each_wall() {
    let builder = MazeBuilder::new(3, 3, 0).unwrap();
    assert_eq!(builder.get_room_behind_wall(4, 8), 5);
    assert_eq!(builder.get_room_behind_wall(4, 9), 7);
    assert_eq!(builder.get_room_behind_wall(4, 6), 3);
    assert_eq!(builder.get_room_behind_wall(4, 3), 1);
}

#[test]
fn any_other_wall_is_read_as_the_top_wall() {
    let builder = MazeBuilder::new(3, 3, 0).unwrap();
    assert_eq!(builder.get_room_behind_wall(4, 100), 1);
    assert_eq!(builder.get_room_behind_wall(0, -7), -3);
}

#[test]
fn every_listed_wall_leads_to_a_neighbour_and_back() {
    let (width, height) = (4, 3);
    let builder = MazeBuilder::new(width, height, 0).unwrap();
    for room in 0..width * height {
        for wall in builder.get_walls(room) {
            let other = builder.get_room_behind_wall(room, wall);
            assert!(0 <= other && other < width * height);
            assert!(builder.get_walls(other).contains(&wall));
            assert_eq!(builder.get_room_behind_wall(other, wall), room);
        }
    }
}
