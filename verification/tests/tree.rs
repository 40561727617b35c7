use maze_generator::contract::MazeGeneratorContract;
use maze_generator::packer::unpack;

fn open_walls(width: i32, height: i32, seed: u32) -> Vec<bool> {
    let bytes = MazeGeneratorContract::new(width, height, seed).unwrap().get();
    unpack(&bytes, 2 * (width * height) as usize).unwrap()
}

fn neighbours(width: i32, height: i32, open: &Vec<bool>, room: i32) -> Vec<i32> {
    let x = room % width;
    let y = room / width;
    let mut found = Vec::new();
    if x > 0 && open[(2 * room - 2) as usize] {
        found.push(room - 1);
    }
    if x < width - 1 && open[(2 * room) as usize] {
        found.push(room + 1);
    }
    if y > 0 && open[(2 * room - 2 * width + 1) as usize] {
        found.push(room - width);
    }
    if y < height - 1 && open[(2 * room + 1) as usize] {
        found.push(room + width);
    }
    found
}

fn reached_from_first_room(width: i32, height: i32, open: &Vec<bool>) -> Vec<bool> {
    let mut reached = vec![false; (width * height) as usize];
    let mut pending = vec![0];
    reached[0] = true;
    while let Some(room) = pending.pop() {
        for next in neighbours(width, height, open, room) {
            if !reached[next as usize] {
                reached[next as usize] = true;
                pending.push(next);
            }
        }
    }
    reached
}

const GRIDS: [(i32, i32); 12] = [
    (1, 1),
    (1, 2),
    (2, 1),
    (1, 7),
    (7, 1),
    (2, 2),
    (3, 2),
    (2, 3),
    (2, 9),
    (9, 2),
    (6, 6),
    (13, 8),
];

#[test]
fn one_open_wall_less_than_rooms() {
    for (width, height) in GRIDS {
        for seed in [0u32, 1, 99, 0x123456] {
            let open = open_walls(width, height, seed);
            let count = open.iter().filter(|wall| **wall).count();
            assert_eq!(count as i32, width * height - 1);
        }
    }
}

#[test]
fn every_room_is_reached_from_the_first() {
    for (width, height) in GRIDS {
        for seed in [0u32, 1, 99, 0x123456] {
            let open = open_walls(width, height, seed);
            let reached = reached_from_first_room(width, height, &open);
            assert!(reached.iter().all(|room| *room));
        }
    }
}

#[test]
fn only_walls_between_two_rooms_are_open() {
    for (width, height) in GRIDS {
        let open = open_walls(width, height, 3);
        for room in 0..width * height {
            if room % width == width - 1 {
                assert!(!open[(2 * room) as usize]);
            }
            if room / width == height - 1 {
                assert!(!open[(2 * room + 1) as usize]);
            }
        }
    }
}

#[test]
fn open_walls_close_no_cycle() {
    for (width, height) in GRIDS {
        let open = open_walls(width, height, 17);
        let rooms = (width * height) as usize;
        let mut parent: Vec<i32> = vec![-1; rooms];
        let mut seen = vec![false; rooms];
        let mut pending = vec![0];
        seen[0] = true;
        while let Some(room) = pending.pop() {
            for next in neighbours(width, height, &open, room) {
                if next == parent[room as usize] {
                    continue;
                }
                assert!(!seen[next as usize]);
                seen[next as usize] = true;
                parent[next as usize] = room;
                pending.push(next);
            }
        }
    }
}

#[test]
fn tall_grid_is_carved_to_its_last_row() {
    let open = open_walls(2, 5, 42);
    let reached = reached_from_first_room(2, 5, &open);
    assert_eq!(reached, vec![true; 10]);
    assert!(open[13] || open[15]);
}
