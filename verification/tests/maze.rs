use maze_generator::builder::MazeBuilder;
use maze_generator::contract::MazeGeneratorContract;
use maze_generator::error::MazeError;
use maze_generator::packer::unpack;
use maze_generator::rng::lcg_next;

#[test]
fn it_works() {
    let maze_generator_contract = MazeGeneratorContract::new(3, 2, 0).unwrap();
    assert_eq!(maze_generator_contract.get(), vec![146u8, 15u8]);
}

#[test]
fn it_works_with_different_randomness() {
    let maze_generator_contract = MazeGeneratorContract::new(3, 2, 0x123456).unwrap();
    assert_eq!(maze_generator_contract.get(), vec![178u8, 14u8]);
}

#[test]
fn lcg_works() {
    let mut state: u32 = 1;
    let r1 = lcg_next(&mut state, 6);
    assert_eq!(state, 48271u32);
    assert_eq!(r1, 1u32);
    let r2 = lcg_next(&mut state, 6);
    assert_eq!(r2, 0u32);
}

#[test]
fn lcg_follows_the_congruence() {
    let mut state: u32 = 182605794;
    assert_eq!(lcg_next(&mut state, 10), 6);
    assert_eq!(state, 1291394886);
    assert_eq!(lcg_next(&mut state, 1), 0);
    assert_eq!(state, 1914720637);
    assert_eq!(lcg_next(&mut state, u32::MAX), 2078669041);
    assert_eq!(state, 2078669041);
}

#[test]
fn lcg_state_zero_is_a_fixed_point() {
    let mut state: u32 = 0;
    assert_eq!(lcg_next(&mut state, 3), 0);
    assert_eq!(state, 0);
    let mut state: u32 = 0x7fff_ffff;
    assert_eq!(lcg_next(&mut state, 3), 0);
    assert_eq!(state, 0);
}

#[test]
fn lcg_takes_states_above_the_modulus() {
    let mut state: u32 = u32::MAX;
    assert_eq!(lcg_next(&mut state, 6), 1);
    assert_eq!(state, 48271);
    let mut state: u32 = 2147483646;
    assert_eq!(lcg_next(&mut state, 3), 0);
    assert_eq!(state, 2147435376);
}

#[test]
fn single_room_has_both_slots_closed() {
    let maze = MazeGeneratorContract::new(1, 1, 0).unwrap();
    assert_eq!(maze.get(), vec![3u8]);
    let other_seed = MazeGeneratorContract::new(1, 1, 7).unwrap();
    assert_eq!(other_seed.get(), vec![3u8]);
    assert_eq!(unpack(&maze.get(), 2), Some(vec![false, false]));
}

#[test]
fn same_inputs_give_the_same_bytes() {
    for seed in [0u32, 1, 48271, 0x123456, u32::MAX] {
        let first = MazeGeneratorContract::new(7, 5, seed).unwrap().get();
        let second = MazeGeneratorContract::new(7, 5, seed).unwrap().get();
        assert_eq!(first, second);
    }
}

#[test]
fn get_returns_the_stored_bytes_every_time() {
    let maze = MazeGeneratorContract::new(4, 4, 2024).unwrap();
    assert_eq!(maze.get(), vec![90u8, 108, 104, 250]);
    assert_eq!(maze.get(), vec![90u8, 108, 104, 250]);
}

#[test]
fn known_mazes() {
    let bytes = |width: i32, height: i32, seed: u32| {
        MazeGeneratorContract::new(width, height, seed).unwrap().get()
    };
    assert_eq!(bytes(2, 2, 1), vec![236u8]);
    assert_eq!(bytes(2, 5, 42), vec![86u8, 69, 15]);
    assert_eq!(bytes(5, 2, 42), vec![6u8, 233, 15]);
    assert_eq!(bytes(1, 4, 9), vec![213u8]);
    assert_eq!(bytes(4, 1, 9), vec![234u8]);
    assert_eq!(
        bytes(7, 5, 123456789),
        vec![6u8, 83, 77, 149, 229, 113, 195, 170, 59]
    );
    assert_eq!(
        bytes(10, 10, 1),
        vec![
            73u8, 40, 174, 55, 69, 90, 92, 69, 149, 94, 89, 134, 103, 89, 198, 60, 235, 22, 46,
            106, 133, 21, 166, 235, 250
        ]
    );
}

#[test]
fn packed_length_is_one_byte_for_eight_slots() {
    for (width, height) in [(1, 1), (2, 2), (3, 2), (2, 3), (4, 4), (5, 3), (9, 7)] {
        let bytes = MazeGeneratorContract::new(width, height, 5).unwrap().get();
        let slots = 2 * (width as usize) * (height as usize);
        assert_eq!(bytes.len(), (slots + 7) / 8);
    }
}

#[test]
fn dimensions_below_one_are_refused() {
    assert_eq!(MazeBuilder::new(0, 3, 1).err(), Some(MazeError::InvalidDimension));
    assert_eq!(MazeBuilder::new(3, 0, 1).err(), Some(MazeError::InvalidDimension));
    assert_eq!(MazeBuilder::new(-1, 3, 1).err(), Some(MazeError::InvalidDimension));
    assert_eq!(MazeBuilder::new(3, i32::MIN, 1).err(), Some(MazeError::InvalidDimension));
    assert_eq!(MazeBuilder::new(0, 0, 1).err(), Some(MazeError::InvalidDimension));
    assert_eq!(
        MazeGeneratorContract::new(0, 1, 1).err(),
        Some(MazeError::InvalidDimension)
    );
    assert_eq!(
        MazeGeneratorContract::new(i32::MAX, -5, 1).err(),
        Some(MazeError::InvalidDimension)
    );
}

#[test]
fn grids_with_too_many_walls_are_refused() {
    assert_eq!(
        MazeBuilder::new(i32::MAX, i32::MAX, 1).err(),
        Some(MazeError::CapacityOverflow)
    );
    assert_eq!(
        MazeBuilder::new(65536, 32768, 1).err(),
        Some(MazeError::CapacityOverflow)
    );
    assert_eq!(
        MazeBuilder::new(1 << 30, 1, 1).err(),
        Some(MazeError::CapacityOverflow)
    );
    assert_eq!(
        MazeGeneratorContract::new(1, 1 << 30, 1).err(),
        Some(MazeError::CapacityOverflow)
    );
    assert_eq!(
        MazeGeneratorContract::new(46341, 46341, 1).err(),
        Some(MazeError::CapacityOverflow)
    );
}

#[test]
fn error_messages() {
    assert_eq!(
        MazeError::InvalidDimension.message(),
        "width and height must be at least 1"
    );
    assert_eq!(
        MazeError::CapacityOverflow.message(),
        "the grid has too many walls"
    );
}

#[test]
fn builder_counts_two_slots_for_every_room() {
    assert_eq!(MazeBuilder::new(3, 2, 0).unwrap().wall_count(), 12);
    assert_eq!(MazeBuilder::new(1, 1, 0).unwrap().wall_count(), 2);
    assert_eq!(MazeBuilder::new(10, 7, 0).unwrap().wall_count(), 140);
}

#[test]
fn fresh_builder_packs_to_all_walls_closed() {
    let builder = MazeBuilder::new(3, 2, 0).unwrap();
    assert_eq!(builder.pack_result(), vec![255u8, 15u8]);
}

#[test]
fn building_again_changes_nothing() {
    let mut builder = MazeBuilder::new(4, 4, 2024).unwrap();
    let first = builder.build();
    assert_eq!(first, vec![90u8, 108, 104, 250]);
    let second = builder.build();
    assert_eq!(second, first);
    assert_eq!(builder.pack_result(), first);
}

#[test]
fn visiting_a_room_closes_it_to_the_walk() {
    let mut builder = MazeBuilder::new(3, 2, 0).unwrap();
    assert_eq!(builder.find_all_possible_next_rooms(0), vec![0, 1]);
    builder.visit_room(1);
    assert_eq!(builder.find_all_possible_next_rooms(0), vec![1]);
    builder.visit_room(3);
    assert_eq!(builder.find_all_possible_next_rooms(0), Vec::<i32>::new());
    assert_eq!(builder.find_all_possible_next_rooms(4), vec![8]);
}
