use maze_generator::packer::{pack, unpack, unpack_bits};

#[test]
fn closed_walls_set_their_bits() {
    assert_eq!(pack(&vec![false; 8]), vec![255u8]);
    assert_eq!(pack(&vec![true; 8]), vec![0u8]);
    assert_eq!(
        pack(&vec![false, true, true, true, true, true, true, true]),
        vec![1u8]
    );
    assert_eq!(
        pack(&vec![true, true, true, true, true, true, true, false]),
        vec![128u8]
    );
    assert_eq!(
        pack(&vec![true, false, true, true, false, true, true, false]),
        vec![146u8]
    );
}

#[test]
fn bits_past_the_last_wall_stay_clear() {
    assert_eq!(pack(&vec![false; 2]), vec![3u8]);
    assert_eq!(pack(&vec![false; 12]), vec![255u8, 15u8]);
    assert_eq!(pack(&vec![false; 9]), vec![255u8, 1u8]);
}

#[test]
fn nothing_packs_to_nothing() {
    assert_eq!(pack(&Vec::new()), Vec::<u8>::new());
    assert_eq!(unpack(&Vec::new(), 0), Some(Vec::new()));
    assert_eq!(unpack_bits(&Vec::new()), Vec::<bool>::new());
}

#[test]
fn packs_the_first_example_maze() {
    let open = vec![
        true, false, true, true, false, true, true, false, false, false, false, false,
    ];
    assert_eq!(pack(&open), vec![146u8, 15u8]);
    assert_eq!(unpack(&vec![146u8, 15u8], 12), Some(open));
}

#[test]
fn unpack_undoes_pack() {
    let mut state: u32 = 12345;
    for len in 0..70usize {
        let mut walls: Vec<bool> = Vec::new();
        for _ in 0..len {
            state = state.wrapping_mul(1103515245).wrapping_add(12345);
            walls.push((state >> 16) & 1 == 1);
        }
        let bytes = pack(&walls);
        assert_eq!(bytes.len(), (len + 7) / 8);
        assert_eq!(unpack(&bytes, len), Some(walls));
    }
}

#[test]
fn unpack_asks_for_the_right_number_of_bytes() {
    assert_eq!(unpack(&vec![0u8, 0u8], 8), None);
    assert_eq!(unpack(&vec![0u8], 9), None);
    assert_eq!(unpack(&Vec::new(), 1), None);
    assert_eq!(unpack(&vec![0u8], 0), None);
    assert_eq!(unpack(&vec![0u8], 1), Some(vec![true]));
    assert_eq!(unpack(&vec![255u8], 8), Some(vec![false; 8]));
}

#[test]
fn unpack_bits_gives_eight_bits_for_each_byte() {
    assert_eq!(
        unpack_bits(&vec![146u8]),
        vec![false, true, false, false, true, false, false, true]
    );
    assert_eq!(
        unpack_bits(&vec![1u8, 128u8]),
        vec![
            true, false, false, false, false, false, false, false, false, false, false, false,
            false, false, false, true
        ]
    );
    assert_eq!(unpack_bits(&vec![255u8, 0u8]).len(), 16);
}

#[test]
fn unpack_bits_is_the_negation_of_unpack() {
    let bytes = vec![178u8, 14u8];
    let bits = unpack_bits(&bytes);
    let open = unpack(&bytes, 12).unwrap();
    for i in 0..12 {
        assert_eq!(bits[i], !open[i]);
    }
    for i in 12..16 {
        assert!(!bits[i]);
    }
}
