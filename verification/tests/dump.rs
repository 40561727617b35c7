use maze_generator::contract::MazeGeneratorContract;
use maze_generator::dump::{
    decode_values, find_data, is_white_space, parse_byte, read_dump, MalformedLine,
};
use maze_generator::packer::unpack_bits;

#[test]
fn finds_the_values_on_a_data_line() {
    assert_eq!(
        find_data("  Data Ok([146, 15])"),
        Some(String::from("146, 15"))
    );
    assert_eq!(find_data("Data Ok([7"), Some(String::from("7")));
    assert_eq!(
        find_data("x Data Ok([1,2 ,3 ] tail"),
        Some(String::from("1,2 ,3 "))
    );
}

#[test]
fn passes_over_other_lines() {
    assert_eq!(find_data(""), None);
    assert_eq!(find_data("Visit room 3"), None);
    assert_eq!(find_data("Data Ok(["), None);
    assert_eq!(find_data("Data Ok([])"), None);
    assert_eq!(find_data("Data Ok(146, 15)"), None);
    assert_eq!(find_data("data ok([1, 2])"), None);
    assert_eq!(find_data("146, 15"), None);
}

#[test]
fn takes_the_leftmost_match() {
    assert_eq!(
        find_data("Data Ok([x Data Ok([5, 6]) Data Ok([7])"),
        Some(String::from("5, 6"))
    );
}

#[test]
fn decodes_comma_separated_bytes() {
    assert_eq!(decode_values("146, 15"), Some(vec![146u8, 15u8]));
    assert_eq!(decode_values("0"), Some(vec![0u8]));
    assert_eq!(decode_values("255,0,7"), Some(vec![255u8, 0, 7]));
    assert_eq!(decode_values("  1 ,\t2 ,3  "), Some(vec![1u8, 2, 3]));
    assert_eq!(decode_values("007, +5"), Some(vec![7u8, 5]));
    assert_eq!(decode_values("000000000000000255"), Some(vec![255u8]));
}

#[test]
fn refuses_what_is_no_byte() {
    assert_eq!(decode_values(""), None);
    assert_eq!(decode_values(" "), None);
    assert_eq!(decode_values("1,"), None);
    assert_eq!(decode_values(",1"), None);
    assert_eq!(decode_values("1,,2"), None);
    assert_eq!(decode_values("256"), None);
    assert_eq!(decode_values("1000"), None);
    assert_eq!(decode_values("99999999999999999999"), None);
    assert_eq!(decode_values("-1"), None);
    assert_eq!(decode_values("+"), None);
    assert_eq!(decode_values("++1"), None);
    assert_eq!(decode_values("1 2"), None);
    assert_eq!(decode_values("12a"), None);
    assert_eq!(decode_values("0x10"), None);
    assert_eq!(decode_values("1, 2, "), None);
}

#[test]
fn decodes_as_the_standard_library_does() {
    let samples = [
        "1", " 1", "1 ", "+1", "+ 1", "-0", "0255", "2 5", "\u{a0}9\u{3000}", "\u{feff}9", "٣",
        "", "+", "25 5", "256", "255", "\n7\r\n", "1\u{2003}", "\u{200b}1",
    ];
    for sample in samples {
        let expected: Option<Vec<u8>> = sample.trim().parse::<u8>().ok().map(|byte| vec![byte]);
        assert_eq!(decode_values(sample), expected, "{:?}", sample);
    }
}

#[test]
fn white_space_is_what_char_says() {
    for code in 0u32..0x3100 {
        if let Some(c) = char::from_u32(code) {
            assert_eq!(is_white_space(c), c.is_whitespace(), "{:x}", code);
        }
    }
    assert!(!is_white_space('\u{feff}'));
    assert!(!is_white_space('\u{10ffff}'));
}

#[test]
fn parses_a_part_of_the_characters() {
    let chars: Vec<char> = "ab123,+45x".chars().collect();
    assert_eq!(parse_byte(&chars, 2, 5), Some(123));
    assert_eq!(parse_byte(&chars, 2, 4), Some(12));
    assert_eq!(parse_byte(&chars, 6, 9), Some(45));
    assert_eq!(parse_byte(&chars, 6, 7), None);
    assert_eq!(parse_byte(&chars, 3, 3), None);
    assert_eq!(parse_byte(&chars, 0, 5), None);
    assert_eq!(parse_byte(&chars, 2, 6), None);
    assert_eq!(parse_byte(&chars, 7, 10), None);
}

#[test]
fn reads_the_bits_of_a_log() {
    let lines = vec![
        String::from("Visit room 0"),
        String::from("Visit room 1"),
        String::from("  Data Ok([146, 15])"),
    ];
    let bits = read_dump(&lines).unwrap();
    assert_eq!(bits, unpack_bits(&vec![146u8, 15u8]));
    assert_eq!(
        bits,
        vec![
            false, true, false, false, true, false, false, true, true, true, true, true, false,
            false, false, false
        ]
    );
}

#[test]
fn reads_every_data_line_in_order() {
    let lines = vec![
        String::from("Data Ok([1"),
        String::from(""),
        String::from("again Data Ok([2, 3]"),
    ];
    assert_eq!(read_dump(&lines).unwrap(), unpack_bits(&vec![1u8, 2, 3]));
}

#[test]
fn log_without_data_gives_no_bits() {
    assert_eq!(read_dump(&Vec::new()), Ok(Vec::new()));
    let lines = vec![String::from("Visit room 0"), String::from("done")];
    assert_eq!(read_dump(&lines), Ok(Vec::new()));
}

#[test]
fn names_the_first_line_that_cannot_be_read() {
    let lines = vec![
        String::from("Data Ok([1, 2])"),
        String::from("Data Ok([3, 4, ])"),
        String::from("Data Ok([300])"),
    ];
    assert_eq!(read_dump(&lines), Err(MalformedLine { index: 1 }));
    let lines = vec![String::from("Data Ok([1, 2]), Data Ok([999])")];
    assert_eq!(read_dump(&lines), Ok(unpack_bits(&vec![1u8, 2])));
    let lines = vec![String::from("Data Ok([256])")];
    assert_eq!(read_dump(&lines), Err(MalformedLine { index: 0 }));
}

#[test]
fn a_printed_maze_reads_back() {
    let bytes = MazeGeneratorContract::new(5, 4, 77).unwrap().get();
    let line = format!("    Data Ok({:?})", bytes);
    let bits = read_dump(&vec![String::from("Visit room 0"), line]).unwrap();
    assert_eq!(bits, unpack_bits(&bytes));
}
