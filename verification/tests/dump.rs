use bytefind::compile::{parse_pattern, Endian};
use bytefind::dump::dump_match;
use bytefind::search::{search_first, search_regex};

#[test]
fn dump_of_a_match_across_two_lines() {
    let data: Vec<u8> = (0u8..64).collect();
    let lines = dump_match(&data, 14, 4, 16, 1, "[", "]");
    assert_eq!(
        lines,
        vec![
            "00000000  00 01 02 03 04 05 06 07  08 09 0a 0b 0c 0d[ 0e][ 0f]  |..............[.][.]|",
            "00000010 [ 10][ 11] 12 13 14 15 16 17  18 19 1a 1b 1c 1d 1e 1f  |[.][.]..............|",
            "00000020  20 21 22 23 24 25 26 27  28 29 2a 2b 2c 2d 2e 2f  | !\"#$%&'()*+,-./|",
        ]
    );
}

#[test]
fn dump_near_the_end_has_blanks_and_a_marker() {
    let data = b"ABCDEFGHIJKLMNOPQRST";
    let lines = dump_match(data, 17, 3, 16, 2, "<", ">");
    let last = format!(
        "00000010  51< 52>< 53>< 54>{}  |Q<R><S><T>{}|",
        " ".repeat(4 * 3 + 1 + 8 * 3),
        " ".repeat(12)
    );
    assert_eq!(
        lines,
        vec![
            "00000000  41 42 43 44 45 46 47 48  49 4a 4b 4c 4d 4e 4f 50  |ABCDEFGHIJKLMNOP|"
                .to_string(),
            last,
            "(EOF)".to_string(),
        ]
    );
}

#[test]
fn dump_without_context_is_the_match_lines_only() {
    let data = [0x7fu8; 40];
    assert_eq!(
        dump_match(&data, 8, 2, 4, 0, "", ""),
        vec!["00000008  7f 7f  7f 7f  |....|"]
    );
}

#[test]
fn search_then_dump() {
    let pattern = parse_pattern("0x088b1f", Endian::Little).unwrap();
    let mut data = vec![0x2eu8; 3000];
    data[1022..1025].copy_from_slice(&[0x1f, 0x8b, 0x08]);
    data[2990..2993].copy_from_slice(&[0x1f, 0x8b, 0x08]);
    assert_eq!(search_first(&data, &pattern), Ok(1022));
    let offsets = search_regex(&data, &pattern).unwrap();
    assert_eq!(offsets, vec![1022, 2990]);
    let lines = dump_match(&data, offsets[0], pattern.len(), 8, 0, "{", "}");
    assert_eq!(
        lines,
        vec![
            "000003f8  2e 2e 2e 2e  2e 2e{ 1f}{ 8b}  |......{.}{.}|",
            "00000400 { 08} 2e 2e 2e  2e 2e 2e 2e  |{.}.......|",
        ]
    );
    let lines = dump_match(&data, offsets[1], pattern.len(), 8, 3, "{", "}");
    assert_eq!(lines.len(), 3 + 1 + 1 + 1);
    assert_eq!(lines[3], "00000ba8  2e 2e 2e 2e  2e 2e{ 1f}{ 8b}  |......{.}{.}|");
    assert_eq!(lines[4], "00000bb0 { 08} 2e 2e 2e  2e 2e 2e 2e  |{.}.......|");
    assert_eq!(lines[5], "(EOF)");
}
