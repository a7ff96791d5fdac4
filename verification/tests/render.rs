use bytefind::hex::{byte_from_digits, hex_char, hex_digit_value, push_byte_hex, push_hex};
use bytefind::render::render_line;

const RED: &str = "\x1b[91m";
const RESET: &str = "\x1b[0m";

#[test]
fn hex_char_gives_lower_case_digits() {
    let digits: String = (0u8..16).map(hex_char).collect();
    assert_eq!(digits, "0123456789abcdef");
}

#[test]
fn hex_digit_value_reads_either_case() {
    assert_eq!(hex_digit_value('0'), Some(0));
    assert_eq!(hex_digit_value('9'), Some(9));
    assert_eq!(hex_digit_value('a'), Some(10));
    assert_eq!(hex_digit_value('f'), Some(15));
    assert_eq!(hex_digit_value('A'), Some(10));
    assert_eq!(hex_digit_value('F'), Some(15));
    for c in ['g', 'G', '/', ':', '@', '`', ' ', '+', '-', 'x', '\u{ff10}'] {
        assert_eq!(hex_digit_value(c), None, "{:?}", c);
    }
    assert_eq!(byte_from_digits('8', 'b'), Some(0x8b));
    assert_eq!(byte_from_digits('F', 'f'), Some(0xff));
    assert_eq!(byte_from_digits('0', 'g'), None);
    assert_eq!(byte_from_digits(' ', '1'), None);
}

#[test]
fn push_hex_pads_to_the_width() {
    let mut s = String::from("@");
    push_hex(&mut s, 0x61bd72, 8);
    assert_eq!(s, "@0061bd72");
    let mut s = String::new();
    push_hex(&mut s, 0, 8);
    assert_eq!(s, "00000000");
    let mut s = String::new();
    push_hex(&mut s, 0, 0);
    assert_eq!(s, "0");
    let mut s = String::new();
    push_hex(&mut s, 0x1_2345_6789, 8);
    assert_eq!(s, "123456789");
    let mut s = String::new();
    push_hex(&mut s, u64::MAX, 3);
    assert_eq!(s, "ffffffffffffffff");
    let mut s = String::from("x");
    push_byte_hex(&mut s, 0x0a);
    push_byte_hex(&mut s, 0xf0);
    assert_eq!(s, "x0af0");
}

#[test]
fn full_line_without_highlight() {
    let line = render_line(0x10, b"Hello, world!\n\x00\xff", 16, 0, 0, RED, RESET).unwrap();
    assert_eq!(
        line,
        "00000010  48 65 6c 6c 6f 2c 20 77  6f 72 6c 64 21 0a 00 ff  |Hello, world!...|"
    );
}

#[test]
fn short_line_shows_blanks_not_zeros() {
    let line = render_line(0x20, &[0x1f, 0x8b, 0x08], 16, 0, 0, RED, RESET).unwrap();
    let expected = format!(
        "00000020  1f 8b 08{}  |...{}|",
        " ".repeat(5 * 3 + 1 + 8 * 3),
        " ".repeat(13)
    );
    assert_eq!(line, expected);
    assert!(!line.contains("00 "));
    assert_eq!(line.len(), 8 + 2 + 16 * 3 + 3 + 16 + 1);
}

#[test]
fn short_line_keeps_a_real_zero_byte() {
    let line = render_line(0, &[0x00, 0x41], 4, 0, 0, "", "").unwrap();
    let expected = format!("00000000  00 41{}  |.A  |", " ".repeat(1 + 2 * 3));
    assert_eq!(line, expected);
}

#[test]
fn highlighted_columns_are_wrapped() {
    let line = render_line(0, b"ABCD", 4, 1, 3, "[", "]").unwrap();
    assert_eq!(line, "00000000  41[ 42] [ 43] 44  |A[B][C]D|");
}

#[test]
fn highlight_uses_the_markers_given() {
    let line = render_line(0x61bd70, &[0, 0, 0x1f, 0x8b], 4, 2, 4, RED, RESET).unwrap();
    assert_eq!(
        line,
        "0061bd70  00 00 \x1b[91m 1f\x1b[0m\x1b[91m 8b\x1b[0m  |..\x1b[91m.\x1b[0m\x1b[91m.\x1b[0m|"
    );
}

#[test]
fn highlighted_blanks_are_wrapped_too() {
    let line = render_line(0, b"A", 4, 0, 4, "<", ">").unwrap();
    assert_eq!(line, "00000000 < 41><   > <   ><   >  |<A>< >< >< >|");
}

#[test]
fn lines_one_column_wide_have_no_groups() {
    assert_eq!(render_line(5, &[0x7f], 1, 0, 0, RED, RESET).unwrap(), "00000005 7f  |.|");
    assert_eq!(render_line(6, &[0x7e], 1, 0, 1, "<", ">").unwrap(), "00000006< 7e>  |<~>|");
}

#[test]
fn odd_widths_group_by_half_rounded_down() {
    assert_eq!(
        render_line(0, &[1, 2, 3], 3, 0, 0, RED, RESET).unwrap(),
        "00000000  01  02  03  |...|"
    );
    assert_eq!(
        render_line(0, &[0x20, 0x21, 0x22, 0x23, 0x24], 5, 0, 0, RED, RESET).unwrap(),
        "00000000  20 21  22 23  24  | !\"#$|"
    );
}

#[test]
fn nothing_is_rendered_for_an_empty_read() {
    assert_eq!(render_line(0x40, &[], 16, 0, 0, RED, RESET), None);
    assert_eq!(render_line(0x40, &[1], 0, 0, 0, RED, RESET).unwrap(), "00000040  ||");
}

#[test]
fn bytes_past_the_width_are_not_shown() {
    assert_eq!(
        render_line(0, &[0x30, 0x31, 0x32], 2, 0, 0, RED, RESET).unwrap(),
        "00000000  30  31  |01|"
    );
}

#[test]
fn offsets_past_four_gigabytes_get_more_digits() {
    let line = render_line(0x1_0000_0000, &[0x41], 1, 0, 0, "", "").unwrap();
    assert_eq!(line, "100000000 41  |A|");
}

#[test]
fn printable_range_is_space_to_tilde() {
    let line = render_line(0, &[0x1f, 0x20, 0x7e, 0x7f, 0x80], 5, 0, 0, "", "").unwrap();
    assert_eq!(line, "00000000  1f 20  7e 7f  80  |. ~..|");
}
