use bytefind::compile::{is_whitespace, parse_chars, parse_pattern, Endian, PatternError};
use bytefind::pattern::Pattern;

fn bytes(text: &str, endian: Endian) -> Result<Vec<u8>, PatternError> {
    parse_pattern(text, endian).map(|p| p.as_bytes().to_vec())
}

#[test]
fn little_endian_word_is_the_byte_list() {
    assert_eq!(bytes("0x088b1f", Endian::Little), Ok(vec![0x1f, 0x8b, 0x08]));
    assert_eq!(bytes("1f 8b 08", Endian::Big), Ok(vec![0x1f, 0x8b, 0x08]));
    assert_eq!(bytes("0x088b1f", Endian::Little), bytes("1f 8b 08", Endian::Big));
}

#[test]
fn big_endian_word_keeps_its_order() {
    assert_eq!(bytes("0x088b1f", Endian::Big), Ok(vec![0x08, 0x8b, 0x1f]));
    assert_eq!(bytes("0X1F8B", Endian::Big), Ok(vec![0x1f, 0x8b]));
    assert_eq!(bytes("  0xDeadBEEF \n", Endian::Big), Ok(vec![0xde, 0xad, 0xbe, 0xef]));
}

#[test]
fn odd_word_is_padded_on_the_left() {
    assert_eq!(bytes("0xabc", Endian::Big), Ok(vec![0x0a, 0xbc]));
    assert_eq!(bytes("0xabc", Endian::Little), Ok(vec![0xbc, 0x0a]));
    assert_eq!(bytes("0xf", Endian::Big), Ok(vec![0x0f]));
    assert_eq!(bytes("0x1f", Endian::Little), Ok(vec![0x1f]));
}

#[test]
fn byte_list_ignores_the_endianness() {
    assert_eq!(bytes("1f 8b 08", Endian::Little), Ok(vec![0x1f, 0x8b, 0x08]));
    assert_eq!(bytes("a b c", Endian::Big), Ok(vec![0x0a, 0x0b, 0x0c]));
    assert_eq!(bytes(" \t1F\u{a0}8B\r\n08\u{3000}", Endian::Big), Ok(vec![0x1f, 0x8b, 0x08]));
    assert_eq!(bytes("0", Endian::Big), Ok(vec![0]));
    assert_eq!(bytes("00 0 0x", Endian::Big), Err(PatternError::NotHex { from: 5, to: 7 }));
}

#[test]
fn text_without_a_byte_is_empty() {
    assert_eq!(bytes("", Endian::Big), Err(PatternError::Empty));
    assert_eq!(bytes(" \t\n", Endian::Big), Err(PatternError::Empty));
    assert_eq!(bytes("0x", Endian::Big), Err(PatternError::Empty));
    assert_eq!(bytes(" 0X ", Endian::Little), Err(PatternError::Empty));
}

#[test]
fn anything_but_hexadecimal_is_refused() {
    for (text, from, to) in [
        ("zz", 0, 2),
        ("1f 8b0", 3, 6),
        ("1f,8b", 0, 5),
        ("+f", 0, 2),
        ("-1", 0, 2),
        ("0x1g", 0, 4),
        ("0x1f 8b", 5, 7),
        ("0x 1f", 3, 5),
        ("1f 0x8b", 3, 7),
        ("x1f", 0, 3),
        ("1f\u{e9}", 0, 3),
        ("0x\u{ff11}\u{ff12}", 0, 4),
        ("0x+f", 0, 4),
        ("123", 0, 3),
        ("  zz ", 2, 4),
        ("\u{3000}1f\tg8 zz", 4, 6),
        (" 0Xfg\n", 1, 5),
    ] {
        let expected = Err(PatternError::NotHex { from, to });
        assert_eq!(bytes(text, Endian::Big), expected, "{:?}", text);
        assert_eq!(bytes(text, Endian::Little), expected, "{:?}", text);
    }
}

#[test]
fn parse_chars_reads_the_same_grammar() {
    let chars: Vec<char> = "0x0102".chars().collect();
    assert_eq!(parse_chars(&chars, Endian::Little).unwrap().as_bytes(), &[2, 1]);
    let chars: Vec<char> = "01 02".chars().collect();
    assert_eq!(parse_chars(&chars, Endian::Little).unwrap().as_bytes(), &[1, 2]);
    assert_eq!(parse_chars(&[], Endian::Big).err(), Some(PatternError::Empty));
}

#[test]
fn white_space_is_what_unicode_says() {
    for c in [
        '\t', '\n', '\u{b}', '\u{c}', '\r', ' ', '\u{85}', '\u{a0}', '\u{1680}', '\u{2000}',
        '\u{200a}', '\u{2028}', '\u{2029}', '\u{202f}', '\u{205f}', '\u{3000}',
    ] {
        assert!(is_whitespace(c), "{:?}", c);
    }
    for c in ['\u{8}', '\u{e}', '\u{1f}', '!', '0', '\u{84}', '\u{200b}', '\u{feff}', '\u{180e}'] {
        assert!(!is_whitespace(c), "{:?}", c);
    }
    let mut c = 0u32;
    while c < 0x11_0000 {
        if let Some(ch) = char::from_u32(c) {
            assert_eq!(is_whitespace(ch), ch.is_whitespace(), "{:x}", c);
        }
        c += 1;
    }
}

#[test]
fn pattern_has_at_least_one_byte() {
    assert!(Pattern::new(Vec::new()).is_none());
    let p = Pattern::new(vec![0x1f, 0x8b, 0x08]).unwrap();
    assert_eq!(p.as_bytes(), &[0x1f, 0x8b, 0x08]);
    assert_eq!(p.len(), 3);
}
