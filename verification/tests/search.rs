use bytefind::matcher::{escape, Matcher, SearchError};
use bytefind::pattern::Pattern;
use bytefind::scanner::{Mode, Scanner, Step, CHUNK_SIZE};
use bytefind::search::{scan, search_first, search_regex};

fn pattern(bytes: &[u8]) -> Pattern {
    Pattern::new(bytes.to_vec()).unwrap()
}

fn image(len: usize, at: &[usize], bytes: &[u8]) -> Vec<u8> {
    let mut data = vec![0u8; len];
    for &p in at {
        data[p..p + bytes.len()].copy_from_slice(bytes);
    }
    data
}

#[test]
fn test_search_regex() {
    let gzip = [0x1f, 0x8b, 0x08];
    let data = image(0x0085aba2 + 77, &[0x0061bd72, 0x006b7b9e, 0x0085ab9f], &gzip);
    let offsets = search_regex(&data, &pattern(&gzip)).unwrap();
    assert_eq!(offsets, vec![0x0061bd72, 0x006b7b9e, 0x0085ab9f]);
}

#[test]
fn gzip_magic_is_the_first_match() {
    let gzip = [0x1f, 0x8b, 0x08];
    let data = image(0x0061bd72 + 4096, &[0x0061bd72, 0x0061bd72 + 2000], &gzip);
    assert_eq!(search_first(&data, &pattern(&gzip)), Ok(0x0061bd72));
    assert_eq!(
        search_regex(&data, &pattern(&gzip)),
        Ok(vec![0x0061bd72, 0x0061bd72 + 2000])
    );
}

#[test]
fn escape_writes_hex_escapes() {
    assert_eq!(escape(&[0x1f, 0x8b, 0x08]), "\\x1f\\x8b\\x08");
    assert_eq!(escape(&[0x00, 0xff, 0x0a]), "\\x00\\xff\\x0a");
    assert_eq!(escape(&[]), "");
}

#[test]
fn matches_around_chunk_boundaries() {
    for k in [1usize, 2, 3, 4, 7, 16, 64] {
        let bytes: Vec<u8> = (0..k).map(|i| 0xa0 + (i as u8 % 16)).collect();
        for p in [
            CHUNK_SIZE - k,
            CHUNK_SIZE - 1,
            CHUNK_SIZE,
            CHUNK_SIZE + 1,
            2 * CHUNK_SIZE - k,
            2 * CHUNK_SIZE - k + 1,
            2 * CHUNK_SIZE,
        ] {
            let data = image(3 * CHUNK_SIZE + 5, &[p], &bytes);
            assert_eq!(
                search_regex(&data, &pattern(&bytes)),
                Ok(vec![p as u64]),
                "k = {}, p = {}",
                k,
                p
            );
        }
    }
}

#[test]
fn pattern_at_the_end_is_found() {
    let bytes = [0xde, 0xad, 0xbe, 0xef];
    for len in [4usize, 5, 1023, 1024, 1025, 1027, 2047, 2048, 2051, 5000] {
        let data = image(len, &[len - 4], &bytes);
        assert_eq!(
            search_regex(&data, &pattern(&bytes)),
            Ok(vec![(len - 4) as u64]),
            "len = {}",
            len
        );
    }
}

#[test]
fn pattern_longer_than_the_source_is_not_found() {
    let bytes = [1u8, 2, 3, 4];
    assert_eq!(search_regex(&[1, 2, 3], &pattern(&bytes)), Err(SearchError::NotFound));
    assert_eq!(search_regex(&[], &pattern(&bytes)), Err(SearchError::NotFound));
    assert_eq!(search_first(&[1, 2, 3], &pattern(&bytes)), Err(SearchError::NotFound));
}

#[test]
fn pattern_longer_than_a_chunk_is_not_found() {
    let bytes = vec![7u8; CHUNK_SIZE + 1];
    let data = vec![7u8; 4 * CHUNK_SIZE];
    assert_eq!(search_regex(&data, &pattern(&bytes)), Err(SearchError::NotFound));
}

#[test]
fn all_disjoint_occurrences_are_reported_once() {
    let bytes = [0xca, 0xfe, 0xba, 0xbe, 0x01];
    let at: Vec<usize> = (0..40).map(|i| 3 + i * 257).collect();
    let data = image(41 * 257, &at, &bytes);
    let expected: Vec<u64> = at.iter().map(|&p| p as u64).collect();
    assert_eq!(search_regex(&data, &pattern(&bytes)), Ok(expected));
}

#[test]
fn adjacent_occurrences_are_all_reported() {
    let bytes = [0x11, 0x22];
    let mut data = Vec::new();
    for _ in 0..1500 {
        data.extend_from_slice(&bytes);
    }
    let expected: Vec<u64> = (0..1500).map(|i| 2 * i as u64).collect();
    assert_eq!(search_regex(&data, &pattern(&bytes)), Ok(expected));
}

#[test]
fn overlapping_occurrences_follow_the_windows() {
    let data = vec![0x61u8; 1026];
    let found = search_regex(&data, &pattern(&[0x61, 0x61])).unwrap();
    let mut expected: Vec<u64> = (0..512).map(|i| 2 * i as u64).collect();
    expected.push(1023);
    assert_eq!(found, expected);
    assert!(found.windows(2).all(|w| w[0] < w[1]));
}

#[test]
fn bytes_that_are_special_in_expressions_match_literally() {
    let bytes = *b".*+?()[]{}|\\^$";
    let mut data = vec![b'a'; 300];
    data[100..100 + bytes.len()].copy_from_slice(&bytes);
    assert_eq!(search_regex(&data, &pattern(&bytes)), Ok(vec![100]));
    let high = [0xff, 0xfe, 0x80, 0x00, 0x0a];
    let data = image(2000, &[1022], &high);
    assert_eq!(search_regex(&data, &pattern(&high)), Ok(vec![1022]));
}

#[test]
fn scanner_asks_for_overlapping_windows() {
    let bytes = [9u8, 9, 9];
    let data = image(2500, &[1023], &bytes);
    let matcher = Matcher::new(&pattern(&bytes)).unwrap();
    let mut scanner = Scanner::new(matcher, data.len() as u64, Mode::All);
    let mut reads = Vec::new();
    loop {
        match scanner.next_step() {
            Step::Finished => break,
            Step::Read { offset, len } => {
                assert_eq!(len, CHUNK_SIZE);
                reads.push(offset);
                let from = offset as usize;
                let to = usize::min(from + len, data.len());
                scanner.feed(&data[from..to]);
            }
        }
    }
    assert_eq!(reads, vec![0, 1022, 2044, 2498, 2497, 2498]);
    assert_eq!(scanner.offsets(), &vec![1023]);
    assert_eq!(scanner.into_offsets(), vec![1023]);
}

#[test]
fn scanner_stops_at_the_first_match() {
    let bytes = [5u8, 6];
    let data = image(4000, &[10, 20, 3000], &bytes);
    let matcher = Matcher::new(&pattern(&bytes)).unwrap();
    assert_eq!(scan(matcher, &data, Mode::First), vec![10]);
    let matcher = Matcher::new(&pattern(&bytes)).unwrap();
    let mut scanner = Scanner::new(matcher, data.len() as u64, Mode::First);
    assert_eq!(scanner.next_step(), Step::Read { offset: 0, len: CHUNK_SIZE });
    scanner.feed(&data[0..1024]);
    assert_eq!(scanner.next_step(), Step::Finished);
    scanner.feed(&data[0..1024]);
    assert_eq!(scanner.offsets(), &vec![10]);
    assert_eq!(scanner.into_offsets(), vec![10]);
}

#[test]
fn matcher_finds_leftmost_successive_occurrences() {
    let matcher = Matcher::new(&pattern(&[1, 1])).unwrap();
    assert_eq!(matcher.len(), 2);
    assert_eq!(matcher.find_in(&[1, 1, 1, 0, 1, 1, 1, 1, 1]), vec![0, 4, 6]);
    assert_eq!(matcher.find_in(&[0, 1, 0]), Vec::<usize>::new());
    assert_eq!(matcher.find_in(&[]), Vec::<usize>::new());
}

#[test]
fn pattern_that_the_engine_refuses_is_invalid() {
    let bytes = vec![0x5au8; 1 << 20];
    let data = vec![0u8; 16];
    assert_eq!(search_regex(&data, &pattern(&bytes)), Err(SearchError::InvalidPattern));
    assert_eq!(search_first(&data, &pattern(&bytes)), Err(SearchError::InvalidPattern));
    assert!(Matcher::new(&pattern(&bytes)).is_err());
}

#[test]
fn scanner_ends_on_an_empty_source() {
    let matcher = Matcher::new(&pattern(&[1])).unwrap();
    let mut scanner = Scanner::new(matcher, 0, Mode::All);
    assert_eq!(scanner.next_step(), Step::Read { offset: 0, len: CHUNK_SIZE });
    scanner.feed(&[]);
    assert_eq!(scanner.next_step(), Step::Finished);
    assert!(scanner.into_offsets().is_empty());
}

#[test]
fn scanner_looks_at_the_tail_once_after_a_short_read() {
    let bytes = [3u8, 4, 5, 6];
    let data = image(10, &[6], &bytes);
    let matcher = Matcher::new(&pattern(&bytes)).unwrap();
    let mut scanner = Scanner::new(matcher, 10, Mode::All);
    // A read that comes back short sends the scanner to the last bytes of the source.
    scanner.feed(&data[0..2]);
    assert_eq!(scanner.next_step(), Step::Read { offset: 6, len: CHUNK_SIZE });
    scanner.feed(&data[6..10]);
    assert_eq!(scanner.offsets(), &vec![6]);
    assert_eq!(scanner.next_step(), Step::Read { offset: 7, len: CHUNK_SIZE });
    scanner.feed(&data[7..10]);
    assert_eq!(scanner.next_step(), Step::Finished);
    assert_eq!(scanner.into_offsets(), vec![6]);
}

#[test]
fn scanner_gives_up_on_a_source_shorter_than_the_pattern() {
    let matcher = Matcher::new(&pattern(&[1, 2, 3, 4])).unwrap();
    let mut scanner = Scanner::new(matcher, 3, Mode::All);
    scanner.feed(&[1, 2, 3]);
    assert_eq!(scanner.next_step(), Step::Finished);
    assert!(scanner.into_offsets().is_empty());
}
