use bytefind::layout::{plan_dump, Row};

fn line(start: u64, from: usize, to: usize) -> Row {
    Row::Line { start, from, to }
}

#[test]
fn match_across_two_lines_is_highlighted_on_both() {
    assert_eq!(plan_dump(14, 4, 16, 0, 100), vec![line(0, 14, 16), line(16, 0, 2)]);
}

#[test]
fn context_lines_surround_the_match() {
    assert_eq!(
        plan_dump(40, 3, 16, 2, 60),
        vec![line(0, 0, 0), line(16, 0, 0), line(32, 8, 11), line(48, 0, 0), Row::EndOfFile]
    );
}

#[test]
fn context_before_is_clipped_at_the_start() {
    assert_eq!(
        plan_dump(5, 2, 16, 3, 1000),
        vec![line(0, 5, 7), line(16, 0, 0), line(32, 0, 0), line(48, 0, 0)]
    );
    assert_eq!(
        plan_dump(20, 2, 16, 3, 1000),
        vec![line(0, 0, 0), line(16, 4, 6), line(32, 0, 0), line(48, 0, 0), line(64, 0, 0)]
    );
}

#[test]
fn match_that_ends_with_its_line_reaches_the_last_column() {
    assert_eq!(plan_dump(12, 4, 16, 0, 64), vec![line(0, 12, 16)]);
    assert_eq!(plan_dump(0, 16, 16, 0, 64), vec![line(0, 0, 16)]);
    assert_eq!(plan_dump(16, 32, 16, 0, 64), vec![line(16, 0, 16), line(32, 0, 16)]);
}

#[test]
fn long_match_covers_every_line_between() {
    assert_eq!(
        plan_dump(30, 20, 16, 0, 100),
        vec![line(16, 14, 16), line(32, 0, 16), line(48, 0, 2)]
    );
    assert_eq!(
        plan_dump(3, 40, 16, 0, 100),
        vec![line(0, 3, 16), line(16, 0, 16), line(32, 0, 11)]
    );
}

#[test]
fn end_of_file_marker_replaces_missing_context() {
    assert_eq!(plan_dump(12, 4, 16, 1, 16), vec![line(0, 12, 16), Row::EndOfFile]);
    assert_eq!(plan_dump(12, 4, 16, 1, 17), vec![line(0, 12, 16), line(16, 0, 0)]);
    assert_eq!(
        plan_dump(12, 4, 16, 2, 17),
        vec![line(0, 12, 16), line(16, 0, 0), Row::EndOfFile]
    );
    assert_eq!(
        plan_dump(12, 4, 16, 10, 33),
        vec![line(0, 12, 16), line(16, 0, 0), line(32, 0, 0), Row::EndOfFile]
    );
    assert_eq!(plan_dump(12, 4, 16, 0, 16), vec![line(0, 12, 16)]);
}

#[test]
fn other_widths() {
    assert_eq!(plan_dump(5, 1, 1, 1, 7), vec![line(4, 0, 0), line(5, 0, 1), line(6, 0, 0)]);
    assert_eq!(
        plan_dump(10, 5, 4, 1, 100),
        vec![line(4, 0, 0), line(8, 2, 4), line(12, 0, 3), line(16, 0, 0)]
    );
    assert_eq!(plan_dump(0x0061bd72, 3, 16, 0, 0x00700000), vec![line(0x0061bd70, 2, 5)]);
}

#[test]
fn offsets_near_the_largest_do_not_wrap() {
    let len = u64::MAX;
    assert_eq!(
        plan_dump(len - 3, 3, 16, 2, len),
        vec![
            line(len - 47, 0, 0),
            line(len - 31, 0, 0),
            line(len - 15, 12, 15),
            Row::EndOfFile
        ]
    );
}
