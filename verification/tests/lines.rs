use sourcier_core::clo::CompactLineOffsets;

#[test]
fn line_ranges_of_three_lines() {
    let index = CompactLineOffsets::compute(b"Line1\nLine2\nLine3");
    assert_eq!(index.get_line_range(1), Some((0, 5)));
    assert_eq!(index.get_line_range(2), Some((6, 11)));
    assert_eq!(index.get_line_range(3), Some((12, 17)));
}

#[test]
fn line_range_misses() {
    let index = CompactLineOffsets::compute(b"Line1\nLine2");
    assert_eq!(index.get_line_range(0), None);
    assert_eq!(index.get_line_range(3), None);
}

#[test]
fn line_range_of_empty_content() {
    // Even empty content has one line, the empty one.
    let index = CompactLineOffsets::compute(b"");
    assert_eq!(index.get_line_range(1), Some((0, 0)));
    assert_eq!(index.get_line_range(2), None);
}

#[test]
fn line_range_with_trailing_newline() {
    // A trailing newline opens one more (empty) line.
    let index = CompactLineOffsets::compute(b"ab\ncd\n");
    assert_eq!(index.get_line_range(1), Some((0, 2)));
    assert_eq!(index.get_line_range(2), Some((3, 5)));
    assert_eq!(index.get_line_range(3), Some((6, 6)));
}

#[test]
fn line_range_with_consecutive_newlines() {
    let index = CompactLineOffsets::compute(b"a\n\nb");
    assert_eq!(index.get_line_range(1), Some((0, 1)));
    assert_eq!(index.get_line_range(2), Some((2, 2)));
    assert_eq!(index.get_line_range(3), Some((3, 4)));
}
