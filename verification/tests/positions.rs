use sourcier_core::create_absolute_position;
use sourcier_core::create_relative_position;
use sourcier_core::AbsolutePosition;
use sourcier_core::RelativePosition;
use sourcier_core::SourceFilePosition;

#[test]
fn roundtrip_absolute_u8() {
    let pos = AbsolutePosition::<u8>::new(7, 10, 5, 12, 20);
    assert_eq!(pos.file_id(), 7u8);
    assert_eq!(pos.source_file_id(), Some(7));
    assert_eq!(pos.start_line(), 10);
    assert_eq!(pos.start_column(), 5);
    assert_eq!(pos.end_line(), 12);
    assert_eq!(pos.end_column(), 20);
}

#[test]
fn roundtrip_absolute_u16() {
    let pos = AbsolutePosition::<u16>::new(40000, 65535, 255, 65535, 255);
    assert_eq!(pos.file_id(), 40000u16);
    assert_eq!(pos.source_file_id(), Some(40000));
    assert_eq!(pos.start_line(), 65535);
    assert_eq!(pos.start_column(), 255);
    assert_eq!(pos.end_line(), 65535);
    assert_eq!(pos.end_column(), 255);
}

#[test]
fn roundtrip_absolute_extremes() {
    let zero = AbsolutePosition::<u8>::new(0, 0, 0, 0, 0);
    assert_eq!(zero.file_id(), 0u8);
    assert_eq!(zero.start_line(), 0);
    assert_eq!(zero.start_column(), 0);
    assert_eq!(zero.end_line(), 0);
    assert_eq!(zero.end_column(), 0);

    let max = AbsolutePosition::<u8>::new(255, 65535, 255, 65535, 255);
    assert_eq!(max.file_id(), 255u8);
    assert_eq!(max.start_line(), 65535);
    assert_eq!(max.start_column(), 255);
    assert_eq!(max.end_line(), 65535);
    assert_eq!(max.end_column(), 255);
}

#[test]
fn roundtrip_relative() {
    let pos = RelativePosition::new(65535, 255, 1, 9);
    assert_eq!(pos.source_file_id(), None);
    assert_eq!(pos.start_line(), 65535);
    assert_eq!(pos.start_column(), 255);
    assert_eq!(pos.end_line(), 1);
    assert_eq!(pos.end_column(), 9);
}

#[test]
fn absolute_word_layout_u8() {
    // id 1 at bit 56, start line 10 at 40, start col 5 at 32, end line 12 at
    // 16, end col 20 at 8.
    let pos = create_absolute_position(1u8, 10, 5, 12, 20);
    assert_eq!(pos.as_raw(), 0x0100_0A05_000C_1400);
}

#[test]
fn absolute_word_layout_u16() {
    // id 1 at bit 48, start line 10 at 32, start col 5 at 24, end line 12 at
    // 8, end col 20 at 0.
    let pos = create_absolute_position(1u16, 10, 5, 12, 20);
    assert_eq!(pos.as_raw(), 0x0001_000A_0500_0C14);
}

#[test]
fn relative_word_layout() {
    // start line 10 at bit 32, start col 5 at 24, end line 12 at 8, end col
    // 20 at 0.
    let pos = create_relative_position(10, 5, 12, 20);
    assert_eq!(pos.as_raw(), 0x0000_000A_0500_0C14);
}

#[test]
fn raw_word_round_trips() {
    let p = create_absolute_position(9u8, 1, 2, 3, 4);
    let q = AbsolutePosition::<u8>::from_raw(p.as_raw());
    assert_eq!(q.file_id(), 9u8);
    assert_eq!(q.start_line(), 1);
    assert_eq!(q.start_column(), 2);
    assert_eq!(q.end_line(), 3);
    assert_eq!(q.end_column(), 4);

    let r = create_relative_position(1, 2, 3, 4);
    let s = RelativePosition::from_raw(r.as_raw());
    assert_eq!(s.start_line(), 1);
    assert_eq!(s.start_column(), 2);
    assert_eq!(s.end_line(), 3);
    assert_eq!(s.end_column(), 4);
}

#[test]
fn cross_codec_same_fields() {
    let abs = create_absolute_position(3u8, 2, 4, 6, 8);
    let rel = create_relative_position(2, 4, 6, 8);
    assert_eq!(abs.start_line(), rel.start_line());
    assert_eq!(abs.start_column(), rel.start_column());
    assert_eq!(abs.end_line(), rel.end_line());
    assert_eq!(abs.end_column(), rel.end_column());
    assert_eq!(abs.source_file_id(), Some(3));
    assert_eq!(rel.source_file_id(), None);
}
