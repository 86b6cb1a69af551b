use sourcier_core::create_relative_position;
use sourcier_core::SourceFilesMap;

fn registry_with(content: &[u8]) -> (SourceFilesMap<u8>, u8) {
    let mut files = SourceFilesMap::<u8>::new();
    files.add_file("multiline.txt".to_string(), content.to_vec());
    files.finalize().unwrap();
    let id = files.get_id("multiline.txt").unwrap();
    (files, id)
}

#[test]
fn view_resolves_multi_line_span() {
    let (files, id) = registry_with(b"First\nSecond\nThird");
    let pos = create_relative_position(1, 1, 3, 5);
    assert_eq!(files.view(id, &pos), Some(b"First\nSecond\nThird".as_slice()));
}

#[test]
fn view_resolves_single_line_span() {
    let (files, id) = registry_with(b"First\nSecond\nThird");
    let pos = create_relative_position(2, 1, 2, 6);
    assert_eq!(files.view(id, &pos), Some(b"Second".as_slice()));
}

#[test]
fn view_treats_column_zero_as_one() {
    let (files, id) = registry_with(b"First\nSecond\nThird");
    let pos = create_relative_position(1, 0, 1, 5);
    assert_eq!(files.view(id, &pos), Some(b"First".as_slice()));
}

#[test]
fn view_rejects_line_zero() {
    let (files, id) = registry_with(b"First\nSecond\nThird");
    let pos = create_relative_position(0, 1, 1, 5);
    assert_eq!(files.view(id, &pos), None);
}

#[test]
fn view_rejects_inverted_lines() {
    let (files, id) = registry_with(b"First\nSecond\nThird");
    let pos = create_relative_position(3, 1, 1, 5);
    assert_eq!(files.view(id, &pos), None);
}

#[test]
fn view_rejects_line_past_end() {
    let (files, id) = registry_with(b"First\nSecond\nThird");
    let pos = create_relative_position(1, 1, 4, 1);
    assert_eq!(files.view(id, &pos), None);
}

#[test]
fn view_rejects_range_past_content() {
    let (files, id) = registry_with(b"First\nSecond\nThird");
    let pos = create_relative_position(3, 1, 3, 200);
    assert_eq!(files.view(id, &pos), None);
}

#[test]
fn view_rejects_unknown_id() {
    let (files, _id) = registry_with(b"First\nSecond\nThird");
    let pos = create_relative_position(1, 1, 1, 5);
    assert_eq!(files.view(0u8, &pos), None);
    assert_eq!(files.view(9u8, &pos), None);
}

#[test]
fn view_with_absolute_position() {
    let (files, id) = registry_with(b"First\nSecond\nThird");
    let pos = sourcier_core::create_absolute_position(id, 2, 1, 2, 6);
    assert_eq!(files.view(id, &pos), Some(b"Second".as_slice()));
}
