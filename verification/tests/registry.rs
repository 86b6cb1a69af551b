use sourcier_core::SourceFilesMap;

#[test]
fn id_determinism_sorted_order() -> Result<(), String> {
    // Registering {"b.rs", "a.rs"} assigns a.rs -> 1 and b.rs -> 2 …
    let mut files = SourceFilesMap::<u8>::new();
    files.add_file("b.rs".to_string(), b"bbb".to_vec());
    files.add_file("a.rs".to_string(), b"aaa".to_vec());
    files.finalize()?;
    assert_eq!(files.get_id("a.rs"), Some(1));
    assert_eq!(files.get_id("b.rs"), Some(2));

    // … regardless of insertion order.
    let mut files2 = SourceFilesMap::<u8>::new();
    files2.add_file("a.rs".to_string(), b"aaa".to_vec());
    files2.add_file("b.rs".to_string(), b"bbb".to_vec());
    files2.finalize()?;
    assert_eq!(files2.get_id("a.rs"), Some(1));
    assert_eq!(files2.get_id("b.rs"), Some(2));
    Ok(())
}

#[test]
fn id_lookup_round_trips() -> Result<(), String> {
    let mut files = SourceFilesMap::<u16>::new();
    files.add_file("src/main.rs".to_string(), b"fn main() {}".to_vec());
    files.add_file("src/lib.rs".to_string(), b"pub mod utils;".to_vec());
    files.finalize()?;
    let id = files.get_id("src/lib.rs").unwrap();
    assert_eq!(files.get_path(id), Some("src/lib.rs"));
    assert_eq!(files.get_content(id), Some(b"pub mod utils;".as_slice()));
    Ok(())
}

#[test]
fn deduplication_keeps_first_occurrence() -> Result<(), String> {
    let mut files = SourceFilesMap::<u8>::new();
    files.add_file("dup.rs".to_string(), b"content".to_vec());
    files.add_file("dup.rs".to_string(), b"different".to_vec());
    files.finalize()?;
    assert_eq!(files.len(), 1);
    let id = files.get_id("dup.rs").unwrap();
    assert_eq!(files.get_content(id), Some(b"content".as_slice()));
    Ok(())
}

#[test]
fn capacity_255_distinct_paths_succeeds() -> Result<(), String> {
    let mut files = SourceFilesMap::<u8>::new();
    for i in 0..255u32 {
        files.add_file(format!("file_{}.rs", i), vec![]);
    }
    files.finalize()?;
    assert_eq!(files.len(), 255);
    Ok(())
}

#[test]
fn capacity_cap_drops_further_adds() -> Result<(), String> {
    // The 8-bit policy holds at most 255 files: the 256th registration is
    // silently dropped, so finalizing still succeeds with 255 files.
    let mut files = SourceFilesMap::<u8>::new();
    for i in 0..256u32 {
        files.add_file(format!("file_{:03}.rs", i), vec![]);
    }
    assert_eq!(files.len(), 255);
    files.finalize()?;
    assert_eq!(files.len(), 255);
    assert_eq!(files.get_id("file_255.rs"), None);
    Ok(())
}

#[test]
fn lookup_misses_return_none() -> Result<(), String> {
    let mut files = SourceFilesMap::<u8>::new();
    files.add_file("known.rs".to_string(), b"k".to_vec());
    files.finalize()?;
    assert_eq!(files.get_id("unknown.rs"), None);
    assert!(files.get_path(0u8).is_none());
    assert!(files.get_path(2u8).is_none());
    assert!(files.get_content(0u8).is_none());
    assert!(files.get_content(2u8).is_none());
    Ok(())
}

#[test]
fn capacity_hints_do_not_change_results() -> Result<(), String> {
    let mut files = SourceFilesMap::<u8>::with_capacity_hints(4, 16);
    files.add_file("one.rs".to_string(), b"1".to_vec());
    files.add_file("two.rs".to_string(), b"22".to_vec());
    files.finalize()?;
    assert_eq!(files.len(), 2);
    assert_eq!(files.get_id("one.rs"), Some(1));
    assert_eq!(files.get_id("two.rs"), Some(2));
    Ok(())
}

#[test]
fn empty_registry_queries() {
    let files = SourceFilesMap::<u8>::new();
    assert!(files.is_empty());
    assert_eq!(files.len(), 0);
    assert_eq!(files.get_id("anything.rs"), None);
}

#[test]
fn ids_unique_across_paths() -> Result<(), String> {
    let mut files = SourceFilesMap::<u16>::new();
    files.add_file("project1/src/main.rs".to_string(), b"fn main() {}".to_vec());
    files.add_file("project2/src/main.rs".to_string(), b"fn main() {}".to_vec());
    files.finalize()?;
    let id1 = files.get_id("project1/src/main.rs").unwrap();
    let id2 = files.get_id("project2/src/main.rs").unwrap();
    assert_ne!(id1, id2, "File IDs should be unique across different paths");
    Ok(())
}

#[test]
fn refinalize_rederives_ids() -> Result<(), String> {
    let mut files = SourceFilesMap::<u8>::new();
    files.add_file("a.rs".to_string(), b"A".to_vec());
    files.add_file("c.rs".to_string(), b"C".to_vec());
    files.finalize()?;
    assert_eq!(files.get_id("c.rs"), Some(2));

    files.add_file("b.rs".to_string(), b"B".to_vec());
    files.finalize()?;
    assert_eq!(files.get_id("a.rs"), Some(1));
    assert_eq!(files.get_id("b.rs"), Some(2));
    assert_eq!(files.get_id("c.rs"), Some(3));
    let id = files.get_id("b.rs").unwrap();
    assert_eq!(files.get_content(id), Some(b"B".as_slice()));
    Ok(())
}

#[test]
fn cloned_registry_matches() -> Result<(), String> {
    let mut files = SourceFilesMap::<u8>::new();
    files.add_file("a.rs".to_string(), b"alpha".to_vec());
    files.add_file("b.rs".to_string(), b"beta".to_vec());
    files.finalize()?;

    let copy = files.clone();
    assert_eq!(copy.len(), files.len());
    assert_eq!(copy.get_id("a.rs"), files.get_id("a.rs"));
    let id = copy.get_id("b.rs").unwrap();
    assert_eq!(copy.get_content(id), Some(b"beta".as_slice()));
    assert_eq!(copy.get_path(id), Some("b.rs"));
    Ok(())
}

#[test]
fn get_id_before_finalize_is_none() {
    let mut files = SourceFilesMap::<u8>::new();
    files.add_file("pending.rs".to_string(), b"p".to_vec());
    assert_eq!(files.get_id("pending.rs"), None);
}
