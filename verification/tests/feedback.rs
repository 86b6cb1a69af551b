use sourcier_core::RuntimeFeedback;
use sourcier_core::SourceFilesMap;
use std::sync::Arc;
use std::sync::Mutex;

fn create_feedback_context() -> Arc<Mutex<RuntimeFeedback>> {
    Arc::new(Mutex::new(RuntimeFeedback::default()))
}

#[test]
fn feedback_file_tracking() -> Result<(), String> {
    let feedback = create_feedback_context();

    // Create SourceFilesMap with feedback context
    let mut files_map = SourceFilesMap::<u8>::with_feedback(Some(feedback.clone()));

    // Add some files
    files_map.add_file("src/main.rs".to_string(), Vec::new());
    files_map.add_file("src/lib.rs".to_string(), Vec::new());
    files_map.add_file("tests/integration.rs".to_string(), Vec::new());

    // Finalize the map to trigger feedback tracking
    files_map.finalize()?;

    // Check feedback state
    let feedback_data = feedback.lock().unwrap();
    assert_eq!(feedback_data.total_files, 3);
    assert_eq!(feedback_data.usage_count, 1);

    Ok(())
}

#[test]
fn feedback_multiple_finalizations() -> Result<(), String> {
    let feedback = create_feedback_context();

    // Create multiple file maps with the same feedback context
    let mut files_map1 = SourceFilesMap::<u8>::with_feedback(Some(feedback.clone()));
    files_map1.add_file("project1/src/main.rs".to_string(), Vec::new());
    files_map1.finalize()?;

    let mut files_map2 = SourceFilesMap::<u8>::with_feedback(Some(feedback.clone()));
    files_map2.add_file("project2/src/lib.rs".to_string(), Vec::new());
    files_map2.add_file("project2/src/utils.rs".to_string(), Vec::new());
    files_map2.finalize()?;

    // Check feedback state
    let feedback_data = feedback.lock().unwrap();
    assert_eq!(feedback_data.total_files, 2); // Second finalization overwrites first
    assert_eq!(feedback_data.usage_count, 2);

    Ok(())
}

#[test]
fn feedback_file_size_tracking() -> Result<(), String> {
    let feedback = create_feedback_context();

    // Create SourceFilesMap with feedback context
    let mut files_map = SourceFilesMap::<u8>::with_feedback(Some(feedback.clone()));

    // Simulate files with different sizes
    files_map.add_file("small.rs".to_string(), Vec::new());
    files_map.add_file("medium.rs".to_string(), Vec::new());
    files_map.add_file("large.rs".to_string(), Vec::new());

    // Finalize the map
    files_map.finalize()?;

    // Check feedback state
    let feedback_data = feedback.lock().unwrap();
    assert_eq!(feedback_data.total_files, 3);

    Ok(())
}

#[test]
fn feedback_context_sharing() -> Result<(), String> {
    let feedback = create_feedback_context();

    // Create multiple file maps sharing the same feedback context
    let mut files_map1 = SourceFilesMap::<u8>::with_feedback(Some(feedback.clone()));
    files_map1.add_file("project1/main.rs".to_string(), Vec::new());
    files_map1.finalize()?;

    let mut files_map2 = SourceFilesMap::<u8>::with_feedback(Some(feedback.clone()));
    files_map2.add_file("project2/lib.rs".to_string(), Vec::new());
    files_map2.finalize()?;

    // Check feedback state
    let feedback_data = feedback.lock().unwrap();
    assert_eq!(feedback_data.total_files, 1); // Only most recent finalization counts
    assert_eq!(feedback_data.usage_count, 2);

    Ok(())
}

#[test]
fn feedback_tracks_sizes_and_max() -> Result<(), String> {
    let feedback = create_feedback_context();

    let mut files_map = SourceFilesMap::<u8>::with_feedback(Some(feedback.clone()));
    files_map.add_file("a.rs".to_string(), vec![1, 2, 3]);
    files_map.add_file("b.rs".to_string(), vec![4, 5, 6, 7, 8]);
    files_map.finalize()?;

    let feedback_data = feedback.lock().unwrap();
    assert_eq!(feedback_data.total_files, 2);
    assert_eq!(feedback_data.total_bytes, 8);
    assert_eq!(feedback_data.max_file_size, 5);

    Ok(())
}

#[test]
fn hints_formula() {
    // 20% more files than last time; average size = bytes over files.
    let stats = RuntimeFeedback {
        total_files: 10,
        total_bytes: 1000,
        max_file_size: 400,
        usage_count: 1,
    };
    assert_eq!(SourceFilesMap::<u8>::hints_from_stats(&stats), (12, 100));

    // No files seen yet: the default average size of 2048 bytes.
    let empty = RuntimeFeedback::default();
    assert_eq!(SourceFilesMap::<u8>::hints_from_stats(&empty), (0, 2048));
}

#[test]
fn feedback_none_behaves_like_new() -> Result<(), String> {
    let mut files_map = SourceFilesMap::<u8>::with_feedback(None);
    files_map.add_file("solo.rs".to_string(), b"x".to_vec());
    files_map.finalize()?;
    assert_eq!(files_map.len(), 1);
    Ok(())
}
