use torrent_combine::group::GroupStatus;
use torrent_combine::utils::{
    cleanup_temp_files, file_has_data, get_unique_id, inspect_by_mapping, is_file_all_nulls,
    register_temp_file, size_unit, summarize, IdCounter, RunSummary, TempRegistry,
};

#[test]
fn test_get_unique_id() {
    let mut counter = IdCounter::new();
    let id1 = get_unique_id(&mut counter);
    let id2 = get_unique_id(&mut counter);
    let id3 = get_unique_id(&mut counter);

    assert!(id1 < id2);
    assert!(id2 < id3);
    assert_ne!(id1, id2);
    assert_ne!(id2, id3);
}

#[test]
fn test_unique_ids_start_at_one() {
    let mut counter = IdCounter::new();
    assert_eq!(get_unique_id(&mut counter), 1);
    assert_eq!(get_unique_id(&mut counter), 2);
}

#[test]
fn test_temp_file_registry() {
    let mut registry = TempRegistry::new();
    register_temp_file(&mut registry, "/tmp/test_cleanup.tmp".to_string());
    assert_eq!(registry.len(), 1);
    let doomed = cleanup_temp_files(&mut registry);
    assert_eq!(doomed, vec!["/tmp/test_cleanup.tmp".to_string()]);
    assert_eq!(registry.len(), 0);
    assert!(cleanup_temp_files(&mut registry).is_empty());
}

#[test]
fn test_temp_file_cleanup_registry() {
    let mut registry = TempRegistry::new();
    cleanup_temp_files(&mut registry);

    register_temp_file(&mut registry, "/tmp/test1.tmp".to_string());
    register_temp_file(&mut registry, "/tmp/test2.tmp".to_string());

    let doomed = cleanup_temp_files(&mut registry);
    assert_eq!(doomed, vec!["/tmp/test1.tmp".to_string(), "/tmp/test2.tmp".to_string()]);
}

#[test]
fn test_register_temp_file() {
    let mut registry = TempRegistry::new();
    cleanup_temp_files(&mut registry);
    register_temp_file(&mut registry, "/tmp/test_register.tmp".to_string());
    assert_eq!(registry.len(), 1);
    cleanup_temp_files(&mut registry);
    assert_eq!(registry.len(), 0);
}

#[test]
fn test_deregister_temp_file() {
    let mut registry = TempRegistry::new();
    register_temp_file(&mut registry, "/tmp/a".to_string());
    register_temp_file(&mut registry, "/tmp/b".to_string());
    register_temp_file(&mut registry, "/tmp/a".to_string());
    register_temp_file(&mut registry, "/tmp/c".to_string());
    registry.deregister("/tmp/a");
    assert_eq!(registry.len(), 2);
    registry.deregister("/tmp/missing");
    assert_eq!(cleanup_temp_files(&mut registry), vec!["/tmp/b".to_string(), "/tmp/c".to_string()]);
}

#[test]
fn test_summarize() {
    let outcomes = vec![
        Some(GroupStatus::Merged),
        None,
        Some(GroupStatus::Skipped),
        Some(GroupStatus::Merged),
        Some(GroupStatus::Failed),
        Some(GroupStatus::Skipped),
        Some(GroupStatus::Skipped),
    ];
    assert_eq!(
        summarize(&outcomes),
        RunSummary { processed: 6, merged: 2, skipped: 3, failed: 1, errored: 1 }
    );
    assert_eq!(
        summarize(&vec![]),
        RunSummary { processed: 0, merged: 0, skipped: 0, failed: 0, errored: 0 }
    );
}

#[test]
fn test_is_file_all_nulls() {
    assert!(is_file_all_nulls(&[0u8, 0, 0]));
    assert!(!is_file_all_nulls(&[0u8, 1, 0]));
    // Empty content is not considered all nulls.
    assert!(!is_file_all_nulls(&[]));
}

#[test]
fn test_file_has_data() {
    assert!(file_has_data(&[0u8, 0, 9]));
    assert!(!file_has_data(&[0u8, 0, 0]));
    assert!(!file_has_data(&[]));
}

#[test]
fn test_inspect_by_mapping() {
    assert!(!inspect_by_mapping(1024 * 1024));
    assert!(inspect_by_mapping(1024 * 1024 + 1));
    assert!(!inspect_by_mapping(0));
}

#[test]
fn test_size_unit() {
    assert_eq!(size_unit(0), 0);
    assert_eq!(size_unit(512), 0);
    assert_eq!(size_unit(1023), 0);
    assert_eq!(size_unit(1024), 1);
    assert_eq!(size_unit(1536), 1);
    assert_eq!(size_unit(1024 * 1024 - 1), 1);
    assert_eq!(size_unit(1024 * 1024), 2);
    assert_eq!(size_unit(1024 * 1024 * 1024), 3);
    assert_eq!(size_unit(1024u64 * 1024 * 1024 * 1024), 4);
    assert_eq!(size_unit(u64::MAX), 4);
}
