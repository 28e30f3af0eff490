use std::time::{SystemTime, UNIX_EPOCH};
use torrent_combine::cache::{
    hash_file_facts, is_fresh, wants_tail, CacheEntry, FileCache, FileInfo, GroupCache,
};

fn now() -> u64 {
    SystemTime::now().duration_since(UNIX_EPOCH).unwrap().as_secs()
}

fn info(path: &str, size: u64, modified: u64, hash: &str, last_verified: u64) -> FileInfo {
    FileInfo {
        path: path.to_string(),
        size,
        modified,
        hash: hash.to_string(),
        last_verified,
    }
}

fn check_file_cache_new() {
    let temp_dir = tempfile::tempdir().unwrap();
    let cache_dir = temp_dir.path().join("cache").to_string_lossy().into_owned();
    let cache_ttl = 3600;

    let cache = FileCache::new(cache_dir.clone(), cache_ttl);

    assert_eq!(cache.cache_dir(), &cache_dir);
    assert_eq!(cache.cache_ttl(), cache_ttl);
    assert_eq!(cache.file_count(), 0);
    assert_eq!(cache.group_count(), 0);
}

#[test]
fn cache_test_file_cache_new() {
    check_file_cache_new();
}

#[test]
fn cache_tests_test_file_cache_new() {
    check_file_cache_new();
}

#[test]
fn cache_test_is_cache_valid() {
    let cache = FileCache::new("/test".to_string(), 3600); // 1 hour TTL

    let current_time = now();

    // Test valid timestamp (current time)
    assert!(cache.is_cache_valid(current_time));

    // Test invalid timestamp (2 hours ago)
    assert!(!cache.is_cache_valid(current_time - 7200));

    // Test edge case (exactly at TTL limit)
    assert!(cache.is_cache_valid(current_time - 3599));
    assert!(!cache.is_cache_valid(current_time - 3600));
}

#[test]
fn cache_tests_test_is_cache_valid() {
    let cache = FileCache::new("/test".to_string(), 3600);
    assert!(cache.is_cache_valid(now()));

    // Test with zero TTL (always invalid)
    let zero_ttl_cache = FileCache::new("/test".to_string(), 0);
    assert!(!zero_ttl_cache.is_cache_valid(now()));
}

#[test]
fn test_is_cache_valid_at() {
    let cache = FileCache::new("/test".to_string(), 3600);
    assert!(cache.is_cache_valid_at(10_000, 10_000));
    assert!(cache.is_cache_valid_at(10_000, 6_401));
    assert!(!cache.is_cache_valid_at(10_000, 6_400));
    assert!(!cache.is_cache_valid_at(10_000, 0));
    // A time stamp from the future is not valid.
    assert!(!cache.is_cache_valid_at(10_000, 10_001));
    assert!(!cache.is_cache_valid_at(0, u64::MAX));
    assert!(is_fresh(5, 5, 1));
    assert!(!is_fresh(5, 4, 1));
    assert!(!is_fresh(5, 5, 0));
    assert!(is_fresh(u64::MAX, 0, u64::MAX) == false);
    assert!(is_fresh(u64::MAX, 1, u64::MAX));
}

#[test]
fn cache_test_update_file_cache() {
    let mut cache = FileCache::new("/test".to_string(), 3600);

    let file_info = info("/test/file.txt", 1024, 1234567890, "test_hash", 0);

    // Add file info
    cache.update_file_cache(file_info.clone(), true);

    // Verify it was added
    let retrieved = cache.get_file_info(&file_info.path).unwrap();
    assert_eq!(retrieved.path, file_info.path);
    assert_eq!(retrieved.size, file_info.size);
    assert_eq!(retrieved.hash, file_info.hash);

    // Test updating existing entry
    let updated_info = info(&file_info.path, 2048, 1234567891, "updated_hash", 0);

    cache.update_file_cache(updated_info.clone(), false);

    let retrieved = cache.get_file_info(&file_info.path).unwrap();
    assert_eq!(retrieved.size, 2048);
    assert_eq!(retrieved.hash, "updated_hash");
    assert_eq!(cache.file_count(), 1);
}

#[test]
fn cache_tests_test_update_file_cache() {
    let mut cache = FileCache::new("/cache".to_string(), 3600);
    let test_path = "/test/file.txt";
    cache.update_file_cache(info(test_path, 1024, now(), "old_hash", now()), true);
    cache.update_file_cache(info(test_path, 2048, now(), "new_hash", now()), true);

    let loaded_info = cache.get_file_info(test_path).unwrap();
    assert_eq!(loaded_info.size, 2048);
    assert_eq!(loaded_info.hash, "new_hash");
}

#[test]
fn test_update_file_cache_at_stamps_the_entry() {
    let mut cache = FileCache::new("/cache".to_string(), 100);
    cache.update_file_cache_at(info("/a", 1, 2, "h", 3), true, 777);
    cache.update_file_cache_at(info("/b", 4, 5, "i", 6), false, 778);
    let a: CacheEntry = cache.get_file_entry("/a").unwrap();
    assert_eq!(a.last_verified, 777);
    assert!(a.is_complete);
    assert_eq!(a.file_info.last_verified, 3);
    assert_eq!(a.file_info.modified, 2);
    let b = cache.get_file_entry("/b").unwrap();
    assert_eq!(b.last_verified, 778);
    assert!(!b.is_complete);
    assert!(cache.get_file_entry("/c").is_none());
    assert_eq!(cache.file_count(), 2);
    assert_eq!(cache.group_count(), 0);
}

#[test]
fn cache_test_update_group_cache() {
    let mut cache = FileCache::new("/test".to_string(), 3600);

    let file_info1 = info("/test/file1.txt", 1024, 1234567890, "hash1", 0);
    let file_info2 = info("/test/file2.txt", 2048, 1234567891, "hash2", 0);

    // Add group cache
    cache.update_group_cache(
        "test_group".to_string(),
        vec![file_info1.clone(), file_info2.clone()],
        true,
    );

    // Verify it was added
    let retrieved = cache.get_group_cache("test_group").unwrap();
    assert_eq!(retrieved.files.len(), 2);
    assert!(retrieved.is_complete);
    assert_eq!(retrieved.files[0].path, file_info1.path);
    assert_eq!(retrieved.files[1].path, file_info2.path);

    // Test updating existing group
    let file_info3 = info("/test/file3.txt", 4096, 1234567892, "hash3", 0);

    cache.update_group_cache("test_group".to_string(), vec![file_info3.clone()], false);

    let retrieved = cache.get_group_cache("test_group").unwrap();
    assert_eq!(retrieved.files.len(), 1);
    assert!(!retrieved.is_complete);
    assert_eq!(retrieved.files[0].path, file_info3.path);
}

#[test]
fn cache_tests_test_update_group_cache() {
    let mut cache = FileCache::new("/cache".to_string(), 3600);
    let group_name = "test_group".to_string();
    let files = vec![
        info("/test/file1.txt", 1024, now(), "hash1", now()),
        info("/test/file2.txt", 2048, now(), "hash2", now()),
    ];

    cache.update_group_cache(group_name.clone(), files, true);

    let loaded: GroupCache = cache.get_group_cache(&group_name).unwrap();
    assert_eq!(loaded.files.len(), 2);
    assert_eq!(loaded.files[0].size, 1024);
    assert_eq!(loaded.files[1].size, 2048);
}

#[test]
fn cache_test_get_file_info_nonexistent() {
    let cache = FileCache::new("/test".to_string(), 3600);

    let result = cache.get_file_info("/nonexistent/file.txt");

    assert!(result.is_none());
}

#[test]
fn cache_tests_test_get_file_info_nonexistent() {
    let cache = FileCache::new("/cache".to_string(), 3600);
    assert!(cache.get_file_info("/nonexistent/file.txt").is_none());
}

#[test]
fn cache_test_get_group_cache_nonexistent() {
    let cache = FileCache::new("/test".to_string(), 3600);

    let result = cache.get_group_cache("nonexistent_group");

    assert!(result.is_none());
}

#[test]
fn cache_tests_test_get_group_cache_nonexistent() {
    let cache = FileCache::new("/cache".to_string(), 3600);
    assert!(cache.get_group_cache("nonexistent_group").is_none());
}

#[test]
fn cache_test_cache_ttl_zero() {
    let cache = FileCache::new("/test".to_string(), 0); // Zero TTL

    let current_time = now();

    // With zero TTL, everything should be invalid immediately
    assert!(!cache.is_cache_valid(current_time));
    assert!(!cache.is_cache_valid(current_time - 1));
}

#[test]
fn cache_tests_test_cache_ttl_zero() {
    let cache = FileCache::new("/cache".to_string(), 0);
    assert!(!cache.is_cache_valid(now()));
}

#[test]
fn cache_tests_test_get_file_info_with_hash() {
    let mut cache = FileCache::new("/cache".to_string(), 3600);
    let test_path = "/test/file.txt";
    cache.update_file_cache(info(test_path, 1024, now(), "test_hash", now()), true);

    let loaded_info = cache.get_file_info(test_path).unwrap();
    assert_eq!(loaded_info.path, test_path);
    assert_eq!(loaded_info.hash, "test_hash");
}

#[test]
fn test_get_file_info_with_hash() {
    let cache = FileCache::new("/cache".to_string(), 3600);
    let content = b"Test content";
    let file_info = cache.get_file_info_with_hash("/t/test.txt", 12, Some(99), content, &[]);

    assert!(file_info.is_some());
    let info = file_info.unwrap();
    assert_eq!(info.path, "/t/test.txt");
    assert_eq!(info.size, 12); // "Test content" length
    assert_eq!(info.modified, 99);
    assert!(!info.hash.is_empty());
    assert_eq!(info.hash, cache.compute_file_hash("/t/test.txt", 12, Some(99), content, &[]));
    assert!(info.last_verified == 0); // Should be 0 as set in the function

    let undated = cache.get_file_info_with_hash("/t/test.txt", 12, None, content, &[]).unwrap();
    assert_eq!(undated.modified, 0);
    assert_ne!(undated.hash, info.hash);
}

#[test]
fn test_compute_file_hash() {
    let cache = FileCache::new("/cache".to_string(), 3600);

    let hash1 = cache.compute_file_hash("/t/test.txt", 13, Some(1), b"Hello, World!", &[]);
    let hash2 = cache.compute_file_hash("/t/test.txt", 13, Some(1), b"Hello, World!", &[]);

    // Hash should be consistent
    assert_eq!(hash1, hash2);
    assert!(!hash1.is_empty());

    // Different file should have different hash
    let hash3 = cache.compute_file_hash("/t/test2.txt", 17, Some(1), b"Different content", &[]);
    assert_ne!(hash1, hash3);
}

#[test]
fn test_hash_file_facts_known_values() {
    assert_eq!(
        hash_file_facts("/a", 3, Some(5), b"abc", b""),
        "d5ca35034c811e409ea729beaac66ad78fee847f2732d9061b16ae143aa5a64b"
    );
    // The end of the file counts for files of more than 2048 bytes only.
    assert_eq!(
        hash_file_facts("/big", 3000, None, b"HEAD", b"TAIL"),
        "97460771a770e1aaa071166060c0f5c724c26c4d89a85c7a3fb87540d7308b39"
    );
    assert_eq!(
        hash_file_facts("/big", 2048, None, b"HEAD", b"TAIL"),
        "df149f1f52380f1958e6207311265411f12fd9032bc4f2333c0d0fc2b935f3b4"
    );
    assert!(wants_tail(2049));
    assert!(!wants_tail(2048));
}

#[test]
fn test_cleanup_expired() {
    let mut cache = FileCache::new("/cache".to_string(), 1); // 1 second TTL

    let current_time = now();

    cache.update_file_cache(info("/test/old.txt", 1024, current_time - 10, "old_hash", current_time - 10), true);
    cache.update_file_cache(info("/test/new.txt", 2048, current_time, "new_hash", current_time), true);
    cache.update_group_cache(
        "old_group".to_string(),
        vec![info("/test/group_old.txt", 1024, current_time - 10, "group_old_hash", current_time - 10)],
        true,
    );
    cache.update_group_cache(
        "new_group".to_string(),
        vec![info("/test/group_new.txt", 2048, current_time, "group_new_hash", current_time)],
        true,
    );

    cache.cleanup_expired();

    let total_entries = cache.file_count() + cache.group_count();
    assert!(total_entries <= 4);
}

#[test]
fn test_cleanup_expired_at() {
    let mut cache = FileCache::new("/cache".to_string(), 100);
    cache.update_file_cache_at(info("/old", 1, 1, "a", 0), true, 1_000);
    cache.update_file_cache_at(info("/edge", 2, 2, "b", 0), true, 1_100);
    cache.update_file_cache_at(info("/new", 3, 3, "c", 0), false, 1_101);
    cache.update_file_cache_at(info("/future", 4, 4, "d", 0), false, 1_300);
    cache.update_group_cache_at("stale".to_string(), vec![info("/old", 1, 1, "a", 0)], true, 1_000);
    cache.update_group_cache_at("live".to_string(), vec![info("/new", 3, 3, "c", 0)], true, 1_150);

    cache.cleanup_expired_at(1_200);

    assert!(cache.get_file_info("/old").is_none());
    assert!(cache.get_file_info("/edge").is_none());
    assert_eq!(cache.get_file_info("/new").unwrap().hash, "c");
    assert!(cache.get_file_info("/future").is_none());
    assert!(cache.get_group_cache("stale").is_none());
    assert_eq!(cache.get_group_cache("live").unwrap().files[0].path, "/new");
    assert_eq!(cache.file_count(), 1);
    assert_eq!(cache.group_count(), 1);
    assert_eq!(cache.file_keys(), vec!["/new".to_string()]);
    assert_eq!(cache.group_keys(), vec!["live".to_string()]);
}

#[test]
fn test_restore_entries() {
    let mut cache = FileCache::new("/cache".to_string(), 100);
    cache.restore_file_entry(CacheEntry {
        file_info: info("/a", 1, 2, "h", 3),
        is_complete: true,
        last_verified: 42,
    });
    cache.restore_group(
        "g".to_string(),
        GroupCache { files: vec![info("/a", 1, 2, "h", 3)], is_complete: false, last_verified: 43 },
    );
    assert_eq!(cache.get_file_entry("/a").unwrap().last_verified, 42);
    let group = cache.get_group_cache("g").unwrap();
    assert_eq!(group.last_verified, 43);
    assert!(!group.is_complete);
    assert_eq!(group.files[0].copy().hash, "h");
    assert_eq!(group.copy().files.len(), 1);
}
