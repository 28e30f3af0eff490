use std::collections::{HashMap, HashSet};
use std::hash::{Hash, Hasher};
use torrent_combine::keys::{decimal, DedupKey, GroupKey};

fn check_debug_names() {
    assert_eq!(format!("{:?}", DedupKey::FilenameAndSize), "FilenameAndSize");
    assert_eq!(format!("{:?}", DedupKey::SizeOnly), "SizeOnly");
    assert_eq!(format!("{:?}", DedupKey::ExtensionAndSize), "ExtensionAndSize");
}

fn check_variants_differ() {
    let modes = vec![DedupKey::FilenameAndSize, DedupKey::SizeOnly, DedupKey::ExtensionAndSize];

    for mode in modes {
        let cloned = mode.clone();
        let _ = cloned;

        // Test that each variant can be formatted
        let _formatted = format!("{:?}", mode);
    }

    // Test that different variants are different (by checking their debug strings)
    assert_ne!(format!("{:?}", DedupKey::FilenameAndSize), format!("{:?}", DedupKey::SizeOnly));
    assert_ne!(format!("{:?}", DedupKey::SizeOnly), format!("{:?}", DedupKey::ExtensionAndSize));
    assert_ne!(format!("{:?}", DedupKey::ExtensionAndSize), format!("{:?}", DedupKey::FilenameAndSize));
}

#[test]
fn cli_test_dedup_key_enum_variants() {
    check_variants_differ();
}

#[test]
fn cli_tests_test_dedup_key_enum_variants() {
    check_variants_differ();
}

#[test]
fn main_test_dedup_key_enum_variants() {
    check_debug_names();
}

#[test]
fn main_old_test_dedup_key_enum_variants() {
    check_debug_names();
}

#[test]
fn test_dedup_key_value_enum() {
    check_variants_differ();
}

#[test]
fn main_test_cli_dedup_mode() {
    assert_eq!(format!("{:?}", DedupKey::FilenameAndSize), "FilenameAndSize");
    assert_eq!(format!("{:?}", DedupKey::SizeOnly), "SizeOnly");
}

#[test]
fn main_old_test_cli_dedup_mode() {
    assert_eq!(format!("{:?}", DedupKey::FilenameAndSize), "FilenameAndSize");
    assert_eq!(format!("{:?}", DedupKey::SizeOnly), "SizeOnly");
}

#[test]
fn test_dedup_mode_variants() {
    let modes = vec![DedupKey::FilenameAndSize, DedupKey::SizeOnly, DedupKey::ExtensionAndSize];

    for mode in modes {
        match mode {
            DedupKey::FilenameAndSize => {}
            DedupKey::SizeOnly => {}
            DedupKey::ExtensionAndSize => {}
        }
    }
}

fn check_from_file_info() {
    let path = "test.mkv";
    let size = 1024;

    let filename_key = GroupKey::from_file_info(path, size, &DedupKey::FilenameAndSize);
    let size_key = GroupKey::from_file_info(path, size, &DedupKey::SizeOnly);
    let extension_key = GroupKey::from_file_info(path, size, &DedupKey::ExtensionAndSize);

    match filename_key {
        GroupKey::FilenameAndSize(name, s) => {
            assert_eq!(name, "test.mkv");
            assert_eq!(s, size);
        }
        _ => panic!("Expected FilenameAndSize"),
    }

    match size_key {
        GroupKey::SizeOnly(s) => {
            assert_eq!(s, size);
        }
        _ => panic!("Expected SizeOnly"),
    }

    match extension_key {
        GroupKey::ExtensionAndSize(ext, s) => {
            assert_eq!(ext, "mkv");
            assert_eq!(s, size);
        }
        _ => panic!("Expected ExtensionAndSize"),
    }
}

#[test]
fn cli_test_group_key_creation() {
    check_from_file_info();
}

#[test]
fn cli_tests_test_group_key_creation() {
    check_from_file_info();
}

#[test]
fn test_group_key_from_odd_paths() {
    // A path without a file name counts as named "unknown".
    assert_eq!(
        GroupKey::from_file_info("/", 7, &DedupKey::FilenameAndSize),
        GroupKey::FilenameAndSize("unknown".to_string(), 7)
    );
    assert_eq!(
        GroupKey::from_file_info("/a/b/..", 7, &DedupKey::FilenameAndSize),
        GroupKey::FilenameAndSize("unknown".to_string(), 7)
    );
    // A path without an extension has the empty extension.
    assert_eq!(
        GroupKey::from_file_info("/a/plain", 7, &DedupKey::ExtensionAndSize),
        GroupKey::ExtensionAndSize(String::new(), 7)
    );
    assert_eq!(
        GroupKey::from_file_info("/a/.hidden", 7, &DedupKey::ExtensionAndSize),
        GroupKey::ExtensionAndSize(String::new(), 7)
    );
    assert_eq!(
        GroupKey::from_file_info("/dir.d/movie.tar.gz", 9, &DedupKey::ExtensionAndSize),
        GroupKey::ExtensionAndSize("gz".to_string(), 9)
    );
    assert_eq!(
        GroupKey::from_file_info("/dir.d/movie.tar.gz", 9, &DedupKey::FilenameAndSize),
        GroupKey::FilenameAndSize("movie.tar.gz".to_string(), 9)
    );
}

fn check_keys_compare() {
    let key1 = GroupKey::FilenameAndSize("test.mkv".to_string(), 1024);
    let key2 = GroupKey::SizeOnly(1024);

    // Test that keys can be created and compared
    assert_eq!(key1, key1);
    assert_eq!(key2, key2);
    assert_ne!(key1, key2);
}

#[test]
fn main_test_group_key_creation() {
    check_keys_compare();
}

#[test]
fn main_old_test_group_key_creation() {
    check_keys_compare();
}

fn check_clone_by_fields() {
    let key = GroupKey::FilenameAndSize("test.mkv".to_string(), 1024);
    let cloned = key.clone();

    match (&key, &cloned) {
        (GroupKey::FilenameAndSize(name1, size1), GroupKey::FilenameAndSize(name2, size2)) => {
            assert_eq!(name1, name2);
            assert_eq!(size1, size2);
        }
        _ => panic!("Expected FilenameAndSize variants"),
    }
}

#[test]
fn cli_test_group_key_clone() {
    check_clone_by_fields();
}

#[test]
fn cli_tests_test_group_key_clone() {
    check_clone_by_fields();
}

#[test]
fn main_old_test_group_key_clone() {
    let key1 = GroupKey::FilenameAndSize("test.mkv".to_string(), 1024);
    let key2 = key1.clone();

    assert_eq!(key1, key2);
    assert_eq!(format!("{:?}", key1), format!("{:?}", key2));
}

fn check_hash_set() {
    let key1 = GroupKey::FilenameAndSize("test.mkv".to_string(), 1024);
    let key2 = GroupKey::FilenameAndSize("test.mkv".to_string(), 1024);
    let key3 = GroupKey::SizeOnly(1024);

    let mut set = HashSet::new();
    set.insert(key1);
    set.insert(key2); // Should not increase size since they're equal
    set.insert(key3);

    assert_eq!(set.len(), 2);
}

#[test]
fn cli_test_group_key_hash() {
    check_hash_set();
}

#[test]
fn cli_tests_test_group_key_hash() {
    check_hash_set();
}

fn check_hash_map() {
    let mut map: HashMap<GroupKey, Vec<String>> = HashMap::new();

    let key1 = GroupKey::FilenameAndSize("test.mkv".to_string(), 1024);
    let key2 = GroupKey::SizeOnly(1024);

    map.insert(key1, vec!["/path1".to_string()]);
    map.insert(key2, vec!["/path2".to_string()]);

    assert_eq!(map.len(), 2);

    let key1_dup = GroupKey::FilenameAndSize("test.mkv".to_string(), 1024);
    map.entry(key1_dup).or_default().push("/path3".to_string());

    assert_eq!(map.len(), 2);
}

#[test]
fn main_test_group_key_hash() {
    check_hash_map();
}

#[test]
fn main_old_test_group_key_hash() {
    check_hash_map();
}

fn check_partial_eq() {
    let key1 = GroupKey::FilenameAndSize("test.mkv".to_string(), 1024);
    let key2 = GroupKey::FilenameAndSize("test.mkv".to_string(), 1024);
    let key3 = GroupKey::SizeOnly(1024);

    assert_eq!(key1, key2);
    assert_ne!(key1, key3);
    assert_ne!(key2, key3);
}

#[test]
fn cli_test_group_key_partial_eq() {
    check_partial_eq();
}

#[test]
fn cli_tests_test_group_key_partial_eq() {
    check_partial_eq();
}

#[test]
fn main_old_test_group_key_partial_eq() {
    let key1 = GroupKey::FilenameAndSize("test.mkv".to_string(), 1024);
    let key2 = GroupKey::FilenameAndSize("test.mkv".to_string(), 1024);
    let key3 = GroupKey::SizeOnly(1024);
    assert_eq!(key1, key2);
    assert_ne!(key1, key3);
    assert!(key1.same_as(&key2));
    assert!(!key1.same_as(&key3));
}

fn check_equality() {
    let key1 = GroupKey::FilenameAndSize("test.mkv".to_string(), 1024);
    let key2 = GroupKey::FilenameAndSize("test.mkv".to_string(), 1024);
    let key3 = GroupKey::FilenameAndSize("other.mkv".to_string(), 1024);
    let key4 = GroupKey::SizeOnly(1024);
    let key5 = GroupKey::SizeOnly(1024);
    let key6 = GroupKey::SizeOnly(2048);

    assert_eq!(key1, key2);
    assert_ne!(key1, key3);
    assert_ne!(key1, key4);
    assert_eq!(key4, key5);
    assert_ne!(key4, key6);
}

#[test]
fn main_test_group_key_equality() {
    check_equality();
}

#[test]
fn main_old_test_group_key_equality() {
    check_equality();
}

#[test]
fn test_group_key_same_as() {
    let name = GroupKey::FilenameAndSize("test.mkv".to_string(), 1024);
    let ext = GroupKey::ExtensionAndSize("test.mkv".to_string(), 1024);
    assert!(name.same_as(&GroupKey::FilenameAndSize("test.mkv".to_string(), 1024)));
    assert!(!name.same_as(&GroupKey::FilenameAndSize("test.mkv".to_string(), 1025)));
    assert!(!name.same_as(&GroupKey::FilenameAndSize("test.mk".to_string(), 1024)));
    assert!(!name.same_as(&ext));
    assert!(ext.same_as(&ext.clone()));
    assert!(GroupKey::SizeOnly(3).same_as(&GroupKey::SizeOnly(3)));
    assert!(!GroupKey::SizeOnly(3).same_as(&GroupKey::SizeOnly(4)));
}

#[test]
fn test_group_key_hash_consistency() {
    let key1 = GroupKey::FilenameAndSize("test.mkv".to_string(), 1024);
    let key2 = GroupKey::FilenameAndSize("test.mkv".to_string(), 1024);
    let key3 = GroupKey::FilenameAndSize("other.mkv".to_string(), 1024);

    let mut map: HashMap<GroupKey, String> = HashMap::new();
    map.insert(key1.clone(), "value1".to_string());
    map.insert(key3.clone(), "value3".to_string());

    // Should be able to retrieve with equal key
    assert_eq!(map.get(&key2), Some(&"value1".to_string()));
    assert_eq!(map.get(&key3), Some(&"value3".to_string()));

    // Test that equal keys have equal hashes
    let mut hasher1 = std::collections::hash_map::DefaultHasher::new();
    let mut hasher2 = std::collections::hash_map::DefaultHasher::new();
    key1.hash(&mut hasher1);
    key2.hash(&mut hasher2);
    assert_eq!(hasher1.finish(), hasher2.finish());

    // Test that different keys have different hashes
    let mut hasher3 = std::collections::hash_map::DefaultHasher::new();
    key3.hash(&mut hasher3);
    assert_ne!(hasher1.finish(), hasher3.finish());
}

#[test]
fn test_group_key_equality_and_hash() {
    let key1 = GroupKey::FilenameAndSize("test.mkv".to_string(), 1024);
    let key2 = GroupKey::FilenameAndSize("test.mkv".to_string(), 1024);
    let key3 = GroupKey::FilenameAndSize("other.mkv".to_string(), 1024);
    let key4 = GroupKey::SizeOnly(1024);
    let key5 = GroupKey::SizeOnly(1024);
    let key6 = GroupKey::SizeOnly(2048);
    let key7 = GroupKey::ExtensionAndSize("mkv".to_string(), 1024);
    let key8 = GroupKey::ExtensionAndSize("mkv".to_string(), 1024);
    let key9 = GroupKey::ExtensionAndSize("mp4".to_string(), 1024);

    // Test equality
    assert_eq!(key1, key2);
    assert_ne!(key1, key3);
    assert_ne!(key1, key4);
    assert_eq!(key4, key5);
    assert_ne!(key4, key6);
    assert_eq!(key7, key8);
    assert_ne!(key7, key9);

    // Test that keys can be used in HashMap
    let mut map: HashMap<GroupKey, String> = HashMap::new();
    map.insert(key1.clone(), "value1".to_string());
    map.insert(key4.clone(), "value2".to_string());
    map.insert(key7.clone(), "value3".to_string());

    assert_eq!(map.get(&key2), Some(&"value1".to_string()));
    assert_eq!(map.get(&key5), Some(&"value2".to_string()));
    assert_eq!(map.get(&key8), Some(&"value3".to_string()));
    assert_eq!(map.len(), 3);
}

#[test]
fn test_group_key_comprehensive() {
    // Test all GroupKey variants
    let filename_key = GroupKey::FilenameAndSize("test.mkv".to_string(), 1024);
    let size_key = GroupKey::SizeOnly(1024);
    let extension_key = GroupKey::ExtensionAndSize("mkv".to_string(), 1024);

    // Test cloning
    let filename_clone = filename_key.clone();
    let size_clone = size_key.clone();
    let extension_clone = extension_key.clone();

    assert_eq!(format!("{:?}", filename_key), format!("{:?}", filename_clone));
    assert_eq!(format!("{:?}", size_key), format!("{:?}", size_clone));
    assert_eq!(format!("{:?}", extension_key), format!("{:?}", extension_clone));

    // Test hash consistency
    let mut set = HashSet::new();
    set.insert(filename_key.clone());
    set.insert(filename_clone); // Should not increase size
    assert_eq!(set.len(), 1);

    set.insert(size_key.clone());
    set.insert(extension_key.clone());
    assert_eq!(set.len(), 3); // All three should be different
}

fn check_group_names() {
    let key1 = GroupKey::ExtensionAndSize("mkv".to_string(), 2097152);
    let key2 = GroupKey::ExtensionAndSize("mp4".to_string(), 1048576);

    assert_eq!(key1.group_name(), "mkv.2097152");
    assert_eq!(key2.group_name(), "mp4.1048576");
}

#[test]
fn main_test_group_name_formatting_with_extension() {
    check_group_names();
}

#[test]
fn main_old_test_group_name_formatting_with_extension() {
    check_group_names();
}

#[test]
fn test_group_names() {
    assert_eq!(GroupKey::FilenameAndSize("video.mkv".to_string(), 0).group_name(), "video.mkv@0");
    assert_eq!(GroupKey::SizeOnly(1024).group_name(), "size-1024");
    assert_eq!(
        GroupKey::FilenameAndSize("a@b".to_string(), u64::MAX).group_name(),
        "a@b@18446744073709551615"
    );
    assert_eq!(GroupKey::ExtensionAndSize(String::new(), 10).group_name(), ".10");
}

#[test]
fn test_decimal() {
    assert_eq!(decimal(0), "0");
    assert_eq!(decimal(7), "7");
    assert_eq!(decimal(10), "10");
    assert_eq!(decimal(1234567890), "1234567890");
    assert_eq!(decimal(u64::MAX), "18446744073709551615");
}

fn sized(path: &str, size: u64) -> (String, u64) {
    (path.to_string(), size)
}

#[test]
fn test_group_files_filename_and_size() {
    // Same size, different names: nothing groups.
    let files = vec![sized("/t/test.mkv", 1024), sized("/t/test2.mkv", 1024), sized("/t/other.txt", 2048)];
    let groups = torrent_combine::keys::group_files(&files, &DedupKey::FilenameAndSize);
    assert_eq!(groups.len(), 0);

    let files = vec![
        sized("/a/test.mkv", 1024),
        sized("/b/other.mkv", 1024),
        sized("/c/test.mkv", 1024),
        sized("/d/test.mkv", 1025),
        sized("/e/other.mkv", 1024),
        sized("/f/test.mkv", 1024),
    ];
    let groups = torrent_combine::keys::group_files(&files, &DedupKey::FilenameAndSize);
    assert_eq!(groups.len(), 2);
    assert_eq!(groups[0].key, GroupKey::FilenameAndSize("test.mkv".to_string(), 1024));
    assert_eq!(
        groups[0].paths,
        vec!["/a/test.mkv".to_string(), "/c/test.mkv".to_string(), "/f/test.mkv".to_string()]
    );
    assert_eq!(groups[1].key, GroupKey::FilenameAndSize("other.mkv".to_string(), 1024));
    assert_eq!(groups[1].paths, vec!["/b/other.mkv".to_string(), "/e/other.mkv".to_string()]);
    assert_eq!(groups[1].key.group_name(), "other.mkv@1024");
}

#[test]
fn test_group_files_size_only() {
    let files = vec![sized("/t/test.mkv", 1024), sized("/t/test2.mp4", 1024), sized("/t/other.txt", 2048)];
    let groups = torrent_combine::keys::group_files(&files, &DedupKey::SizeOnly);

    // Should have one group with file1 and file2 (same size)
    assert_eq!(groups.len(), 1);
    assert_eq!(groups[0].paths.len(), 2);
    assert!(groups[0].paths.contains(&"/t/test.mkv".to_string()));
    assert!(groups[0].paths.contains(&"/t/test2.mp4".to_string()));
    assert!(!groups[0].paths.contains(&"/t/other.txt".to_string()));
}

#[test]
fn test_group_files_extension_and_size() {
    let files = vec![sized("/t/test1.mkv", 1024), sized("/t/test2.mkv", 1024), sized("/t/other.mp4", 1024)];
    let groups = torrent_combine::keys::group_files(&files, &DedupKey::ExtensionAndSize);

    // Should have one group with file1 and file2 (same extension and size)
    assert_eq!(groups.len(), 1);
    assert_eq!(groups[0].paths, vec!["/t/test1.mkv".to_string(), "/t/test2.mkv".to_string()]);
    assert_eq!(groups[0].key.duplicate(), GroupKey::ExtensionAndSize("mkv".to_string(), 1024));
}

#[test]
fn test_group_files_no_duplicates() {
    let files = vec![sized("/t/test1.mkv", 1024), sized("/t/test2.mp4", 2048), sized("/t/other.txt", 4096)];
    let groups = torrent_combine::keys::group_files(&files, &DedupKey::SizeOnly);

    // Should have no groups since all files have different sizes
    assert_eq!(groups.len(), 0);
    assert!(torrent_combine::keys::group_files(&vec![], &DedupKey::SizeOnly).is_empty());
}
