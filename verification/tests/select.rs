use torrent_combine::cache::{still_stands, FileInfo, GroupCache};
use torrent_combine::select::{any_excluded, eq_ignore_ascii_case, is_excluded, is_wanted};

fn list(items: &[&str]) -> Vec<String> {
    items.iter().map(|s| s.to_string()).collect()
}

#[test]
fn test_eq_ignore_ascii_case() {
    assert!(eq_ignore_ascii_case("mkv", "MKV"));
    assert!(eq_ignore_ascii_case("MkV", "mKv"));
    assert!(eq_ignore_ascii_case("", ""));
    assert!(!eq_ignore_ascii_case("mkv", "mk"));
    assert!(!eq_ignore_ascii_case("mkv", "mp4"));
    // Only the letters of ASCII are folded.
    assert!(!eq_ignore_ascii_case("\u{e4}", "\u{c4}"));
    assert!(!eq_ignore_ascii_case("@", "`"));
    assert!(!eq_ignore_ascii_case("[", "{"));
    assert!(eq_ignore_ascii_case("a-Z_9", "A-z_9"));
    for (a, b) in [("mkv", "MKV"), ("@", "`"), ("[", "{"), ("Zz", "zZ"), ("\u{e4}", "\u{c4}"), ("k", "\u{212a}")] {
        assert_eq!(eq_ignore_ascii_case(a, b), a.eq_ignore_ascii_case(b));
    }
}

#[test]
fn test_is_wanted_by_size() {
    assert!(is_wanted("/t/large.txt", 2048, 1024, &vec![]));
    assert!(is_wanted("/t/edge.txt", 1024, 1024, &vec![]));
    assert!(!is_wanted("/t/small.txt", 5, 1024, &vec![]));
    assert!(is_wanted("/t/empty.txt", 0, 0, &vec![]));
}

#[test]
fn test_is_wanted_by_extension() {
    let extensions = list(&["mkv", "mp4"]);
    assert!(is_wanted("/t/test.mkv", 11, 1, &extensions));
    assert!(is_wanted("/t/test.mp4", 11, 1, &extensions));
    assert!(!is_wanted("/t/test.txt", 11, 1, &extensions));
    assert!(!is_wanted("/t/mkv", 11, 1, &extensions));
    assert!(!is_wanted("/t/test.mkv", 0, 1, &extensions));
    // Extensions are compared without regard to case.
    assert!(is_wanted("/t/test2.MKV", 11, 1, &list(&["mkv"])));
    assert!(is_wanted("/t/test2.mkv", 11, 1, &list(&["MKV"])));
    assert!(is_wanted("/t/archive.tar.gz", 11, 1, &list(&["gz"])));
    assert!(!is_wanted("/t/archive.tar.gz", 11, 1, &list(&["tar"])));
}

#[test]
fn test_is_excluded() {
    let excludes = list(&["/data/exclude", "/other"]);
    assert!(is_excluded("/data/exclude", &excludes));
    assert!(is_excluded("/data/exclude/deep/down", &excludes));
    assert!(is_excluded("/other/x", &excludes));
    assert!(!is_excluded("/data/include", &excludes));
    assert!(!is_excluded("/data/excluded", &excludes));
    assert!(!is_excluded("/data", &excludes));
    assert!(!is_excluded("/data/exclude", &vec![]));
}

#[test]
fn test_any_excluded() {
    let excludes = list(&["/data/exclude"]);
    assert!(any_excluded(&list(&["/data/a", "/data/exclude/b"]), &excludes));
    assert!(!any_excluded(&list(&["/data/a", "/data/b"]), &excludes));
    assert!(!any_excluded(&vec![], &excludes));
}

fn info(path: &str, size: u64, modified: u64) -> FileInfo {
    FileInfo { path: path.to_string(), size, modified, hash: String::new(), last_verified: 0 }
}

#[test]
fn test_still_stands() {
    let group = GroupCache {
        files: vec![info("/a", 10, 100), info("/b", 20, 200)],
        is_complete: true,
        last_verified: 5,
    };
    assert!(still_stands(&group, &vec![Some((10, 100)), Some((20, 200))]));
    // Another size, another time, a file that is gone, a file too few.
    assert!(!still_stands(&group, &vec![Some((10, 100)), Some((21, 200))]));
    assert!(!still_stands(&group, &vec![Some((10, 101)), Some((20, 200))]));
    assert!(!still_stands(&group, &vec![Some((10, 100)), None]));
    assert!(!still_stands(&group, &vec![Some((10, 100))]));
    assert!(!still_stands(&group, &vec![Some((20, 200)), Some((10, 100))]));
    let empty = GroupCache { files: vec![], is_complete: false, last_verified: 5 };
    assert!(still_stands(&empty, &vec![]));
}
