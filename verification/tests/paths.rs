use storage_harvester::path::{join_path, normalize_absolute, same_path, strip_root};
use storage_harvester::text::{decimal, seconds_fixed6, text_less};
use storage_harvester::time::Duration;

#[test]
fn compares_paths_by_components() {
    assert!(same_path("/a/b", "/a//b/"));
    assert!(same_path("/a/./b", "/a/b"));
    assert!(!same_path("/a/b", "a/b"));
    assert!(same_path("./a", "./a/"));
    assert!(!same_path("./a", "a"));
    assert!(!same_path("/a/../b", "/b"));
    assert!(!same_path("/a", "/a/b"));
}

#[test]
fn joins_and_normalizes_paths() {
    assert_eq!(join_path("/a", "b"), "/a/b");
    assert_eq!(join_path("/a/", "b"), "/a/b");
    assert_eq!(join_path("/a", "/b"), "/b");
    assert_eq!(join_path("", "b"), "b");
    assert_eq!(normalize_absolute("//x/./y//"), "/x/y");
    assert_eq!(strip_root("/./a/b/."), "a/b".chars().collect::<Vec<char>>());
    assert_eq!(strip_root("rel"), "rel".chars().collect::<Vec<char>>());
}

#[test]
fn writes_numbers() {
    assert_eq!(decimal(0), "0");
    assert_eq!(decimal(1234567890), "1234567890");
    assert_eq!(seconds_fixed6(&Duration { secs: 3, nanos: 1_500 }), "3.000002");
    assert_eq!(seconds_fixed6(&Duration { secs: 0, nanos: 999_999_500 }), "1.000000");
    assert!(text_less("abc", "abd"));
    assert!(text_less("ab", "abc"));
    assert!(!text_less("b", "abc"));
}

#[test]
fn six_decimals_agree_with_float_formatting() {
    for secs in [0u64, 1, 59, 3_600, 86_400 * 365, 1_700_000_000] {
        for nanos in [0u32, 1_000, 250_000_000, 999_999_000, 123_456_789, 5_000_400, 999_999_999] {
            let d = Duration { secs, nanos };
            let expected = format!("{:.6}", std::time::Duration::new(secs, nanos).as_secs_f64());
            assert_eq!(seconds_fixed6(&d), expected, "{secs}s {nanos}ns");
        }
    }
}
