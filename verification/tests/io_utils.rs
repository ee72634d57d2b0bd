use html_build::io_utils::is_safe_path;

#[test]
fn test_is_safe_path() {
    assert!(is_safe_path("a.txt"));
    assert!(is_safe_path("a/b.txt"));
    assert!(is_safe_path("a/b/c/./d.txt"));
    assert!(!is_safe_path("../parent.txt"));
    assert!(!is_safe_path("/etc/passwd"));
}
