use nabs::paths::{normalize_path, posix_to_win, NormalizeError};

#[test]
fn normalize_collapses_dot_and_dotdot() {
    assert_eq!(normalize_path("a/b/../c").unwrap(), "a/c");
    assert_eq!(normalize_path("a/./b").unwrap(), "a/b");
    assert_eq!(normalize_path("a//b").unwrap(), "a/b");
    assert_eq!(normalize_path("a/b/c").unwrap(), "a/b/c");
}

#[test]
fn normalize_fails_on_escape_above_root() {
    assert_eq!(
        normalize_path("a/../../b").unwrap_err(),
        NormalizeError::EscapesRoot
    );
    assert!(normalize_path("..").is_err());
    assert!(normalize_path("a/../..").is_err());
}

#[test]
fn normalize_edge_forms() {
    assert_eq!(normalize_path("").unwrap(), "");
    assert_eq!(normalize_path("a/..").unwrap(), "");
    assert_eq!(normalize_path("/a/b/../c").unwrap(), "/a/c");
    assert_eq!(normalize_path("/").unwrap(), "/");
    assert!(normalize_path("/..").is_err());
}

#[test]
fn posix_to_win_replaces_separators() {
    assert_eq!(posix_to_win("a/b/c"), "a\\b\\c");
    assert_eq!(posix_to_win("no_separator"), "no_separator");
    assert_eq!(posix_to_win(""), "");
}
