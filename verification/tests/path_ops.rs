use helix_move::paths::depth;
use helix_move::paths::is_deletion_line;
use helix_move::paths::parent_dir;
use helix_move::paths::path_starts_with;
use helix_move::paths::rewrite_path;
use helix_move::paths::str_eq;
use helix_move::paths::trimmed_len;

#[test]
fn prefix_matching_is_segment_aware() {
    assert!(path_starts_with("a/x", "a/"));
    assert!(path_starts_with("a/x", "a"));
    assert!(!path_starts_with("ab/x", "a/"));
    assert!(!path_starts_with("ab", "a"));
    assert!(path_starts_with("a", "a/"));
    assert!(path_starts_with("a/", "a"));
    assert!(!path_starts_with("a", "a/b"));
    assert!(path_starts_with("a/b/c", "a/b"));
}

#[test]
fn rewrite_substitutes_the_prefix() {
    assert_eq!(rewrite_path("a/x", "a/", "b/"), "b/x");
    assert_eq!(rewrite_path("a/b/c", "a/b/", "z/"), "z/c");
    assert_eq!(rewrite_path("a/sub/", "a/", "b/"), "b/sub/");
}

#[test]
fn rewrite_keeps_unrelated_paths() {
    assert_eq!(rewrite_path("c/x", "a/", "b/"), "c/x");
    assert_eq!(rewrite_path("ab/x", "a/", "b/"), "ab/x");
}

#[test]
fn rewrite_leaves_the_renamed_path_itself() {
    assert_eq!(rewrite_path("a/", "a/", "b/"), "a/");
}

#[test]
fn rewrite_handles_slash_only_differences() {
    // "a" and "a/" name the same entry segment-wise; the trailing slash of
    // the rewritten path is preserved, not the prefix's.
    assert_eq!(rewrite_path("a", "a/", "b/"), "b");
    assert_eq!(rewrite_path("a/", "a", "b"), "b/");
}

#[test]
fn rewrite_works_beyond_ascii() {
    assert_eq!(rewrite_path("ä/x", "ä/", "ö/"), "ö/x");
}

#[test]
fn parent_walks_one_directory_up() {
    assert_eq!(parent_dir("a/b/c"), Some("a/b/".to_string()));
    assert_eq!(parent_dir("a/b/"), Some("a/".to_string()));
    assert_eq!(parent_dir("a/b//"), Some("a/".to_string()));
}

#[test]
fn parent_stops_at_logical_roots() {
    assert_eq!(parent_dir("a"), None);
    assert_eq!(parent_dir("a/"), None);
    assert_eq!(parent_dir("/x"), None);
    assert_eq!(parent_dir("./a"), None);
}

#[test]
fn depth_counts_separators() {
    assert_eq!(depth("a"), 0);
    assert_eq!(depth("a/b"), 1);
    assert_eq!(depth("a/b/"), 2);
    assert_eq!(depth("./testdel/abc/d"), 3);
}

#[test]
fn trimmed_len_strips_trailing_separators() {
    assert_eq!(trimmed_len("a/b"), 3);
    assert_eq!(trimmed_len("a/b//"), 3);
    assert_eq!(trimmed_len("///"), 0);
    assert_eq!(trimmed_len(""), 0);
}

#[test]
fn deletion_sentinel_is_dash_space() {
    assert!(is_deletion_line("- "));
    assert!(is_deletion_line("- something"));
    assert!(!is_deletion_line("-"));
    assert!(!is_deletion_line("-x"));
    assert!(!is_deletion_line("a/b"));
}

#[test]
fn string_equality_is_by_characters() {
    assert!(str_eq("a/b", "a/b"));
    assert!(!str_eq("a/b", "a/c"));
    assert!(!str_eq("a", "a/"));
}
