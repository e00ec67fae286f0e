use fresh_buffer::{filename_glob_matches, is_glob_pattern};

#[test]
fn test_is_glob_pattern() {
    assert!(is_glob_pattern("*.conf"));
    assert!(is_glob_pattern("Dockerfile*"));
    assert!(is_glob_pattern("file?.txt"));
    assert!(is_glob_pattern("*"));
    assert!(!is_glob_pattern("Makefile"));
    assert!(!is_glob_pattern(".bashrc"));
    assert!(!is_glob_pattern(""));
}

#[test]
fn test_star_prefix() {
    assert!(filename_glob_matches("*.conf", "nftables.conf"));
    assert!(filename_glob_matches("*.conf", "resolv.conf"));
    assert!(filename_glob_matches("*.conf", ".conf"));
    assert!(!filename_glob_matches("*.conf", "conf"));
    assert!(!filename_glob_matches("*.conf", "nftables.txt"));
}

#[test]
fn test_star_suffix() {
    assert!(filename_glob_matches("Dockerfile*", "Dockerfile"));
    assert!(filename_glob_matches("Dockerfile*", "Dockerfile.dev"));
    assert!(!filename_glob_matches("Dockerfile*", "dockerfile"));
}

#[test]
fn test_star_middle() {
    assert!(filename_glob_matches(".env.*", ".env.local"));
    assert!(filename_glob_matches(".env.*", ".env.production"));
    assert!(!filename_glob_matches(".env.*", ".env"));
}

#[test]
fn test_star_suffix_pattern() {
    assert!(filename_glob_matches("*rc", "lfrc"));
    assert!(filename_glob_matches("*rc", ".bashrc"));
    assert!(filename_glob_matches("*rc", "rc"));
    assert!(!filename_glob_matches("*rc", "lfrc.bak"));
}

#[test]
fn test_question_mark() {
    assert!(filename_glob_matches("file?.txt", "file1.txt"));
    assert!(filename_glob_matches("file?.txt", "fileA.txt"));
    assert!(!filename_glob_matches("file?.txt", "file.txt"));
    assert!(!filename_glob_matches("file?.txt", "file12.txt"));
}

#[test]
fn test_bare_star() {
    assert!(filename_glob_matches("*", "anything"));
    assert!(filename_glob_matches("*", ""));
}

#[test]
fn test_exact_match() {
    assert!(filename_glob_matches("Makefile", "Makefile"));
    assert!(!filename_glob_matches("Makefile", "makefile"));
}

#[test]
fn test_multiple_stars() {
    assert!(filename_glob_matches("*.*", "file.txt"));
    assert!(filename_glob_matches("*.*", ".bashrc"));
    assert!(!filename_glob_matches("*.*", "Makefile"));
}

#[test]
fn backtracking_across_repeated_fragments() {
    assert!(filename_glob_matches("*ab*ab", "xabyabab"));
    assert!(!filename_glob_matches("*ab*abc", "xabyabab"));
    assert!(filename_glob_matches("a*?c", "abbc"));
    assert!(!filename_glob_matches("a*?c", "ac"));
}
