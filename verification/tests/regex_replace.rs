use fresh_buffer::{build_regex, collect_regex_matches, expand_replacement, normalize_replacement};

#[test]
fn build_regex_returns_none_when_disabled() {
    assert!(build_regex("foo", false, false, true).is_none());
}

#[test]
fn build_regex_basic_pattern() {
    let re = build_regex("foo.*bar", true, false, true).unwrap();
    assert!(re.is_match(b"foo123bar"));
    assert!(!re.is_match(b"baz"));
}

#[test]
fn build_regex_case_insensitive() {
    let re = build_regex("hello", true, false, false).unwrap();
    assert!(re.is_match(b"HELLO"));
    assert!(re.is_match(b"hello"));
}

#[test]
fn build_regex_whole_word() {
    let re = build_regex("foo", true, true, true).unwrap();
    assert!(re.is_match(b"foo bar"));
    assert!(!re.is_match(b"foobar"));
}

#[test]
fn collect_regex_matches_literal_replacement() {
    let re = build_regex("Sig:.*", true, false, true).unwrap();
    let input = b"AAAAAA\nSig: hello\nBBBBBB\nSig: world\nCCCCCC";
    let matches = collect_regex_matches(&re, input, "");

    assert_eq!(matches.len(), 2);
    assert_eq!(matches[0].offset, 7);
    assert_eq!(matches[0].replacement, "");
    assert_eq!(matches[1].offset, 25);
    assert_eq!(matches[1].replacement, "");
}

#[test]
fn collect_regex_matches_with_capture_groups() {
    let re = build_regex(r"(\w+)@(\w+)", true, false, true).unwrap();
    let input = b"alice@example bob@test";
    let matches = collect_regex_matches(&re, input, "$2=$1");

    assert_eq!(matches.len(), 2);
    assert_eq!(matches[0].replacement, "example=alice");
    assert_eq!(matches[1].replacement, "test=bob");
}

#[test]
fn expand_replacement_with_groups() {
    let re = build_regex(r"(\d+)-(\d+)", true, false, true).unwrap();
    let matched = b"123-456";
    let result = expand_replacement(&re, matched, "$2/$1");
    assert_eq!(result, "456/123");
}

#[test]
fn expand_replacement_no_groups() {
    let re = build_regex("hello", true, false, true).unwrap();
    let matched = b"hello";
    let result = expand_replacement(&re, matched, "world");
    assert_eq!(result, "world");
}

#[test]
fn normalize_braces_numeric_groups() {
    assert_eq!(normalize_replacement("$1"), "${1}");
    assert_eq!(normalize_replacement("$12"), "${12}");
    assert_eq!(normalize_replacement("oo$1oo"), "oo${1}oo");
    assert_eq!(normalize_replacement("$1-$2"), "${1}-${2}");
    // Already braced → unchanged
    assert_eq!(normalize_replacement("${1}oo"), "${1}oo");
    // No group ref → unchanged
    assert_eq!(normalize_replacement("hello"), "hello");
    // Named group → unchanged
    assert_eq!(normalize_replacement("$name"), "$name");
    // Literal $$ → passed through ($ not followed by digit)
    assert_eq!(normalize_replacement("$$"), "$$");
}

/// Matches the usual backreference semantics: replacing `bla(bla)` with
/// `oo$1oo` in `blablabla` yields one match expanding to `ooblaoo`.
#[test]
fn collect_regex_matches_capture_group_blabla() {
    let re = build_regex(r"bla(bla)", true, false, true).unwrap();
    let input = b"blablabla";
    let matches = collect_regex_matches(&re, input, "oo$1oo");

    assert_eq!(matches.len(), 1);
    assert_eq!(matches[0].offset, 0);
    assert_eq!(matches[0].len, 6);
    assert_eq!(matches[0].replacement, "ooblaoo");
}

#[test]
fn collect_regex_matches_handles_empty_matches() {
    let re = build_regex("x*", true, false, true).unwrap();
    let matches = collect_regex_matches(&re, b"axa", "-");
    // Matches may be empty; the scan still terminates, stays in order and
    // never overlaps.
    for w in matches.windows(2) {
        assert!(w[0].offset + w[0].len <= w[1].offset);
    }
    assert!(matches.iter().any(|m| m.len == 1));
}

#[test]
fn normalize_preserves_multibyte_text() {
    assert_eq!(normalize_replacement("é$1é"), "é${1}é");
}
