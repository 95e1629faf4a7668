use git_surgeon::parse_hunk_header;

#[test]
fn test_parse_hunk_header_full() {
    let result = parse_hunk_header("@@ -10,3 +10,4 @@ fn main");
    assert_eq!(result, Some((10, 3, 10, 4)));
}

#[test]
fn test_parse_hunk_header_no_count() {
    let result = parse_hunk_header("@@ -5 +5 @@");
    assert_eq!(result, Some((5, 1, 5, 1)));
}

#[test]
fn test_parse_hunk_header_mixed() {
    let result = parse_hunk_header("@@ -1,2 +1 @@");
    assert_eq!(result, Some((1, 2, 1, 1)));
}

#[test]
fn test_parse_hunk_header_zero_count() {
    let result = parse_hunk_header("@@ -0,0 +1,3 @@");
    assert_eq!(result, Some((0, 0, 1, 3)));
}

#[test]
fn test_parse_hunk_header_invalid() {
    assert_eq!(parse_hunk_header("not a header"), None);
}

#[test]
fn test_parse_hunk_header_plus_prefixed_numbers() {
    assert_eq!(parse_hunk_header("@@ -+5,2 ++6,3 @@"), Some((5, 2, 6, 3)));
}

#[test]
fn test_parse_hunk_starts_lenient_without_closing_marker() {
    assert_eq!(git_surgeon::parse_hunk_starts("@@ -12,4 +15,6"), Some((12, 15)));
    assert_eq!(git_surgeon::parse_hunk_starts("@@ -12,4 +15,6 @@ fn x"), Some((12, 15)));
    assert_eq!(git_surgeon::parse_hunk_starts("garbage"), None);
}
