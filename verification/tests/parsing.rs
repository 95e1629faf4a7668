use git_surgeon::{parse_diff, build_patch, assign_ids, display_file, strip_diff_prefix};
use sha1::Digest;

fn sample_diff() -> String {
    let mut s = String::new();
    s.push_str("diff --git a/f b/f\n");
    s.push_str("--- a/f\n");
    s.push_str("+++ b/f\n");
    s.push_str("@@ -10,3 +10,4 @@\n");
    s.push_str(" a\n");
    s.push_str(" b\n");
    s.push_str("+c\n");
    s.push_str("-d\n");
    s
}

#[test]
fn parse_extracts_one_hunk() {
    let hunks = parse_diff(&sample_diff());
    assert_eq!(hunks.len(), 1);
    let h = &hunks[0];
    assert_eq!(h.file, "f");
    assert_eq!(h.old_file, "f");
    assert_eq!(h.new_file, "f");
    assert_eq!(h.file_header, "--- a/f\n+++ b/f");
    assert_eq!(h.header, "@@ -10,3 +10,4 @@");
    assert_eq!(h.lines, vec![" a", " b", "+c", "-d"]);
    assert!(!h.unsupported_metadata);
}

#[test]
fn parse_splits_hunks_within_one_file() {
    let mut s = String::new();
    s.push_str("diff --git a/f b/f\n");
    s.push_str("--- a/f\n");
    s.push_str("+++ b/f\n");
    s.push_str("@@ -1,2 +1,2 @@\n");
    s.push_str(" x\n");
    s.push_str("-y\n");
    s.push_str("+z\n");
    s.push_str("@@ -10,1 +10,2 @@\n");
    s.push_str(" q\n");
    s.push_str("+r\n");
    let hunks = parse_diff(&s);
    assert_eq!(hunks.len(), 2);
    assert_eq!(hunks[0].header, "@@ -1,2 +1,2 @@");
    assert_eq!(hunks[1].header, "@@ -10,1 +10,2 @@");
    assert_eq!(hunks[1].lines, vec![" q", "+r"]);
}

#[test]
fn parse_empty_input_yields_no_hunks() {
    assert_eq!(parse_diff("").len(), 0);
}

#[test]
fn parse_skips_unrecognized_leading_lines() {
    let mut s = String::new();
    s.push_str("index 1234..5678 100644\n");
    s.push_str("some noise\n");
    s.push_str("--- a/f\n");
    s.push_str("+++ b/f\n");
    s.push_str("@@ -1 +1 @@\n");
    s.push_str("-old\n");
    s.push_str("+new\n");
    let hunks = parse_diff(&s);
    assert_eq!(hunks.len(), 1);
    assert_eq!(hunks[0].lines, vec!["-old", "+new"]);
}

#[test]
fn parse_marks_rename_sections_unsupported() {
    let mut s = String::new();
    s.push_str("diff --git a/old.rs b/new.rs\n");
    s.push_str("similarity index 90%\n");
    s.push_str("rename from old.rs\n");
    s.push_str("rename to new.rs\n");
    s.push_str("--- a/old.rs\n");
    s.push_str("+++ b/new.rs\n");
    s.push_str("@@ -1 +1 @@\n");
    s.push_str("-a\n");
    s.push_str("+b\n");
    let hunks = parse_diff(&s);
    assert_eq!(hunks.len(), 1);
    assert!(hunks[0].unsupported_metadata);
    assert!(git_surgeon::check_supported(&hunks[0], "x").is_err());
}

#[test]
fn parse_deletion_uses_old_side_path() {
    let mut s = String::new();
    s.push_str("diff --git a/gone b/gone\n");
    s.push_str("--- a/gone\n");
    s.push_str("+++ /dev/null\n");
    s.push_str("@@ -1 +0,0 @@\n");
    s.push_str("-x\n");
    let hunks = parse_diff(&s);
    assert_eq!(hunks.len(), 1);
    assert_eq!(hunks[0].new_file, "dev/null");
    assert_eq!(hunks[0].file, "gone");
}

#[test]
fn build_patch_reconstructs_hunk_text() {
    let hunks = parse_diff(&sample_diff());
    let patch = build_patch(&hunks[0]);
    assert_eq!(patch, "--- a/f\n+++ b/f\n@@ -10,3 +10,4 @@\n a\n b\n+c\n-d\n");
}

#[test]
fn parse_build_round_trip_per_file() {
    let hunks = parse_diff(&sample_diff());
    let mut rebuilt = String::new();
    for h in &hunks {
        rebuilt.push_str(&build_patch(h));
    }
    let again = parse_diff(&rebuilt);
    assert_eq!(again.len(), hunks.len());
    for (a, b) in hunks.iter().zip(again.iter()) {
        assert_eq!(a.file, b.file);
        assert_eq!(a.old_file, b.old_file);
        assert_eq!(a.new_file, b.new_file);
        assert_eq!(a.file_header, b.file_header);
        assert_eq!(a.header, b.header);
        assert_eq!(a.lines, b.lines);
    }
}

#[test]
fn display_file_prefers_new_side() {
    assert_eq!(display_file("old", "new"), "new");
    assert_eq!(display_file("old", "dev/null"), "old");
    assert_eq!(display_file("old", ""), "old");
}

#[test]
fn strip_diff_prefix_handles_each_form() {
    assert_eq!(strip_diff_prefix("--- a/src/x.rs"), "src/x.rs");
    assert_eq!(strip_diff_prefix("+++ b/src/x.rs"), "src/x.rs");
    assert_eq!(strip_diff_prefix("--- /dev/null"), "dev/null");
    assert_eq!(strip_diff_prefix("+++ /dev/null"), "dev/null");
    assert_eq!(strip_diff_prefix("+++ a/src/x.rs"), "src/x.rs");
    assert_eq!(strip_diff_prefix("--- plain"), "plain");
    assert_eq!(strip_diff_prefix("+++ plain"), "plain");
    assert_eq!(strip_diff_prefix("other"), "other");
}

#[test]
fn assign_ids_deterministic_and_distinct_for_duplicates() {
    let mut s = String::new();
    s.push_str("diff --git a/f b/f\n");
    s.push_str("--- a/f\n");
    s.push_str("+++ b/f\n");
    s.push_str("@@ -1,1 +1,1 @@\n");
    s.push_str("+same\n");
    s.push_str("@@ -50,1 +50,1 @@\n");
    s.push_str("+same\n");
    let hunks = parse_diff(&s);
    assert_eq!(hunks.len(), 2);
    let ids_a: Vec<String> = assign_ids(&hunks).into_iter().map(|(id, _)| id).collect();
    let ids_b: Vec<String> = assign_ids(&hunks).into_iter().map(|(id, _)| id).collect();
    assert_eq!(ids_a, ids_b);
    assert_eq!(ids_a.len(), 2);
    assert_ne!(ids_a[0], ids_a[1]);
    assert_eq!(ids_a[0].len(), 7);
    assert_eq!(ids_a[1], format!("{}-2", ids_a[0]));
}

#[test]
fn assign_ids_matches_direct_digest() {
    let hunks = parse_diff(&sample_diff());
    let ids = assign_ids(&hunks);
    let mut hasher = sha1::Sha1::new();
    hasher.update(hunks[0].file.as_bytes());
    for line in &hunks[0].lines {
        hasher.update(line.as_bytes());
        hasher.update(b"\n");
    }
    let digest = hasher.finalize();
    let expected = hex::encode(&digest[..4]);
    assert_eq!(ids[0].0, expected[..7]);
}

#[test]
fn assign_ids_stable_across_header_shift() {
    let a = parse_diff(&sample_diff());
    let shifted = sample_diff().replace("@@ -10,3 +10,4 @@", "@@ -90,3 +90,4 @@");
    let b = parse_diff(&shifted);
    assert_eq!(assign_ids(&a)[0].0, assign_ids(&b)[0].0);
}
