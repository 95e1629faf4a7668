use git_surgeon::{parse_diff, slice_hunk, slice_hunk_multi, slice_hunk_with_state, parse_hunk_header};

fn sample_hunk() -> git_surgeon::DiffHunk {
    let mut s = String::new();
    s.push_str("diff --git a/f b/f\n");
    s.push_str("--- a/f\n");
    s.push_str("+++ b/f\n");
    s.push_str("@@ -10,3 +10,4 @@\n");
    s.push_str(" a\n");
    s.push_str(" b\n");
    s.push_str("+c\n");
    s.push_str("-d\n");
    let mut hunks = parse_diff(&s);
    hunks.remove(0)
}

#[test]
fn forward_slice_keeps_excluded_deletion_as_context() {
    let h = sample_hunk();
    let sliced = slice_hunk(&h, 3, 3, false).unwrap();
    assert_eq!(sliced.lines, vec![" a", " b", "+c", " d"]);
    assert_eq!(sliced.header, "@@ -10,3 +10,4 @@");
    assert_eq!(sliced.file_header, h.file_header);
}

#[test]
fn reverse_slice_drops_excluded_deletion() {
    let h = sample_hunk();
    let sliced = slice_hunk(&h, 3, 3, true).unwrap();
    assert_eq!(sliced.lines, vec![" a", " b", "+c"]);
    assert_eq!(sliced.header, "@@ -10,2 +10,3 @@");
}

#[test]
fn forward_slice_drops_excluded_addition() {
    let h = sample_hunk();
    let sliced = slice_hunk(&h, 4, 4, false).unwrap();
    assert_eq!(sliced.lines, vec![" a", " b", "-d"]);
    assert_eq!(sliced.header, "@@ -10,3 +10,2 @@");
}

#[test]
fn reverse_slice_keeps_excluded_addition_as_context() {
    let h = sample_hunk();
    let sliced = slice_hunk(&h, 4, 4, true).unwrap();
    assert_eq!(sliced.lines, vec![" a", " b", " c", "-d"]);
    assert_eq!(sliced.header, "@@ -10,4 +10,3 @@");
}

#[test]
fn sliced_header_counts_equal_literal_counts() {
    let h = sample_hunk();
    for reverse in [false, true] {
        for start in 1..=4usize {
            for end in start..=4usize {
                let sliced = slice_hunk(&h, start, end, reverse).unwrap();
                let (_, oc, _, nc) = parse_hunk_header(&sliced.header).unwrap();
                let old_lines = sliced
                    .lines
                    .iter()
                    .filter(|l| l.starts_with(' ') || l.starts_with('-'))
                    .count();
                let new_lines = sliced
                    .lines
                    .iter()
                    .filter(|l| l.starts_with(' ') || l.starts_with('+'))
                    .count();
                assert_eq!(oc, old_lines);
                assert_eq!(nc, new_lines);
            }
        }
    }
}

#[test]
fn multi_range_slice_selects_both_changes() {
    let h = sample_hunk();
    let sliced = slice_hunk_multi(&h, &[(3, 3), (4, 4)], false).unwrap();
    assert_eq!(sliced.lines, vec![" a", " b", "+c", "-d"]);
    assert_eq!(sliced.header, "@@ -10,3 +10,3 @@");
}

#[test]
fn header_function_context_is_kept() {
    let mut s = String::new();
    s.push_str("--- a/f\n");
    s.push_str("+++ b/f\n");
    s.push_str("@@ -10,3 +10,4 @@ fn main\n");
    s.push_str(" a\n");
    s.push_str("+c\n");
    s.push_str("-d\n");
    let hunks = parse_diff(&s);
    let sliced = slice_hunk(&hunks[0], 2, 2, false).unwrap();
    assert_eq!(sliced.lines, vec![" a", "+c", " d"]);
    assert_eq!(sliced.header, "@@ -10,2 +10,3 @@ fn main");
}

#[test]
fn slice_refuses_unsupported_hunk() {
    let mut h = sample_hunk();
    h.unsupported_metadata = true;
    assert!(matches!(
        slice_hunk(&h, 1, 1, false),
        Err(git_surgeon::Error::SliceUnsupported)
    ));
}

#[test]
fn slice_refuses_unreadable_header() {
    let mut h = sample_hunk();
    h.header = String::from("nonsense");
    assert!(matches!(
        slice_hunk(&h, 1, 1, false),
        Err(git_surgeon::Error::InvalidHunkHeader)
    ));
}

#[test]
fn mask_slice_first_group_takes_addition() {
    let h = sample_hunk();
    let picked = [false, false, false, false];
    let selected = [false, false, true, false];
    let sliced = slice_hunk_with_state(&h, &picked, &selected).unwrap();
    assert_eq!(sliced.lines, vec![" a", " b", "+c", " d"]);
    assert_eq!(sliced.header, "@@ -10,3 +10,4 @@");
}

#[test]
fn mask_slice_second_group_sees_earlier_pick_as_context() {
    let h = sample_hunk();
    let picked = [false, false, true, false];
    let selected = [false, false, false, true];
    let sliced = slice_hunk_with_state(&h, &picked, &selected).unwrap();
    assert_eq!(sliced.lines, vec![" a", " b", " c", "-d"]);
    assert_eq!(sliced.header, "@@ -10,4 +10,3 @@");
}

#[test]
fn mask_slice_drops_applied_deletion_and_unwanted_addition() {
    let h = sample_hunk();
    let picked = [false, false, false, true];
    let selected = [false, false, false, false];
    let sliced = slice_hunk_with_state(&h, &picked, &selected).unwrap();
    assert_eq!(sliced.lines, vec![" a", " b"]);
    assert_eq!(sliced.header, "@@ -10,2 +10,2 @@");
}

#[test]
fn mask_slice_refuses_short_mask() {
    let h = sample_hunk();
    assert!(matches!(
        slice_hunk_with_state(&h, &[false], &[false, false, true, false]),
        Err(git_surgeon::Error::MaskLengthMismatch)
    ));
}

fn net_sides(lines: &[String]) -> (Vec<String>, Vec<String>) {
    let mut old_side = Vec::new();
    let mut new_side = Vec::new();
    for l in lines {
        if let Some(rest) = l.strip_prefix(' ') {
            old_side.push(rest.to_string());
            new_side.push(rest.to_string());
        } else if let Some(rest) = l.strip_prefix('-') {
            old_side.push(rest.to_string());
        } else if let Some(rest) = l.strip_prefix('+') {
            new_side.push(rest.to_string());
        }
    }
    (old_side, new_side)
}

#[test]
fn forward_and_reverse_complement_compose_to_net_effect() {
    let h = sample_hunk();
    let fwd = slice_hunk(&h, 3, 3, false).unwrap();
    let rev = slice_hunk_multi(&h, &[(1, 2), (4, 4)], true).unwrap();
    let (h_old, h_new) = net_sides(&h.lines);
    let (f_old, f_new) = net_sides(&fwd.lines);
    let (r_old, r_new) = net_sides(&rev.lines);
    assert_eq!(f_old, h_old);
    assert_eq!(f_new, r_old);
    assert_eq!(r_new, h_new);
}

#[test]
fn mask_slicing_two_groups_meet_and_match_one_group() {
    let h = sample_hunk();
    let none = [false, false, false, false];
    let s1 = [false, false, true, false];
    let s2 = [false, false, false, true];
    let both = [false, false, true, true];
    let first = slice_hunk_with_state(&h, &none, &s1).unwrap();
    let second = slice_hunk_with_state(&h, &s1, &s2).unwrap();
    let onego = slice_hunk_with_state(&h, &none, &both).unwrap();
    let (f_old, f_new) = net_sides(&first.lines);
    let (s_old, s_new) = net_sides(&second.lines);
    let (o_old, o_new) = net_sides(&onego.lines);
    let (h_old, _) = net_sides(&h.lines);
    assert_eq!(f_old, h_old);
    assert_eq!(o_old, h_old);
    assert_eq!(f_new, s_old);
    assert_eq!(s_new, o_new);
}
