use git_surgeon::{parse_blame_hashes, align_blame};

#[test]
fn porcelain_hashes_are_extracted_per_header_line() {
    let mut out = String::new();
    out.push_str("0123456789012345678901234567890123456789 1 1 1\n");
    out.push_str("author Someone\n");
    out.push_str("\tactual line content\n");
    out.push_str("^abcdefabcdefabcdefabcdefabcdefabcdefabcd 2 2 1\n");
    out.push_str("\tanother line\n");
    let hashes = parse_blame_hashes(&out);
    assert_eq!(hashes, vec!["0123456", "abcdefa"]);
}

#[test]
fn porcelain_short_lines_are_skipped() {
    let hashes = parse_blame_hashes("author X\nnot-a-hash 1 2\n\ttab line\n");
    assert!(hashes.is_empty());
}

#[test]
fn alignment_walks_two_cursors() {
    let lines = vec![
        String::from(" ctx"),
        String::from("-del"),
        String::from("+add"),
        String::from("\\ No newline at end of file"),
    ];
    let old_blame = vec![String::from("aaaaaaa"), String::from("bbbbbbb")];
    let new_blame = vec![String::from("ccccccc"), String::from("ddddddd")];
    let r = align_blame(&lines, &old_blame, &new_blame);
    assert_eq!(r.len(), 4);
    assert_eq!(r[0].as_deref(), Some("ccccccc"));
    assert_eq!(r[1].as_deref(), Some("bbbbbbb"));
    assert_eq!(r[2].as_deref(), Some("ddddddd"));
    assert!(r[3].is_none());
}

#[test]
fn alignment_degrades_to_zero_sentinel() {
    let lines = vec![String::from("+add"), String::from("+more")];
    let r = align_blame(&lines, &vec![], &vec![String::from("eeeeeee")]);
    assert_eq!(r[0].as_deref(), Some("eeeeeee"));
    assert_eq!(r[1].as_deref(), Some("0000000"));
}
