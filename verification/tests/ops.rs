use git_surgeon::hunk::{
    plan_apply_hunks, plan_undo_hunks, plan_undo_files, plan_commit_hunks, commit_stage,
    commit_recovery, parse_id_range, plan_fixup, plan_reword, plan_squash_precheck, plan_squash,
    plan_split_precheck, FixupPlan, RewordPlan, SquashReset, short_ref, ref_at_distance,
    sequence_editor_script, join_message_parts, hunk_change_counts, changed_lines,
    display_func_ctx, new_split_session,
    validate_pick_groups, split_select_group, split_rest_patch,
};
use git_surgeon::{ApplyMode, Error, assign_ids, parse_diff, parse_split_args, PickGroup};

fn sample_diff() -> String {
    let mut s = String::new();
    s.push_str("diff --git a/f b/f\n");
    s.push_str("--- a/f\n");
    s.push_str("+++ b/f\n");
    s.push_str("@@ -10,3 +10,4 @@\n");
    s.push_str(" a\n");
    s.push_str(" b\n");
    s.push_str("+c\n");
    s.push_str("-d\n");
    s
}

fn two_hunk_diff() -> String {
    let mut s = String::new();
    s.push_str("diff --git a/f b/f\n");
    s.push_str("--- a/f\n");
    s.push_str("+++ b/f\n");
    s.push_str("@@ -1,2 +1,2 @@\n");
    s.push_str(" x\n");
    s.push_str("-y\n");
    s.push_str("+z\n");
    s.push_str("@@ -10,1 +10,2 @@\n");
    s.push_str(" q\n");
    s.push_str("+r\n");
    s
}

fn first_id(diff: &str) -> String {
    let hunks = parse_diff(diff);
    assign_ids(&hunks)[0].0.clone()
}

#[test]
fn plan_apply_builds_whole_hunk_patch() {
    let diff = sample_diff();
    let id = first_id(&diff);
    let plan = plan_apply_hunks(&diff, &vec![id], ApplyMode::Stage, None).unwrap();
    assert_eq!(plan.patch, "--- a/f\n+++ b/f\n@@ -10,3 +10,4 @@\n a\n b\n+c\n-d\n");
    assert!(matches!(plan.mode, ApplyMode::Stage));
}

#[test]
fn plan_apply_slices_to_requested_lines() {
    let diff = sample_diff();
    let id = first_id(&diff);
    let plan = plan_apply_hunks(&diff, &vec![id], ApplyMode::Discard, Some((3, 3))).unwrap();
    assert_eq!(plan.patch, "--- a/f\n+++ b/f\n@@ -10,2 +10,3 @@\n a\n b\n+c\n");
}

#[test]
fn plan_apply_rejects_lines_with_many_ids() {
    let diff = sample_diff();
    let r = plan_apply_hunks(
        &diff,
        &vec![String::from("one"), String::from("two")],
        ApplyMode::Stage,
        Some((1, 1)),
    );
    assert!(matches!(r, Err(Error::LinesRequireSingleHunk)));
}

#[test]
fn plan_apply_reports_unknown_id() {
    let diff = sample_diff();
    let r = plan_apply_hunks(&diff, &vec![String::from("zzzzzzz")], ApplyMode::Stage, None);
    match r {
        Err(Error::HunkNotFound { id }) => assert_eq!(id, "zzzzzzz"),
        other => panic!("unexpected result: {:?}", other),
    }
}

#[test]
fn plan_undo_reverses_against_commit_listing() {
    let diff = sample_diff();
    let id = first_id(&diff);
    let plan = plan_undo_hunks(&diff, &vec![id], Some((3, 3))).unwrap();
    assert!(matches!(plan.mode, ApplyMode::Discard));
    assert_eq!(plan.patch, "--- a/f\n+++ b/f\n@@ -10,2 +10,3 @@\n a\n b\n+c\n");
}

#[test]
fn undo_files_fails_without_touching_anything_when_a_path_is_missing() {
    let diff = two_hunk_diff();
    let files = vec![
        String::from("f"),
        String::from("absent-one"),
        String::from("absent-two"),
    ];
    match plan_undo_files(&diff, &files) {
        Err(Error::FileNotFound { file }) => assert_eq!(file, "absent-one"),
        other => panic!("unexpected result: {:?}", other),
    }
}

#[test]
fn undo_files_collects_every_matching_hunk() {
    let diff = two_hunk_diff();
    let plan = plan_undo_files(&diff, &vec![String::from("f")]).unwrap();
    assert!(matches!(plan.mode, ApplyMode::Discard));
    let mut expected = String::from("--- a/f\n+++ b/f\n@@ -1,2 +1,2 @@\n x\n-y\n+z\n");
    expected.push_str("--- a/f\n+++ b/f\n@@ -10,1 +10,2 @@\n q\n+r\n");
    assert_eq!(plan.patch, expected);
}

#[test]
fn commit_plan_refuses_preexisting_staged_content() {
    let diff = sample_diff();
    let id = first_id(&diff);
    let r = plan_commit_hunks(&diff, &vec![id], "msg", true);
    assert!(matches!(r, Err(Error::StagedChangesPresent)));
}

#[test]
fn commit_plan_groups_ranges_of_one_id() {
    let diff = sample_diff();
    let id = first_id(&diff);
    let raw = format!("{}:3,4", id);
    let plan = plan_commit_hunks(&diff, &vec![raw], "msg", false).unwrap();
    assert_eq!(plan.patch, "--- a/f\n+++ b/f\n@@ -10,3 +10,3 @@\n a\n b\n+c\n-d\n");
    assert_eq!(plan.message, "msg");
}

/// A minimal model of the index: a stack of applied patch texts.
struct MockIndex {
    applied: Vec<String>,
}

impl MockIndex {
    fn apply(&mut self, plan: &git_surgeon::hunk::ApplyPlan) {
        match plan.mode {
            ApplyMode::Stage => self.applied.push(plan.patch.clone()),
            ApplyMode::Unstage => {
                let top = self.applied.pop().expect("nothing staged");
                assert_eq!(top, plan.patch, "reverse patch must match what was staged");
            }
            ApplyMode::Discard => panic!("commit flow never discards"),
        }
    }
}

#[test]
fn failed_commit_restores_the_index() {
    let diff = sample_diff();
    let id = first_id(&diff);
    let plan = plan_commit_hunks(&diff, &vec![id], "msg", false).unwrap();
    let mut index = MockIndex { applied: vec![String::from("unrelated-base")] };
    let before = index.applied.clone();
    index.apply(&commit_stage(&plan));
    let commit_failed = true;
    if commit_failed {
        index.apply(&commit_recovery(&plan));
    }
    assert_eq!(index.applied, before);
}

#[test]
fn parse_id_range_reads_suffixes() {
    let (id, rs) = parse_id_range("abc1234").unwrap();
    assert_eq!(id, "abc1234");
    assert!(rs.is_empty());
    let (id, rs) = parse_id_range("abc1234:5").unwrap();
    assert_eq!(id, "abc1234");
    assert_eq!(rs, vec![(5, 5)]);
    let (id, rs) = parse_id_range("abc1234:2,5-6,34").unwrap();
    assert_eq!(id, "abc1234");
    assert_eq!(rs, vec![(2, 2), (5, 6), (34, 34)]);
    let (id, rs) = parse_id_range("abc1234:").unwrap();
    assert_eq!(id, "abc1234");
    assert!(rs.is_empty());
}

#[test]
fn parse_id_range_rejects_bad_numbers_and_order() {
    assert!(matches!(parse_id_range("id:x"), Err(Error::InvalidNumber { .. })));
    assert!(matches!(parse_id_range("id:0-2"), Err(Error::BadRangeOrder { .. })));
    assert!(matches!(parse_id_range("id:5-2"), Err(Error::BadRangeOrder { .. })));
}

#[test]
fn parse_line_range_accepts_single_and_pair() {
    assert_eq!(git_surgeon::parse_line_range("5-30").unwrap(), (5, 30));
    assert_eq!(git_surgeon::parse_line_range("7").unwrap(), (7, 7));
    assert!(git_surgeon::parse_line_range("a-b").is_err());
    assert!(git_surgeon::parse_line_range("0-3").is_err());
}

#[test]
fn parse_pick_id_expands_comma_ranges() {
    let items = git_surgeon::parse_pick_id("id:2,5-6").unwrap();
    assert_eq!(items.len(), 2);
    assert_eq!(items[0], (String::from("id"), Some((2, 2))));
    assert_eq!(items[1], (String::from("id"), Some((5, 6))));
    let items = git_surgeon::parse_pick_id("bare").unwrap();
    assert_eq!(items, vec![(String::from("bare"), None)]);
}

#[test]
fn parse_split_args_builds_groups_and_rest() {
    let args: Vec<String> = [
        "--pick", "aaa", "bbb:1-2", "-m", "first", "--pick", "ccc", "--message", "second",
        "--rest-message", "leftovers",
    ]
    .iter()
    .map(|s| s.to_string())
    .collect();
    let (groups, rest) = parse_split_args(&args).unwrap();
    assert_eq!(groups.len(), 2);
    assert_eq!(groups[0].ids.len(), 2);
    assert_eq!(groups[0].ids[0], (String::from("aaa"), None));
    assert_eq!(groups[0].ids[1], (String::from("bbb"), Some((1, 2))));
    assert_eq!(groups[0].message_parts, vec!["first"]);
    assert_eq!(groups[1].ids, vec![(String::from("ccc"), None)]);
    assert_eq!(groups[1].message_parts, vec!["second"]);
    assert_eq!(rest, Some(vec![String::from("leftovers")]));
}

#[test]
fn parse_split_args_keeps_multiple_picks_in_one_group() {
    let args: Vec<String> = ["--pick", "aaa", "--pick", "bbb", "-m", "both"]
        .iter()
        .map(|s| s.to_string())
        .collect();
    let (groups, rest) = parse_split_args(&args).unwrap();
    assert_eq!(groups.len(), 1);
    assert_eq!(groups[0].ids.len(), 2);
    assert!(rest.is_none());
}

#[test]
fn parse_split_args_rejects_malformed_sequences() {
    let to_args = |xs: &[&str]| xs.iter().map(|s| s.to_string()).collect::<Vec<_>>();
    assert!(matches!(
        parse_split_args(&to_args(&["--pick", "a"])),
        Err(Error::PickMissingMessage)
    ));
    assert!(matches!(
        parse_split_args(&to_args(&["-m", "x"])),
        Err(Error::MessageWithoutPick)
    ));
    assert!(matches!(
        parse_split_args(&to_args(&["--pick"])),
        Err(Error::PickNeedsIds)
    ));
    assert!(matches!(
        parse_split_args(&to_args(&["--pick", "a", "-m"])),
        Err(Error::MissingValue)
    ));
    assert!(matches!(
        parse_split_args(&to_args(&["bogus"])),
        Err(Error::UnexpectedArgument { .. })
    ));
    assert!(matches!(parse_split_args(&to_args(&[])), Err(Error::NoPickGroups)));
    assert!(matches!(
        parse_split_args(&to_args(&[
            "--pick", "a", "-m", "x", "--rest-message", "r", "--pick", "b"
        ])),
        Err(Error::PickAfterRestMessage)
    ));
}

#[test]
fn split_session_partitions_a_hunk_across_groups() {
    let diff = sample_diff();
    let id = first_id(&diff);
    let mut session = new_split_session(&diff);
    let first = split_select_group(&mut session, &vec![(id.clone(), Some((3, 3)))]).unwrap();
    assert_eq!(first, "--- a/f\n+++ b/f\n@@ -10,3 +10,4 @@\n a\n b\n+c\n d\n");
    let second = split_select_group(&mut session, &vec![(id.clone(), Some((4, 4)))]).unwrap();
    assert_eq!(second, "--- a/f\n+++ b/f\n@@ -10,4 +10,3 @@\n a\n b\n c\n-d\n");
    let rest = split_rest_patch(&session).unwrap();
    assert!(rest.is_none());
}

#[test]
fn split_rest_patch_collects_unpicked_changes() {
    let diff = sample_diff();
    let id = first_id(&diff);
    let mut session = new_split_session(&diff);
    split_select_group(&mut session, &vec![(id.clone(), Some((3, 3)))]).unwrap();
    let rest = split_rest_patch(&session).unwrap().unwrap();
    assert_eq!(rest, "--- a/f\n+++ b/f\n@@ -10,4 +10,3 @@\n a\n b\n c\n-d\n");
}

#[test]
fn split_refuses_a_line_taken_twice() {
    let diff = sample_diff();
    let id = first_id(&diff);
    let mut session = new_split_session(&diff);
    split_select_group(&mut session, &vec![(id.clone(), Some((3, 3)))]).unwrap();
    match split_select_group(&mut session, &vec![(id.clone(), Some((3, 4)))]) {
        Err(Error::AlreadyPicked { id: eid, line }) => {
            assert_eq!(eid, id);
            assert_eq!(line, 3);
        }
        other => panic!("unexpected result: {:?}", other),
    }
}

#[test]
fn split_refuses_a_group_selecting_nothing() {
    let diff = sample_diff();
    let id = first_id(&diff);
    let mut session = new_split_session(&diff);
    let r = split_select_group(&mut session, &vec![(id, Some((1, 2)))]);
    assert!(matches!(r, Err(Error::NothingSelected)));
}

#[test]
fn validate_pick_groups_checks_ids_and_ranges() {
    let diff = sample_diff();
    let id = first_id(&diff);
    let good = vec![PickGroup {
        ids: vec![(id.clone(), Some((1, 4)))],
        message_parts: vec![String::from("m")],
    }];
    assert!(validate_pick_groups(&diff, &good).is_ok());
    let missing = vec![PickGroup {
        ids: vec![(String::from("nope"), None)],
        message_parts: vec![String::from("m")],
    }];
    assert!(matches!(
        validate_pick_groups(&diff, &missing),
        Err(Error::HunkNotFound { .. })
    ));
    let zero = vec![PickGroup {
        ids: vec![(id.clone(), Some((0, 2)))],
        message_parts: vec![String::from("m")],
    }];
    assert!(matches!(
        validate_pick_groups(&diff, &zero),
        Err(Error::RangeZeroBased { .. })
    ));
    let over = vec![PickGroup {
        ids: vec![(id, Some((1, 9)))],
        message_parts: vec![String::from("m")],
    }];
    assert!(matches!(
        validate_pick_groups(&diff, &over),
        Err(Error::RangeExceedsHunk { len: 4, .. })
    ));
}

#[test]
fn fixup_plan_covers_each_case() {
    assert!(matches!(
        plan_fixup(false, false, "a", "a", "s", false),
        Err(Error::NoStagedChanges)
    ));
    assert!(matches!(
        plan_fixup(true, true, "a", "a", "s", false),
        Err(Error::RebaseInProgress)
    ));
    assert!(matches!(
        plan_fixup(true, false, "a", "a", "s", false),
        Ok(FixupPlan::AmendHead)
    ));
    match plan_fixup(true, false, "abc", "def", "subject line", false).unwrap() {
        FixupPlan::MarkedCommit { message, onto_root, upstream } => {
            assert_eq!(message, "fixup! subject line");
            assert!(!onto_root);
            assert_eq!(upstream, "abc~1");
        }
        _ => panic!("expected marked commit"),
    }
}

#[test]
fn reword_plan_covers_each_case() {
    assert!(matches!(
        plan_reword(true, "a", "a", "s", "m", false),
        Err(Error::RebaseInProgress)
    ));
    match plan_reword(false, "a", "a", "s", "new text", false).unwrap() {
        RewordPlan::AmendHead { message } => assert_eq!(message, "new text"),
        _ => panic!("expected amend"),
    }
    match plan_reword(false, "abc", "def", "old subject", "new text", true).unwrap() {
        RewordPlan::MarkerCommit { message, onto_root, upstream } => {
            assert_eq!(message, "amend! old subject\n\nnew text");
            assert!(onto_root);
            assert_eq!(upstream, "abc~1");
        }
        _ => panic!("expected marker commit"),
    }
}

#[test]
fn split_precheck_demands_clean_state() {
    assert!(matches!(plan_split_precheck(true, false), Err(Error::DirtyWorkTree)));
    assert!(matches!(plan_split_precheck(false, true), Err(Error::RebaseInProgress)));
    assert!(plan_split_precheck(false, false).is_ok());
}

#[test]
fn squash_plan_covers_each_case() {
    assert!(matches!(plan_squash_precheck(true, false), Err(Error::RebaseInProgress)));
    assert_eq!(plan_squash_precheck(false, true).unwrap(), true);
    assert!(matches!(
        plan_squash("a", "a", true, false, false, false, None, None, "m"),
        Err(Error::NothingToSquash)
    ));
    assert!(matches!(
        plan_squash("a", "b", false, false, false, false, None, None, "m"),
        Err(Error::NotAncestor)
    ));
    assert!(matches!(
        plan_squash("a", "b", true, true, false, false, None, None, "m"),
        Err(Error::MergeCommitsInRange)
    ));
    let plan = plan_squash("abc", "def", true, true, true, false, Some("Jo <j@x>"), Some("2020"), "m")
        .unwrap();
    match plan.reset {
        SquashReset::SoftReset { to } => assert_eq!(to, "abc^"),
        _ => panic!("expected soft reset"),
    }
    assert_eq!(plan.author.as_deref(), Some("Jo <j@x>"));
    assert_eq!(plan.author_date.as_deref(), Some("2020"));
    let root = plan_squash("abc", "def", true, false, false, true, None, None, "m").unwrap();
    assert!(matches!(root.reset, SquashReset::DeleteHeadRef));
}

#[test]
fn rewrite_helper_strings() {
    assert_eq!(short_ref("0123456789abcdef"), "0123456");
    assert_eq!(short_ref("ab"), "ab");
    assert_eq!(ref_at_distance(0), "HEAD");
    assert_eq!(ref_at_distance(3), "HEAD~3");
    assert_eq!(
        sequence_editor_script("abc1234"),
        "s/^pick abc1234 /edit abc1234 /"
    );
    assert_eq!(join_message_parts(&vec![]), "");
    assert_eq!(
        join_message_parts(&vec![String::from("a"), String::from("b")]),
        "a\n\nb"
    );
}

#[test]
fn listing_helpers_summarize_hunks() {
    let diff = sample_diff();
    let hunks = parse_diff(&diff);
    assert_eq!(hunk_change_counts(&hunks[0]), (1, 1));
    assert_eq!(changed_lines(&hunks[0]), vec!["+c", "-d"]);
    assert_eq!(display_func_ctx("@@ -1,2 +1,2 @@ fn main "), "fn main");
    assert_eq!(display_func_ctx("@@ -1,2 +1,2 @@"), "");
}

#[test]
fn find_hunk_in_listing_resolves_ids() {
    let diff = sample_diff();
    let id = first_id(&diff);
    let found = git_surgeon::hunk::find_hunk_in_listing(&diff, &id).unwrap();
    assert_eq!(found.lines, vec![" a", " b", "+c", "-d"]);
    assert!(git_surgeon::hunk::find_hunk_in_listing(&diff, "absent").is_none());
}

#[test]
fn platform_names() {
    assert_eq!(git_surgeon::Platform::Agent.name(), "Agent");
    assert_eq!(git_surgeon::Platform::OpenCode.name(), "OpenCode");
    assert_eq!(git_surgeon::Platform::Codex.name(), "Codex");
}
