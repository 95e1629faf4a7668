//! The command planners: resolving hunks by id or path from a freshly
//! parsed listing, building the combined patches the engine applies, and
//! the decision logic of the staging, committing and history-rewriting
//! operations. Running the engine itself is the caller's part.

use vstd::prelude::*;
use vstd::string::*;
use crate::diff::{DiffHunk, HunkView, spec_parse_diff, parse_diff, check_supported};
use crate::error::Error;
use crate::hunk_id::{spec_assigned_id, assign_ids};
use crate::patch::{
    ApplyMode, spec_build_patch, build_patch, spec_parse_hunk_starts, hunk_with_lines,
    sliced_lines, slice_hunk, slice_hunk_multi,
};
use crate::args::{ArgsIssue, error_reports, RangesParse, spec_pick_ranges};
use crate::text::{char_index, split_from, str_char_len, str_take, str_drop, scan_char, str_eq};

verus! {

/// The index of the first hunk of the listing that carries `id`, or -1.
pub open spec fn spec_resolve(hunks: Seq<HunkView>, id: Seq<char>, i: int) -> int
    decreases hunks.len() - i,
{
    if i < 0 || i >= hunks.len() {
        -1
    } else if spec_assigned_id(hunks, i) == id {
        i
    } else {
        spec_resolve(hunks, id, i + 1)
    }
}

/// Looks an id up in an identified listing.
pub fn find_hunk_by_id<'a>(identified: &Vec<(String, &'a DiffHunk)>, id: &str, Ghost(hunks): Ghost<
    Seq<HunkView>,
>) -> (r: Option<&'a DiffHunk>)
    requires
        identified@.len() == hunks.len(),
        forall|i: int| 0 <= i < identified@.len() ==> (#[trigger] identified@[i]).0@
            == spec_assigned_id(hunks, i) && identified@[i].1@ == hunks[i],
    ensures
        match r {
            Some(h) => spec_resolve(hunks, id@, 0) >= 0 && h@ == hunks[spec_resolve(
                hunks,
                id@,
                0,
            )],
            None => spec_resolve(hunks, id@, 0) == -1,
        },
{
    let n = identified.len();
    let mut i: usize = 0;
    while i < n
        invariant
            n == identified@.len(),
            identified@.len() == hunks.len(),
            forall|k: int| 0 <= k < identified@.len() ==> (#[trigger] identified@[k]).0@
                == spec_assigned_id(hunks, k) && identified@[k].1@ == hunks[k],
            i <= n,
            spec_resolve(hunks, id@, 0) == spec_resolve(hunks, id@, i as int),
        decreases n - i,
    {
        if str_eq(identified[i].0.as_str(), id) {
            return Some(identified[i].1);
        }
        i += 1;
    }
    None
}

/// Finds the hunk of a listing that carries `id`, as a fresh copy.
pub fn find_hunk_in_listing(diff_text: &str, id: &str) -> (r: Option<DiffHunk>)
    ensures
        match r {
            Some(h) => spec_resolve(spec_parse_diff(diff_text@), id@, 0) >= 0 && h@
                == spec_parse_diff(diff_text@)[spec_resolve(spec_parse_diff(diff_text@), id@, 0)],
            None => spec_resolve(spec_parse_diff(diff_text@), id@, 0) == -1,
        },
{
    let hunks = parse_diff(diff_text);
    let identified = assign_ids(hunks.as_slice());
    let ghost hv = spec_parse_diff(diff_text@);
    proof {
        assert(hunks.deep_view() =~= hv);
        assert(forall|i: int| 0 <= i < identified@.len() ==> (#[trigger] identified@[i]).0@
            == spec_assigned_id(hv, i) && identified@[i].1@ == hv[i]);
    }
    match find_hunk_by_id(&identified, id, Ghost(hv)) {
        Some(h) => Some(duplicate_hunk(h)),
        None => None,
    }
}

/// Why a planning step was refused; mirrored by the error values.
pub ghost enum OpIssue {
    /// A line-range option together with more than one id.
    LinesSingle,
    /// The id matched no hunk of the listing.
    NotFound { id: Seq<char> },
    /// The hunk may only be applied whole.
    Unsupported { id: Seq<char> },
    /// A hunk header carried no readable offsets.
    BadHeader,
    /// A range or number argument was refused.
    Args { issue: ArgsIssue },
    /// A requested file path matched no hunk.
    FileNotFound { file: Seq<char> },
    /// A line an earlier pick group already committed.
    Picked { id: Seq<char>, line: int },
    /// A mask no longer covers its hunk's lines.
    BadMask,
    /// A hunk with unsupported metadata cannot be fragmented.
    SliceRefused,
    /// A pick range was zero-based.
    ZeroRange { id: Seq<char>, start: usize, end: usize },
    /// A pick range runs past its hunk.
    RangeOver { id: Seq<char>, start: usize, end: usize, len: nat },
}

/// Whether an error value reports the given planning issue.
pub open spec fn op_error_reports(e: Error, issue: OpIssue) -> bool {
    match issue {
        OpIssue::LinesSingle => e == Error::LinesRequireSingleHunk,
        OpIssue::NotFound { id } => e matches Error::HunkNotFound { id: s } && s@ == id,
        OpIssue::Unsupported { id } => e matches Error::UnsupportedHunk { id: s } && s@ == id,
        OpIssue::BadHeader => e == Error::InvalidHunkHeader,
        OpIssue::Args { issue } => error_reports(e, issue),
        OpIssue::FileNotFound { file } => e matches Error::FileNotFound { file: s } && s@ == file,
        OpIssue::Picked { id, line } => e matches Error::AlreadyPicked { id: s, line: l } && s@
            == id && l == line,
        OpIssue::BadMask => e == Error::MaskLengthMismatch,
        OpIssue::SliceRefused => e == Error::SliceUnsupported,
        OpIssue::ZeroRange { id, start, end } => e matches Error::RangeZeroBased {
            id: s,
            start: a,
            end: b,
        } && s@ == id && a == start && b == end,
        OpIssue::RangeOver { id, start, end, len } => e matches Error::RangeExceedsHunk {
            id: s,
            start: a,
            end: b,
            len: l,
        } && s@ == id && a == start && b == end && l == len,
    }
}

/// The sliced or whole form of the resolved hunk, by the optional range.
pub open spec fn spec_slice_opt(h: HunkView, lines: Option<(usize, usize)>, reverse: bool) -> Result<
    HunkView,
    OpIssue,
> {
    match lines {
        None => Ok(h),
        Some((s, e)) => match spec_parse_hunk_starts(h.header) {
            None => Err(OpIssue::BadHeader),
            Some(starts) => Ok(
                hunk_with_lines(h, sliced_lines(h.lines, seq![(s, e)], reverse), starts),
            ),
        },
    }
}

/// The combined patch for a list of ids, each resolved, checked and
/// optionally sliced to one range.
pub open spec fn spec_plan_patches(
    hunks: Seq<HunkView>,
    ids: Seq<Seq<char>>,
    reverse: bool,
    lines: Option<(usize, usize)>,
) -> Result<Seq<char>, OpIssue>
    decreases ids.len(),
{
    if ids.len() == 0 {
        Ok(Seq::empty())
    } else {
        let k = spec_resolve(hunks, ids.first(), 0);
        if k < 0 {
            Err(OpIssue::NotFound { id: ids.first() })
        } else if hunks[k].unsupported_metadata {
            Err(OpIssue::Unsupported { id: ids.first() })
        } else {
            match spec_slice_opt(hunks[k], lines, reverse) {
                Err(issue) => Err(issue),
                Ok(h) => match spec_plan_patches(hunks, ids.drop_first(), reverse, lines) {
                    Err(issue) => Err(issue),
                    Ok(rest) => Ok(spec_build_patch(h) + rest),
                },
            }
        }
    }
}

/// A patch the engine is to apply, and how.
#[derive(Debug)]
pub struct ApplyPlan {
    pub patch: String,
    pub mode: ApplyMode,
}

/// Whether a mode reverse-applies.
pub open spec fn mode_reverses(mode: ApplyMode) -> bool {
    !(mode is Stage)
}

/// Plans staging, unstaging or discarding hunks: parses the given diff
/// listing afresh, resolves every id in order, refuses unsupported
/// hunks, slices to the one requested range if any (which is only legal
/// with exactly one id), and concatenates the standalone patches. The
/// caller hands the index listing for unstaging and the working-tree
/// listing otherwise, and applies the result in the plan's mode.
pub fn plan_apply_hunks(diff_text: &str, ids: &Vec<String>, mode: ApplyMode, lines: Option<
    (usize, usize),
>) -> (r: Result<ApplyPlan, Error>)
    ensures
        match r {
            Ok(plan) => {
                &&& !(lines is Some && ids@.len() != 1)
                &&& spec_plan_patches(
                    spec_parse_diff(diff_text@),
                    ids.deep_view(),
                    mode_reverses(mode),
                    lines,
                ) == Ok::<Seq<char>, OpIssue>(plan.patch@)
                &&& plan.mode == mode
            },
            Err(e) => (lines is Some && ids@.len() != 1 && op_error_reports(
                e,
                OpIssue::LinesSingle,
            )) || (!(lines is Some && ids@.len() != 1) && (spec_plan_patches(
                spec_parse_diff(diff_text@),
                ids.deep_view(),
                mode_reverses(mode),
                lines,
            ) matches Err(issue) && op_error_reports(e, issue))),
        },
{
    if lines.is_some() && ids.len() != 1 {
        return Err(Error::LinesRequireSingleHunk);
    }
    let reverse = !matches!(mode, ApplyMode::Stage);
    let hunks = parse_diff(diff_text);
    let identified = assign_ids(hunks.as_slice());
    let ghost hv = spec_parse_diff(diff_text@);
    proof {
        assert(hunks.deep_view() =~= hv);
        assert(hunks@.len() == hv.len());
        assert(forall|i: int| 0 <= i < identified@.len() ==> (#[trigger] identified@[i]).0@
            == spec_assigned_id(hv, i) && identified@[i].1@ == hv[i]);
    }
    let n = ids.len();
    let mut patch = String::new();
    let ghost idv = ids.deep_view();
    proof {
        assert(idv.skip(0) =~= idv);
    }
    let mut i: usize = 0;
    while i < n
        invariant
            n == ids@.len(),
            idv == ids.deep_view(),
            hv == spec_parse_diff(diff_text@),
            hunks.deep_view() == hv,
            identified@.len() == hv.len(),
            forall|k: int| 0 <= k < identified@.len() ==> (#[trigger] identified@[k]).0@
                == spec_assigned_id(hv, k) && identified@[k].1@ == hv[k],
            i <= n,
            reverse == mode_reverses(mode),
            !(lines is Some && n != 1),
            spec_plan_patches(hv, idv, reverse, lines) == (match spec_plan_patches(
                hv,
                idv.skip(i as int),
                reverse,
                lines,
            ) {
                Ok(rest) => Ok::<Seq<char>, OpIssue>(patch@ + rest),
                Err(issue) => Err(issue),
            }),
        decreases n - i,
    {
        let ghost rest_ids = idv.skip(i as int);
        proof {
            assert(rest_ids.first() == idv[i as int]);
            assert(rest_ids.drop_first() =~= idv.skip(i as int + 1));
            assert(ids@[i as int]@ == idv[i as int]);
        }
        let id = &ids[i];
        let hunk = match find_hunk_by_id(&identified, id.as_str(), Ghost(hv)) {
            Some(h) => h,
            None => {
                proof {
                    assert(spec_plan_patches(hv, idv.skip(i as int), reverse, lines)
                        == Err::<Seq<char>, OpIssue>(OpIssue::NotFound { id: idv[i as int] }));
                }
                return Err(Error::HunkNotFound { id: id.clone() });
            },
        };
        match check_supported(hunk, id.as_str()) {
            Ok(()) => {},
            Err(e) => {
                return Err(e);
            },
        }
        let piece = match lines {
            Some((s, e)) => {
                match slice_hunk(hunk, s, e, reverse) {
                    Ok(h) => build_patch(&h),
                    Err(err) => {
                        proof {
                            assert(spec_slice_opt(hv[spec_resolve(hv, idv[i as int], 0)], lines, reverse)
                                is Err);
                        }
                        return Err(err);
                    },
                }
            },
            None => build_patch(hunk),
        };
        let ghost old_patch = patch@;
        patch.append(piece.as_str());
        proof {
            let k = spec_resolve(hv, idv[i as int], 0);
            match spec_slice_opt(hv[k], lines, reverse) {
                Ok(h2) => {
                    assert(piece@ == spec_build_patch(h2));
                    if spec_plan_patches(hv, idv.skip(i as int + 1), reverse, lines) is Ok {
                        let tail = match spec_plan_patches(
                            hv,
                            idv.skip(i as int + 1),
                            reverse,
                            lines,
                        ) {
                            Ok(t) => t,
                            Err(_) => Seq::empty(),
                        };
                        assert(old_patch + (spec_build_patch(h2) + tail) =~= patch@ + tail);
                    }
                },
                Err(_) => {
                    assert(false);
                },
            }
        }
        i += 1;
    }
    proof {
        assert(idv.skip(n as int).len() == 0);
        assert(patch@ + Seq::<char>::empty() =~= patch@);
    }
    Ok(ApplyPlan { patch, mode })
}

/// Plans undoing hunks of a historical commit: the same resolution and
/// reverse slicing against the commit's own listing, applied as a
/// reverse patch to the working tree.
pub fn plan_undo_hunks(diff_text: &str, ids: &Vec<String>, lines: Option<(usize, usize)>) -> (r:
    Result<ApplyPlan, Error>)
    ensures
        match r {
            Ok(plan) => {
                &&& !(lines is Some && ids@.len() != 1)
                &&& spec_plan_patches(
                    spec_parse_diff(diff_text@),
                    ids.deep_view(),
                    true,
                    lines,
                ) == Ok::<Seq<char>, OpIssue>(plan.patch@)
                &&& plan.mode is Discard
            },
            Err(e) => (lines is Some && ids@.len() != 1 && op_error_reports(
                e,
                OpIssue::LinesSingle,
            )) || (!(lines is Some && ids@.len() != 1) && (spec_plan_patches(
                spec_parse_diff(diff_text@),
                ids.deep_view(),
                true,
                lines,
            ) matches Err(issue) && op_error_reports(e, issue))),
        },
{
    plan_apply_hunks(diff_text, ids, ApplyMode::Discard, lines)
}

/// A hunk belongs to a path when the path names its display, old or new
/// file.
pub open spec fn file_matches(h: HunkView, f: Seq<char>) -> bool {
    f == h.file || f == h.old_file || f == h.new_file
}

/// A hunk is pulled in when any of the requested paths matches it.
pub open spec fn hunk_included(h: HunkView, files: Seq<Seq<char>>) -> bool {
    exists|j: int| 0 <= j < files.len() && file_matches(h, #[trigger] files[j])
}

/// The combined patch of every hunk matching any path, front to back;
/// the first matching hunk with unsupported metadata refuses the plan.
pub open spec fn spec_files_patch(hunks: Seq<HunkView>, files: Seq<Seq<char>>) -> Result<
    Seq<char>,
    OpIssue,
>
    decreases hunks.len(),
{
    if hunks.len() == 0 {
        Ok(Seq::empty())
    } else {
        let h = hunks.first();
        if hunk_included(h, files) {
            if h.unsupported_metadata {
                Err(OpIssue::Unsupported { id: h.file })
            } else {
                match spec_files_patch(hunks.drop_first(), files) {
                    Err(issue) => Err(issue),
                    Ok(rest) => Ok(spec_build_patch(h) + rest),
                }
            }
        } else {
            spec_files_patch(hunks.drop_first(), files)
        }
    }
}

/// A path is covered when some hunk of the listing matches it.
pub open spec fn file_covered(hunks: Seq<HunkView>, f: Seq<char>) -> bool {
    exists|k: int| 0 <= k < hunks.len() && file_matches(#[trigger] hunks[k], f)
}

/// The first requested path no hunk matches, or -1.
pub open spec fn spec_first_unmatched(hunks: Seq<HunkView>, files: Seq<Seq<char>>, i: int) -> int
    decreases files.len() - i,
{
    if i < 0 || i >= files.len() {
        -1
    } else if !file_covered(hunks, files[i]) {
        i
    } else {
        spec_first_unmatched(hunks, files, i + 1)
    }
}

/// Tests whether a hunk matches any of the paths.
fn hunk_matches_any(h: &DiffHunk, files: &Vec<String>) -> (b: bool)
    ensures
        b == hunk_included(h@, files.deep_view()),
{
    let n = files.len();
    let mut j: usize = 0;
    while j < n
        invariant
            n == files@.len(),
            j <= n,
            forall|k: int| 0 <= k < j ==> !file_matches(h@, (#[trigger] files.deep_view()[k])),
        decreases n - j,
    {
        proof {
            assert(files@[j as int]@ == files.deep_view()[j as int]);
        }
        let f = &files[j];
        if str_eq(f.as_str(), h.file.as_str()) || str_eq(f.as_str(), h.old_file.as_str())
            || str_eq(f.as_str(), h.new_file.as_str()) {
            return true;
        }
        j += 1;
    }
    false
}

/// Whether some hunk of the listing matches the path.
fn file_has_hunk(hunks: &Vec<DiffHunk>, f: &String, Ghost(hv): Ghost<Seq<HunkView>>) -> (b: bool)
    requires
        hunks.deep_view() == hv,
    ensures
        b == file_covered(hv, f@),
{
    let n = hunks.len();
    let mut k: usize = 0;
    while k < n
        invariant
            n == hunks@.len(),
            hunks.deep_view() == hv,
            k <= n,
            forall|m: int| 0 <= m < k ==> !file_matches(#[trigger] hv[m], f@),
        decreases n - k,
    {
        proof {
            assert(hunks@[k as int]@ == hv[k as int]);
        }
        let h = &hunks[k];
        if str_eq(f.as_str(), h.file.as_str()) || str_eq(f.as_str(), h.old_file.as_str())
            || str_eq(f.as_str(), h.new_file.as_str()) {
            return true;
        }
        k += 1;
    }
    false
}

/// Plans undoing whole files of a historical commit: every hunk of the
/// commit's listing that matches one of the paths goes into one combined
/// reverse patch, and every requested path must match at least one hunk,
/// or the plan fails before anything is applied.
pub fn plan_undo_files(diff_text: &str, files: &Vec<String>) -> (r: Result<ApplyPlan, Error>)
    ensures
        match r {
            Ok(plan) => {
                &&& spec_files_patch(spec_parse_diff(diff_text@), files.deep_view()) == Ok::<
                    Seq<char>,
                    OpIssue,
                >(plan.patch@)
                &&& spec_first_unmatched(spec_parse_diff(diff_text@), files.deep_view(), 0) == -1
                &&& plan.mode is Discard
            },
            Err(e) => (spec_files_patch(spec_parse_diff(diff_text@), files.deep_view()) matches Err(
                issue,
            ) && op_error_reports(e, issue)) || (spec_files_patch(
                spec_parse_diff(diff_text@),
                files.deep_view(),
            ) is Ok && spec_first_unmatched(spec_parse_diff(diff_text@), files.deep_view(), 0) >= 0
                && op_error_reports(
                e,
                OpIssue::FileNotFound {
                    file: files.deep_view()[spec_first_unmatched(
                        spec_parse_diff(diff_text@),
                        files.deep_view(),
                        0,
                    )],
                },
            )),
        },
{
    let hunks = parse_diff(diff_text);
    let ghost hv = spec_parse_diff(diff_text@);
    let ghost fv = files.deep_view();
    proof {
        assert(hunks.deep_view() =~= hv);
    }
    let n = hunks.len();
    let mut patch = String::new();
    proof {
        assert(hv.skip(0) =~= hv);
    }
    let mut i: usize = 0;
    while i < n
        invariant
            n == hunks@.len(),
            hunks.deep_view() == hv,
            hv == spec_parse_diff(diff_text@),
            fv == files.deep_view(),
            i <= n,
            spec_files_patch(hv, fv) == (match spec_files_patch(hv.skip(i as int), fv) {
                Ok(rest) => Ok::<Seq<char>, OpIssue>(patch@ + rest),
                Err(issue) => Err(issue),
            }),
        decreases n - i,
    {
        let ghost rest_h = hv.skip(i as int);
        proof {
            assert(rest_h.first() == hv[i as int]);
            assert(rest_h.drop_first() =~= hv.skip(i as int + 1));
            assert(hunks@[i as int]@ == hv[i as int]);
        }
        let h = &hunks[i];
        if hunk_matches_any(h, files) {
            match check_supported(h, h.file.as_str()) {
                Ok(()) => {},
                Err(e) => {
                    return Err(e);
                },
            }
            let piece = build_patch(h);
            let ghost old_patch = patch@;
            patch.append(piece.as_str());
            proof {
                if spec_files_patch(hv.skip(i as int + 1), fv) is Ok {
                    let tail = match spec_files_patch(hv.skip(i as int + 1), fv) {
                        Ok(t) => t,
                        Err(_) => Seq::empty(),
                    };
                    assert(old_patch + (spec_build_patch(hv[i as int]) + tail) =~= patch@ + tail);
                }
            }
        }
        i += 1;
    }
    proof {
        assert(hv.skip(n as int).len() == 0);
        assert(patch@ + Seq::<char>::empty() =~= patch@);
    }
    proof {
        assert(spec_first_unmatched(hv, fv, 0) == spec_first_unmatched(hv, fv, 0));
    }
    let fn_count = files.len();
    let mut j: usize = 0;
    while j < fn_count
        invariant
            fn_count == files@.len(),
            fv == files.deep_view(),
            hunks.deep_view() == hv,
            hv == spec_parse_diff(diff_text@),
            n == hunks@.len(),
            j <= fn_count,
            spec_files_patch(hv, fv) == Ok::<Seq<char>, OpIssue>(patch@),
            spec_first_unmatched(hv, fv, 0) == spec_first_unmatched(hv, fv, j as int),
        decreases fn_count - j,
    {
        proof {
            assert(files@[j as int]@ == fv[j as int]);
        }
        let f = &files[j];
        let covered = file_has_hunk(&hunks, f, Ghost(hv));
        if !covered {
            return Err(Error::FileNotFound { file: f.clone() });
        }
        j += 1;
    }
    proof {
        assert(spec_first_unmatched(hv, fv, fn_count as int) == -1);
    }
    Ok(ApplyPlan { patch, mode: ApplyMode::Discard })
}

/// What an id argument with an optional inline range suffix denotes:
/// the id and its ranges, an empty range list meaning the whole hunk.
pub open spec fn spec_parse_id_range(raw: Seq<char>) -> Result<
    (Seq<char>, Seq<(usize, usize)>),
    ArgsIssue,
> {
    let ci = char_index(raw, ':', 0);
    if ci < 0 {
        Ok((raw, Seq::empty()))
    } else {
        match spec_pick_ranges(split_from(raw.skip(ci + 1), ',', 0)) {
            RangesParse::Ranges { rs } => Ok((raw.take(ci), rs)),
            RangesParse::Fail { issue } => Err(issue),
        }
    }
}

/// Reads an id that may carry comma-separated inline ranges, such as a
/// bare id, `id:5`, `id:1-11` or `id:2,5-6,34`. An empty range list
/// means the whole hunk.
pub fn parse_id_range(raw: &str) -> (r: Result<(String, Vec<(usize, usize)>), Error>)
    ensures
        match r {
            Ok(p) => spec_parse_id_range(raw@) == Ok::<(Seq<char>, Seq<(usize, usize)>), ArgsIssue>(
                (p.0@, p.1@),
            ),
            Err(e) => spec_parse_id_range(raw@) matches Err(issue) && error_reports(e, issue),
        },
{
    let n = str_char_len(raw);
    let ci = scan_char(raw, ':', 0);
    if ci >= n {
        proof {
            assert(char_index(raw@, ':', 0) < 0);
        }
        let rs: Vec<(usize, usize)> = Vec::new();
        proof {
            assert(rs@ =~= Seq::<(usize, usize)>::empty());
        }
        return Ok((String::from_str(raw), rs));
    }
    let id = str_take(raw, ci);
    let range_str = str_drop(raw, ci + 1);
    match crate::args::pick_ranges_of(range_str.as_str()) {
        Ok(rs) => Ok((id, rs)),
        Err(e) => Err(e),
    }
}

/// One commit group under construction: an id and its collected ranges.
pub open spec fn spec_group_index(
    gs: Seq<(Seq<char>, Seq<(usize, usize)>)>,
    id: Seq<char>,
    i: int,
) -> int
    decreases gs.len() - i,
{
    if i < 0 || i >= gs.len() {
        -1
    } else if gs[i].0 == id {
        i
    } else {
        spec_group_index(gs, id, i + 1)
    }
}

/// Folds one parsed id into the groups: ranges join an existing entry
/// for the same id, a new id opens a new entry at the end.
pub open spec fn spec_add_group(
    gs: Seq<(Seq<char>, Seq<(usize, usize)>)>,
    id: Seq<char>,
    rs: Seq<(usize, usize)>,
) -> Seq<(Seq<char>, Seq<(usize, usize)>)> {
    let k = spec_group_index(gs, id, 0);
    if k >= 0 {
        gs.update(k, (gs[k].0, gs[k].1 + rs))
    } else {
        gs.push((id, rs))
    }
}

/// The groups of a raw id list, in first-occurrence order, or the first
/// reading failure.
pub open spec fn spec_group_raws(
    raws: Seq<Seq<char>>,
    acc: Seq<(Seq<char>, Seq<(usize, usize)>)>,
) -> Result<Seq<(Seq<char>, Seq<(usize, usize)>)>, ArgsIssue>
    decreases raws.len(),
{
    if raws.len() == 0 {
        Ok(acc)
    } else {
        match spec_parse_id_range(raws.first()) {
            Err(issue) => Err(issue),
            Ok((id, rs)) => spec_group_raws(raws.drop_first(), spec_add_group(acc, id, rs)),
        }
    }
}

/// Groups raw id arguments by hunk id, keeping first-occurrence order
/// and joining the ranges of repeated ids.
pub fn group_id_ranges(raw_ids: &Vec<String>) -> (r: Result<
    Vec<(String, Vec<(usize, usize)>)>,
    Error,
>)
    ensures
        match r {
            Ok(gs) => spec_group_raws(raw_ids.deep_view(), Seq::empty()) == Ok::<
                Seq<(Seq<char>, Seq<(usize, usize)>)>,
                ArgsIssue,
            >(gs.deep_view()),
            Err(e) => spec_group_raws(raw_ids.deep_view(), Seq::empty()) matches Err(issue)
                && error_reports(e, issue),
        },
{
    let ghost rv = raw_ids.deep_view();
    let n = raw_ids.len();
    let mut groups: Vec<(String, Vec<(usize, usize)>)> = Vec::new();
    proof {
        assert(rv.skip(0) =~= rv);
        assert(groups.deep_view() =~= Seq::<(Seq<char>, Seq<(usize, usize)>)>::empty());
    }
    let mut i: usize = 0;
    while i < n
        invariant
            n == raw_ids@.len(),
            rv == raw_ids.deep_view(),
            i <= n,
            spec_group_raws(rv, Seq::empty()) == spec_group_raws(
                rv.skip(i as int),
                groups.deep_view(),
            ),
        decreases n - i,
    {
        let ghost rest = rv.skip(i as int);
        proof {
            assert(rest.first() == rv[i as int]);
            assert(rest.drop_first() =~= rv.skip(i as int + 1));
            assert(raw_ids@[i as int]@ == rv[i as int]);
        }
        let (id, mut ranges) = match parse_id_range(raw_ids[i].as_str()) {
            Ok(p) => p,
            Err(e) => {
                return Err(e);
            },
        };
        let ghost gv = groups.deep_view();
        let ghost idv = id@;
        let ghost rsv = ranges@;
        let found = find_group(&groups, &id);
        match found {
            Some(fj) => {
                let ghost old_entry = gv[fj as int];
                let entry = &mut groups[fj];
                entry.1.append(&mut ranges);
                proof {
                    assert(groups@[fj as int].1@ =~= old_entry.1 + rsv);
                    assert(groups.deep_view() =~~= spec_add_group(gv, idv, rsv));
                }
            },
            None => {
                groups.push((id, ranges));
                proof {
                    assert(groups.deep_view() =~~= spec_add_group(gv, idv, rsv));
                }
            },
        }
        i += 1;
    }
    proof {
        assert(rv.skip(n as int).len() == 0);
    }
    Ok(groups)
}

/// Looks an id up among the groups built so far.
fn find_group(groups: &Vec<(String, Vec<(usize, usize)>)>, id: &String) -> (found: Option<usize>)
    ensures
        match found {
            Some(fj) => fj < groups@.len() && spec_group_index(groups.deep_view(), id@, 0) == fj,
            None => spec_group_index(groups.deep_view(), id@, 0) == -1,
        },
{
    let ghost gv = groups.deep_view();
    let gn = groups.len();
    let mut j: usize = 0;
    while j < gn
        invariant
            gn == groups@.len(),
            gv == groups.deep_view(),
            j <= gn,
            spec_group_index(gv, id@, 0) == spec_group_index(gv, id@, j as int),
        decreases gn - j,
    {
        proof {
            assert(groups@[j as int].0@ == gv[j as int].0);
        }
        if str_eq(groups[j].0.as_str(), id.as_str()) {
            return Some(j);
        }
        j += 1;
    }
    None
}

/// The combined forward patch of grouped ids: each group's hunk
/// resolved and checked, sliced to its ranges or taken whole.
pub open spec fn spec_group_patches(
    hunks: Seq<HunkView>,
    groups: Seq<(Seq<char>, Seq<(usize, usize)>)>,
) -> Result<Seq<char>, OpIssue>
    decreases groups.len(),
{
    if groups.len() == 0 {
        Ok(Seq::empty())
    } else {
        let id = groups.first().0;
        let rs = groups.first().1;
        let k = spec_resolve(hunks, id, 0);
        if k < 0 {
            Err(OpIssue::NotFound { id })
        } else if hunks[k].unsupported_metadata {
            Err(OpIssue::Unsupported { id })
        } else {
            let sliced = if rs.len() == 0 {
                Ok::<HunkView, OpIssue>(hunks[k])
            } else {
                match spec_parse_hunk_starts(hunks[k].header) {
                    None => Err(OpIssue::BadHeader),
                    Some(starts) => Ok(
                        hunk_with_lines(hunks[k], sliced_lines(hunks[k].lines, rs, false), starts),
                    ),
                }
            };
            match sliced {
                Err(issue) => Err(issue),
                Ok(h) => match spec_group_patches(hunks, groups.drop_first()) {
                    Err(issue) => Err(issue),
                    Ok(rest) => Ok(spec_build_patch(h) + rest),
                },
            }
        }
    }
}

/// The staged patch and the message of a planned commit.
pub struct CommitPlan {
    pub patch: String,
    pub message: String,
}

/// Plans committing hunks in one step. The index must be clean of
/// staged content; each raw id may carry inline ranges and repeated ids
/// join one group; every group's hunk is resolved from the given
/// working-tree listing, checked, sliced forward to its ranges or taken
/// whole, and the standalone patches form one staged patch.
pub fn plan_commit_hunks(
    diff_text: &str,
    raw_ids: &Vec<String>,
    message: &str,
    index_has_staged: bool,
) -> (r: Result<CommitPlan, Error>)
    ensures
        index_has_staged ==> r == Err::<CommitPlan, Error>(Error::StagedChangesPresent),
        !index_has_staged ==> match r {
            Ok(plan) => {
                &&& spec_group_raws(raw_ids.deep_view(), Seq::empty()) matches Ok(groups)
                &&& spec_group_patches(spec_parse_diff(diff_text@), groups) == Ok::<
                    Seq<char>,
                    OpIssue,
                >(plan.patch@)
                &&& plan.message@ == message@
            },
            Err(e) => (spec_group_raws(raw_ids.deep_view(), Seq::empty()) matches Err(issue)
                && error_reports(e, issue)) || (spec_group_raws(
                raw_ids.deep_view(),
                Seq::empty(),
            ) matches Ok(groups) && (spec_group_patches(spec_parse_diff(diff_text@), groups)
                matches Err(issue) && op_error_reports(e, issue))),
        },
{
    if index_has_staged {
        return Err(Error::StagedChangesPresent);
    }
    let groups = match group_id_ranges(raw_ids) {
        Ok(g) => g,
        Err(e) => {
            return Err(e);
        },
    };
    let hunks = parse_diff(diff_text);
    let identified = assign_ids(hunks.as_slice());
    let ghost hv = spec_parse_diff(diff_text@);
    let ghost gv = groups.deep_view();
    proof {
        assert(hunks.deep_view() =~= hv);
        assert(forall|i: int| 0 <= i < identified@.len() ==> (#[trigger] identified@[i]).0@
            == spec_assigned_id(hv, i) && identified@[i].1@ == hv[i]);
    }
    let n = groups.len();
    let mut patch = String::new();
    proof {
        assert(gv.skip(0) =~= gv);
    }
    let mut i: usize = 0;
    while i < n
        invariant
            n == groups@.len(),
            gv == groups.deep_view(),
            hv == spec_parse_diff(diff_text@),
            hunks.deep_view() == hv,
            identified@.len() == hv.len(),
            forall|k: int| 0 <= k < identified@.len() ==> (#[trigger] identified@[k]).0@
                == spec_assigned_id(hv, k) && identified@[k].1@ == hv[k],
            i <= n,
            !index_has_staged,
            spec_group_raws(raw_ids.deep_view(), Seq::empty()) == Ok::<
                Seq<(Seq<char>, Seq<(usize, usize)>)>,
                ArgsIssue,
            >(gv),
            spec_group_patches(hv, gv) == (match spec_group_patches(hv, gv.skip(i as int)) {
                Ok(rest) => Ok::<Seq<char>, OpIssue>(patch@ + rest),
                Err(issue) => Err(issue),
            }),
        decreases n - i,
    {
        let ghost rest_g = gv.skip(i as int);
        proof {
            assert(rest_g.first() == gv[i as int]);
            assert(rest_g.drop_first() =~= gv.skip(i as int + 1));
            assert(groups@[i as int].0@ == gv[i as int].0);
            assert(groups@[i as int].1@ == gv[i as int].1);
        }
        let id = &groups[i].0;
        let hunk = match find_hunk_by_id(&identified, id.as_str(), Ghost(hv)) {
            Some(h) => h,
            None => {
                proof {
                    assert(spec_group_patches(hv, gv.skip(i as int)) == Err::<Seq<char>, OpIssue>(
                        OpIssue::NotFound { id: gv[i as int].0 },
                    ));
                }
                return Err(Error::HunkNotFound { id: id.clone() });
            },
        };
        match check_supported(hunk, id.as_str()) {
            Ok(()) => {},
            Err(e) => {
                return Err(e);
            },
        }
        let piece = if groups[i].1.len() == 0 {
            build_patch(hunk)
        } else {
            match slice_hunk_multi(hunk, groups[i].1.as_slice(), false) {
                Ok(h) => build_patch(&h),
                Err(err) => {
                    return Err(err);
                },
            }
        };
        let ghost old_patch = patch@;
        patch.append(piece.as_str());
        proof {
            let k = spec_resolve(hv, gv[i as int].0, 0);
            if spec_group_patches(hv, gv.skip(i as int + 1)) is Ok {
                let tail = match spec_group_patches(hv, gv.skip(i as int + 1)) {
                    Ok(t) => t,
                    Err(_) => Seq::empty(),
                };
                assert(old_patch + (piece@ + tail) =~= patch@ + tail);
            }
        }
        i += 1;
    }
    proof {
        assert(gv.skip(n as int).len() == 0);
        assert(patch@ + Seq::<char>::empty() =~= patch@);
    }
    Ok(CommitPlan { patch, message: String::from_str(message) })
}

/// Message parts joined by blank lines, the way multi-part commit
/// messages are assembled.
pub open spec fn spec_join_parts(parts: Seq<Seq<char>>) -> Seq<char>
    decreases parts.len(),
{
    if parts.len() == 0 {
        Seq::empty()
    } else if parts.len() == 1 {
        parts.first()
    } else {
        parts.first() + "\n\n"@ + spec_join_parts(parts.drop_first())
    }
}

/// Joins message parts with one blank line between each two.
pub fn join_message_parts(parts: &Vec<String>) -> (r: String)
    ensures
        r@ == spec_join_parts(parts.deep_view()),
{
    let ghost pv = parts.deep_view();
    let n = parts.len();
    if n == 0 {
        return String::new();
    }
    let mut out = parts[0].clone();
    proof {
        assert(parts@[0]@ == pv[0]);
        assert(pv.skip(0) =~= pv);
    }
    let mut i: usize = 1;
    while i < n
        invariant
            n == parts@.len(),
            pv == parts.deep_view(),
            1 <= i <= n,
            spec_join_parts(pv) == out@ + (if i < n {
                "\n\n"@ + spec_join_parts(pv.skip(i as int))
            } else {
                Seq::<char>::empty()
            }),
        decreases n - i,
    {
        proof {
            assert(parts@[i as int]@ == pv[i as int]);
            assert(pv.skip(i as int).first() == pv[i as int]);
            assert(pv.skip(i as int).drop_first() =~= pv.skip(i as int + 1));
        }
        out.append("\n\n");
        out.append(parts[i].as_str());
        i += 1;
    }
    proof {
        assert(out@ + Seq::<char>::empty() =~= out@);
    }
    out
}

/// The short form of a revision: its first seven characters, or all of
/// a shorter one.
pub fn short_ref(sha: &str) -> (r: String)
    ensures
        r@ == sha@.take(if sha@.len() < 7 {
            sha@.len() as int
        } else {
            7
        }),
{
    let n = str_char_len(sha);
    if n < 7 {
        str_take(sha, n)
    } else {
        str_take(sha, 7)
    }
}

/// The revision one step before `sha`, as the engine spells it.
pub fn parent_of(sha: &str) -> (r: String)
    ensures
        r@ == sha@ + "^"@,
{
    let mut s = String::from_str(sha);
    s.append("^");
    s
}

/// The rewrite upstream one commit before `sha`.
pub fn upstream_of(sha: &str) -> (r: String)
    ensures
        r@ == sha@ + "~1"@,
{
    let mut s = String::from_str(sha);
    s.append("~1");
    s
}

/// The reference `distance` commits before the tip: the tip itself for
/// zero.
pub fn ref_at_distance(distance: usize) -> (r: String)
    ensures
        distance == 0 ==> r@ == "HEAD"@,
        distance > 0 ==> r@ == "HEAD~"@ + crate::text::dec_digits(distance as nat),
{
    if distance == 0 {
        String::from_str("HEAD")
    } else {
        let mut s = String::from_str("HEAD~");
        crate::text::push_decimal(&mut s, distance);
        s
    }
}

/// The step-sequence transform that marks the target commit for manual
/// editing: a substitution of its pick line.
pub fn sequence_editor_script(short_sha: &str) -> (r: String)
    ensures
        r@ == "s/^pick "@ + short_sha@ + " /edit "@ + short_sha@ + " /"@,
{
    let mut s = String::from_str("s/^pick ");
    s.append(short_sha);
    s.append(" /edit ");
    s.append(short_sha);
    s.append(" /");
    s
}

/// How a fixup is carried out.
pub enum FixupPlan {
    /// The target is the tip: amend it in place, keeping its message.
    AmendHead,
    /// An earlier target: create a marked commit and run an auto-folding
    /// rewrite from just before the target, or from the root.
    MarkedCommit { message: String, onto_root: bool, upstream: String },
}

/// Plans folding the staged changes into a commit: refused without
/// staged changes or while a rewrite is in progress; the tip is amended
/// directly, an earlier target gets a marked commit whose message names
/// the target's subject, and an auto-folding rewrite scoped to just
/// before the target (or the whole history for a root target).
pub fn plan_fixup(
    has_staged: bool,
    rebase_in_progress: bool,
    target_sha: &str,
    head_sha: &str,
    subject: &str,
    is_root: bool,
) -> (r: Result<FixupPlan, Error>)
    ensures
        !has_staged ==> r == Err::<FixupPlan, Error>(Error::NoStagedChanges),
        has_staged && rebase_in_progress ==> r == Err::<FixupPlan, Error>(Error::RebaseInProgress),
        has_staged && !rebase_in_progress && target_sha@ == head_sha@ ==> r == Ok::<
            FixupPlan,
            Error,
        >(FixupPlan::AmendHead),
        has_staged && !rebase_in_progress && target_sha@ != head_sha@ ==> (r matches Ok(
            FixupPlan::MarkedCommit { message, onto_root, upstream },
        ) && message@ == "fixup! "@ + subject@ && onto_root == is_root && upstream@ == target_sha@
            + "~1"@),
{
    if !has_staged {
        return Err(Error::NoStagedChanges);
    }
    if rebase_in_progress {
        return Err(Error::RebaseInProgress);
    }
    if str_eq(target_sha, head_sha) {
        return Ok(FixupPlan::AmendHead);
    }
    let mut message = String::from_str("fixup! ");
    message.append(subject);
    Ok(FixupPlan::MarkedCommit { message, onto_root: is_root, upstream: upstream_of(target_sha) })
}

/// How a reword is carried out.
pub enum RewordPlan {
    /// The target is the tip: amend it with the new message.
    AmendHead { message: String },
    /// An earlier target: create an empty marker commit carrying the new
    /// message and run the auto-folding rewrite.
    MarkerCommit { message: String, onto_root: bool, upstream: String },
}

/// Plans changing the message of an existing commit: refused while a
/// rewrite is in progress; the tip is amended directly, an earlier
/// target gets an empty marker commit whose message names the target's
/// subject and carries the new text.
pub fn plan_reword(
    rebase_in_progress: bool,
    target_sha: &str,
    head_sha: &str,
    subject: &str,
    message: &str,
    is_root: bool,
) -> (r: Result<RewordPlan, Error>)
    ensures
        rebase_in_progress ==> r == Err::<RewordPlan, Error>(Error::RebaseInProgress),
        !rebase_in_progress && target_sha@ == head_sha@ ==> (r matches Ok(
            RewordPlan::AmendHead { message: m },
        ) && m@ == message@),
        !rebase_in_progress && target_sha@ != head_sha@ ==> (r matches Ok(
            RewordPlan::MarkerCommit { message: m, onto_root, upstream },
        ) && m@ == "amend! "@ + subject@ + "\n\n"@ + message@ && onto_root == is_root && upstream@
            == target_sha@ + "~1"@),
{
    if rebase_in_progress {
        return Err(Error::RebaseInProgress);
    }
    if str_eq(target_sha, head_sha) {
        return Ok(RewordPlan::AmendHead { message: String::from_str(message) });
    }
    let mut m = String::from_str("amend! ");
    m.append(subject);
    m.append("\n\n");
    m.append(message);
    Ok(RewordPlan::MarkerCommit { message: m, onto_root: is_root, upstream: upstream_of(target_sha) })
}

/// Checks the squash preconditions that come before any mutation, and
/// whether uncommitted tracked changes must be stashed first.
pub fn plan_squash_precheck(rebase_in_progress: bool, dirty: bool) -> (r: Result<bool, Error>)
    ensures
        rebase_in_progress ==> r == Err::<bool, Error>(Error::RebaseInProgress),
        !rebase_in_progress ==> r == Ok::<bool, Error>(dirty),
{
    if rebase_in_progress {
        return Err(Error::RebaseInProgress);
    }
    Ok(dirty)
}

/// The first engine step of a squash.
pub enum SquashReset {
    /// A root target has no parent: the tip reference is deleted so the
    /// next commit starts history afresh.
    DeleteHeadRef,
    /// Otherwise the branch is soft-reset onto the target's parent.
    SoftReset { to: String },
}

/// The command surface of a planned squash.
pub struct SquashPlan {
    pub reset: SquashReset,
    pub message: String,
    pub author: Option<String>,
    pub author_date: Option<String>,
}

/// Plans squashing everything from the target up to the tip into one
/// commit: refused when the target is the tip, is no ancestor of it, or
/// the range holds merge commits without force; a root target restarts
/// history, any other is soft-reset onto its parent; author identity
/// and date of the oldest commit are carried when preservation is on.
pub fn plan_squash(
    target_sha: &str,
    head_sha: &str,
    is_ancestor: bool,
    has_merges: bool,
    force: bool,
    is_root: bool,
    author: Option<&str>,
    author_date: Option<&str>,
    message: &str,
) -> (r: Result<SquashPlan, Error>)
    ensures
        target_sha@ == head_sha@ ==> r == Err::<SquashPlan, Error>(Error::NothingToSquash),
        target_sha@ != head_sha@ && !is_ancestor ==> r == Err::<SquashPlan, Error>(
            Error::NotAncestor,
        ),
        target_sha@ != head_sha@ && is_ancestor && has_merges && !force ==> r == Err::<
            SquashPlan,
            Error,
        >(Error::MergeCommitsInRange),
        target_sha@ != head_sha@ && is_ancestor && (!has_merges || force) ==> (r matches Ok(plan)
            && {
            &&& plan.message@ == message@
            &&& (is_root ==> plan.reset is DeleteHeadRef)
            &&& (!is_root ==> (plan.reset matches SquashReset::SoftReset { to } && to@
                == target_sha@ + "^"@))
            &&& (match (author, plan.author) {
                (Some(a), Some(pa)) => pa@ == a@,
                (None, None) => true,
                _ => false,
            })
            &&& (match (author_date, plan.author_date) {
                (Some(d), Some(pd)) => pd@ == d@,
                (None, None) => true,
                _ => false,
            })
        }),
{
    if str_eq(target_sha, head_sha) {
        return Err(Error::NothingToSquash);
    }
    if !is_ancestor {
        return Err(Error::NotAncestor);
    }
    if has_merges && !force {
        return Err(Error::MergeCommitsInRange);
    }
    let reset = if is_root {
        SquashReset::DeleteHeadRef
    } else {
        SquashReset::SoftReset { to: parent_of(target_sha) }
    };
    let author_owned = match author {
        Some(a) => Some(String::from_str(a)),
        None => None,
    };
    let date_owned = match author_date {
        Some(d) => Some(String::from_str(d)),
        None => None,
    };
    Ok(
        SquashPlan {
            reset,
            message: String::from_str(message),
            author: author_owned,
            author_date: date_owned,
        },
    )
}

/// How many lines of a hunk are additions.
pub open spec fn add_count(lines: Seq<Seq<char>>) -> nat
    decreases lines.len(),
{
    if lines.len() == 0 {
        0
    } else {
        add_count(lines.drop_last()) + if crate::patch::line_kind(lines.last()) is Addition {
            1nat
        } else {
            0nat
        }
    }
}

/// How many lines of a hunk are deletions.
pub open spec fn del_count(lines: Seq<Seq<char>>) -> nat
    decreases lines.len(),
{
    if lines.len() == 0 {
        0
    } else {
        del_count(lines.drop_last()) + if crate::patch::line_kind(lines.last()) is Deletion {
            1nat
        } else {
            0nat
        }
    }
}

/// Counts a hunk's added and deleted lines, for the listing summary.
pub fn hunk_change_counts(hunk: &DiffHunk) -> (r: (usize, usize))
    ensures
        r.0 == add_count(hunk@.lines),
        r.1 == del_count(hunk@.lines),
{
    let n = hunk.lines.len();
    let ghost lv = hunk@.lines;
    let mut adds: usize = 0;
    let mut dels: usize = 0;
    proof {
        assert(lv.take(0) =~= Seq::<Seq<char>>::empty());
    }
    let mut i: usize = 0;
    while i < n
        invariant
            n == hunk@.lines.len(),
            lv == hunk@.lines,
            i <= n,
            adds == add_count(lv.take(i as int)),
            dels == del_count(lv.take(i as int)),
            adds <= i,
            dels <= i,
        decreases n - i,
    {
        proof {
            assert(lv.take(i + 1).drop_last() =~= lv.take(i as int));
            assert(lv.take(i + 1).last() == lv[i as int]);
        }
        match crate::patch::kind_of(hunk.lines[i].as_str()) {
            crate::patch::LineKind::Addition => {
                adds += 1;
            },
            crate::patch::LineKind::Deletion => {
                dels += 1;
            },
            _ => {},
        }
        i += 1;
    }
    proof {
        assert(lv.take(n as int) =~= lv);
    }
    (adds, dels)
}

/// The changed lines of a hunk, in order: its additions and deletions,
/// which the listing previews.
pub open spec fn spec_changed_lines(lines: Seq<Seq<char>>) -> Seq<Seq<char>>
    decreases lines.len(),
{
    if lines.len() == 0 {
        Seq::empty()
    } else {
        spec_changed_lines(lines.drop_last()) + if crate::patch::line_kind(lines.last())
            is Addition || crate::patch::line_kind(lines.last()) is Deletion {
            seq![lines.last()]
        } else {
            Seq::<Seq<char>>::empty()
        }
    }
}

/// Collects a hunk's changed lines for the listing preview.
pub fn changed_lines(hunk: &DiffHunk) -> (r: Vec<String>)
    ensures
        r.deep_view() == spec_changed_lines(hunk@.lines),
{
    let n = hunk.lines.len();
    let ghost lv = hunk@.lines;
    let mut out: Vec<String> = Vec::new();
    proof {
        assert(lv.take(0) =~= Seq::<Seq<char>>::empty());
        assert(out.deep_view() =~= spec_changed_lines(lv.take(0)));
    }
    let mut i: usize = 0;
    while i < n
        invariant
            n == hunk@.lines.len(),
            lv == hunk@.lines,
            i <= n,
            out.deep_view() == spec_changed_lines(lv.take(i as int)),
        decreases n - i,
    {
        proof {
            assert(lv.take(i + 1).drop_last() =~= lv.take(i as int));
            assert(lv.take(i + 1).last() == lv[i as int]);
        }
        let ghost old_dv = out.deep_view();
        match crate::patch::kind_of(hunk.lines[i].as_str()) {
            crate::patch::LineKind::Addition => {
                out.push(hunk.lines[i].clone());
            },
            crate::patch::LineKind::Deletion => {
                out.push(hunk.lines[i].clone());
            },
            _ => {},
        }
        proof {
            assert(out.deep_view() =~= spec_changed_lines(lv.take(i + 1)));
        }
        i += 1;
    }
    proof {
        assert(lv.take(n as int) =~= lv);
    }
    out
}

/// The trailing function context shown in listings: the text after the
/// closing `@@ `, trimmed of spaces.
pub open spec fn spec_display_func_ctx(h: Seq<char>) -> Seq<char> {
    let s = crate::text::find_from(h, "@@ "@, 0);
    if s < 0 {
        Seq::empty()
    } else {
        let rest = h.skip(s + "@@ "@.len() as int);
        let e = crate::text::find_from(rest, "@@ "@, 0);
        if e < 0 {
            Seq::empty()
        } else {
            crate::args::trim(rest.skip(e + "@@ "@.len() as int))
        }
    }
}

/// Extracts the trimmed function context a listing shows for a hunk.
pub fn display_func_ctx(header: &str) -> (r: String)
    ensures
        r@ == spec_display_func_ctx(header@),
{
    proof {
        reveal_strlit("@@ ");
    }
    match crate::text::find_str(header, "@@ ") {
        None => String::new(),
        Some(s) => {
            let hn = str_char_len(header);
            let rest = str_drop(header, s + 3);
            match crate::text::find_str(rest.as_str(), "@@ ") {
                None => String::new(),
                Some(e) => {
                    let rn = str_char_len(rest.as_str());
                    let tail = str_drop(rest.as_str(), e + 3);
                    crate::args::trim_spaces(tail.as_str())
                },
            }
        },
    }
}

/// The staging half of a planned commit: the combined patch applied
/// forward against the index.
pub fn commit_stage(plan: &CommitPlan) -> (p: ApplyPlan)
    ensures
        p.patch@ == plan.patch@,
        p.mode is Stage,
{
    ApplyPlan { patch: plan.patch.clone(), mode: ApplyMode::Stage }
}

/// Law: the recovery of a failed commit reverses exactly what staging
/// applied. The patch is character for character the one `commit_stage`
/// staged, applied in reverse against the index, so the index returns
/// to its pre-call state.
pub fn commit_recovery(plan: &CommitPlan) -> (p: ApplyPlan)
    ensures
        p.patch@ == plan.patch@,
        p.mode is Unstage,
{
    ApplyPlan { patch: plan.patch.clone(), mode: ApplyMode::Unstage }
}

/// One hunk of the commit being split, with the mask of lines already
/// committed by earlier pick groups.
pub struct HunkState {
    pub hunk: DiffHunk,
    pub picked: Vec<bool>,
}

/// The mathematical shape of a split hunk state.
#[verifier::ext_equal]
pub ghost struct HunkStateView {
    pub hunk: HunkView,
    pub picked: Seq<bool>,
}

impl View for HunkState {
    type V = HunkStateView;

    open spec fn view(&self) -> HunkStateView {
        HunkStateView { hunk: self.hunk@, picked: self.picked@ }
    }
}

impl DeepView for HunkState {
    type V = HunkStateView;

    open spec fn deep_view(&self) -> HunkStateView {
        self.view()
    }
}

/// The transient state of one split operation: every hunk of the target
/// commit under its id, in listing order, each with its picked mask.
pub struct SplitSession {
    pub states: Vec<(String, HunkState)>,
}

/// A line that changes something: an addition or a deletion.
pub open spec fn is_change(l: Seq<char>) -> bool {
    crate::patch::line_kind(l) is Addition || crate::patch::line_kind(l) is Deletion
}

/// A state whose mask covers exactly its lines.
pub open spec fn wf_state(s: HunkStateView) -> bool {
    s.picked.len() == s.hunk.lines.len()
}

/// The session built for a target commit's listing: each hunk under its
/// assigned id, nothing picked yet.
pub open spec fn spec_fresh_session(hunks: Seq<HunkView>) -> Seq<(Seq<char>, HunkStateView)> {
    Seq::new(
        hunks.len(),
        |i: int|
            (
                spec_assigned_id(hunks, i),
                HunkStateView {
                    hunk: hunks[i],
                    picked: Seq::new(hunks[i].lines.len(), |j: int| false),
                },
            ),
    )
}

/// Builds the split session for a target commit: parses its listing,
/// assigns ids, and pairs every hunk with an all-clear picked mask.
pub fn new_split_session(diff_text: &str) -> (r: SplitSession)
    ensures
        r.states.deep_view() == spec_fresh_session(spec_parse_diff(diff_text@)),
{
    let hunks = parse_diff(diff_text);
    let identified = assign_ids(hunks.as_slice());
    let ghost hv = spec_parse_diff(diff_text@);
    proof {
        assert(hunks.deep_view() =~= hv);
        assert(forall|i: int| 0 <= i < identified@.len() ==> (#[trigger] identified@[i]).0@
            == spec_assigned_id(hv, i) && identified@[i].1@ == hv[i]);
    }
    let n = identified.len();
    let mut states: Vec<(String, HunkState)> = Vec::new();
    let mut i: usize = 0;
    while i < n
        invariant
            n == identified@.len(),
            identified@.len() == hv.len(),
            forall|k: int| 0 <= k < identified@.len() ==> (#[trigger] identified@[k]).0@
                == spec_assigned_id(hv, k) && identified@[k].1@ == hv[k],
            i <= n,
            states@.len() == i,
            forall|k: int| 0 <= k < i ==> (#[trigger] states.deep_view()[k]) == spec_fresh_session(
                hv,
            )[k],
        decreases n - i,
    {
        let (id, hunk) = (&identified[i].0, identified[i].1);
        let m = hunk.lines.len();
        let mut picked: Vec<bool> = Vec::new();
        let mut j: usize = 0;
        while j < m
            invariant
                j <= m,
                picked@.len() == j,
                forall|q: int| 0 <= q < j ==> !(#[trigger] picked@[q]),
            decreases m - j,
        {
            picked.push(false);
            j += 1;
        }
        let state = HunkState { hunk: duplicate_hunk(hunk), picked };
        proof {
            assert(state@.picked =~= Seq::new(hv[i as int].lines.len(), |q: int| false));
        }
        let ghost old_sdv = states.deep_view();
        states.push((id.clone(), state));
        proof {
            assert(states.deep_view()[i as int].0 == spec_assigned_id(hv, i as int));
            assert(states.deep_view()[i as int].1 =~= spec_fresh_session(hv)[i as int].1);
            assert(states.deep_view()[i as int] == spec_fresh_session(hv)[i as int]);
            assert(forall|k: int| 0 <= k < i ==> (#[trigger] states.deep_view()[k]) == old_sdv[k]);
        }
        i += 1;
    }
    proof {
        assert(states.deep_view() =~= spec_fresh_session(hv));
    }
    SplitSession { states }
}

/// A field-for-field copy of a hunk.
fn duplicate_hunk(h: &DiffHunk) -> (r: DiffHunk)
    ensures
        r@ == h@,
{
    let r = DiffHunk {
        file: h.file.clone(),
        old_file: h.old_file.clone(),
        new_file: h.new_file.clone(),
        file_header: h.file_header.clone(),
        header: h.header.clone(),
        lines: clone_lines(&h.lines),
        unsupported_metadata: h.unsupported_metadata,
    };
    proof {
        assert(r@ =~= h@);
    }
    r
}

/// A copy of a line vector.
fn clone_lines(lines: &Vec<String>) -> (r: Vec<String>)
    ensures
        r.deep_view() == lines.deep_view(),
        r@.len() == lines@.len(),
{
    let n = lines.len();
    let mut out: Vec<String> = Vec::new();
    let mut i: usize = 0;
    while i < n
        invariant
            n == lines@.len(),
            i <= n,
            out@.len() == i,
            forall|k: int| 0 <= k < i ==> (#[trigger] out.deep_view()[k]) == lines.deep_view()[k],
        decreases n - i,
    {
        let ghost old_dv = out.deep_view();
        out.push(lines[i].clone());
        proof {
            assert(out.deep_view() =~= old_dv.push(lines.deep_view()[i as int]));
        }
        i += 1;
    }
    proof {
        assert(out.deep_view() =~= lines.deep_view());
    }
    out
}

/// The index of the state carrying `id`, or -1.
pub open spec fn spec_state_index(sv: Seq<(Seq<char>, HunkStateView)>, id: Seq<char>, i: int) -> int
    decreases sv.len() - i,
{
    if i < 0 || i >= sv.len() {
        -1
    } else if sv[i].0 == id {
        i
    } else {
        spec_state_index(sv, id, i + 1)
    }
}

/// The first line (0-based) that a ranged selection would take although
/// an earlier group already committed it, or -1.
pub open spec fn spec_first_conflict(
    lines: Seq<Seq<char>>,
    picked: Seq<bool>,
    rs: Seq<(usize, usize)>,
    i: int,
) -> int
    decreases lines.len() - i,
{
    if i < 0 || i >= lines.len() {
        -1
    } else if is_change(lines[i]) && crate::patch::in_any_range(rs, i + 1) && (0 <= i
        < picked.len() && picked[i]) {
        i
    } else {
        spec_first_conflict(lines, picked, rs, i + 1)
    }
}

/// The selection mask of one group entry over one hunk: with no ranges,
/// every change line not yet picked; with ranges, every change line
/// inside them, refused with the first line an earlier group already
/// took.
pub open spec fn spec_selection(st: HunkStateView, rs: Seq<(usize, usize)>) -> Result<
    Seq<bool>,
    int,
> {
    if rs.len() == 0 {
        Ok(Seq::new(st.hunk.lines.len(), |i: int| is_change(st.hunk.lines[i]) && !st.picked[i]))
    } else {
        let c = spec_first_conflict(st.hunk.lines, st.picked, rs, 0);
        if c >= 0 {
            Err(c + 1)
        } else {
            Ok(
                Seq::new(
                    st.hunk.lines.len(),
                    |i: int| is_change(st.hunk.lines[i]) && crate::patch::in_any_range(rs, i + 1),
                ),
            )
        }
    }
}

/// Some line is selected.
pub open spec fn any_true(s: Seq<bool>) -> bool {
    exists|i: int| 0 <= i < s.len() && s[i]
}

/// Both masks joined.
pub open spec fn or_mask(a: Seq<bool>, b: Seq<bool>) -> Seq<bool> {
    Seq::new(a.len(), |i: int| a[i] || (0 <= i < b.len() && b[i]))
}

/// The patch text and session left by one group's entries, folded left
/// to right: each entry's hunk found, its selection built, hunks with
/// an empty selection skipped, the rest sliced against their masks and
/// marked picked.
pub ghost struct SelectOutcome {
    pub patch: Seq<char>,
    pub sv: Seq<(Seq<char>, HunkStateView)>,
}

pub open spec fn spec_select_entries(
    sv: Seq<(Seq<char>, HunkStateView)>,
    entries: Seq<(Seq<char>, Seq<(usize, usize)>)>,
) -> Result<SelectOutcome, OpIssue>
    decreases entries.len(),
{
    if entries.len() == 0 {
        Ok(SelectOutcome { patch: Seq::empty(), sv })
    } else {
        let id = entries.first().0;
        let rs = entries.first().1;
        let k = spec_state_index(sv, id, 0);
        if k < 0 {
            Err(OpIssue::NotFound { id })
        } else {
            let st = sv[k].1;
            match spec_selection(st, rs) {
                Err(line) => Err(OpIssue::Picked { id, line }),
                Ok(sel) => if !any_true(sel) {
                    spec_select_entries(sv, entries.drop_first())
                } else if st.hunk.unsupported_metadata {
                    Err(OpIssue::SliceRefused)
                } else if st.picked.len() != st.hunk.lines.len() {
                    Err(OpIssue::BadMask)
                } else {
                    match spec_parse_hunk_starts(st.hunk.header) {
                        None => Err(OpIssue::BadHeader),
                        Some(starts) => {
                            let piece = spec_build_patch(
                                hunk_with_lines(
                                    st.hunk,
                                    crate::patch::mask_lines(st.hunk.lines, st.picked, sel),
                                    starts,
                                ),
                            );
                            let sv2 = sv.update(
                                k,
                                (sv[k].0, HunkStateView { hunk: st.hunk, picked: or_mask(st.picked, sel) }),
                            );
                            match spec_select_entries(sv2, entries.drop_first()) {
                                Err(issue) => Err(issue),
                                Ok(o) => Ok(SelectOutcome { patch: piece + o.patch, sv: o.sv }),
                            }
                        },
                    }
                },
            }
        }
    }
}

/// Groups a pick group's entries by id, keeping first-occurrence order
/// and joining ranges; a rangeless mention of a new id opens an entry
/// with no ranges.
pub open spec fn spec_group_pairs(
    pairs: Seq<(Seq<char>, Option<(usize, usize)>)>,
    acc: Seq<(Seq<char>, Seq<(usize, usize)>)>,
) -> Seq<(Seq<char>, Seq<(usize, usize)>)>
    decreases pairs.len(),
{
    if pairs.len() == 0 {
        acc
    } else {
        let id = pairs.first().0;
        let rs = match pairs.first().1 {
            Some(r) => seq![r],
            None => Seq::<(usize, usize)>::empty(),
        };
        spec_group_pairs(pairs.drop_first(), spec_add_group(acc, id, rs))
    }
}

/// Groups one pick group's id entries.
fn group_pick_entries(pairs: &Vec<(String, Option<(usize, usize)>)>) -> (r: Vec<
    (String, Vec<(usize, usize)>),
>)
    ensures
        r.deep_view() == spec_group_pairs(pairs.deep_view(), Seq::empty()),
{
    let ghost pv = pairs.deep_view();
    let n = pairs.len();
    let mut groups: Vec<(String, Vec<(usize, usize)>)> = Vec::new();
    proof {
        assert(pv.skip(0) =~= pv);
        assert(groups.deep_view() =~= Seq::<(Seq<char>, Seq<(usize, usize)>)>::empty());
    }
    let mut i: usize = 0;
    while i < n
        invariant
            n == pairs@.len(),
            pv == pairs.deep_view(),
            i <= n,
            spec_group_pairs(pv, Seq::empty()) == spec_group_pairs(
                pv.skip(i as int),
                groups.deep_view(),
            ),
        decreases n - i,
    {
        let ghost rest = pv.skip(i as int);
        proof {
            assert(rest.first() == pv[i as int]);
            assert(rest.drop_first() =~= pv.skip(i as int + 1));
            assert(pairs@[i as int].0@ == pv[i as int].0);
            assert(pairs@[i as int].1 == pv[i as int].1);
        }
        let id = pairs[i].0.clone();
        let mut ranges: Vec<(usize, usize)> = Vec::new();
        match pairs[i].1 {
            Some(rg) => {
                ranges.push(rg);
                proof {
                    assert(ranges@ =~= seq![rg]);
                }
            },
            None => {
                proof {
                    assert(ranges@ =~= Seq::<(usize, usize)>::empty());
                }
            },
        }
        let ghost gv = groups.deep_view();
        let ghost idv = id@;
        let ghost rsv = ranges@;
        let found = find_group(&groups, &id);
        match found {
            Some(fj) => {
                let ghost old_entry = gv[fj as int];
                let entry = &mut groups[fj];
                entry.1.append(&mut ranges);
                proof {
                    assert(groups@[fj as int].1@ =~= old_entry.1 + rsv);
                    assert(groups.deep_view() =~~= spec_add_group(gv, idv, rsv));
                }
            },
            None => {
                groups.push((id, ranges));
                proof {
                    assert(groups.deep_view() =~~= spec_add_group(gv, idv, rsv));
                }
            },
        }
        i += 1;
    }
    proof {
        assert(pv.skip(n as int).len() == 0);
    }
    groups
}

/// Builds the selection of one grouped entry over one state; the error
/// is the 1-based first line an earlier group already took.
fn build_selection(state: &HunkState, ranges: &Vec<(usize, usize)>) -> (r: Result<Vec<bool>, usize>)
    requires
        state@.picked.len() == state@.hunk.lines.len(),
        state@.hunk.lines.len() < usize::MAX,
    ensures
        match r {
            Ok(sel) => spec_selection(state@, ranges@) == Ok::<Seq<bool>, int>(sel@),
            Err(line) => spec_selection(state@, ranges@) == Err::<Seq<bool>, int>(line as int),
        },
{
    let n = state.hunk.lines.len();
    let ghost lv = state@.hunk.lines;
    let ghost pk = state@.picked;
    let mut sel: Vec<bool> = Vec::new();
    if ranges.len() == 0 {
        let mut i: usize = 0;
        while i < n
            invariant
                n == state@.hunk.lines.len(),
                lv == state@.hunk.lines,
                pk == state@.picked,
                pk.len() == n,
                i <= n,
                sel@.len() == i,
                forall|m: int| 0 <= m < i ==> (#[trigger] sel@[m]) == (is_change(lv[m])
                    && !pk[m]),
            decreases n - i,
        {
            proof {
                assert(state.hunk@.lines[i as int] == lv[i as int]);
            }
            let k = crate::patch::kind_of(state.hunk.lines[i].as_str());
            let ch = matches!(k, crate::patch::LineKind::Addition) || matches!(
                k,
                crate::patch::LineKind::Deletion,
            );
            sel.push(ch && !state.picked[i]);
            i += 1;
        }
        proof {
            assert(sel@ =~= Seq::new(lv.len(), |m: int| is_change(lv[m]) && !pk[m]));
        }
        Ok(sel)
    } else {
        let ghost rv = ranges@;
        let mut i: usize = 0;
        while i < n
            invariant
                n == state@.hunk.lines.len(),
                lv == state@.hunk.lines,
                pk == state@.picked,
                rv == ranges@,
                rv.len() > 0,
                pk.len() == n,
                n < usize::MAX,
                i <= n,
                sel@.len() == i,
                spec_first_conflict(lv, pk, rv, 0) == spec_first_conflict(lv, pk, rv, i as int),
                forall|m: int| 0 <= m < i ==> (#[trigger] sel@[m]) == (is_change(lv[m])
                    && crate::patch::in_any_range(rv, m + 1)),
            decreases n - i,
        {
            proof {
                assert(state.hunk@.lines[i as int] == lv[i as int]);
            }
            let k = crate::patch::kind_of(state.hunk.lines[i].as_str());
            let ch = matches!(k, crate::patch::LineKind::Addition) || matches!(
                k,
                crate::patch::LineKind::Deletion,
            );
            let inr = crate::patch::in_ranges(ranges.as_slice(), i + 1);
            if ch && inr && state.picked[i] {
                return Err(i + 1);
            }
            sel.push(ch && inr);
            i += 1;
        }
        proof {
            assert(spec_first_conflict(lv, pk, rv, n as int) == -1);
            assert(sel@ =~= Seq::new(
                lv.len(),
                |m: int| is_change(lv[m]) && crate::patch::in_any_range(rv, m + 1),
            ));
        }
        Ok(sel)
    }
}

/// Tests whether any line is selected.
fn any_selected(sel: &Vec<bool>) -> (b: bool)
    ensures
        b == any_true(sel@),
{
    let n = sel.len();
    let mut i: usize = 0;
    while i < n
        invariant
            n == sel@.len(),
            i <= n,
            forall|m: int| 0 <= m < i ==> !(#[trigger] sel@[m]),
        decreases n - i,
    {
        if sel[i] {
            return true;
        }
        i += 1;
    }
    false
}

/// Joins a selection into a picked mask.
fn merge_mask(picked: &Vec<bool>, sel: &Vec<bool>) -> (r: Vec<bool>)
    ensures
        r@ == or_mask(picked@, sel@),
{
    let n = picked.len();
    let mut out: Vec<bool> = Vec::new();
    let mut i: usize = 0;
    while i < n
        invariant
            n == picked@.len(),
            i <= n,
            out@.len() == i,
            forall|m: int| 0 <= m < i ==> (#[trigger] out@[m]) == (picked@[m] || (0 <= m
                < sel@.len() && sel@[m])),
        decreases n - i,
    {
        let s = if i < sel.len() {
            sel[i]
        } else {
            false
        };
        out.push(picked[i] || s);
        i += 1;
    }
    proof {
        assert(out@ =~= or_mask(picked@, sel@));
    }
    out
}

/// Carries out one pick group against the session: groups its entries
/// by id, builds each entry's selection, slices each selected hunk
/// against its masks, marks the taken lines picked, and returns the
/// group's combined patch. A group that selects nothing at all is
/// refused; a line an earlier group took fails the whole operation.
pub fn split_select_group(session: &mut SplitSession, entries: &Vec<(String, Option<(usize, usize)>)>) -> (r:
    Result<String, Error>)
    requires
        forall|k: int| 0 <= k < old(session).states@.len() ==> wf_state(
            (#[trigger] old(session).states.deep_view()[k]).1,
        ) && old(session).states.deep_view()[k].1.hunk.lines.len() < usize::MAX,
    ensures
        match r {
            Ok(patch) => {
                &&& spec_select_entries(
                    old(session).states.deep_view(),
                    spec_group_pairs(entries.deep_view(), Seq::empty()),
                ) matches Ok(o)
                &&& o.patch == patch@
                &&& o.patch.len() > 0
                &&& final(session).states.deep_view() == o.sv
            },
            Err(e) => (spec_select_entries(
                old(session).states.deep_view(),
                spec_group_pairs(entries.deep_view(), Seq::empty()),
            ) matches Err(issue) && op_error_reports(e, issue)) || (spec_select_entries(
                old(session).states.deep_view(),
                spec_group_pairs(entries.deep_view(), Seq::empty()),
            ) matches Ok(o) && o.patch.len() == 0 && e == Error::NothingSelected),
        },
{
    let grouped = group_pick_entries(entries);
    let ghost gv = grouped.deep_view();
    let ghost sv0 = session.states.deep_view();
    let n = grouped.len();
    let mut patch = String::new();
    proof {
        assert(gv.skip(0) =~= gv);
    }
    let mut i: usize = 0;
    while i < n
        invariant
            n == grouped@.len(),
            gv == grouped.deep_view(),
            gv == spec_group_pairs(entries.deep_view(), Seq::empty()),
            sv0 == old(session).states.deep_view(),
            i <= n,
            session.states@.len() == sv0.len(),
            forall|k: int| 0 <= k < session.states@.len() ==> wf_state(
                (#[trigger] session.states.deep_view()[k]).1,
            ) && session.states.deep_view()[k].1.hunk.lines.len() < usize::MAX,
            spec_select_entries(sv0, gv) == (match spec_select_entries(
                session.states.deep_view(),
                gv.skip(i as int),
            ) {
                Ok(o) => Ok::<SelectOutcome, OpIssue>(
                    SelectOutcome { patch: patch@ + o.patch, sv: o.sv },
                ),
                Err(issue) => Err(issue),
            }),
        decreases n - i,
    {
        let ghost rest = gv.skip(i as int);
        let ghost svc = session.states.deep_view();
        proof {
            assert(rest.first() == gv[i as int]);
            assert(rest.drop_first() =~= gv.skip(i as int + 1));
            assert(grouped@[i as int].0@ == gv[i as int].0);
            assert(grouped@[i as int].1@ == gv[i as int].1);
        }
        let id = &grouped[i].0;
        let k = match find_state(&session.states, id) {
            Some(k) => k,
            None => {
                return Err(Error::HunkNotFound { id: id.clone() });
            },
        };
        proof {
            assert(session.states@[k as int].1@ == svc[k as int].1);
        }
        let sel = match build_selection(&session.states[k].1, &grouped[i].1) {
            Ok(s) => s,
            Err(line) => {
                return Err(Error::AlreadyPicked { id: id.clone(), line });
            },
        };
        if any_selected(&sel) {
            let piece = {
                let state = &session.states[k].1;
                match crate::patch::slice_hunk_with_state(
                    &state.hunk,
                    state.picked.as_slice(),
                    sel.as_slice(),
                ) {
                    Ok(h) => build_patch(&h),
                    Err(e) => {
                        return Err(e);
                    },
                }
            };
            let new_picked = merge_mask(&session.states[k].1.picked, &sel);
            let entry = &mut session.states[k];
            entry.1.picked = new_picked;
            let ghost old_patch = patch@;
            patch.append(piece.as_str());
            proof {
                assert(session.states.deep_view() =~~= svc.update(
                    k as int,
                    (
                        svc[k as int].0,
                        HunkStateView {
                            hunk: svc[k as int].1.hunk,
                            picked: or_mask(svc[k as int].1.picked, sel@),
                        },
                    ),
                ));
                if spec_select_entries(session.states.deep_view(), gv.skip(i as int + 1)) is Ok {
                    let o = match spec_select_entries(
                        session.states.deep_view(),
                        gv.skip(i as int + 1),
                    ) {
                        Ok(o) => o,
                        Err(_) => SelectOutcome { patch: Seq::empty(), sv: Seq::empty() },
                    };
                    assert(old_patch + (piece@ + o.patch) =~= patch@ + o.patch);
                }
            }
        }
        i += 1;
    }
    proof {
        assert(gv.skip(n as int).len() == 0);
        assert(patch@ + Seq::<char>::empty() =~= patch@);
    }
    if patch.as_str().unicode_len() == 0 {
        proof {
            assert(patch@.len() == 0);
        }
        return Err(Error::NothingSelected);
    }
    Ok(patch)
}

/// Looks an id up among the session's states.
fn find_state(states: &Vec<(String, HunkState)>, id: &String) -> (found: Option<usize>)
    ensures
        match found {
            Some(k) => k < states@.len() && spec_state_index(states.deep_view(), id@, 0) == k,
            None => spec_state_index(states.deep_view(), id@, 0) == -1,
        },
{
    let ghost sv = states.deep_view();
    let n = states.len();
    let mut j: usize = 0;
    while j < n
        invariant
            n == states@.len(),
            sv == states.deep_view(),
            j <= n,
            spec_state_index(sv, id@, 0) == spec_state_index(sv, id@, j as int),
        decreases n - j,
    {
        proof {
            assert(states@[j as int].0@ == sv[j as int].0);
        }
        if str_eq(states[j].0.as_str(), id.as_str()) {
            return Some(j);
        }
        j += 1;
    }
    None
}

/// Checks the split preconditions that come before any mutation: the
/// working tree must be clean and no rewrite may be in progress.
pub fn plan_split_precheck(dirty: bool, rebase_in_progress: bool) -> (r: Result<(), Error>)
    ensures
        dirty ==> r == Err::<(), Error>(Error::DirtyWorkTree),
        !dirty && rebase_in_progress ==> r == Err::<(), Error>(Error::RebaseInProgress),
        !dirty && !rebase_in_progress ==> r is Ok,
{
    if dirty {
        return Err(Error::DirtyWorkTree);
    }
    if rebase_in_progress {
        return Err(Error::RebaseInProgress);
    }
    Ok(())
}

/// The first problem an id pass over the groups finds: an id no hunk of
/// the listing carries, or one whose hunk may not be fragmented.
pub open spec fn spec_validate_ids(
    hunks: Seq<HunkView>,
    entries: Seq<(Seq<char>, Option<(usize, usize)>)>,
) -> Option<OpIssue>
    decreases entries.len(),
{
    if entries.len() == 0 {
        None
    } else {
        let id = entries.first().0;
        let k = spec_resolve(hunks, id, 0);
        if k < 0 {
            Some(OpIssue::NotFound { id })
        } else if hunks[k].unsupported_metadata {
            Some(OpIssue::Unsupported { id })
        } else {
            spec_validate_ids(hunks, entries.drop_first())
        }
    }
}

/// The first problem a range pass over the groups finds: a zero-based
/// range, or one past its hunk's line count.
pub open spec fn spec_validate_ranges(
    hunks: Seq<HunkView>,
    entries: Seq<(Seq<char>, Option<(usize, usize)>)>,
) -> Option<OpIssue>
    decreases entries.len(),
{
    if entries.len() == 0 {
        None
    } else {
        let id = entries.first().0;
        match entries.first().1 {
            None => spec_validate_ranges(hunks, entries.drop_first()),
            Some((s, e)) => {
                let k = spec_resolve(hunks, id, 0);
                if k < 0 {
                    Some(OpIssue::NotFound { id })
                } else if s == 0 || e == 0 {
                    Some(OpIssue::ZeroRange { id, start: s, end: e })
                } else if e > hunks[k].lines.len() {
                    Some(OpIssue::RangeOver { id, start: s, end: e, len: hunks[k].lines.len() })
                } else {
                    spec_validate_ranges(hunks, entries.drop_first())
                }
            },
        }
    }
}

/// The issue-or-nothing of folding a pass over every group in order.
pub open spec fn spec_validate_groups(
    hunks: Seq<HunkView>,
    groups: Seq<crate::args::PickGroupView>,
    ranges_pass: bool,
) -> Option<OpIssue>
    decreases groups.len(),
{
    if groups.len() == 0 {
        None
    } else {
        let first = if ranges_pass {
            spec_validate_ranges(hunks, groups.first().ids)
        } else {
            spec_validate_ids(hunks, groups.first().ids)
        };
        match first {
            Some(issue) => Some(issue),
            None => spec_validate_groups(hunks, groups.drop_first(), ranges_pass),
        }
    }
}

/// Validates every pick group against the target commit's listing
/// before anything is mutated: every referenced id must exist and be
/// sliceable, and every range must be 1-based and within its hunk.
pub fn validate_pick_groups(diff_text: &str, groups: &Vec<crate::args::PickGroup>) -> (r: Result<
    (),
    Error,
>)
    ensures
        match r {
            Ok(()) => spec_validate_groups(
                spec_parse_diff(diff_text@),
                groups.deep_view(),
                false,
            ) is None && spec_validate_groups(
                spec_parse_diff(diff_text@),
                groups.deep_view(),
                true,
            ) is None,
            Err(e) => (spec_validate_groups(spec_parse_diff(diff_text@), groups.deep_view(), false)
                matches Some(issue) && op_error_reports(e, issue)) || (spec_validate_groups(
                spec_parse_diff(diff_text@),
                groups.deep_view(),
                false,
            ) is None && (spec_validate_groups(spec_parse_diff(diff_text@), groups.deep_view(), true)
                matches Some(issue) && op_error_reports(e, issue))),
        },
{
    let hunks = parse_diff(diff_text);
    let identified = assign_ids(hunks.as_slice());
    let ghost hv = spec_parse_diff(diff_text@);
    let ghost gsv = groups.deep_view();
    proof {
        assert(hunks.deep_view() =~= hv);
        assert(forall|i: int| 0 <= i < identified@.len() ==> (#[trigger] identified@[i]).0@
            == spec_assigned_id(hv, i) && identified@[i].1@ == hv[i]);
    }
    let gn = groups.len();
    proof {
        assert(gsv.skip(0) =~= gsv);
    }
    let mut g: usize = 0;
    while g < gn
        invariant
            gn == groups@.len(),
            gsv == groups.deep_view(),
            hv == spec_parse_diff(diff_text@),
            hunks.deep_view() == hv,
            identified@.len() == hv.len(),
            forall|k: int| 0 <= k < identified@.len() ==> (#[trigger] identified@[k]).0@
                == spec_assigned_id(hv, k) && identified@[k].1@ == hv[k],
            g <= gn,
            spec_validate_groups(hv, gsv, false) == spec_validate_groups(
                hv,
                gsv.skip(g as int),
                false,
            ),
        decreases gn - g,
    {
        let ghost rest = gsv.skip(g as int);
        proof {
            assert(rest.first() == gsv[g as int]);
            assert(rest.drop_first() =~= gsv.skip(g as int + 1));
            assert(groups@[g as int]@ == gsv[g as int]);
        }
        let entries = &groups[g].ids;
        let ghost ev = gsv[g as int].ids;
        proof {
            assert(ev.skip(0) =~= ev);
        }
        let en = entries.len();
        let mut j: usize = 0;
        while j < en
            invariant
                en == entries@.len(),
                ev == entries.deep_view(),
                hv == spec_parse_diff(diff_text@),
                identified@.len() == hv.len(),
                forall|k: int| 0 <= k < identified@.len() ==> (#[trigger] identified@[k]).0@
                    == spec_assigned_id(hv, k) && identified@[k].1@ == hv[k],
                j <= en,
                g < gn,
                gn == gsv.len(),
                gsv == groups.deep_view(),
                spec_validate_groups(hv, gsv, false) == (match spec_validate_ids(
                    hv,
                    ev.skip(j as int),
                ) {
                    Some(issue) => Some(issue),
                    None => spec_validate_groups(hv, gsv.skip(g as int + 1), false),
                }),
            decreases en - j,
        {
            let ghost erest = ev.skip(j as int);
            proof {
                assert(erest.first() == ev[j as int]);
                assert(erest.drop_first() =~= ev.skip(j as int + 1));
                assert(entries@[j as int].0@ == ev[j as int].0);
            }
            let id = &entries[j].0;
            match find_hunk_by_id(&identified, id.as_str(), Ghost(hv)) {
                None => {
                    return Err(Error::HunkNotFound { id: id.clone() });
                },
                Some(h) => {
                    match check_supported(h, id.as_str()) {
                        Ok(()) => {},
                        Err(e) => {
                            return Err(e);
                        },
                    }
                },
            }
            j += 1;
        }
        proof {
            assert(ev.skip(en as int).len() == 0);
        }
        g += 1;
    }
    proof {
        assert(gsv.skip(gn as int).len() == 0);
        assert(spec_validate_groups(hv, gsv, false) is None);
        assert(gsv.skip(0) =~= gsv);
    }
    let mut g2: usize = 0;
    while g2 < gn
        invariant
            gn == groups@.len(),
            gsv == groups.deep_view(),
            hv == spec_parse_diff(diff_text@),
            hunks.deep_view() == hv,
            identified@.len() == hv.len(),
            forall|k: int| 0 <= k < identified@.len() ==> (#[trigger] identified@[k]).0@
                == spec_assigned_id(hv, k) && identified@[k].1@ == hv[k],
            g2 <= gn,
            spec_validate_groups(hv, gsv, false) is None,
            spec_validate_groups(hv, gsv, true) == spec_validate_groups(
                hv,
                gsv.skip(g2 as int),
                true,
            ),
        decreases gn - g2,
    {
        let ghost rest = gsv.skip(g2 as int);
        proof {
            assert(rest.first() == gsv[g2 as int]);
            assert(rest.drop_first() =~= gsv.skip(g2 as int + 1));
            assert(groups@[g2 as int]@ == gsv[g2 as int]);
        }
        let entries = &groups[g2].ids;
        let ghost ev = gsv[g2 as int].ids;
        proof {
            assert(ev.skip(0) =~= ev);
        }
        let en = entries.len();
        let mut j: usize = 0;
        while j < en
            invariant
                en == entries@.len(),
                ev == entries.deep_view(),
                hv == spec_parse_diff(diff_text@),
                identified@.len() == hv.len(),
                forall|k: int| 0 <= k < identified@.len() ==> (#[trigger] identified@[k]).0@
                    == spec_assigned_id(hv, k) && identified@[k].1@ == hv[k],
                j <= en,
                g2 < gn,
                gn == gsv.len(),
                gsv == groups.deep_view(),
                spec_validate_groups(hv, gsv, false) is None,
                spec_validate_groups(hv, gsv, true) == (match spec_validate_ranges(
                    hv,
                    ev.skip(j as int),
                ) {
                    Some(issue) => Some(issue),
                    None => spec_validate_groups(hv, gsv.skip(g2 as int + 1), true),
                }),
            decreases en - j,
        {
            let ghost erest = ev.skip(j as int);
            proof {
                assert(erest.first() == ev[j as int]);
                assert(erest.drop_first() =~= ev.skip(j as int + 1));
                assert(entries@[j as int].0@ == ev[j as int].0);
                assert(entries@[j as int].1 == ev[j as int].1);
            }
            let id = &entries[j].0;
            match entries[j].1 {
                None => {},
                Some((s, e)) => {
                    let h = match find_hunk_by_id(&identified, id.as_str(), Ghost(hv)) {
                        Some(h) => h,
                        None => {
                            return Err(Error::HunkNotFound { id: id.clone() });
                        },
                    };
                    if s == 0 || e == 0 {
                        return Err(Error::RangeZeroBased { id: id.clone(), start: s, end: e });
                    }
                    let len = h.lines.len();
                    if e > len {
                        return Err(
                            Error::RangeExceedsHunk { id: id.clone(), start: s, end: e, len },
                        );
                    }
                },
            }
            j += 1;
        }
        proof {
            assert(ev.skip(en as int).len() == 0);
        }
        g2 += 1;
    }
    proof {
        assert(gsv.skip(gn as int).len() == 0);
        assert(spec_validate_groups(hv, gsv, true) is None);
    }
    Ok(())
}

/// The rest patch of a session: every change line no group took, each
/// hunk with any sliced against its mask; nothing left yields nothing.
pub open spec fn spec_rest_patch(sv: Seq<(Seq<char>, HunkStateView)>) -> Result<Seq<char>, OpIssue>
    decreases sv.len(),
{
    if sv.len() == 0 {
        Ok(Seq::empty())
    } else {
        let st = sv.first().1;
        let sel = Seq::new(st.hunk.lines.len(), |i: int| is_change(st.hunk.lines[i]) && !st.picked[i]);
        if !any_true(sel) {
            spec_rest_patch(sv.drop_first())
        } else if st.hunk.unsupported_metadata {
            Err(OpIssue::SliceRefused)
        } else if st.picked.len() != st.hunk.lines.len() {
            Err(OpIssue::BadMask)
        } else {
            match spec_parse_hunk_starts(st.hunk.header) {
                None => Err(OpIssue::BadHeader),
                Some(starts) => {
                    let piece = spec_build_patch(
                        hunk_with_lines(
                            st.hunk,
                            crate::patch::mask_lines(st.hunk.lines, st.picked, sel),
                            starts,
                        ),
                    );
                    match spec_rest_patch(sv.drop_first()) {
                        Err(issue) => Err(issue),
                        Ok(rest) => Ok(piece + rest),
                    }
                },
            }
        }
    }
}

/// Builds the final rest commit's patch: all changes no group picked,
/// or nothing when every line was taken.
pub fn split_rest_patch(session: &SplitSession) -> (r: Result<Option<String>, Error>)
    requires
        forall|k: int| 0 <= k < session.states@.len() ==> wf_state(
            (#[trigger] session.states.deep_view()[k]).1,
        ) && session.states.deep_view()[k].1.hunk.lines.len() < usize::MAX,
    ensures
        match r {
            Ok(Some(patch)) => spec_rest_patch(session.states.deep_view()) == Ok::<
                Seq<char>,
                OpIssue,
            >(patch@) && patch@.len() > 0,
            Ok(None) => spec_rest_patch(session.states.deep_view()) == Ok::<Seq<char>, OpIssue>(
                Seq::empty(),
            ),
            Err(e) => spec_rest_patch(session.states.deep_view()) matches Err(issue)
                && op_error_reports(e, issue),
        },
{
    let ghost sv = session.states.deep_view();
    let n = session.states.len();
    let mut patch = String::new();
    proof {
        assert(sv.skip(0) =~= sv);
    }
    let mut i: usize = 0;
    while i < n
        invariant
            n == session.states@.len(),
            sv == session.states.deep_view(),
            forall|k: int| 0 <= k < session.states@.len() ==> wf_state(
                (#[trigger] session.states.deep_view()[k]).1,
            ) && session.states.deep_view()[k].1.hunk.lines.len() < usize::MAX,
            i <= n,
            spec_rest_patch(sv) == (match spec_rest_patch(sv.skip(i as int)) {
                Ok(rest) => Ok::<Seq<char>, OpIssue>(patch@ + rest),
                Err(issue) => Err(issue),
            }),
        decreases n - i,
    {
        let ghost rest_s = sv.skip(i as int);
        proof {
            assert(rest_s.first() == sv[i as int]);
            assert(rest_s.drop_first() =~= sv.skip(i as int + 1));
            assert(session.states@[i as int].1@ == sv[i as int].1);
            assert(session.states@[i as int].0@ == sv[i as int].0);
        }
        let state = &session.states[i].1;
        let empty_ranges: Vec<(usize, usize)> = Vec::new();
        proof {
            assert(empty_ranges@ =~= Seq::<(usize, usize)>::empty());
        }
        let sel = match build_selection(state, &empty_ranges) {
            Ok(s) => s,
            Err(_) => {
                proof {
                    assert(false);
                }
                return Err(Error::NothingSelected);
            },
        };
        if any_selected(&sel) {
            let piece = match crate::patch::slice_hunk_with_state(
                &state.hunk,
                state.picked.as_slice(),
                sel.as_slice(),
            ) {
                Ok(h) => build_patch(&h),
                Err(e) => {
                    return Err(e);
                },
            };
            let ghost old_patch = patch@;
            patch.append(piece.as_str());
            proof {
                if spec_rest_patch(sv.skip(i as int + 1)) is Ok {
                    let tail = match spec_rest_patch(sv.skip(i as int + 1)) {
                        Ok(t) => t,
                        Err(_) => Seq::empty(),
                    };
                    assert(old_patch + (piece@ + tail) =~= patch@ + tail);
                }
            }
        }
        i += 1;
    }
    proof {
        assert(sv.skip(n as int).len() == 0);
        assert(patch@ + Seq::<char>::empty() =~= patch@);
    }
    if patch.as_str().unicode_len() == 0 {
        proof {
            assert(patch@.len() == 0);
            assert(spec_rest_patch(sv) == Ok::<Seq<char>, OpIssue>(patch@));
            assert(patch@ =~= Seq::<char>::empty());
        }
        Ok(None)
    } else {
        Ok(Some(patch))
    }
}

} // verus!
