//! Structured argument forms of the command surface: line ranges, hunk
//! ids with inline range suffixes, and the pick groups of the split
//! operation.

use vstd::prelude::*;
use vstd::string::*;
use crate::error::Error;
use crate::text::{
    char_index, split_from, spec_parse_usize, is_space, parse_usize, str_char_len, str_take,
    str_drop, scan_char, str_eq,
};

verus! {

/// A group of hunk ids (each with an optional 1-based line range) and
/// the message parts of the commit they become.
pub struct PickGroup {
    pub ids: Vec<(String, Option<(usize, usize)>)>,
    pub message_parts: Vec<String>,
}

/// The mathematical shape of a pick group.
#[verifier::ext_equal]
pub ghost struct PickGroupView {
    pub ids: Seq<(Seq<char>, Option<(usize, usize)>)>,
    pub message_parts: Seq<Seq<char>>,
}

impl View for PickGroup {
    type V = PickGroupView;

    open spec fn view(&self) -> PickGroupView {
        PickGroupView { ids: self.ids.deep_view(), message_parts: self.message_parts.deep_view() }
    }
}

impl DeepView for PickGroup {
    type V = PickGroupView;

    open spec fn deep_view(&self) -> PickGroupView {
        self.view()
    }
}

/// Why a range or pick argument was refused.
pub ghost enum ArgsIssue {
    /// A number could not be read; carries the offending text.
    BadNumber { raw: Seq<char> },
    /// A range was zero-based or ran backwards; carries the text.
    BadOrder { raw: Seq<char> },
    /// A pick flag came after the rest-message section opened.
    PickAfterRest,
    /// A message flag came after the rest-message section opened.
    MessageAfterRest,
    /// A pick group reached its end without a message.
    PickMissingMessage,
    /// A message stood without a preceding pick.
    MessageWithoutPick,
    /// A flag that needs a value stood last.
    MissingValue,
    /// A pick flag brought no hunk id.
    PickNeedsIds,
    /// An argument fit no known flag; carries the text.
    Unexpected { arg: Seq<char> },
    /// No pick group at all was given.
    NoGroups,
}

/// Whether an error value reports the given issue.
pub open spec fn error_reports(e: Error, issue: ArgsIssue) -> bool {
    match issue {
        ArgsIssue::BadNumber { raw } => e matches Error::InvalidNumber { raw: r } && r@ == raw,
        ArgsIssue::BadOrder { raw } => e matches Error::BadRangeOrder { raw: r } && r@ == raw,
        ArgsIssue::PickAfterRest => e == Error::PickAfterRestMessage,
        ArgsIssue::MessageAfterRest => e == Error::MessageAfterRestMessage,
        ArgsIssue::PickMissingMessage => e == Error::PickMissingMessage,
        ArgsIssue::MessageWithoutPick => e == Error::MessageWithoutPick,
        ArgsIssue::MissingValue => e == Error::MissingValue,
        ArgsIssue::PickNeedsIds => e == Error::PickNeedsIds,
        ArgsIssue::Unexpected { arg } => e matches Error::UnexpectedArgument { arg: a } && a@
            == arg,
        ArgsIssue::NoGroups => e == Error::NoPickGroups,
    }
}

/// The numbers of a range argument, `a-b` or a single `n`, if they read.
pub open spec fn spec_line_range_nums(s: Seq<char>) -> Option<(usize, usize)> {
    let di = char_index(s, '-', 0);
    if di >= 0 {
        match spec_parse_usize(s.take(di)) {
            Some(a) => match spec_parse_usize(s.skip(di + 1)) {
                Some(b) => Some((a, b)),
                None => None,
            },
            None => None,
        }
    } else {
        match spec_parse_usize(s) {
            Some(n) => Some((n, n)),
            None => None,
        }
    }
}

/// Reads a 1-based inclusive line range, `a-b` or a single line `n`;
/// rejects unreadable numbers, zeroes and backward ranges.
pub fn parse_line_range(s: &str) -> (r: Result<(usize, usize), Error>)
    ensures
        match r {
            Ok(p) => spec_line_range_nums(s@) == Some(p) && 1 <= p.0 <= p.1,
            Err(e) => match spec_line_range_nums(s@) {
                Some(p) => !(1 <= p.0 <= p.1) && error_reports(e, ArgsIssue::BadOrder { raw: s@ }),
                None => error_reports(e, ArgsIssue::BadNumber { raw: s@ }),
            },
        },
{
    let n = str_char_len(s);
    let di = scan_char(s, '-', 0);
    let nums: Option<(usize, usize)> = if di < n {
        let a_str = str_take(s, di);
        let b_str = str_drop(s, di + 1);
        match parse_usize(a_str.as_str()) {
            Some(a) => match parse_usize(b_str.as_str()) {
                Some(b) => Some((a, b)),
                None => None,
            },
            None => None,
        }
    } else {
        proof {
            assert(char_index(s@, '-', 0) < 0);
        }
        match parse_usize(s) {
            Some(v) => Some((v, v)),
            None => None,
        }
    };
    match nums {
        None => Err(Error::InvalidNumber { raw: String::from_str(s) }),
        Some((start, end)) => {
            if start == 0 || end == 0 || start > end {
                Err(Error::BadRangeOrder { raw: String::from_str(s) })
            } else {
                Ok((start, end))
            }
        },
    }
}

/// `s` with leading and trailing spaces removed.
pub open spec fn ltrim(s: Seq<char>) -> Seq<char>
    decreases s.len(),
{
    if s.len() > 0 && is_space(s.first()) {
        ltrim(s.drop_first())
    } else {
        s
    }
}

pub open spec fn rtrim(s: Seq<char>) -> Seq<char>
    decreases s.len(),
{
    if s.len() > 0 && is_space(s.last()) {
        rtrim(s.drop_last())
    } else {
        s
    }
}

pub open spec fn trim(s: Seq<char>) -> Seq<char> {
    rtrim(ltrim(s))
}

/// Strips spaces from both ends.
pub fn trim_spaces(s: &str) -> (r: String)
    ensures
        r@ == trim(s@),
{
    let mut a: usize = 0;
    let mut b = str_char_len(s);
    proof {
        assert(s@.skip(0) =~= s@);
    }
    loop
        invariant
            a <= s@.len(),
            ltrim(s@) == ltrim(s@.skip(a as int)),
        ensures
            a <= s@.len(),
            ltrim(s@) == s@.skip(a as int),
        decreases s@.len() - a,
    {
        let n = str_char_len(s);
        if a >= n {
            proof {
                assert(s@.skip(a as int).len() == 0);
            }
            break;
        }
        let c = s.get_char(a);
        if !(c == ' ' || c == '\t') {
            proof {
                assert(s@.skip(a as int).first() == s@[a as int]);
            }
            break;
        }
        proof {
            assert(s@.skip(a as int).first() == s@[a as int]);
            assert(s@.skip(a as int).drop_first() =~= s@.skip(a as int + 1));
        }
        a += 1;
    }
    proof {
        assert(s@.skip(a as int).take(s@.len() - a) =~= s@.skip(a as int));
    }
    loop
        invariant
            a <= b <= s@.len(),
            ltrim(s@) == s@.skip(a as int),
            rtrim(s@.skip(a as int)) == rtrim(s@.skip(a as int).take(b - a)),
        ensures
            a <= b <= s@.len(),
            rtrim(ltrim(s@)) == s@.skip(a as int).take(b - a),
        decreases b,
    {
        if b <= a {
            proof {
                assert(s@.skip(a as int).take(b - a).len() == 0);
            }
            break;
        }
        let c = s.get_char(b - 1);
        let ghost cur = s@.skip(a as int).take(b - a);
        proof {
            assert(cur.last() == s@[b - 1]);
        }
        if !(c == ' ' || c == '\t') {
            break;
        }
        proof {
            assert(cur.drop_last() =~= s@.skip(a as int).take(b - 1 - a));
        }
        b -= 1;
    }
    let r = String::from_str(s.substring_char(a, b));
    proof {
        assert(r@ =~= s@.skip(a as int).take(b - a));
    }
    r
}

/// What one comma-separated piece contributes: nothing when blank, a
/// range when it reads, or the first failure.
pub ghost enum RangesParse {
    Ranges { rs: Seq<(usize, usize)> },
    Fail { issue: ArgsIssue },
}

/// The ranges of the comma-separated pieces after an id's colon, blank
/// pieces skipped, read left to right up to the first failure.
pub open spec fn spec_pick_ranges(pieces: Seq<Seq<char>>) -> RangesParse
    decreases pieces.len(),
{
    if pieces.len() == 0 {
        RangesParse::Ranges { rs: Seq::empty() }
    } else {
        let t = trim(pieces.first());
        if t.len() == 0 {
            spec_pick_ranges(pieces.drop_first())
        } else {
            match spec_line_range_nums(t) {
                None => RangesParse::Fail { issue: ArgsIssue::BadNumber { raw: t } },
                Some(p) => if !(1 <= p.0 <= p.1) {
                    RangesParse::Fail { issue: ArgsIssue::BadOrder { raw: t } }
                } else {
                    match spec_pick_ranges(pieces.drop_first()) {
                        RangesParse::Ranges { rs } => RangesParse::Ranges {
                            rs: seq![p] + rs,
                        },
                        RangesParse::Fail { issue } => RangesParse::Fail { issue },
                    }
                },
            }
        }
    }
}

/// What a pick id argument denotes: one entry per given range, a single
/// rangeless entry when no usable range followed the colon, or the
/// first failure.
pub ghost enum PickIdParse {
    Items { items: Seq<(Seq<char>, Option<(usize, usize)>)> },
    Fail { issue: ArgsIssue },
}

pub open spec fn spec_parse_pick_id(s: Seq<char>) -> PickIdParse {
    let ci = char_index(s, ':', 0);
    if ci < 0 {
        PickIdParse::Items { items: seq![(s, None)] }
    } else {
        let id = s.take(ci);
        let range_str = s.skip(ci + 1);
        match spec_pick_ranges(split_from(range_str, ',', 0)) {
            RangesParse::Ranges { rs } => if rs.len() == 0 {
                PickIdParse::Items { items: seq![(id, None)] }
            } else {
                PickIdParse::Items {
                    items: rs.map_values(|r: (usize, usize)| (id, Some(r))),
                }
            },
            RangesParse::Fail { issue } => PickIdParse::Fail { issue },
        }
    }
}

/// Reads a pick id that may carry comma-separated range suffixes, such
/// as a bare id, `id:5`, `id:1-11` or `id:2,5-6,34`: one entry per
/// range, or a single rangeless entry.
pub fn parse_pick_id(s: &str) -> (r: Result<Vec<(String, Option<(usize, usize)>)>, Error>)
    ensures
        match r {
            Ok(v) => spec_parse_pick_id(s@) matches PickIdParse::Items { items } && v.deep_view()
                == items,
            Err(e) => spec_parse_pick_id(s@) matches PickIdParse::Fail { issue } && error_reports(
                e,
                issue,
            ),
        },
{
    let n = str_char_len(s);
    let ci = scan_char(s, ':', 0);
    if ci >= n {
        proof {
            assert(char_index(s@, ':', 0) < 0);
        }
        let mut v: Vec<(String, Option<(usize, usize)>)> = Vec::new();
        v.push((String::from_str(s), None));
        proof {
            assert(v.deep_view() =~= seq![(s@, Option::<(usize, usize)>::None)]);
        }
        return Ok(v);
    }
    let id = str_take(s, ci);
    let range_str = str_drop(s, ci + 1);
    let pieces = split_pieces(range_str.as_str());
    let ghost piece_views = split_from(s@.skip(ci as int + 1), ',', 0);
    let mut out: Vec<(String, Option<(usize, usize)>)> = Vec::new();
    let ghost mut done: Seq<(usize, usize)> = Seq::empty();
    let pn = pieces.len();
    proof {
        assert(piece_views.skip(0) =~= piece_views);
        if spec_pick_ranges(piece_views) is Ranges {
            let rs0 = rest_ranges_of(spec_pick_ranges(piece_views));
            assert(Seq::<(usize, usize)>::empty() + rs0 =~= rs0);
        }
        assert(out.deep_view() =~= done.map_values(
            |r: (usize, usize)| (s@.take(ci as int), Some(r)),
        ));
    }
    let mut i: usize = 0;
    while i < pn
        invariant
            pn == pieces@.len(),
            piece_views == split_from(s@.skip(ci as int + 1), ',', 0),
            pieces.deep_view() == piece_views,
            id@ == s@.take(ci as int),
            range_str@ == s@.skip(ci as int + 1),
            0 <= char_index(s@, ':', 0) == ci,
            i <= pn,
            spec_pick_ranges(piece_views) == (match spec_pick_ranges(piece_views.skip(i as int)) {
                RangesParse::Ranges { rs } => RangesParse::Ranges { rs: done + rs },
                RangesParse::Fail { issue } => RangesParse::Fail { issue },
            }),
            out.deep_view() == done.map_values(
                |r: (usize, usize)| (s@.take(ci as int), Some(r)),
            ),
        decreases pn - i,
    {
        let ghost rest = piece_views.skip(i as int);
        proof {
            assert(rest.first() == piece_views[i as int]);
            assert(rest.drop_first() =~= piece_views.skip(i as int + 1));
            assert(pieces@[i as int]@ == piece_views[i as int]);
        }
        let t = trim_spaces(pieces[i].as_str());
        if str_char_len(t.as_str()) > 0 {
            match parse_line_range(t.as_str()) {
                Err(e) => {
                    proof {
                        assert(t@ == trim(rest.first()));
                        assert(spec_pick_ranges(rest) is Fail);
                        assert(spec_pick_ranges(piece_views) is Fail);
                        assert(spec_parse_pick_id(s@) matches PickIdParse::Fail { issue }
                            && error_reports(e, issue));
                    }
                    return Err(e);
                },
                Ok(p) => {
                    let ghost old_done = done;
                    let ghost old_dv = out.deep_view();
                    out.push((id.clone(), Some(p)));
                    proof {
                        done = done.push(p);
                        assert(t@ == trim(rest.first()));
                        let f = |r: (usize, usize)| (s@.take(ci as int), Some(r));
                        assert(out.deep_view() =~= old_dv.push((s@.take(ci as int), Some(p))));
                        assert(done.map_values(f) =~= old_done.map_values(f).push(
                            (s@.take(ci as int), Some(p)),
                        ));
                        let tail = spec_pick_ranges(rest.drop_first());
                        assert(spec_pick_ranges(rest) == (match tail {
                            RangesParse::Ranges { rs } => RangesParse::Ranges {
                                rs: seq![p] + rs,
                            },
                            RangesParse::Fail { issue } => RangesParse::Fail { issue },
                        }));
                        if tail is Ranges {
                            let rs2 = rest_ranges_of(tail);
                            assert(old_done + (seq![p] + rs2) =~= done + rs2);
                        }
                    }
                },
            }
        }
        i += 1;
    }
    proof {
        assert(piece_views.skip(pn as int).len() == 0);
        assert(spec_pick_ranges(piece_views.skip(pn as int)) == (RangesParse::Ranges {
            rs: Seq::<(usize, usize)>::empty(),
        }));
        let rs_all = rest_ranges_of(spec_pick_ranges(piece_views));
        assert(spec_pick_ranges(piece_views) == (RangesParse::Ranges { rs: done }) ) by {
            assert(done + Seq::<(usize, usize)>::empty() =~= done);
        }
    }
    if out.len() == 0 {
        let mut v: Vec<(String, Option<(usize, usize)>)> = Vec::new();
        v.push((id, None));
        proof {
            assert(done.map_values(
                |r: (usize, usize)| (s@.take(ci as int), Some(r)),
            ).len() == 0);
            assert(done.len() == 0);
            assert(v.deep_view() =~= seq![(s@.take(ci as int), Option::<(usize, usize)>::None)]);
        }
        Ok(v)
    } else {
        proof {
            assert(done.len() > 0);
            assert(done.map_values(|r: (usize, usize)| (s@.take(ci as int), Some(r))) =~= done.map_values(
                |r: (usize, usize)| (s@.take(ci as int), Some(r)),
            ));
        }
        Ok(out)
    }
}

/// The running accumulation while reading split arguments.
#[verifier::ext_equal]
pub ghost struct SplitArgsState {
    pub groups: Seq<PickGroupView>,
    pub cur_ids: Seq<(Seq<char>, Option<(usize, usize)>)>,
    pub cur_msgs: Seq<Seq<char>>,
    pub seen_rest: bool,
    pub rest_msgs: Seq<Seq<char>>,
}

/// What the split argument list denotes.
pub ghost enum SplitArgsParse {
    Parsed { groups: Seq<PickGroupView>, rest: Option<Seq<Seq<char>>> },
    Fail { issue: ArgsIssue },
}

/// Closes the group under construction: pending ids need a message and
/// become a group; pending messages without ids are refused.
pub open spec fn spec_flush_group(
    groups: Seq<PickGroupView>,
    ids: Seq<(Seq<char>, Option<(usize, usize)>)>,
    msgs: Seq<Seq<char>>,
) -> Result<Seq<PickGroupView>, ArgsIssue> {
    if ids.len() > 0 {
        if msgs.len() == 0 {
            Err(ArgsIssue::PickMissingMessage)
        } else {
            Ok(groups.push(PickGroupView { ids: ids, message_parts: msgs }))
        }
    } else if msgs.len() > 0 {
        Err(ArgsIssue::MessageWithoutPick)
    } else {
        Ok(groups)
    }
}

/// Gathers the ids after a pick flag: every following argument up to the
/// next flag, each read as a pick id.
pub open spec fn spec_collect_ids(
    args: Seq<Seq<char>>,
    j: int,
    acc: Seq<(Seq<char>, Option<(usize, usize)>)>,
) -> Result<(int, Seq<(Seq<char>, Option<(usize, usize)>)>), ArgsIssue>
    decreases args.len() - j,
{
    if j < 0 || j >= args.len() || (args[j].len() > 0 && args[j][0] == '-') {
        Ok((j, acc))
    } else {
        match spec_parse_pick_id(args[j]) {
            PickIdParse::Items { items } => spec_collect_ids(args, j + 1, acc + items),
            PickIdParse::Fail { issue } => Err(issue),
        }
    }
}

/// Ends the argument list: the last group is closed and at least one
/// group must exist.
pub open spec fn spec_finalize_split(st: SplitArgsState) -> SplitArgsParse {
    match spec_flush_group(st.groups, st.cur_ids, st.cur_msgs) {
        Err(issue) => SplitArgsParse::Fail { issue },
        Ok(groups) => if groups.len() == 0 {
            SplitArgsParse::Fail { issue: ArgsIssue::NoGroups }
        } else {
            SplitArgsParse::Parsed {
                groups,
                rest: if st.rest_msgs.len() == 0 {
                    None
                } else {
                    Some(st.rest_msgs)
                },
            }
        },
    }
}

/// One pass over the split arguments from position `i`: pick flags open
/// or extend a group, message flags attach its message parts, the
/// rest-message section closes group building, and anything else is
/// refused.
pub open spec fn spec_process_split_args(
    args: Seq<Seq<char>>,
    i: int,
    st: SplitArgsState,
) -> SplitArgsParse
    decreases args.len() - i,
{
    if i < 0 || i >= args.len() {
        spec_finalize_split(st)
    } else {
        let a = args[i];
        if a == "--pick"@ {
            if st.seen_rest {
                SplitArgsParse::Fail { issue: ArgsIssue::PickAfterRest }
            } else {
                let flushed = if st.cur_msgs.len() > 0 {
                    spec_flush_group(st.groups, st.cur_ids, st.cur_msgs)
                } else {
                    Ok(st.groups)
                };
                let ids0 = if st.cur_msgs.len() > 0 {
                    Seq::empty()
                } else {
                    st.cur_ids
                };
                let msgs0: Seq<Seq<char>> = Seq::empty();
                match flushed {
                    Err(issue) => SplitArgsParse::Fail { issue },
                    Ok(groups1) => match spec_collect_ids(args, i + 1, ids0) {
                        Err(issue) => SplitArgsParse::Fail { issue },
                        Ok((j, ids1)) => if ids1.len() == 0 {
                            SplitArgsParse::Fail { issue: ArgsIssue::PickNeedsIds }
                        } else {
                            spec_process_split_args(
                                args,
                                if i + 1 <= j <= args.len() {
                                    j
                                } else {
                                    i + 1
                                },
                                SplitArgsState {
                                    groups: groups1,
                                    cur_ids: ids1,
                                    cur_msgs: if st.cur_msgs.len() > 0 {
                                        msgs0
                                    } else {
                                        st.cur_msgs
                                    },
                                    ..st
                                },
                            )
                        },
                    },
                }
            }
        } else if a == "--message"@ || a == "-m"@ {
            if st.seen_rest {
                SplitArgsParse::Fail { issue: ArgsIssue::MessageAfterRest }
            } else if i + 1 >= args.len() {
                SplitArgsParse::Fail { issue: ArgsIssue::MissingValue }
            } else if st.cur_ids.len() == 0 {
                SplitArgsParse::Fail { issue: ArgsIssue::MessageWithoutPick }
            } else {
                spec_process_split_args(
                    args,
                    i + 2,
                    SplitArgsState { cur_msgs: st.cur_msgs.push(args[i + 1]), ..st },
                )
            }
        } else if a == "--rest-message"@ {
            match spec_flush_group(st.groups, st.cur_ids, st.cur_msgs) {
                Err(issue) => SplitArgsParse::Fail { issue },
                Ok(groups1) => if i + 1 >= args.len() {
                    SplitArgsParse::Fail { issue: ArgsIssue::MissingValue }
                } else {
                    spec_process_split_args(
                        args,
                        i + 2,
                        SplitArgsState {
                            groups: groups1,
                            cur_ids: Seq::empty(),
                            cur_msgs: Seq::empty(),
                            seen_rest: true,
                            rest_msgs: st.rest_msgs.push(args[i + 1]),
                        },
                    )
                },
            }
        } else {
            SplitArgsParse::Fail { issue: ArgsIssue::Unexpected { arg: a } }
        }
    }
}

/// What `parse_split_args` returns.
pub open spec fn spec_parse_split_args(args: Seq<Seq<char>>) -> SplitArgsParse {
    spec_process_split_args(
        args,
        0,
        SplitArgsState {
            groups: Seq::empty(),
            cur_ids: Seq::empty(),
            cur_msgs: Seq::empty(),
            seen_rest: false,
            rest_msgs: Seq::empty(),
        },
    )
}

/// Closes the group under construction.
fn flush_group(
    groups: &mut Vec<PickGroup>,
    ids: &mut Vec<(String, Option<(usize, usize)>)>,
    msgs: &mut Vec<String>,
) -> (r: Result<(), Error>)
    ensures
        match spec_flush_group(
            old(groups).deep_view(),
            old(ids).deep_view(),
            old(msgs).deep_view(),
        ) {
            Ok(g) => r is Ok && final(groups).deep_view() == g && final(ids)@.len() == 0
                && final(msgs)@.len() == 0,
            Err(issue) => r matches Err(e) && error_reports(e, issue),
        },
{
    if ids.len() > 0 {
        if msgs.len() == 0 {
            return Err(Error::PickMissingMessage);
        }
        let mut taken_ids: Vec<(String, Option<(usize, usize)>)> = Vec::new();
        let mut taken_msgs: Vec<String> = Vec::new();
        core::mem::swap(&mut taken_ids, ids);
        core::mem::swap(&mut taken_msgs, msgs);
        let ghost old_g = groups.deep_view();
        let g = PickGroup { ids: taken_ids, message_parts: taken_msgs };
        let ghost gv = g@;
        groups.push(g);
        proof {
            assert(groups.deep_view() =~= old_g.push(gv));
        }
        Ok(())
    } else if msgs.len() > 0 {
        Err(Error::MessageWithoutPick)
    } else {
        Ok(())
    }
}

/// Reads the trailing arguments of the split command: one or more
/// `--pick ids... --message text...` groups, then optionally
/// `--rest-message text...`. Returns the groups in order and the
/// rest-message parts if any were given.
pub fn parse_split_args(args: &[String]) -> (r: Result<
    (Vec<PickGroup>, Option<Vec<String>>),
    Error,
>)
    ensures
        match r {
            Ok(p) => spec_parse_split_args(args.deep_view()) matches SplitArgsParse::Parsed {
                groups,
                rest,
            } && p.0.deep_view() == groups && (match p.1 {
                Some(ms) => rest == Some(ms.deep_view()),
                None => rest is None,
            }),
            Err(e) => spec_parse_split_args(args.deep_view()) matches SplitArgsParse::Fail {
                issue,
            } && error_reports(e, issue),
        },
{
    let ghost av = args.deep_view();
    let n = args.len();
    let mut groups: Vec<PickGroup> = Vec::new();
    let mut cur_ids: Vec<(String, Option<(usize, usize)>)> = Vec::new();
    let mut cur_msgs: Vec<String> = Vec::new();
    let mut seen_rest = false;
    let mut rest_msgs: Vec<String> = Vec::new();
    let ghost target = spec_parse_split_args(av);
    proof {
        assert(groups.deep_view() =~= Seq::<PickGroupView>::empty());
        assert(cur_ids.deep_view() =~= Seq::<(Seq<char>, Option<(usize, usize)>)>::empty());
        assert(cur_msgs.deep_view() =~= Seq::<Seq<char>>::empty());
        assert(rest_msgs.deep_view() =~= Seq::<Seq<char>>::empty());
        assert(target == spec_process_split_args(
            av,
            0,
            SplitArgsState {
                groups: groups.deep_view(),
                cur_ids: cur_ids.deep_view(),
                cur_msgs: cur_msgs.deep_view(),
                seen_rest: seen_rest,
                rest_msgs: rest_msgs.deep_view(),
            },
        ));
    }
    let mut i: usize = 0;
    while i < n
        invariant
            n == args@.len(),
            av == args.deep_view(),
            target == spec_parse_split_args(av),
            i <= n,
            target == spec_process_split_args(
                av,
                i as int,
                SplitArgsState {
                    groups: groups.deep_view(),
                    cur_ids: cur_ids.deep_view(),
                    cur_msgs: cur_msgs.deep_view(),
                    seen_rest: seen_rest,
                    rest_msgs: rest_msgs.deep_view(),
                },
            ),
        decreases n - i,
    {
        let ghost st = SplitArgsState {
            groups: groups.deep_view(),
            cur_ids: cur_ids.deep_view(),
            cur_msgs: cur_msgs.deep_view(),
            seen_rest: seen_rest,
            rest_msgs: rest_msgs.deep_view(),
        };
        proof {
            assert(args@[i as int]@ == av[i as int]);
        }
        let arg = &args[i];
        if str_eq(arg.as_str(), "--pick") {
            if seen_rest {
                return Err(Error::PickAfterRestMessage);
            }
            if cur_msgs.len() > 0 {
                match flush_group(&mut groups, &mut cur_ids, &mut cur_msgs) {
                    Ok(()) => {},
                    Err(e) => {
                        return Err(e);
                    },
                }
            }
            let ghost groups1 = groups.deep_view();
            let ghost ids0 = cur_ids.deep_view();
            let mut ret_err: Option<Error> = None;
            let mut j = i + 1;
            loop
                invariant_except_break
                    n == args@.len(),
                    av == args.deep_view(),
                    i < j <= n,
                    ret_err is None,
                    spec_collect_ids(av, i + 1, ids0) == spec_collect_ids(
                        av,
                        j as int,
                        cur_ids.deep_view(),
                    ),
                invariant
                    n == args@.len(),
                    av == args.deep_view(),
                ensures
                    i < j <= n,
                    spec_collect_ids(av, i + 1, ids0) == Ok::<_, ArgsIssue>(
                        (j as int, cur_ids.deep_view()),
                    ) || (spec_collect_ids(av, i + 1, ids0) matches Err(issue)
                        && ret_err matches Some(e2) && error_reports(e2, issue)),
                    spec_collect_ids(av, i + 1, ids0) is Err <==> ret_err is Some,
                decreases n - j,
            {
                if j >= n {
                    break;
                }
                proof {
                    assert(args@[j as int]@ == av[j as int]);
                }
                let cand = &args[j];
                let cn = str_char_len(cand.as_str());
                if cn > 0 && cand.as_str().get_char(0) == '-' {
                    break;
                }
                match parse_pick_id(cand.as_str()) {
                    Ok(mut items) => {
                        let ghost old_ids = cur_ids.deep_view();
                        let ghost iv = items.deep_view();
                        append_items(&mut cur_ids, &mut items);
                        proof {
                            assert(cur_ids.deep_view() =~= old_ids + iv);
                        }
                        j += 1;
                    },
                    Err(e) => {
                        ret_err = Some(e);
                        break;
                    },
                }
            }
            match ret_err {
                Some(e) => {
                    return Err(e);
                },
                None => {},
            }
            if cur_ids.len() == 0 {
                return Err(Error::PickNeedsIds);
            }
            proof {
                assert(av[i as int] == "--pick"@);
                assert(!st.seen_rest);
                let flushed = if st.cur_msgs.len() > 0 {
                    spec_flush_group(st.groups, st.cur_ids, st.cur_msgs)
                } else {
                    Ok::<Seq<PickGroupView>, ArgsIssue>(st.groups)
                };
                assert(flushed == Ok::<Seq<PickGroupView>, ArgsIssue>(groups1));
                let sids0 = if st.cur_msgs.len() > 0 {
                    Seq::<(Seq<char>, Option<(usize, usize)>)>::empty()
                } else {
                    st.cur_ids
                };
                assert(ids0 =~= sids0);
                assert(spec_collect_ids(av, i + 1, sids0) == Ok::<
                    (int, Seq<(Seq<char>, Option<(usize, usize)>)>),
                    ArgsIssue,
                >((j as int, cur_ids.deep_view())));
                let new_st = SplitArgsState {
                    groups: groups.deep_view(),
                    cur_ids: cur_ids.deep_view(),
                    cur_msgs: cur_msgs.deep_view(),
                    seen_rest: seen_rest,
                    rest_msgs: rest_msgs.deep_view(),
                };
                let spec_st = SplitArgsState {
                    groups: groups1,
                    cur_ids: cur_ids.deep_view(),
                    cur_msgs: if st.cur_msgs.len() > 0 {
                        Seq::<Seq<char>>::empty()
                    } else {
                        st.cur_msgs
                    },
                    ..st
                };
                assert(cur_msgs.deep_view() =~= spec_st.cur_msgs);
                assert(new_st =~= spec_st);
                assert(spec_process_split_args(av, i as int, st) == spec_process_split_args(
                    av,
                    j as int,
                    new_st,
                ));
            }
            i = j;
        } else if str_eq(arg.as_str(), "--message") || str_eq(arg.as_str(), "-m") {
            if seen_rest {
                return Err(Error::MessageAfterRestMessage);
            }
            if i + 1 >= n {
                return Err(Error::MissingValue);
            }
            if cur_ids.len() == 0 {
                return Err(Error::MessageWithoutPick);
            }
            proof {
                assert(args@[i as int + 1]@ == av[i as int + 1]);
            }
            let ghost old_msgs = cur_msgs.deep_view();
            cur_msgs.push(args[i + 1].clone());
            proof {
                assert(cur_msgs.deep_view() =~= old_msgs.push(av[i as int + 1]));
            }
            i += 2;
        } else if str_eq(arg.as_str(), "--rest-message") {
            match flush_group(&mut groups, &mut cur_ids, &mut cur_msgs) {
                Ok(()) => {},
                Err(e) => {
                    return Err(e);
                },
            }
            if i + 1 >= n {
                return Err(Error::MissingValue);
            }
            seen_rest = true;
            proof {
                assert(args@[i as int + 1]@ == av[i as int + 1]);
            }
            let ghost old_rest = rest_msgs.deep_view();
            rest_msgs.push(args[i + 1].clone());
            proof {
                assert(rest_msgs.deep_view() =~= old_rest.push(av[i as int + 1]));
                assert(cur_ids.deep_view() =~= Seq::<
                    (Seq<char>, Option<(usize, usize)>),
                >::empty());
                assert(cur_msgs.deep_view() =~= Seq::<Seq<char>>::empty());
            }
            i += 2;
        } else {
            return Err(Error::UnexpectedArgument { arg: arg.clone() });
        }
    }
    match flush_group(&mut groups, &mut cur_ids, &mut cur_msgs) {
        Ok(()) => {},
        Err(e) => {
            return Err(e);
        },
    }
    if groups.len() == 0 {
        return Err(Error::NoPickGroups);
    }
    if rest_msgs.len() == 0 {
        Ok((groups, None))
    } else {
        Ok((groups, Some(rest_msgs)))
    }
}

/// Moves every entry of `items` to the end of `dst`, in order.
fn append_items(
    dst: &mut Vec<(String, Option<(usize, usize)>)>,
    items: &mut Vec<(String, Option<(usize, usize)>)>,
)
    ensures
        final(dst).deep_view() == old(dst).deep_view() + old(items).deep_view(),
{
    let ghost a = dst.deep_view();
    let ghost b = items.deep_view();
    dst.append(items);
    proof {
        assert(dst.deep_view() =~= a + b);
    }
}

/// Reads the comma-separated ranges after an id's colon into a list,
/// blank pieces skipped, stopping at the first failure.
pub fn pick_ranges_of(range_str: &str) -> (r: Result<Vec<(usize, usize)>, Error>)
    ensures
        match r {
            Ok(rs) => spec_pick_ranges(split_from(range_str@, ',', 0)) == (RangesParse::Ranges {
                rs: rs@,
            }),
            Err(e) => spec_pick_ranges(split_from(range_str@, ',', 0)) matches RangesParse::Fail {
                issue,
            } && error_reports(e, issue),
        },
{
    let pieces = split_pieces(range_str);
    let ghost piece_views = split_from(range_str@, ',', 0);
    let mut out: Vec<(usize, usize)> = Vec::new();
    let pn = pieces.len();
    proof {
        assert(piece_views.skip(0) =~= piece_views);
        if spec_pick_ranges(piece_views) is Ranges {
            let rs0 = rest_ranges_of(spec_pick_ranges(piece_views));
            assert(Seq::<(usize, usize)>::empty() + rs0 =~= rs0);
        }
        assert(out@ =~= Seq::<(usize, usize)>::empty());
    }
    let mut i: usize = 0;
    while i < pn
        invariant
            pn == pieces@.len(),
            piece_views == split_from(range_str@, ',', 0),
            pieces.deep_view() == piece_views,
            i <= pn,
            spec_pick_ranges(piece_views) == (match spec_pick_ranges(piece_views.skip(i as int)) {
                RangesParse::Ranges { rs } => RangesParse::Ranges { rs: out@ + rs },
                RangesParse::Fail { issue } => RangesParse::Fail { issue },
            }),
        decreases pn - i,
    {
        let ghost rest = piece_views.skip(i as int);
        proof {
            assert(rest.first() == piece_views[i as int]);
            assert(rest.drop_first() =~= piece_views.skip(i as int + 1));
            assert(pieces@[i as int]@ == piece_views[i as int]);
        }
        let t = trim_spaces(pieces[i].as_str());
        if str_char_len(t.as_str()) > 0 {
            match parse_line_range(t.as_str()) {
                Err(e) => {
                    return Err(e);
                },
                Ok(p) => {
                    let ghost old_out = out@;
                    out.push(p);
                    proof {
                        let tail = spec_pick_ranges(rest.drop_first());
                        if tail is Ranges {
                            let rs2 = rest_ranges_of(tail);
                            assert(old_out + (seq![p] + rs2) =~= out@ + rs2);
                        }
                    }
                },
            }
        }
        i += 1;
    }
    proof {
        assert(piece_views.skip(pn as int).len() == 0);
        assert(out@ + Seq::<(usize, usize)>::empty() =~= out@);
    }
    Ok(out)
}

/// The ranges inside a successful parse; arbitrary on failure.
pub open spec fn rest_ranges_of(p: RangesParse) -> Seq<(usize, usize)> {
    match p {
        RangesParse::Ranges { rs } => rs,
        RangesParse::Fail { .. } => Seq::empty(),
    }
}

/// Splits at every comma, keeping empty pieces.
fn split_pieces(s: &str) -> (r: Vec<String>)
    ensures
        r.deep_view() == split_from(s@, ',', 0),
{
    let len = str_char_len(s);
    let mut out: Vec<String> = Vec::new();
    let ghost target = split_from(s@, ',', 0);
    let mut pos: usize = 0;
    proof {
        assert(Seq::<Seq<char>>::empty() + split_from(s@, ',', 0) =~= split_from(s@, ',', 0));
    }
    let ghost mut donev: Seq<Seq<char>> = Seq::empty();
    loop
        invariant_except_break
            pos <= len,
            target == donev + split_from(s@, ',', pos as int),
            out.deep_view() == donev,
        invariant
            len == s@.len(),
            target == split_from(s@, ',', 0),
        ensures
            out.deep_view() == target,
        decreases len - pos,
    {
        let j = scan_char(s, ',', pos);
        if j >= len {
            proof {
                assert(char_index(s@, ',', pos as int) == -1);
                assert(split_from(s@, ',', pos as int) == seq![
                    s@.subrange(pos as int, len as int),
                ]);
            }
            let piece = String::from_str(s.substring_char(pos, len));
            let ghost old_dv = out.deep_view();
            out.push(piece);
            proof {
                assert(out.deep_view() =~= old_dv.push(s@.subrange(pos as int, len as int)));
                assert(donev + seq![s@.subrange(pos as int, len as int)] =~= donev.push(
                    s@.subrange(pos as int, len as int),
                ));
            }
            break;
        }
        let piece = String::from_str(s.substring_char(pos, j));
        let ghost old_dv = out.deep_view();
        let ghost old_done = donev;
        out.push(piece);
        proof {
            donev = donev.push(s@.subrange(pos as int, j as int));
            assert(out.deep_view() =~= old_dv.push(s@.subrange(pos as int, j as int)));
            assert(split_from(s@, ',', pos as int) == seq![s@.subrange(pos as int, j as int)]
                + split_from(s@, ',', j as int + 1));
            assert(old_done + (seq![s@.subrange(pos as int, j as int)] + split_from(
                s@,
                ',',
                j as int + 1,
            )) =~= donev + split_from(s@, ',', j as int + 1));
        }
        pos = j + 1;
    }
    out
}

} // verus!
