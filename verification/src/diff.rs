//! The diff model: hunk records and the lenient line-oriented parser that
//! turns unified-diff text into them.

use vstd::prelude::*;
use vstd::string::*;
use crate::text::{starts_with, str_starts_with, str_drop, str_eq, str_char_len};

verus! {

/// One contiguous `@@` block of a unified diff.
pub struct DiffHunk {
    /// The primary path for display and matching: the new-side path, or
    /// the old-side path when the new side is the null device.
    pub file: String,
    /// Old-side path as written on the `---` line, prefix stripped.
    pub old_file: String,
    /// New-side path as written on the `+++` line, prefix stripped.
    pub new_file: String,
    /// The verbatim `---`/`+++` two-line block preceding the hunk.
    pub file_header: String,
    /// The verbatim `@@ -a,b +c,d @@ ...` line.
    pub header: String,
    /// All raw lines of the hunk, each with its one-character prefix.
    pub lines: Vec<String>,
    /// Set when the surrounding file section carries metadata (renames,
    /// mode changes, binary content) that forbids slicing the hunk.
    pub unsupported_metadata: bool,
}

/// The mathematical shape of a hunk: every text field as a character
/// sequence.
#[verifier::ext_equal]
pub ghost struct HunkView {
    pub file: Seq<char>,
    pub old_file: Seq<char>,
    pub new_file: Seq<char>,
    pub file_header: Seq<char>,
    pub header: Seq<char>,
    pub lines: Seq<Seq<char>>,
    pub unsupported_metadata: bool,
}

impl View for DiffHunk {
    type V = HunkView;

    open spec fn view(&self) -> HunkView {
        HunkView {
            file: self.file@,
            old_file: self.old_file@,
            new_file: self.new_file@,
            file_header: self.file_header@,
            header: self.header@,
            lines: self.lines.deep_view(),
            unsupported_metadata: self.unsupported_metadata,
        }
    }
}

impl DeepView for DiffHunk {
    type V = HunkView;

    open spec fn deep_view(&self) -> HunkView {
        self.view()
    }
}

/// The display path of a hunk: the new side unless it is absent or the
/// null device.
pub open spec fn spec_display_file(old: Seq<char>, new: Seq<char>) -> Seq<char> {
    if new == "dev/null"@ || new.len() == 0 {
        old
    } else {
        new
    }
}

/// Picks the display path for a hunk.
pub fn display_file(old: &str, new: &str) -> (r: String)
    ensures
        r@ == spec_display_file(old@, new@),
{
    if str_eq(new, "dev/null") || str_char_len(new) == 0 {
        String::from_str(old)
    } else {
        String::from_str(new)
    }
}

/// The path carried by a `---` or `+++` line, after the engine's `a/`
/// or `b/` prefix.
pub open spec fn spec_strip_diff_prefix(l: Seq<char>) -> Seq<char> {
    if starts_with(l, "--- a/"@) {
        l.skip("--- a/"@.len() as int)
    } else if starts_with(l, "+++ b/"@) {
        l.skip("+++ b/"@.len() as int)
    } else if starts_with(l, "--- /"@) {
        l.skip("--- /"@.len() as int)
    } else if starts_with(l, "+++ /"@) {
        l.skip("+++ /"@.len() as int)
    } else if starts_with(l, "+++ a/"@) {
        l.skip("+++ a/"@.len() as int)
    } else if starts_with(l, "--- "@) {
        l.skip("--- "@.len() as int)
    } else if starts_with(l, "+++ "@) {
        l.skip("+++ "@.len() as int)
    } else {
        l
    }
}

/// Extracts the file path from a `---` or `+++` line.
pub fn strip_diff_prefix(line: &str) -> (r: String)
    ensures
        r@ == spec_strip_diff_prefix(line@),
{
    proof {
        reveal_strlit("--- a/");
        reveal_strlit("+++ b/");
        reveal_strlit("--- /");
        reveal_strlit("+++ /");
        reveal_strlit("+++ a/");
        reveal_strlit("--- ");
        reveal_strlit("+++ ");
    }
    if str_starts_with(line, "--- a/") {
        str_drop(line, 6)
    } else if str_starts_with(line, "+++ b/") {
        str_drop(line, 6)
    } else if str_starts_with(line, "--- /") {
        str_drop(line, 5)
    } else if str_starts_with(line, "+++ /") {
        str_drop(line, 5)
    } else if str_starts_with(line, "+++ a/") {
        str_drop(line, 6)
    } else if str_starts_with(line, "--- ") {
        str_drop(line, 4)
    } else if str_starts_with(line, "+++ ") {
        str_drop(line, 4)
    } else {
        String::from_str(line)
    }
}

/// A file-section metadata line after which hunks of the section may only
/// be applied or reverted whole: renames, copies, mode changes, binary
/// content.
pub open spec fn is_unsupported_meta_line(l: Seq<char>) -> bool {
    starts_with(l, "rename from "@) || starts_with(l, "rename to "@) || starts_with(
        l,
        "copy from "@,
    ) || starts_with(l, "copy to "@) || starts_with(l, "old mode "@) || starts_with(
        l,
        "new mode "@,
    ) || starts_with(l, "Binary files "@) || starts_with(l, "GIT binary patch"@)
}

/// Recognizes metadata lines that make a file section unsliceable.
pub fn is_unsupported_meta(line: &str) -> (r: bool)
    ensures
        r == is_unsupported_meta_line(line@),
{
    str_starts_with(line, "rename from ") || str_starts_with(line, "rename to ")
        || str_starts_with(line, "copy from ") || str_starts_with(line, "copy to ")
        || str_starts_with(line, "old mode ") || str_starts_with(line, "new mode ")
        || str_starts_with(line, "Binary files ") || str_starts_with(line, "GIT binary patch")
}

/// The accumulation state of the line-oriented parser.
#[verifier::ext_equal]
pub ghost struct ParseState {
    pub old_file: Seq<char>,
    pub new_file: Seq<char>,
    pub file_header: Seq<char>,
    pub header: Option<Seq<char>>,
    pub lines: Seq<Seq<char>>,
    pub unsupported: bool,
    pub out: Seq<HunkView>,
}

/// The state before any line is read.
pub open spec fn init_parse_state() -> ParseState {
    ParseState {
        old_file: Seq::empty(),
        new_file: Seq::empty(),
        file_header: Seq::empty(),
        header: None,
        lines: Seq::empty(),
        unsupported: false,
        out: Seq::empty(),
    }
}

/// Emits the open hunk, if one is open.
pub open spec fn flush_state(st: ParseState) -> Seq<HunkView> {
    match st.header {
        Some(h) => st.out.push(
            HunkView {
                file: spec_display_file(st.old_file, st.new_file),
                old_file: st.old_file,
                new_file: st.new_file,
                file_header: st.file_header,
                header: h,
                lines: st.lines,
                unsupported_metadata: st.unsupported,
            },
        ),
        None => st.out,
    }
}

/// One line of input, folded into the parser state: a `diff --git` line
/// closes the file section, `---`/`+++` lines accumulate the file header,
/// an `@@ ` line opens a hunk, any other line while a hunk is open joins
/// it, metadata lines mark the section unsliceable, and anything else is
/// skipped.
pub open spec fn parse_step(st: ParseState, line: Seq<char>) -> ParseState {
    if starts_with(line, "diff --git"@) {
        ParseState {
            old_file: Seq::empty(),
            new_file: Seq::empty(),
            file_header: Seq::empty(),
            header: None,
            lines: Seq::empty(),
            unsupported: false,
            out: flush_state(st),
        }
    } else if starts_with(line, "--- "@) {
        ParseState { file_header: line, old_file: spec_strip_diff_prefix(line), ..st }
    } else if starts_with(line, "+++ "@) {
        ParseState {
            file_header: st.file_header.push('\n') + line,
            new_file: spec_strip_diff_prefix(line),
            ..st
        }
    } else if starts_with(line, "@@ "@) {
        ParseState { header: Some(line), lines: Seq::empty(), out: flush_state(st), ..st }
    } else if st.header is Some {
        ParseState { lines: st.lines.push(line), ..st }
    } else if is_unsupported_meta_line(line) {
        ParseState { unsupported: true, ..st }
    } else {
        st
    }
}

/// The parser state after all of `ls`, starting from `st`.
pub open spec fn parse_lines(st: ParseState, ls: Seq<Seq<char>>) -> ParseState
    decreases ls.len(),
{
    if ls.len() == 0 {
        st
    } else {
        parse_lines(parse_step(st, ls.first()), ls.drop_first())
    }
}

/// Processing a concatenation processes its parts in turn.
pub proof fn lemma_parse_lines_app(st: ParseState, a: Seq<Seq<char>>, b: Seq<Seq<char>>)
    ensures
        parse_lines(st, a + b) == parse_lines(parse_lines(st, a), b),
    decreases a.len(),
{
    if a.len() == 0 {
        assert(a + b =~= b);
    } else {
        assert((a + b).first() == a.first());
        assert((a + b).drop_first() =~= a.drop_first() + b);
        lemma_parse_lines_app(parse_step(st, a.first()), a.drop_first(), b);
    }
}

/// One more line extends the processed prefix by one step.
pub proof fn lemma_parse_lines_snoc(st: ParseState, ls: Seq<Seq<char>>, i: int)
    requires
        0 <= i < ls.len(),
    ensures
        parse_lines(st, ls.take(i + 1)) == parse_step(parse_lines(st, ls.take(i)), ls[i]),
{
    assert(ls.take(i + 1) =~= ls.take(i) + seq![ls[i]]);
    lemma_parse_lines_app(st, ls.take(i), seq![ls[i]]);
    let st2 = parse_lines(st, ls.take(i));
    assert(seq![ls[i]].drop_first() =~= Seq::<Seq<char>>::empty());
    assert(seq![ls[i]].first() == ls[i]);
    assert(parse_lines(st2, seq![ls[i]]) == parse_lines(
        parse_step(st2, ls[i]),
        seq![ls[i]].drop_first(),
    ));
    assert(parse_lines(parse_step(st2, ls[i]), Seq::<Seq<char>>::empty()) == parse_step(
        st2,
        ls[i],
    ));
}

/// What `parse_diff` returns: the hunks of the text, in order.
pub open spec fn spec_parse_diff(input: Seq<char>) -> Seq<HunkView> {
    flush_state(parse_lines(init_parse_state(), crate::text::spec_lines(input)))
}

/// An `Option<String>` seen as an optional character sequence.
pub open spec fn opt_view(h: Option<String>) -> Option<Seq<char>> {
    match h {
        Some(s) => Some(s@),
        None => None,
    }
}

/// Emits the open hunk into `out` and closes it.
fn flush_open(
    out: &mut Vec<DiffHunk>,
    header: &mut Option<String>,
    cur_lines: &mut Vec<String>,
    old_file: &String,
    new_file: &String,
    file_header: &String,
    unsupported: bool,
)
    ensures
        final(out).deep_view() == flush_state(
            ParseState {
                old_file: old_file@,
                new_file: new_file@,
                file_header: file_header@,
                header: opt_view(*old(header)),
                lines: old(cur_lines).deep_view(),
                unsupported: unsupported,
                out: old(out).deep_view(),
            },
        ),
        *final(header) is None,
        final(cur_lines)@.len() == 0,
{
    let taken = header.take();
    match taken {
        Some(h) => {
            let ghost old_dv = out.deep_view();
            let mut moved_lines: Vec<String> = Vec::new();
            core::mem::swap(&mut moved_lines, cur_lines);
            let hunk = DiffHunk {
                file: display_file(old_file.as_str(), new_file.as_str()),
                old_file: old_file.clone(),
                new_file: new_file.clone(),
                file_header: file_header.clone(),
                header: h,
                lines: moved_lines,
                unsupported_metadata: unsupported,
            };
            out.push(hunk);
            proof {
                assert(out.deep_view() =~= flush_state(
                    ParseState {
                        old_file: old_file@,
                        new_file: new_file@,
                        file_header: file_header@,
                        header: opt_view(*old(header)),
                        lines: old(cur_lines).deep_view(),
                        unsupported: unsupported,
                        out: old_dv,
                    },
                ));
            }
        },
        None => {
            cur_lines.clear();
        },
    }
}

/// Turns unified-diff text into its ordered hunks. The parser is lenient:
/// lines before any hunk that fit no marker are skipped, and empty input
/// yields no hunks.
pub fn parse_diff(input: &str) -> (r: Vec<DiffHunk>)
    ensures
        r.deep_view() == spec_parse_diff(input@),
{
    let lines = crate::text::split_lines(input);
    let n = lines.len();
    let mut old_file = String::new();
    let mut new_file = String::new();
    let mut file_header = String::new();
    let mut header: Option<String> = None;
    let mut cur_lines: Vec<String> = Vec::new();
    let mut unsupported = false;
    let mut out: Vec<DiffHunk> = Vec::new();
    let ghost ls = lines.deep_view();
    proof {
        assert(ls.take(0) =~= Seq::<Seq<char>>::empty());
        assert(parse_lines(init_parse_state(), ls.take(0)) =~= init_parse_state());
        assert(out.deep_view() =~= Seq::<HunkView>::empty());
        assert(cur_lines.deep_view() =~= Seq::<Seq<char>>::empty());
    }
    let mut i: usize = 0;
    while i < n
        invariant
            n == lines@.len(),
            ls == lines.deep_view(),
            i <= n,
            ({
                let st = parse_lines(init_parse_state(), ls.take(i as int));
                &&& st.old_file == old_file@
                &&& st.new_file == new_file@
                &&& st.file_header == file_header@
                &&& st.header == opt_view(header)
                &&& st.lines == cur_lines.deep_view()
                &&& st.unsupported == unsupported
                &&& st.out == out.deep_view()
            }),
        decreases n - i,
    {
        let ghost st = parse_lines(init_parse_state(), ls.take(i as int));
        let ghost line_v = ls[i as int];
        proof {
            lemma_parse_lines_snoc(init_parse_state(), ls, i as int);
            assert(lines@[i as int]@ == line_v);
        }
        let line = &lines[i];
        if str_starts_with(line.as_str(), "diff --git") {
            flush_open(
                &mut out,
                &mut header,
                &mut cur_lines,
                &old_file,
                &new_file,
                &file_header,
                unsupported,
            );
            old_file = String::new();
            new_file = String::new();
            file_header = String::new();
            unsupported = false;
        } else if str_starts_with(line.as_str(), "--- ") {
            file_header = line.clone();
            old_file = strip_diff_prefix(line.as_str());
        } else if str_starts_with(line.as_str(), "+++ ") {
            crate::text::push_char(&mut file_header, '\n');
            file_header.append(line.as_str());
            new_file = strip_diff_prefix(line.as_str());
        } else if str_starts_with(line.as_str(), "@@ ") {
            flush_open(
                &mut out,
                &mut header,
                &mut cur_lines,
                &old_file,
                &new_file,
                &file_header,
                unsupported,
            );
            header = Some(line.clone());
        } else if header.is_some() {
            let ghost old_dv = cur_lines.deep_view();
            cur_lines.push(line.clone());
            proof {
                assert(cur_lines.deep_view() =~= old_dv.push(line_v));
            }
        } else if is_unsupported_meta(line.as_str()) {
            unsupported = true;
        }
        proof {
            let st2 = parse_lines(init_parse_state(), ls.take(i + 1));
            assert(st2 == parse_step(st, line_v));
            assert(st2.lines =~= cur_lines.deep_view());
            assert(st2.out =~= out.deep_view());
        }
        i += 1;
    }
    proof {
        assert(ls.take(n as int) =~= ls);
    }
    flush_open(
        &mut out,
        &mut header,
        &mut cur_lines,
        &old_file,
        &new_file,
        &file_header,
        unsupported,
    );
    out
}

/// A piece of text with no inner newline.
pub open spec fn no_nl(p: Seq<char>) -> bool {
    forall|m: int| 0 <= m < p.len() ==> (#[trigger] p[m]) != '\n'
}

/// A piece that does not end in a carriage return.
pub open spec fn no_cr(p: Seq<char>) -> bool {
    p.len() == 0 || p.last() != '\r'
}

/// The pieces, one per line, joined by a newline after each.
pub open spec fn joined_front(ps: Seq<Seq<char>>) -> Seq<char>
    decreases ps.len(),
{
    if ps.len() == 0 {
        Seq::empty()
    } else {
        ps.first() + seq!['\n'] + joined_front(ps.drop_first())
    }
}

/// Front and back recursion build the same joined text.
pub proof fn lemma_joined_front_snoc(ps: Seq<Seq<char>>)
    requires
        ps.len() > 0,
    ensures
        joined_front(ps) == joined_front(ps.drop_last()) + ps.last() + seq!['\n'],
    decreases ps.len(),
{
    if ps.len() == 1 {
        assert(ps.drop_first().len() == 0);
        assert(ps.drop_last().len() == 0);
        assert(joined_front(ps.drop_first()) == Seq::<char>::empty());
        assert(joined_front(ps.drop_last()) == Seq::<char>::empty());
        assert(ps.first() == ps.last());
        assert(joined_front(ps) =~= joined_front(ps.drop_last()) + ps.last() + seq!['\n']);
    } else {
        lemma_joined_front_snoc(ps.drop_first());
        assert(ps.drop_first().drop_last() =~= ps.drop_last().drop_first());
        assert(ps.drop_first().last() == ps.last());
        assert(ps.drop_last().first() == ps.first());
        assert(joined_front(ps.drop_last()) == ps.first() + seq!['\n'] + joined_front(
            ps.drop_last().drop_first(),
        ));
        assert(joined_front(ps) =~= joined_front(ps.drop_last()) + ps.last() + seq!['\n']);
    }
}

/// The joined pieces equal the line-by-line patch text.
pub proof fn lemma_joined_front_is_joined_lines(ps: Seq<Seq<char>>)
    ensures
        joined_front(ps) == crate::patch::joined_lines(ps),
    decreases ps.len(),
{
    if ps.len() > 0 {
        lemma_joined_front_snoc(ps);
        lemma_joined_front_is_joined_lines(ps.drop_last());
    }
}

/// Joining distributes over concatenation of piece lists.
pub proof fn lemma_joined_front_app(a: Seq<Seq<char>>, b: Seq<Seq<char>>)
    ensures
        joined_front(a + b) == joined_front(a) + joined_front(b),
    decreases a.len(),
{
    if a.len() == 0 {
        assert(a + b =~= b);
        assert(joined_front(a) + joined_front(b) =~= joined_front(b));
    } else {
        assert((a + b).first() == a.first());
        assert((a + b).drop_first() =~= a.drop_first() + b);
        lemma_joined_front_app(a.drop_first(), b);
        assert(joined_front(a + b) =~= joined_front(a) + joined_front(b));
    }
}

/// Splitting joined newline-free pieces at newlines gives the pieces
/// back, with one empty piece after the final newline.
pub proof fn lemma_split_joined(ps: Seq<Seq<char>>)
    requires
        forall|i: int| 0 <= i < ps.len() ==> no_nl(#[trigger] ps[i]),
    ensures
        crate::text::split_from(joined_front(ps), '\n', 0) == ps.push(Seq::<char>::empty()),
    decreases ps.len(),
{
    let u = joined_front(ps);
    if ps.len() == 0 {
        assert(u.len() == 0);
        crate::text::lemma_char_index_bounds(u, '\n', 0);
        assert(crate::text::split_from(u, '\n', 0) == seq![u.subrange(0, u.len() as int)]);
        assert(seq![u.subrange(0, u.len() as int)] =~~= ps.push(Seq::<char>::empty()));
    } else {
        let p0 = ps.first();
        let rest = joined_front(ps.drop_first());
        assert(u == p0 + seq!['\n'] + rest);
        let j = p0.len() as int;
        assert(u[j] == '\n');
        assert(no_nl(ps[0]));
        assert forall|q: int| 0 <= q < j implies u[q] != '\n' by {
            assert(u[q] == p0[q]);
        }
        crate::text::lemma_char_index_first(u, '\n', 0, j);
        assert(0 <= j < u.len());
        assert(crate::text::split_from(u, '\n', 0) == seq![u.subrange(0, j)]
            + crate::text::split_from(u, '\n', j + 1));
        assert(u.subrange(0, j) =~= p0);
        crate::text::lemma_split_from_skip(u, '\n', j + 1);
        assert(u.skip(j + 1) =~= rest);
        lemma_split_joined(ps.drop_first());
        assert(crate::text::split_from(u, '\n', 0) =~~= ps.push(Seq::<char>::empty()));
    }
}

/// The lines of joined clean pieces are exactly the pieces.
pub proof fn lemma_lines_of_joined(ps: Seq<Seq<char>>)
    requires
        forall|i: int| 0 <= i < ps.len() ==> no_nl(#[trigger] ps[i]) && no_cr(ps[i]),
    ensures
        crate::text::spec_lines(joined_front(ps)) == ps,
{
    lemma_split_joined(ps);
    let sp = crate::text::split_from(joined_front(ps), '\n', 0);
    assert(sp.last().len() == 0);
    assert(sp.drop_last() =~= ps);
    assert(crate::text::spec_lines(joined_front(ps)) == ps.map_values(
        |p: Seq<char>| crate::text::strip_cr(p),
    ));
    assert(ps.map_values(|p: Seq<char>| crate::text::strip_cr(p)) =~= ps);
}

/// A hunk line fit for rebuilding: free of newlines and a trailing
/// carriage return, and of every prefix the parser treats as a marker.
pub open spec fn wf_patch_line(l: Seq<char>) -> bool {
    &&& no_nl(l)
    &&& no_cr(l)
    &&& !starts_with(l, "diff --git"@)
    &&& !starts_with(l, "--- "@)
    &&& !starts_with(l, "+++ "@)
    &&& !starts_with(l, "@@ "@)
}

/// The position of the newline between the two file-header lines.
pub open spec fn fh_split(h: HunkView) -> int {
    crate::text::char_index(h.file_header, '\n', 0)
}

/// The `---` line of a hunk's file header.
pub open spec fn fh_old_line(h: HunkView) -> Seq<char> {
    h.file_header.take(fh_split(h))
}

/// The `+++` line of a hunk's file header.
pub open spec fn fh_new_line(h: HunkView) -> Seq<char> {
    h.file_header.skip(fh_split(h) + 1)
}

/// A hunk whose rebuilt patch parses back to itself: a two-line file
/// header whose paths the hunk's own path fields repeat, a marker-free
/// body, a header line of the right shape, and no unsupported metadata.
pub open spec fn wf_roundtrip_hunk(h: HunkView) -> bool {
    &&& 0 <= fh_split(h) < h.file_header.len()
    &&& starts_with(fh_old_line(h), "--- "@)
    &&& starts_with(fh_new_line(h), "+++ "@)
    &&& no_nl(fh_new_line(h))
    &&& no_cr(fh_old_line(h))
    &&& no_cr(fh_new_line(h))
    &&& h.old_file == spec_strip_diff_prefix(fh_old_line(h))
    &&& h.new_file == spec_strip_diff_prefix(fh_new_line(h))
    &&& h.file == spec_display_file(h.old_file, h.new_file)
    &&& starts_with(h.header, "@@ "@)
    &&& no_nl(h.header)
    &&& no_cr(h.header)
    &&& !h.unsupported_metadata
    &&& forall|i: int| 0 <= i < h.lines.len() ==> wf_patch_line(#[trigger] h.lines[i])
}

/// The text pieces one hunk's rebuilt patch contributes, one per line.
pub open spec fn patch_pieces(h: HunkView) -> Seq<Seq<char>> {
    seq![fh_old_line(h), fh_new_line(h), h.header] + h.lines
}

/// The pieces of a whole listing's rebuilt patches.
pub open spec fn pieces_of(hunks: Seq<HunkView>) -> Seq<Seq<char>>
    decreases hunks.len(),
{
    if hunks.len() == 0 {
        Seq::empty()
    } else {
        pieces_of(hunks.drop_last()) + patch_pieces(hunks.last())
    }
}

/// The concatenation of every hunk's rebuilt standalone patch.
pub open spec fn concat_patches(hunks: Seq<HunkView>) -> Seq<char>
    decreases hunks.len(),
{
    if hunks.len() == 0 {
        Seq::empty()
    } else {
        concat_patches(hunks.drop_last()) + crate::patch::spec_build_patch(hunks.last())
    }
}

/// One rebuilt patch joins its own pieces.
pub proof fn lemma_patch_pieces_join(h: HunkView)
    requires
        wf_roundtrip_hunk(h),
    ensures
        joined_front(patch_pieces(h)) == crate::patch::spec_build_patch(h),
{
    let ps = patch_pieces(h);
    let hdr3 = seq![fh_old_line(h), fh_new_line(h), h.header];
    lemma_joined_front_app(hdr3, h.lines);
    lemma_joined_front_is_joined_lines(h.lines);
    assert(joined_front(hdr3) =~= fh_old_line(h) + seq!['\n'] + fh_new_line(h) + seq!['\n']
        + h.header + seq!['\n']) by {
        assert(hdr3.drop_first() =~= seq![fh_new_line(h), h.header]);
        assert(seq![fh_new_line(h), h.header].drop_first() =~= seq![h.header]);
        assert(seq![h.header].drop_first() =~= Seq::<Seq<char>>::empty());
        assert(joined_front(Seq::<Seq<char>>::empty()) == Seq::<char>::empty());
        assert(joined_front(seq![h.header]) == seq![h.header].first() + seq!['\n'] + joined_front(
            seq![h.header].drop_first(),
        ));
        assert(joined_front(seq![fh_new_line(h), h.header]) == fh_new_line(h) + seq!['\n']
            + joined_front(seq![h.header]));
        assert(joined_front(hdr3) == fh_old_line(h) + seq!['\n'] + joined_front(
            seq![fh_new_line(h), h.header],
        ));
    }
    crate::text::lemma_char_index_bounds(h.file_header, '\n', 0);
    assert(h.file_header[fh_split(h)] == '\n');
    assert(h.file_header =~= fh_old_line(h) + seq!['\n'] + fh_new_line(h));
    assert(joined_front(ps) =~= crate::patch::spec_build_patch(h));
}

/// A listing's rebuilt text joins all its pieces.
pub proof fn lemma_pieces_join(hunks: Seq<HunkView>)
    requires
        forall|i: int| 0 <= i < hunks.len() ==> wf_roundtrip_hunk(#[trigger] hunks[i]),
    ensures
        joined_front(pieces_of(hunks)) == concat_patches(hunks),
    decreases hunks.len(),
{
    if hunks.len() > 0 {
        lemma_pieces_join(hunks.drop_last());
        lemma_joined_front_app(pieces_of(hunks.drop_last()), patch_pieces(hunks.last()));
        lemma_patch_pieces_join(hunks.last());
    }
}

/// Every rebuilt piece is clean of newlines and carriage returns.
pub proof fn lemma_pieces_clean(hunks: Seq<HunkView>)
    requires
        forall|i: int| 0 <= i < hunks.len() ==> wf_roundtrip_hunk(#[trigger] hunks[i]),
    ensures
        forall|i: int| 0 <= i < pieces_of(hunks).len() ==> no_nl(#[trigger] pieces_of(hunks)[i])
            && no_cr(pieces_of(hunks)[i]),
    decreases hunks.len(),
{
    if hunks.len() > 0 {
        lemma_pieces_clean(hunks.drop_last());
        let h = hunks.last();
        assert(no_nl(fh_old_line(h))) by {
            assert forall|m: int| 0 <= m < fh_old_line(h).len() implies (#[trigger] fh_old_line(
                h,
            )[m]) != '\n' by {
                crate::text::lemma_char_index_before(h.file_header, '\n', 0, m);
            }
        }
        assert forall|i: int|
            0 <= i < pieces_of(hunks).len() implies no_nl(#[trigger] pieces_of(hunks)[i]) && no_cr(
            pieces_of(hunks)[i],
        ) by {
            let pre = pieces_of(hunks.drop_last());
            if i < pre.len() {
                assert(pieces_of(hunks)[i] == pre[i]);
            } else {
                assert(pieces_of(hunks)[i] == patch_pieces(h)[i - pre.len()]);
                if i - pre.len() >= 3 {
                    assert(wf_patch_line(h.lines[i - pre.len() - 3]));
                }
            }
        }
    }
}

/// Appending marker-free lines while a hunk is open only extends it.
pub proof fn lemma_parse_append_lines(st: ParseState, ls: Seq<Seq<char>>)
    requires
        st.header is Some,
        forall|i: int| 0 <= i < ls.len() ==> wf_patch_line(#[trigger] ls[i]),
    ensures
        parse_lines(st, ls) == (ParseState { lines: st.lines + ls, ..st }),
    decreases ls.len(),
{
    if ls.len() == 0 {
        assert(st.lines + ls =~= st.lines);
        assert(parse_lines(st, ls) =~= ParseState { lines: st.lines + ls, ..st });
    } else {
        let l = ls.first();
        assert(wf_patch_line(ls[0]));
        let st1 = parse_step(st, l);
        assert(st1 == ParseState { lines: st.lines.push(l), ..st });
        lemma_parse_append_lines(st1, ls.drop_first());
        assert(st.lines.push(l) + ls.drop_first() =~= st.lines + ls);
        assert(parse_lines(st, ls) =~= ParseState { lines: st.lines + ls, ..st });
    }
}

/// The state one rebuilt patch's lines leave behind: any open hunk
/// flushed under the patch's file fields, the patch's own hunk open.
pub open spec fn after_patch_state(st: ParseState, h: HunkView) -> ParseState {
    ParseState {
        old_file: h.old_file,
        new_file: h.new_file,
        file_header: h.file_header,
        header: Some(h.header),
        lines: h.lines,
        unsupported: st.unsupported,
        out: flush_state(
            ParseState {
                old_file: h.old_file,
                new_file: h.new_file,
                file_header: h.file_header,
                ..st
            },
        ),
    }
}

/// Parsing one rebuilt patch's lines closes any open hunk with the
/// patch's file fields and leaves the patch's own hunk open.
pub proof fn lemma_parse_patch_lines(st: ParseState, h: HunkView)
    requires
        wf_roundtrip_hunk(h),
    ensures
        parse_lines(st, patch_pieces(h)) == after_patch_state(st, h),
{
    reveal_strlit("diff --git");
    reveal_strlit("--- ");
    reveal_strlit("+++ ");
    reveal_strlit("@@ ");
    let l1 = fh_old_line(h);
    let l2 = fh_new_line(h);
    assert(l1.subrange(0, 4)[0] == "--- "@[0]);
    assert(l1[0] == '-');
    assert(l2.subrange(0, 4)[0] == "+++ "@[0]);
    assert(l2[0] == '+');
    assert(h.header.subrange(0, 3)[0] == "@@ "@[0]);
    assert(h.header[0] == '@');
    assert(!starts_with(l1, "diff --git"@)) by {
        if starts_with(l1, "diff --git"@) {
            assert(l1.subrange(0, 10)[0] == "diff --git"@[0]);
        }
    }
    assert(!starts_with(l2, "diff --git"@)) by {
        if starts_with(l2, "diff --git"@) {
            assert(l2.subrange(0, 10)[0] == "diff --git"@[0]);
        }
    }
    assert(!starts_with(l2, "--- "@)) by {
        if starts_with(l2, "--- "@) {
            assert(l2.subrange(0, 4)[0] == "--- "@[0]);
        }
    }
    assert(!starts_with(h.header, "diff --git"@)) by {
        if starts_with(h.header, "diff --git"@) {
            assert(h.header.subrange(0, 10)[0] == "diff --git"@[0]);
        }
    }
    assert(!starts_with(h.header, "--- "@)) by {
        if starts_with(h.header, "--- "@) {
            assert(h.header.subrange(0, 4)[0] == "--- "@[0]);
        }
    }
    assert(!starts_with(h.header, "+++ "@)) by {
        if starts_with(h.header, "+++ "@) {
            assert(h.header.subrange(0, 4)[0] == "+++ "@[0]);
        }
    }
    let st1 = parse_step(st, l1);
    assert(st1 == ParseState { file_header: l1, old_file: spec_strip_diff_prefix(l1), ..st });
    let st2 = parse_step(st1, l2);
    assert(st2 == ParseState {
        file_header: st1.file_header.push('\n') + l2,
        new_file: spec_strip_diff_prefix(l2),
        ..st1
    });
    assert(st2.file_header =~= h.file_header) by {
        crate::text::lemma_char_index_bounds(h.file_header, '\n', 0);
        assert(h.file_header[fh_split(h)] == '\n');
    }
    let st3 = parse_step(st2, h.header);
    assert(st3 == ParseState {
        header: Some(h.header),
        lines: Seq::empty(),
        out: flush_state(st2),
        ..st2
    });
    lemma_parse_append_lines(st3, h.lines);
    let pieces = patch_pieces(h);
    assert(pieces.first() == l1);
    assert(pieces.drop_first() =~= seq![l2, h.header] + h.lines);
    assert(seq![l2, h.header] + h.lines =~= seq![l2] + (seq![h.header] + h.lines));
    assert((seq![l2, h.header] + h.lines).first() == l2);
    assert((seq![l2, h.header] + h.lines).drop_first() =~= seq![h.header] + h.lines);
    assert((seq![h.header] + h.lines).first() == h.header);
    assert((seq![h.header] + h.lines).drop_first() =~= h.lines);
    assert(parse_lines(st, pieces) == parse_lines(st1, pieces.drop_first()));
    assert(parse_lines(st1, seq![l2, h.header] + h.lines) == parse_lines(
        st2,
        seq![h.header] + h.lines,
    ));
    assert(parse_lines(st2, seq![h.header] + h.lines) == parse_lines(st3, h.lines));
    assert(Seq::<Seq<char>>::empty() + h.lines =~= h.lines);
    assert(flush_state(st2) == flush_state(
        ParseState {
            old_file: h.old_file,
            new_file: h.new_file,
            file_header: h.file_header,
            ..st
        },
    ));
    assert(parse_lines(st, pieces) =~= after_patch_state(st, h));
}

/// The parser state after the first `k` rebuilt patches.
pub open spec fn roundtrip_state(hunks: Seq<HunkView>, k: int) -> ParseState {
    if k == 0 {
        init_parse_state()
    } else {
        ParseState {
            old_file: hunks[0].old_file,
            new_file: hunks[0].new_file,
            file_header: hunks[0].file_header,
            header: Some(hunks[k - 1].header),
            lines: hunks[k - 1].lines,
            unsupported: false,
            out: hunks.take(k - 1),
        }
    }
}

/// Parsing the first `k` rebuilt patches leaves the `k`th hunk open and
/// the earlier ones emitted.
pub proof fn lemma_parse_patches_fold(hunks: Seq<HunkView>, k: int)
    requires
        forall|i: int| 0 <= i < hunks.len() ==> wf_roundtrip_hunk(#[trigger] hunks[i]),
        forall|i: int| 0 <= i < hunks.len() ==> (#[trigger] hunks[i]).file_header
            == hunks[0].file_header,
        0 <= k <= hunks.len(),
    ensures
        parse_lines(init_parse_state(), pieces_of(hunks.take(k))) == roundtrip_state(hunks, k),
    decreases k,
{
    if k == 0 {
        assert(hunks.take(0).len() == 0);
        assert(pieces_of(hunks.take(0)).len() == 0);
    } else {
        lemma_parse_patches_fold(hunks, k - 1);
        let h = hunks[k - 1];
        assert(hunks.take(k).drop_last() =~= hunks.take(k - 1));
        assert(hunks.take(k).last() == h);
        assert(pieces_of(hunks.take(k)) == pieces_of(hunks.take(k - 1)) + patch_pieces(h));
        lemma_parse_lines_app(init_parse_state(), pieces_of(hunks.take(k - 1)), patch_pieces(h));
        let st = roundtrip_state(hunks, k - 1);
        lemma_parse_patch_lines(st, h);
        assert(wf_roundtrip_hunk(h));
        assert(h.file_header == hunks[0].file_header);
        if k == 1 {
            assert(st.header is None);
            assert(flush_state(
                ParseState {
                    old_file: h.old_file,
                    new_file: h.new_file,
                    file_header: h.file_header,
                    ..st
                },
            ) =~= hunks.take(0));
        } else {
            let prev = hunks[k - 2];
            assert(wf_roundtrip_hunk(prev));
            assert(prev.file_header == h.file_header);
            assert(fh_old_line(prev) == fh_old_line(h));
            assert(fh_new_line(prev) == fh_new_line(h));
            assert(prev.old_file == h.old_file);
            assert(prev.new_file == h.new_file);
            assert(prev.file == spec_display_file(h.old_file, h.new_file));
            let flushed = flush_state(
                ParseState {
                    old_file: h.old_file,
                    new_file: h.new_file,
                    file_header: h.file_header,
                    ..st
                },
            );
            assert(flushed == st.out.push(
                HunkView {
                    file: spec_display_file(h.old_file, h.new_file),
                    old_file: h.old_file,
                    new_file: h.new_file,
                    file_header: h.file_header,
                    header: prev.header,
                    lines: prev.lines,
                    unsupported_metadata: false,
                },
            ));
            assert(flushed.last() =~= prev);
            assert(flushed =~= hunks.take(k - 1));
        }
        assert(parse_lines(init_parse_state(), pieces_of(hunks.take(k))) =~= roundtrip_state(
            hunks,
            k,
        ));
    }
}

/// Law: rebuilding every hunk of one file section with `build_patch`
/// and concatenating reproduces text that parses back to exactly the
/// same hunk sequence. It holds for hunks whose lines carry none of the
/// parser's marker prefixes, whose file header is the two-line form the
/// parser produced them with, and whose metadata permits slicing; a
/// hunk with unsupported metadata cannot round-trip, since rebuilding
/// drops the metadata lines that marked it.
pub proof fn lemma_parse_build_roundtrip(hunks: Seq<HunkView>)
    requires
        forall|i: int| 0 <= i < hunks.len() ==> wf_roundtrip_hunk(#[trigger] hunks[i]),
        forall|i: int| 0 <= i < hunks.len() ==> (#[trigger] hunks[i]).file_header
            == hunks[0].file_header,
    ensures
        spec_parse_diff(concat_patches(hunks)) == hunks,
{
    lemma_pieces_clean(hunks);
    lemma_pieces_join(hunks);
    lemma_lines_of_joined(pieces_of(hunks));
    let n = hunks.len() as int;
    assert(hunks.take(n) =~= hunks);
    lemma_parse_patches_fold(hunks, n);
    if n == 0 {
        assert(spec_parse_diff(concat_patches(hunks)) =~= hunks);
    } else {
        let st = roundtrip_state(hunks, n);
        let h = hunks[n - 1];
        assert(flush_state(st) == st.out.push(
            HunkView {
                file: spec_display_file(hunks[0].old_file, hunks[0].new_file),
                old_file: hunks[0].old_file,
                new_file: hunks[0].new_file,
                file_header: hunks[0].file_header,
                header: h.header,
                lines: h.lines,
                unsupported_metadata: false,
            },
        ));
        assert(h.file_header == hunks[0].file_header);
        assert(fh_old_line(h) == fh_old_line(hunks[0]));
        assert(fh_new_line(h) == fh_new_line(hunks[0]));
        assert(h.old_file == hunks[0].old_file);
        assert(h.new_file == hunks[0].new_file);
        assert(flush_state(st).last() =~= h);
        assert(flush_state(st) =~= hunks);
    }
}

/// Succeeds only on hunks the slicer may fragment: those whose file
/// section carried no rename, mode or binary metadata.
pub fn check_supported(hunk: &DiffHunk, id: &str) -> (r: Result<(), crate::error::Error>)
    ensures
        r is Ok <==> !hunk@.unsupported_metadata,
        hunk@.unsupported_metadata ==> (r matches Err(
            crate::error::Error::UnsupportedHunk { id: eid },
        ) && eid@ == id@),
{
    if hunk.unsupported_metadata {
        Err(crate::error::Error::UnsupportedHunk { id: String::from_str(id) })
    } else {
        Ok(())
    }
}

} // verus!
