//! The patch slicer: cutting a hunk down to a selection of its changed
//! lines while keeping the result a valid patch, in both directions, and
//! rebuilding standalone patch text from a hunk.

use vstd::prelude::*;
use vstd::string::*;
use crate::diff::{DiffHunk, HunkView};
use crate::error::Error;
use crate::text::{
    starts_with, find_from, dec_digits, spec_parse_usize, char_index,
    str_starts_with, str_drop, str_char_len, find_str, parse_usize, push_decimal,
    push_char, scan_spaces, scan_token, skip_spaces, token_end,
};

verus! {

/// How a combined patch is to be applied by the engine.
#[derive(Debug, Clone, Copy)]
pub enum ApplyMode {
    /// Apply forward against the index.
    Stage,
    /// Apply in reverse against the index.
    Unstage,
    /// Apply in reverse against the working tree.
    Discard,
}

/// The role of one raw diff line, read off its first character.
pub enum LineKind {
    Context,
    Addition,
    Deletion,
    Other,
}

/// Classifies a raw line by its prefix character.
pub open spec fn line_kind(l: Seq<char>) -> LineKind {
    if l.len() > 0 && l[0] == '+' {
        LineKind::Addition
    } else if l.len() > 0 && l[0] == '-' {
        LineKind::Deletion
    } else if l.len() > 0 && l[0] == ' ' {
        LineKind::Context
    } else {
        LineKind::Other
    }
}

/// The line turned into context: its content behind a space prefix.
pub open spec fn as_context(l: Seq<char>) -> Seq<char> {
    seq![' '] + l.skip(1)
}

/// `idx` (1-based) falls in one of the inclusive ranges.
pub open spec fn in_any_range(ranges: Seq<(usize, usize)>, idx: int) -> bool {
    exists|k: int| 0 <= k < ranges.len() && (#[trigger] ranges[k]).0 <= idx <= ranges[k].1
}

/// What becomes of one line under range slicing: selected changes stay,
/// an excluded addition is dropped forward and kept as context in
/// reverse, an excluded deletion the mirror image, context always stays.
pub open spec fn slice_line(l: Seq<char>, selected: bool, reverse: bool) -> Seq<Seq<char>> {
    match line_kind(l) {
        LineKind::Addition => if selected {
            seq![l]
        } else if reverse {
            seq![as_context(l)]
        } else {
            Seq::empty()
        },
        LineKind::Deletion => if selected {
            seq![l]
        } else if !reverse {
            seq![as_context(l)]
        } else {
            Seq::empty()
        },
        _ => seq![l],
    }
}

/// All lines of a hunk under range slicing, in order.
pub open spec fn sliced_lines(
    lines: Seq<Seq<char>>,
    ranges: Seq<(usize, usize)>,
    reverse: bool,
) -> Seq<Seq<char>>
    decreases lines.len(),
{
    if lines.len() == 0 {
        Seq::empty()
    } else {
        sliced_lines(lines.drop_last(), ranges, reverse) + slice_line(
            lines.last(),
            in_any_range(ranges, lines.len() as int),
            reverse,
        )
    }
}

/// What becomes of one line under mask slicing: a wanted change stays; an
/// addition already committed earlier is now context, one not yet wanted
/// is dropped; a deletion not yet applied is still context, one already
/// applied is gone; context always stays.
pub open spec fn mask_line(l: Seq<char>, picked: bool, wanted: bool) -> Seq<Seq<char>> {
    match line_kind(l) {
        LineKind::Addition => if wanted {
            seq![l]
        } else if picked {
            seq![as_context(l)]
        } else {
            Seq::empty()
        },
        LineKind::Deletion => if wanted {
            seq![l]
        } else if !picked {
            seq![as_context(l)]
        } else {
            Seq::empty()
        },
        _ => seq![l],
    }
}

/// All lines of a hunk under mask slicing, in order.
pub open spec fn mask_lines(
    lines: Seq<Seq<char>>,
    picked: Seq<bool>,
    wanted: Seq<bool>,
) -> Seq<Seq<char>>
    decreases lines.len(),
{
    if lines.len() == 0 {
        Seq::empty()
    } else {
        mask_lines(lines.drop_last(), picked.take(lines.len() - 1), wanted.take(lines.len() - 1))
            + mask_line(lines.last(), picked[lines.len() - 1], wanted[lines.len() - 1])
    }
}

/// Whether a line counts toward the old side of a hunk.
pub open spec fn counts_old(l: Seq<char>) -> bool {
    line_kind(l) is Deletion || line_kind(l) is Context
}

/// Whether a line counts toward the new side of a hunk.
pub open spec fn counts_new(l: Seq<char>) -> bool {
    line_kind(l) is Addition || line_kind(l) is Context
}

/// Number of context and deletion lines: what the old side spans.
pub open spec fn old_count(lines: Seq<Seq<char>>) -> nat
    decreases lines.len(),
{
    if lines.len() == 0 {
        0
    } else {
        old_count(lines.drop_last()) + if counts_old(lines.last()) {
            1nat
        } else {
            0nat
        }
    }
}

/// Number of context and addition lines: what the new side spans.
pub open spec fn new_count(lines: Seq<Seq<char>>) -> nat
    decreases lines.len(),
{
    if lines.len() == 0 {
        0
    } else {
        new_count(lines.drop_last()) + if counts_new(lines.last()) {
            1nat
        } else {
            0nat
        }
    }
}

/// The old-side content of a hunk's lines: the text of every context
/// and deletion line, prefix characters stripped, in order.
pub open spec fn old_side(lines: Seq<Seq<char>>) -> Seq<Seq<char>>
    decreases lines.len(),
{
    if lines.len() == 0 {
        Seq::empty()
    } else {
        old_side(lines.drop_last()) + if counts_old(lines.last()) {
            seq![lines.last().skip(1)]
        } else {
            Seq::empty()
        }
    }
}

/// The new-side content of a hunk's lines: the text of every context
/// and addition line, prefix characters stripped, in order.
pub open spec fn new_side(lines: Seq<Seq<char>>) -> Seq<Seq<char>>
    decreases lines.len(),
{
    if lines.len() == 0 {
        Seq::empty()
    } else {
        new_side(lines.drop_last()) + if counts_new(lines.last()) {
            seq![lines.last().skip(1)]
        } else {
            Seq::empty()
        }
    }
}

/// Both side projections distribute over concatenation.
pub proof fn lemma_side_app(a: Seq<Seq<char>>, b: Seq<Seq<char>>)
    ensures
        old_side(a + b) == old_side(a) + old_side(b),
        new_side(a + b) == new_side(a) + new_side(b),
    decreases b.len(),
{
    if b.len() == 0 {
        assert(a + b =~= a);
        assert(old_side(a) + old_side(b) =~= old_side(a));
        assert(new_side(a) + new_side(b) =~= new_side(a));
    } else {
        lemma_side_app(a, b.drop_last());
        assert((a + b).drop_last() =~= a + b.drop_last());
        assert((a + b).last() == b.last());
        assert(old_side(a + b) =~= old_side(a) + old_side(b));
        assert(new_side(a + b) =~= new_side(a) + new_side(b));
    }
}

/// The side projections of a single line.
proof fn lemma_side_single(x: Seq<char>)
    ensures
        old_side(seq![x]) == if counts_old(x) {
            seq![x.skip(1)]
        } else {
            Seq::<Seq<char>>::empty()
        },
        new_side(seq![x]) == if counts_new(x) {
            seq![x.skip(1)]
        } else {
            Seq::<Seq<char>>::empty()
        },
{
    let s0 = seq![x].drop_last();
    assert(s0.len() == 0);
    assert(old_side(s0) == Seq::<Seq<char>>::empty());
    assert(new_side(s0) == Seq::<Seq<char>>::empty());
    assert(seq![x].last() == x);
    assert(old_side(seq![x]) == old_side(s0) + if counts_old(x) {
        seq![x.skip(1)]
    } else {
        Seq::<Seq<char>>::empty()
    });
    assert(old_side(seq![x]) =~= if counts_old(x) {
        seq![x.skip(1)]
    } else {
        Seq::<Seq<char>>::empty()
    });
    assert(new_side(seq![x]) == new_side(s0) + if counts_new(x) {
        seq![x.skip(1)]
    } else {
        Seq::<Seq<char>>::empty()
    });
    assert(new_side(seq![x]) =~= if counts_new(x) {
        seq![x.skip(1)]
    } else {
        Seq::<Seq<char>>::empty()
    });
}

/// A line rewritten as context is a context line with the same content.
proof fn lemma_as_context_facts(l: Seq<char>)
    ensures
        line_kind(as_context(l)) is Context,
        as_context(l).skip(1) == l.skip(1),
{
    assert(as_context(l)[0] == ' ');
    assert(as_context(l).skip(1) =~= l.skip(1));
}

/// What each slicing direction leaves of one line, on both sides.
proof fn lemma_slice_line_sides(l: Seq<char>, s: bool)
    ensures
        old_side(slice_line(l, s, false)) == if counts_old(l) {
            seq![l.skip(1)]
        } else {
            Seq::<Seq<char>>::empty()
        },
        new_side(slice_line(l, s, false)) == old_side(slice_line(l, !s, true)),
        new_side(slice_line(l, !s, true)) == if counts_new(l) {
            seq![l.skip(1)]
        } else {
            Seq::<Seq<char>>::empty()
        },
{
    lemma_as_context_facts(l);
    lemma_side_single(l);
    lemma_side_single(as_context(l));
}

/// What mask slicing leaves of one line, on both sides, across the two
/// stagings and the one-shot union.
proof fn lemma_mask_line_sides(l: Seq<char>, w1: bool, w2: bool)
    requires
        !(w1 && w2),
    ensures
        old_side(mask_line(l, false, w1)) == if counts_old(l) {
            seq![l.skip(1)]
        } else {
            Seq::<Seq<char>>::empty()
        },
        old_side(mask_line(l, false, w1 || w2)) == if counts_old(l) {
            seq![l.skip(1)]
        } else {
            Seq::<Seq<char>>::empty()
        },
        new_side(mask_line(l, false, w1)) == old_side(mask_line(l, w1, w2)),
        new_side(mask_line(l, w1, w2)) == new_side(mask_line(l, false, w1 || w2)),
{
    lemma_as_context_facts(l);
    lemma_side_single(l);
    lemma_side_single(as_context(l));
}

/// Law: forward-slicing a selection and reverse-slicing its complement
/// compose to the unsliced hunk's net effect. The forward slice starts
/// from the original old side; its new side is exactly the old side the
/// reverse slice of the complement starts from; and that reverse slice
/// ends at the original new side.
pub proof fn lemma_slice_complement_compose(
    lines: Seq<Seq<char>>,
    sel: Seq<(usize, usize)>,
    comp: Seq<(usize, usize)>,
)
    requires
        forall|idx: int|
            1 <= idx <= lines.len() ==> ((#[trigger] in_any_range(comp, idx)) <==> !in_any_range(
                sel,
                idx,
            )),
    ensures
        old_side(sliced_lines(lines, sel, false)) == old_side(lines),
        new_side(sliced_lines(lines, sel, false)) == old_side(sliced_lines(lines, comp, true)),
        new_side(sliced_lines(lines, comp, true)) == new_side(lines),
    decreases lines.len(),
{
    if lines.len() > 0 {
        let pre = lines.drop_last();
        let l = lines.last();
        let idx = lines.len() as int;
        lemma_slice_complement_compose(pre, sel, comp);
        let s = in_any_range(sel, idx);
        assert(in_any_range(comp, idx) == !s);
        let fwd_last = slice_line(l, s, false);
        let rev_last = slice_line(l, !s, true);
        lemma_side_app(sliced_lines(pre, sel, false), fwd_last);
        lemma_side_app(sliced_lines(pre, comp, true), rev_last);
        lemma_slice_line_sides(l, s);
        lemma_side_single(l);
        assert(old_side(lines) =~= old_side(pre) + old_side(seq![l]));
        assert(new_side(lines) =~= new_side(pre) + new_side(seq![l]));
        assert(old_side(sliced_lines(lines, sel, false)) =~= old_side(lines));
        assert(new_side(sliced_lines(lines, sel, false)) =~= old_side(
            sliced_lines(lines, comp, true),
        ));
        assert(new_side(sliced_lines(lines, comp, true)) =~= new_side(lines));
    }
}

/// Law: mask slicing is associative across groups. Committing first the
/// lines of `s1` and then, with those marked picked, the lines of `s2`,
/// meets in the middle and ends at the same content as committing the
/// union in one group; and every stage starts from the original old
/// side.
pub proof fn lemma_mask_slice_groups(
    lines: Seq<Seq<char>>,
    p0: Seq<bool>,
    s1: Seq<bool>,
    s2: Seq<bool>,
    u: Seq<bool>,
)
    requires
        p0.len() == lines.len(),
        s1.len() == lines.len(),
        s2.len() == lines.len(),
        u.len() == lines.len(),
        forall|i: int| 0 <= i < lines.len() ==> !(#[trigger] p0[i]),
        forall|i: int| 0 <= i < lines.len() ==> !((#[trigger] s1[i]) && s2[i]),
        forall|i: int| 0 <= i < lines.len() ==> (#[trigger] u[i]) == (s1[i] || s2[i]),
    ensures
        old_side(mask_lines(lines, p0, s1)) == old_side(lines),
        old_side(mask_lines(lines, p0, u)) == old_side(lines),
        new_side(mask_lines(lines, p0, s1)) == old_side(mask_lines(lines, s1, s2)),
        new_side(mask_lines(lines, s1, s2)) == new_side(mask_lines(lines, p0, u)),
    decreases lines.len(),
{
    if lines.len() > 0 {
        let n = lines.len();
        let pre = lines.drop_last();
        let l = lines.last();
        lemma_mask_slice_groups(pre, p0.take(n - 1), s1.take(n - 1), s2.take(n - 1), u.take(n - 1));
        let a_last = mask_line(l, p0[n - 1], s1[n - 1]);
        let b_last = mask_line(l, s1[n - 1], s2[n - 1]);
        let c_last = mask_line(l, p0[n - 1], u[n - 1]);
        lemma_side_app(mask_lines(pre, p0.take(n - 1), s1.take(n - 1)), a_last);
        lemma_side_app(mask_lines(pre, s1.take(n - 1), s2.take(n - 1)), b_last);
        lemma_side_app(mask_lines(pre, p0.take(n - 1), u.take(n - 1)), c_last);
        lemma_mask_line_sides(l, s1[n - 1], s2[n - 1]);
        lemma_side_single(l);
        assert(old_side(lines) =~= old_side(pre) + old_side(seq![l]));
        assert(old_side(mask_lines(lines, p0, s1)) =~= old_side(lines));
        assert(old_side(mask_lines(lines, p0, u)) =~= old_side(lines));
        assert(new_side(mask_lines(lines, p0, s1)) =~= old_side(mask_lines(lines, s1, s2)));
        assert(new_side(mask_lines(lines, s1, s2)) =~= new_side(mask_lines(lines, p0, u)));
    }
}

/// The trailing function context of a header: everything after the
/// closing `@@`.
pub open spec fn spec_func_ctx(h: Seq<char>) -> Seq<char> {
    let s = find_from(h, "@@ "@, 0);
    if s < 0 {
        Seq::empty()
    } else {
        let rest = h.skip(s + "@@ "@.len() as int);
        let e = find_from(rest, "@@"@, 0);
        if e < 0 {
            Seq::empty()
        } else {
            rest.skip(e + "@@"@.len() as int)
        }
    }
}

/// `h` without every leading repetition of `@@ `.
pub open spec fn spec_trim_at(h: Seq<char>) -> Seq<char>
    decreases h.len(),
{
    if starts_with(h, "@@ "@) && "@@ "@.len() > 0 {
        spec_trim_at(h.skip("@@ "@.len() as int))
    } else {
        h
    }
}

/// The first token of `s`, stripped of `lead`, cut at the first comma,
/// read as a number.
pub open spec fn spec_start_of_token(tok: Seq<char>, lead: char) -> Option<usize> {
    if tok.len() > 0 && tok[0] == lead {
        let t = tok.drop_first();
        let ci = char_index(t, ',', 0);
        let num = if 0 <= ci { t.take(ci) } else { t };
        spec_parse_usize(num)
    } else {
        None
    }
}

/// What `parse_hunk_starts` reads off a header: the two start offsets.
pub open spec fn spec_parse_hunk_starts(h: Seq<char>) -> Option<(usize, usize)> {
    let c0 = spec_trim_at(h);
    let e = find_from(c0, " @@"@, 0);
    let content = if e >= 0 {
        c0.take(e)
    } else {
        c0
    };
    let t1s = skip_spaces(content, 0);
    let t1e = token_end(content, t1s);
    let old_tok = content.subrange(t1s, t1e);
    let t2s = skip_spaces(content, t1e);
    let t2e = token_end(content, t2s);
    let new_tok = content.subrange(t2s, t2e);
    match spec_start_of_token(old_tok, '-') {
        Some(old_start) => match spec_start_of_token(new_tok, '+') {
            Some(new_start) => Some((old_start, new_start)),
            None => None,
        },
        None => None,
    }
}

/// A freshly rendered header line.
pub open spec fn spec_format_header(
    old_start: usize,
    oc: nat,
    new_start: usize,
    nc: nat,
    ctx: Seq<char>,
) -> Seq<char> {
    "@@ -"@ + dec_digits(old_start as nat) + ","@ + dec_digits(oc) + " +"@ + dec_digits(
        new_start as nat,
    ) + ","@ + dec_digits(nc) + " @@"@ + ctx
}

/// The hunk that slicing produces, given the lines that survived.
pub open spec fn hunk_with_lines(h: HunkView, ls: Seq<Seq<char>>, starts: (usize, usize)) -> HunkView {
    HunkView {
        header: spec_format_header(starts.0, old_count(ls), starts.1, new_count(ls), spec_func_ctx(h.header)),
        lines: ls,
        ..h
    }
}

/// Law: a freshly rendered header always reads back as exactly the
/// numbers it was rendered from, whatever trailing context it carries.
pub proof fn lemma_format_header_parses(os: usize, oc: usize, ns: usize, nc: usize, ctx: Seq<char>)
    ensures
        crate::blame::spec_parse_hunk_header(spec_format_header(os, oc as nat, ns, nc as nat, ctx))
            == Some((os, oc, ns, nc)),
{
    reveal_strlit("@@ -");
    reveal_strlit("@@ ");
    reveal_strlit(",");
    reveal_strlit(" +");
    reveal_strlit(" @@");
    let a_s = dec_digits(os as nat);
    let b_s = dec_digits(oc as nat);
    let c_s = dec_digits(ns as nat);
    let d_s = dec_digits(nc as nat);
    crate::text::lemma_dec_digits_value(os as nat);
    crate::text::lemma_dec_digits_value(oc as nat);
    crate::text::lemma_dec_digits_value(ns as nat);
    crate::text::lemma_dec_digits_value(nc as nat);
    let a = a_s.len() as int;
    let b = b_s.len() as int;
    let c = c_s.len() as int;
    let d = d_s.len() as int;
    let h = spec_format_header(os, oc as nat, ns, nc as nat, ctx);
    let rest = seq!['-'] + a_s + seq![','] + b_s + seq![' ', '+'] + c_s + seq![','] + d_s + seq![
        ' ',
        '@',
        '@',
    ] + ctx;
    assert(h =~= "@@ "@ + rest);
    assert(crate::text::starts_with(h, "@@ "@)) by {
        assert(h.subrange(0, 3) =~= "@@ "@);
    }
    assert(h.subrange("@@ "@.len() as int, h.len() as int) =~= rest);
    let p = 5 + a + b + c + d;
    lemma_rendered_marker_position(rest, a_s, b_s, c_s, d_s, ctx);
    let rp = rest.subrange(0, p);
    assert(rp =~= seq!['-'] + a_s + seq![','] + b_s + seq![' ', '+'] + c_s + seq![','] + d_s);
    lemma_rendered_ranges_parse(rp, a_s, b_s, c_s, d_s, os, oc, ns, nc);
}

/// Law: the header of a sliced hunk always reads back as exactly the
/// literal counts of its surviving lines: the kept offsets, then the
/// counted context+deletion and context+addition lines.
pub proof fn lemma_sliced_header_counts(h: HunkView, ls: Seq<Seq<char>>, starts: (usize, usize))
    requires
        old_count(ls) <= usize::MAX,
        new_count(ls) <= usize::MAX,
    ensures
        crate::blame::spec_parse_hunk_header(hunk_with_lines(h, ls, starts).header) == Some(
            (starts.0, old_count(ls) as usize, starts.1, new_count(ls) as usize),
        ),
{
    lemma_format_header_parses(
        starts.0,
        old_count(ls) as usize,
        starts.1,
        new_count(ls) as usize,
        spec_func_ctx(h.header),
    );
}

/// In a rendered header's tail the first closing marker stands right
/// after the numbers.
proof fn lemma_rendered_marker_position(
    rest: Seq<char>,
    a_s: Seq<char>,
    b_s: Seq<char>,
    c_s: Seq<char>,
    d_s: Seq<char>,
    ctx: Seq<char>,
)
    requires
        crate::text::all_digits(a_s),
        crate::text::all_digits(b_s),
        crate::text::all_digits(c_s),
        crate::text::all_digits(d_s),
        rest == seq!['-'] + a_s + seq![','] + b_s + seq![' ', '+'] + c_s + seq![','] + d_s + seq![
            ' ',
            '@',
            '@',
        ] + ctx,
    ensures
        find_from(rest, " @@"@, 0) == 5 + a_s.len() + b_s.len() + c_s.len() + d_s.len(),
{
    reveal_strlit(" @@");
    let a = a_s.len() as int;
    let b = b_s.len() as int;
    let c = c_s.len() as int;
    let d = d_s.len() as int;
    let p = 5 + a + b + c + d;
    assert(rest.len() == p + 3 + ctx.len());
    assert forall|m: int| 0 <= m <= p implies rest[m] != '@' by {
        if m == 0 {
        } else if m < 1 + a {
            assert(rest[m] == a_s[m - 1]);
            assert(crate::text::is_digit(a_s[m - 1]));
        } else if m == 1 + a {
            assert(rest[m] == ',');
        } else if m < 2 + a + b {
            assert(rest[m] == b_s[m - 2 - a]);
            assert(crate::text::is_digit(b_s[m - 2 - a]));
        } else if m == 2 + a + b {
            assert(rest[m] == ' ');
        } else if m == 3 + a + b {
            assert(rest[m] == '+');
        } else if m < 4 + a + b + c {
            assert(rest[m] == c_s[m - 4 - a - b]);
            assert(crate::text::is_digit(c_s[m - 4 - a - b]));
        } else if m == 4 + a + b + c {
            assert(rest[m] == ',');
        } else if m < 5 + a + b + c + d {
            assert(rest[m] == d_s[m - 5 - a - b - c]);
            assert(crate::text::is_digit(d_s[m - 5 - a - b - c]));
        } else {
            assert(rest[m] == ' ');
        }
    }
    assert(crate::text::occurs_at(rest, " @@"@, p)) by {
        assert(rest.subrange(p, p + 3) =~= " @@"@);
    }
    assert forall|q: int| 0 <= q < p implies !crate::text::occurs_at(rest, " @@"@, q) by {
        if crate::text::occurs_at(rest, " @@"@, q) {
            assert(rest.subrange(q, q + 3)[1] == " @@"@[1]);
            assert(rest[q + 1] == '@');
        }
    }
    crate::text::lemma_find_from_first(rest, " @@"@, 0, p);
}

/// The range part of a rendered header parses to its four numbers.
#[verifier::rlimit(100)]
proof fn lemma_rendered_ranges_parse(
    rp: Seq<char>,
    a_s: Seq<char>,
    b_s: Seq<char>,
    c_s: Seq<char>,
    d_s: Seq<char>,
    os: usize,
    oc: usize,
    ns: usize,
    nc: usize,
)
    requires
        a_s == dec_digits(os as nat),
        b_s == dec_digits(oc as nat),
        c_s == dec_digits(ns as nat),
        d_s == dec_digits(nc as nat),
        rp == seq!['-'] + a_s + seq![','] + b_s + seq![' ', '+'] + c_s + seq![','] + d_s,
    ensures
        crate::blame::spec_parse_ranges(rp) == Some((os, oc, ns, nc)),
{
    crate::text::lemma_dec_digits_value(os as nat);
    crate::text::lemma_dec_digits_value(oc as nat);
    crate::text::lemma_dec_digits_value(ns as nat);
    crate::text::lemma_dec_digits_value(nc as nat);
    let a = a_s.len() as int;
    let b = b_s.len() as int;
    let c = c_s.len() as int;
    let d = d_s.len() as int;
    let p = 5 + a + b + c + d;
    assert(rp.len() == p);
    assert forall|m: int| 0 <= m < 2 + a + b implies !crate::text::is_space(#[trigger] rp[m]) by {
        if m == 0 {
            assert(rp[m] == '-');
        } else if m < 1 + a {
            assert(rp[m] == a_s[m - 1]);
            assert(crate::text::is_digit(a_s[m - 1]));
        } else if m == 1 + a {
            assert(rp[m] == ',');
        } else {
            assert(rp[m] == b_s[m - 2 - a]);
            assert(crate::text::is_digit(b_s[m - 2 - a]));
        }
    }
    assert forall|m: int| 3 + a + b <= m < p implies !crate::text::is_space(#[trigger] rp[m]) by {
        if m == 3 + a + b {
            assert(rp[m] == '+');
        } else if m < 4 + a + b + c {
            assert(rp[m] == c_s[m - 4 - a - b]);
            assert(crate::text::is_digit(c_s[m - 4 - a - b]));
        } else if m == 4 + a + b + c {
            assert(rp[m] == ',');
        } else {
            assert(rp[m] == d_s[m - 5 - a - b - c]);
            assert(crate::text::is_digit(d_s[m - 5 - a - b - c]));
        }
    }
    assert(rp[2 + a + b] == ' ');
    crate::text::lemma_skip_spaces_at(rp, 0, 0);
    crate::text::lemma_token_end_at(rp, 0, 2 + a + b);
    crate::text::lemma_skip_spaces_at(rp, 2 + a + b, 3 + a + b);
    crate::text::lemma_token_end_at(rp, 3 + a + b, p);
    let old_tok = rp.subrange(0, 2 + a + b);
    let new_tok = rp.subrange(3 + a + b, p);
    assert(old_tok =~= seq!['-'] + a_s + seq![','] + b_s);
    assert(new_tok =~= seq!['+'] + c_s + seq![','] + d_s);
    lemma_number_pair_parses(a_s, b_s, os, oc);
    lemma_number_pair_parses(c_s, d_s, ns, nc);
    assert(old_tok.drop_first() =~= a_s + seq![','] + b_s);
    assert(new_tok.drop_first() =~= c_s + seq![','] + d_s);
    assert(crate::blame::spec_parse_range(old_tok.drop_first()) == Some((os, oc)));
    assert(crate::blame::spec_parse_range(new_tok.drop_first()) == Some((ns, nc)));
}

/// A `from,count` pair rendered from two numbers reads back as them.
proof fn lemma_number_pair_parses(x_s: Seq<char>, y_s: Seq<char>, x: usize, y: usize)
    requires
        x_s == dec_digits(x as nat),
        y_s == dec_digits(y as nat),
    ensures
        crate::blame::spec_parse_range(x_s + seq![','] + y_s) == Some((x, y)),
{
    reveal_strlit(",");
    crate::text::lemma_dec_digits_value(x as nat);
    crate::text::lemma_dec_digits_value(y as nat);
    let t = x_s + seq![','] + y_s;
    let a = x_s.len() as int;
    assert(t[a] == ',');
    assert(crate::text::occurs_at(t, ","@, a)) by {
        assert(t.subrange(a, a + 1) =~= ","@);
    }
    assert forall|q: int| 0 <= q < a implies !crate::text::occurs_at(t, ","@, q) by {
        if crate::text::occurs_at(t, ","@, q) {
            assert(t.subrange(q, q + 1)[0] == ","@[0]);
            assert(t[q] == ',');
            assert(t[q] == x_s[q]);
            assert(crate::text::is_digit(x_s[q]));
        }
    }
    crate::text::lemma_find_from_first(t, ","@, 0, a);
    assert(t.subrange(0, a) =~= x_s);
    assert(t.subrange(a + 1, t.len() as int) =~= y_s);
    assert(x_s[0] != '+') by {
        assert(crate::text::is_digit(x_s[0]));
    }
    assert(y_s[0] != '+') by {
        assert(crate::text::is_digit(y_s[0]));
    }
    assert(crate::text::strip_plus(x_s) == x_s);
    assert(crate::text::strip_plus(y_s) == y_s);
    assert(crate::text::spec_parse_usize(x_s) == Some(x));
    assert(crate::text::spec_parse_usize(y_s) == Some(y));
}

/// Strips every leading `@@ ` from a header.
fn trim_at_prefixes(h: &str) -> (r: String)
    ensures
        r@ == spec_trim_at(h@),
    decreases h@.len(),
{
    proof {
        reveal_strlit("@@ ");
    }
    if str_starts_with(h, "@@ ") {
        let rest = str_drop(h, 3);
        trim_at_prefixes(rest.as_str())
    } else {
        String::from_str(h)
    }
}

/// Reads a number token such as `-12,4` or `+7`: the lead character, the
/// digits up to a comma or the end.
fn start_of_token(tok: &str, lead: char) -> (r: Option<usize>)
    ensures
        r == spec_start_of_token(tok@, lead),
{
    let n = str_char_len(tok);
    if n == 0 || tok.get_char(0) != lead {
        return None;
    }
    let t = str_drop(tok, 1);
    proof {
        assert(t@ =~= tok@.drop_first());
    }
    let tn = str_char_len(t.as_str());
    let ci = crate::text::scan_char(t.as_str(), ',', 0);
    let num = if ci < tn {
        crate::text::str_take(t.as_str(), ci)
    } else {
        t
    };
    parse_usize(num.as_str())
}

/// Reads the old and new start offsets from a hunk header, leniently: a
/// header without a closing `@@` still yields its numbers.
pub fn parse_hunk_starts(header: &str) -> (r: Option<(usize, usize)>)
    ensures
        r == spec_parse_hunk_starts(header@),
{
    let c0 = trim_at_prefixes(header);
    let c0n = str_char_len(c0.as_str());
    let content = match find_str(c0.as_str(), " @@") {
        Some(e) => crate::text::str_take(c0.as_str(), e),
        None => c0,
    };
    let t1s = scan_spaces(content.as_str(), 0);
    let t1e = scan_token(content.as_str(), t1s);
    let t2s = scan_spaces(content.as_str(), t1e);
    let t2e = scan_token(content.as_str(), t2s);
    let old_tok = content.as_str().substring_char(t1s, t1e);
    let new_tok = content.as_str().substring_char(t2s, t2e);
    match start_of_token(old_tok, '-') {
        Some(old_start) => match start_of_token(new_tok, '+') {
            Some(new_start) => Some((old_start, new_start)),
            None => None,
        },
        None => None,
    }
}

/// The function context after the closing `@@` of a header, or nothing.
fn func_ctx_of(header: &str) -> (r: String)
    ensures
        r@ == spec_func_ctx(header@),
{
    proof {
        reveal_strlit("@@ ");
        reveal_strlit("@@");
    }
    match find_str(header, "@@ ") {
        None => String::new(),
        Some(s) => {
            let hn = str_char_len(header);
            let rest = str_drop(header, s + 3);
            match find_str(rest.as_str(), "@@") {
                None => String::new(),
                Some(e) => {
                    let rn = str_char_len(rest.as_str());
                    str_drop(rest.as_str(), e + 2)
                },
            }
        },
    }
}

/// Renders a fresh `@@` header from counted sides and kept offsets.
fn format_header(old_start: usize, oc: usize, new_start: usize, nc: usize, ctx: &str) -> (r:
    String)
    ensures
        r@ == spec_format_header(old_start, oc as nat, new_start, nc as nat, ctx@),
{
    let mut h = String::from_str("@@ -");
    push_decimal(&mut h, old_start);
    h.append(",");
    push_decimal(&mut h, oc);
    h.append(" +");
    push_decimal(&mut h, new_start);
    h.append(",");
    push_decimal(&mut h, nc);
    h.append(" @@");
    h.append(ctx);
    proof {
        assert(h@ =~= spec_format_header(old_start, oc as nat, new_start, nc as nat, ctx@));
    }
    h
}

/// Whether the 1-based index falls in any of the ranges.
pub fn in_ranges(ranges: &[(usize, usize)], idx: usize) -> (b: bool)
    ensures
        b == in_any_range(ranges@, idx as int),
{
    let n = ranges.len();
    let mut k: usize = 0;
    while k < n
        invariant
            n == ranges@.len(),
            k <= n,
            forall|j: int| 0 <= j < k ==> !((#[trigger] ranges@[j]).0 <= idx <= ranges@[j].1),
        decreases n - k,
    {
        let (s, e) = ranges[k];
        if s <= idx && idx <= e {
            return true;
        }
        k += 1;
    }
    false
}

/// The line behind a space: its content kept, its role made context.
fn to_context(line: &str) -> (r: String)
    requires
        line@.len() >= 1,
    ensures
        r@ == as_context(line@),
{
    proof {
        reveal_strlit(" ");
    }
    let n = str_char_len(line);
    let mut r = String::from_str(" ");
    let rest = str_drop(line, 1);
    r.append(rest.as_str());
    proof {
        assert(r@ =~= as_context(line@));
    }
    r
}

/// Classifies an executable line.
pub fn kind_of(line: &str) -> (k: LineKind)
    ensures
        k == line_kind(line@),
{
    let n = str_char_len(line);
    if n == 0 {
        LineKind::Other
    } else {
        let c = line.get_char(0);
        if c == '+' {
            LineKind::Addition
        } else if c == '-' {
            LineKind::Deletion
        } else if c == ' ' {
            LineKind::Context
        } else {
            LineKind::Other
        }
    }
}

/// Counts the old-side lines of a built line vector.
fn count_old(lines: &Vec<String>) -> (c: usize)
    ensures
        c == old_count(lines.deep_view()),
{
    let n = lines.len();
    let mut c: usize = 0;
    let mut i: usize = 0;
    while i < n
        invariant
            n == lines@.len(),
            i <= n,
            c == old_count(lines.deep_view().take(i as int)),
            c <= i,
        decreases n - i,
    {
        let k = kind_of(lines[i].as_str());
        proof {
            let dv = lines.deep_view();
            assert(dv.take(i + 1).drop_last() =~= dv.take(i as int));
            assert(dv.take(i + 1).last() == dv[i as int]);
        }
        match k {
            LineKind::Deletion => { c += 1; },
            LineKind::Context => { c += 1; },
            _ => {},
        }
        i += 1;
    }
    proof {
        assert(lines.deep_view().take(n as int) =~= lines.deep_view());
    }
    c
}

/// Counts the new-side lines of a built line vector.
fn count_new(lines: &Vec<String>) -> (c: usize)
    ensures
        c == new_count(lines.deep_view()),
{
    let n = lines.len();
    let mut c: usize = 0;
    let mut i: usize = 0;
    while i < n
        invariant
            n == lines@.len(),
            i <= n,
            c == new_count(lines.deep_view().take(i as int)),
            c <= i,
        decreases n - i,
    {
        let k = kind_of(lines[i].as_str());
        proof {
            let dv = lines.deep_view();
            assert(dv.take(i + 1).drop_last() =~= dv.take(i as int));
            assert(dv.take(i + 1).last() == dv[i as int]);
        }
        match k {
            LineKind::Addition => { c += 1; },
            LineKind::Context => { c += 1; },
            _ => {},
        }
        i += 1;
    }
    proof {
        assert(lines.deep_view().take(n as int) =~= lines.deep_view());
    }
    c
}

/// Builds the sliced hunk around already-selected lines: counts both
/// sides afresh, keeps the original start offsets and trailing context,
/// and re-emits the header.
fn rebuild_hunk(hunk: &DiffHunk, new_lines: Vec<String>) -> (r: Result<DiffHunk, Error>)
    ensures
        match r {
            Ok(h) => {
                &&& spec_parse_hunk_starts(hunk@.header) matches Some(starts)
                &&& h@ =~= hunk_with_lines(hunk@, new_lines.deep_view(), starts)
            },
            Err(e) => {
                &&& e == Error::InvalidHunkHeader
                &&& spec_parse_hunk_starts(hunk@.header) is None
            },
        },
{
    let starts = match parse_hunk_starts(hunk.header.as_str()) {
        Some(p) => p,
        None => {
            return Err(Error::InvalidHunkHeader);
        },
    };
    let oc = count_old(&new_lines);
    let nc = count_new(&new_lines);
    let ctx = func_ctx_of(hunk.header.as_str());
    let header = format_header(starts.0, oc, starts.1, nc, ctx.as_str());
    Ok(
        DiffHunk {
            file: hunk.file.clone(),
            old_file: hunk.old_file.clone(),
            new_file: hunk.new_file.clone(),
            file_header: hunk.file_header.clone(),
            header,
            lines: new_lines,
            unsupported_metadata: hunk.unsupported_metadata,
        },
    )
}

/// Slices a hunk down to the changes inside any of the given 1-based
/// inclusive line ranges. Outside the selection an addition is dropped
/// (forward) or kept as context (reverse); a deletion the mirror image;
/// context always stays. Both counts of the new header are recomputed
/// from the surviving lines; offsets and trailing context are kept.
/// Fails only on a hunk with unsupported metadata, or one whose header
/// carries no readable offsets.
pub fn slice_hunk_multi(hunk: &DiffHunk, ranges: &[(usize, usize)], reverse: bool) -> (r: Result<
    DiffHunk,
    Error,
>)
    ensures
        match r {
            Ok(h) => {
                &&& !hunk@.unsupported_metadata
                &&& spec_parse_hunk_starts(hunk@.header) matches Some(starts)
                &&& h@ =~= hunk_with_lines(
                    hunk@,
                    sliced_lines(hunk@.lines, ranges@, reverse),
                    starts,
                )
            },
            Err(e) => (hunk@.unsupported_metadata && e == Error::SliceUnsupported) || (
            !hunk@.unsupported_metadata && spec_parse_hunk_starts(hunk@.header) is None && e
                == Error::InvalidHunkHeader),
        },
{
    if hunk.unsupported_metadata {
        return Err(Error::SliceUnsupported);
    }
    let n = hunk.lines.len();
    let mut new_lines: Vec<String> = Vec::new();
    let ghost src = hunk@.lines;
    proof {
        assert(src.take(0) =~= Seq::<Seq<char>>::empty());
        assert(new_lines.deep_view() =~= sliced_lines(src.take(0), ranges@, reverse));
    }
    let mut i: usize = 0;
    while i < n
        invariant
            n == hunk@.lines.len(),
            src == hunk@.lines,
            i <= n,
            new_lines.deep_view() == sliced_lines(src.take(i as int), ranges@, reverse),
        decreases n - i,
    {
        let line = &hunk.lines[i];
        let selected = in_ranges(ranges, i + 1);
        let k = kind_of(line.as_str());
        let ghost old_dv = new_lines.deep_view();
        proof {
            assert(src.take(i + 1).drop_last() =~= src.take(i as int));
            assert(src.take(i + 1).last() == src[i as int]);
            assert(src.take(i + 1).len() == i + 1);
        }
        match k {
            LineKind::Addition => {
                if selected {
                    new_lines.push(line.clone());
                } else if reverse {
                    new_lines.push(to_context(line.as_str()));
                }
            },
            LineKind::Deletion => {
                if selected {
                    new_lines.push(line.clone());
                } else if !reverse {
                    new_lines.push(to_context(line.as_str()));
                }
            },
            _ => {
                new_lines.push(line.clone());
            },
        }
        proof {
            assert(new_lines.deep_view() =~= sliced_lines(src.take(i + 1), ranges@, reverse));
        }
        i += 1;
    }
    proof {
        assert(src.take(n as int) =~= src);
    }
    rebuild_hunk(hunk, new_lines)
}

/// Slices a hunk to a single 1-based inclusive line range.
pub fn slice_hunk(hunk: &DiffHunk, start: usize, end: usize, reverse: bool) -> (r: Result<
    DiffHunk,
    Error,
>)
    ensures
        match r {
            Ok(h) => {
                &&& !hunk@.unsupported_metadata
                &&& spec_parse_hunk_starts(hunk@.header) matches Some(starts)
                &&& h@ =~= hunk_with_lines(
                    hunk@,
                    sliced_lines(hunk@.lines, seq![(start, end)], reverse),
                    starts,
                )
            },
            Err(e) => (hunk@.unsupported_metadata && e == Error::SliceUnsupported) || (
            !hunk@.unsupported_metadata && spec_parse_hunk_starts(hunk@.header) is None && e
                == Error::InvalidHunkHeader),
        },
{
    let ranges: [(usize, usize); 1] = [(start, end)];
    proof {
        assert(ranges@ =~= seq![(start, end)]);
    }
    slice_hunk_multi(hunk, ranges.as_slice(), reverse)
}

/// Slices a hunk under the split operation's masks: `picked` marks lines
/// already committed by earlier groups, `wanted` the lines of this group.
/// A wanted change is kept; an addition already picked is context, one
/// neither picked nor wanted is dropped; a deletion not yet picked is
/// context, one already picked is dropped; context always stays. Fails
/// only when a mask's length differs from the hunk's line count, on
/// unsupported metadata, or on an unreadable header.
pub fn slice_hunk_with_state(hunk: &DiffHunk, picked: &[bool], selected: &[bool]) -> (r: Result<
    DiffHunk,
    Error,
>)
    ensures
        match r {
            Ok(h) => {
                &&& !hunk@.unsupported_metadata
                &&& picked@.len() == hunk@.lines.len()
                &&& selected@.len() == hunk@.lines.len()
                &&& spec_parse_hunk_starts(hunk@.header) matches Some(starts)
                &&& h@ =~= hunk_with_lines(
                    hunk@,
                    mask_lines(hunk@.lines, picked@, selected@),
                    starts,
                )
            },
            Err(e) => (hunk@.unsupported_metadata && e == Error::SliceUnsupported) || (
            !hunk@.unsupported_metadata && (picked@.len() != hunk@.lines.len() || selected@.len()
                != hunk@.lines.len()) && e == Error::MaskLengthMismatch) || (
            !hunk@.unsupported_metadata && picked@.len() == hunk@.lines.len() && selected@.len()
                == hunk@.lines.len() && spec_parse_hunk_starts(hunk@.header) is None && e
                == Error::InvalidHunkHeader),
        },
{
    if hunk.unsupported_metadata {
        return Err(Error::SliceUnsupported);
    }
    let n = hunk.lines.len();
    if picked.len() != n || selected.len() != n {
        return Err(Error::MaskLengthMismatch);
    }
    let mut new_lines: Vec<String> = Vec::new();
    let ghost src = hunk@.lines;
    proof {
        assert(src.take(0) =~= Seq::<Seq<char>>::empty());
        assert(new_lines.deep_view() =~= mask_lines(src.take(0), picked@.take(0), selected@.take(0)));
    }
    let mut i: usize = 0;
    while i < n
        invariant
            n == hunk@.lines.len(),
            n == picked@.len(),
            n == selected@.len(),
            src == hunk@.lines,
            i <= n,
            new_lines.deep_view() == mask_lines(
                src.take(i as int),
                picked@.take(i as int),
                selected@.take(i as int),
            ),
        decreases n - i,
    {
        let line = &hunk.lines[i];
        let already = picked[i];
        let want = selected[i];
        let k = kind_of(line.as_str());
        proof {
            assert(src.take(i + 1).drop_last() =~= src.take(i as int));
            assert(picked@.take(i + 1).take(i as int) =~= picked@.take(i as int));
            assert(selected@.take(i + 1).take(i as int) =~= selected@.take(i as int));
            assert(src.take(i + 1).last() == src[i as int]);
            assert(picked@.take(i + 1)[i as int] == picked@[i as int]);
            assert(selected@.take(i + 1)[i as int] == selected@[i as int]);
        }
        match k {
            LineKind::Addition => {
                if want {
                    new_lines.push(line.clone());
                } else if already {
                    new_lines.push(to_context(line.as_str()));
                }
            },
            LineKind::Deletion => {
                if want {
                    new_lines.push(line.clone());
                } else if !already {
                    new_lines.push(to_context(line.as_str()));
                }
            },
            _ => {
                new_lines.push(line.clone());
            },
        }
        proof {
            assert(new_lines.deep_view() =~= mask_lines(
                src.take(i + 1),
                picked@.take(i + 1),
                selected@.take(i + 1),
            ));
        }
        i += 1;
    }
    proof {
        assert(src.take(n as int) =~= src);
        assert(picked@.take(n as int) =~= picked@);
        assert(selected@.take(n as int) =~= selected@);
    }
    rebuild_hunk(hunk, new_lines)
}

/// The standalone patch text of a hunk: file header, header and every
/// line, each closed by a newline.
pub open spec fn joined_lines(ls: Seq<Seq<char>>) -> Seq<char>
    decreases ls.len(),
{
    if ls.len() == 0 {
        Seq::empty()
    } else {
        joined_lines(ls.drop_last()) + ls.last() + seq!['\n']
    }
}

/// What `build_patch` returns.
pub open spec fn spec_build_patch(h: HunkView) -> Seq<char> {
    h.file_header + seq!['\n'] + h.header + seq!['\n'] + joined_lines(h.lines)
}

/// Reconstructs a minimal standalone patch for one hunk.
pub fn build_patch(hunk: &DiffHunk) -> (r: String)
    ensures
        r@ == spec_build_patch(hunk@),
{
    let mut patch = hunk.file_header.clone();
    push_char(&mut patch, '\n');
    patch.append(hunk.header.as_str());
    push_char(&mut patch, '\n');
    let n = hunk.lines.len();
    let ghost src = hunk@.lines;
    proof {
        assert(src.take(0) =~= Seq::<Seq<char>>::empty());
        assert(patch@ =~= hunk@.file_header + seq!['\n'] + hunk@.header + seq!['\n']
            + joined_lines(src.take(0)));
    }
    let mut i: usize = 0;
    while i < n
        invariant
            n == hunk@.lines.len(),
            src == hunk@.lines,
            i <= n,
            patch@ == hunk@.file_header + seq!['\n'] + hunk@.header + seq!['\n'] + joined_lines(
                src.take(i as int),
            ),
        decreases n - i,
    {
        proof {
            assert(src.take(i + 1).drop_last() =~= src.take(i as int));
            assert(src.take(i + 1).last() == src[i as int]);
        }
        patch.append(hunk.lines[i].as_str());
        push_char(&mut patch, '\n');
        proof {
            assert(patch@ =~= hunk@.file_header + seq!['\n'] + hunk@.header + seq!['\n']
                + joined_lines(src.take(i + 1)));
        }
        i += 1;
    }
    proof {
        assert(src.take(n as int) =~= src);
    }
    patch
}

} // verus!
