//! Reading the `@@` range header of a hunk, and aligning per-line
//! attribution streams against a hunk's lines.

use vstd::prelude::*;
use vstd::string::*;
use crate::text::{
    starts_with, find_from, skip_spaces, token_end, spec_parse_usize,
    str_starts_with, str_drop, str_take, str_char_len, find_str, parse_usize,
    scan_spaces, scan_token,
};

verus! {

/// One side of a header: `from,count`, or `from` alone meaning a count
/// of one.
pub open spec fn spec_parse_range(s: Seq<char>) -> Option<(usize, usize)> {
    let ci = find_from(s, ","@, 0);
    if ci >= 0 {
        match spec_parse_usize(s.subrange(0, ci)) {
            Some(from) => match spec_parse_usize(s.subrange(ci + 1, s.len() as int)) {
                Some(count) => Some((from, count)),
                None => None,
            },
            None => None,
        }
    } else {
        match spec_parse_usize(s) {
            Some(from) => Some((from, 1)),
            None => None,
        }
    }
}

/// The four numbers of a header's range part: the first token must carry
/// a leading `-`, the second a leading `+`.
pub open spec fn spec_parse_ranges(rp: Seq<char>) -> Option<(usize, usize, usize, usize)> {
    let t1s = skip_spaces(rp, 0);
    let t1e = token_end(rp, t1s);
    let old_tok = rp.subrange(t1s, t1e);
    let t2s = skip_spaces(rp, t1e);
    let t2e = token_end(rp, t2s);
    let new_tok = rp.subrange(t2s, t2e);
    if old_tok.len() > 0 && old_tok[0] == '-' && new_tok.len() > 0 && new_tok[0] == '+' {
        match spec_parse_range(old_tok.drop_first()) {
            Some((old_from, old_count)) => match spec_parse_range(new_tok.drop_first()) {
                Some((new_from, new_count)) => Some((old_from, old_count, new_from, new_count)),
                None => None,
            },
            None => None,
        }
    } else {
        None
    }
}

/// What `parse_hunk_header` returns: the four numbers of a line such as
/// `@@ -10,3 +10,4 @@ fn main`, each count defaulting to one when omitted.
pub open spec fn spec_parse_hunk_header(h: Seq<char>) -> Option<(usize, usize, usize, usize)> {
    if !starts_with(h, "@@ "@) {
        None
    } else {
        let rest = h.subrange("@@ "@.len() as int, h.len() as int);
        let e = find_from(rest, " @@"@, 0);
        if e < 0 {
            None
        } else {
            spec_parse_ranges(rest.subrange(0, e))
        }
    }
}

/// Reads one side of a header range: `from,count` or a bare `from`.
pub fn parse_range(s: &str) -> (r: Option<(usize, usize)>)
    ensures
        r == spec_parse_range(s@),
{
    proof {
        reveal_strlit(",");
        assert(","@.len() == 1);
    }
    match find_str(s, ",") {
        Some(ci) => {
            let n = str_char_len(s);
            proof {
                assert(crate::text::occurs_at(s@, ","@, ci as int));
                assert(ci + 1 <= n);
            }
            let a = str_take(s, ci);
            let b = str_drop(s, ci + 1);
            match parse_usize(a.as_str()) {
                Some(from) => match parse_usize(b.as_str()) {
                    Some(count) => Some((from, count)),
                    None => None,
                },
                None => None,
            }
        },
        None => match parse_usize(s) {
            Some(from) => Some((from, 1)),
            None => None,
        },
    }
}

/// Reads the two tokens of a range part, `-from,count +from,count`.
fn parse_ranges(rp: &str) -> (r: Option<(usize, usize, usize, usize)>)
    ensures
        r == spec_parse_ranges(rp@),
{
    let t1s = scan_spaces(rp, 0);
    let t1e = scan_token(rp, t1s);
    let t2s = scan_spaces(rp, t1e);
    let t2e = scan_token(rp, t2s);
    let ghost old_tok = rp@.subrange(t1s as int, t1e as int);
    let ghost new_tok = rp@.subrange(t2s as int, t2e as int);
    if t1e == t1s || t2e == t2s {
        return None;
    }
    if !(rp.get_char(t1s) == '-' && rp.get_char(t2s) == '+') {
        return None;
    }
    let old_num = rp.substring_char(t1s + 1, t1e);
    let new_num = rp.substring_char(t2s + 1, t2e);
    proof {
        assert(old_tok.drop_first() =~= old_num@);
        assert(new_tok.drop_first() =~= new_num@);
    }
    match parse_range(old_num) {
        Some((old_from, old_count)) => match parse_range(new_num) {
            Some((new_from, new_count)) => Some((old_from, old_count, new_from, new_count)),
            None => None,
        },
        None => None,
    }
}

/// `c` is a hexadecimal digit in any case.
pub open spec fn is_hex_char(c: char) -> bool {
    ('0' <= c && c <= '9') || ('a' <= c && c <= 'f') || ('A' <= c && c <= 'F')
}

/// `s` without every leading boundary-commit caret.
pub open spec fn strip_carets(s: Seq<char>) -> Seq<char>
    decreases s.len(),
{
    if s.len() > 0 && s[0] == '^' {
        strip_carets(s.drop_first())
    } else {
        s
    }
}

/// The short hash one porcelain output line yields, if any: content
/// lines (those behind a tab) and lines whose first token is not a
/// 40-digit hex revision yield nothing.
pub open spec fn spec_blame_hash_of_line(l: Seq<char>) -> Option<Seq<char>> {
    if l.len() > 0 && l[0] == '\t' {
        None
    } else {
        let ts = skip_spaces(l, 0);
        let te = token_end(l, ts);
        let tok = l.subrange(ts, te);
        if tok.len() == 0 {
            None
        } else {
            let hash = strip_carets(tok);
            if hash.len() >= 40 && (forall|k: int| 0 <= k < 40 ==> is_hex_char(#[trigger] hash[k])) {
                Some(hash.take(7))
            } else {
                None
            }
        }
    }
}

/// The short hashes of a porcelain listing, one per blamed line.
pub open spec fn spec_blame_hashes(ls: Seq<Seq<char>>) -> Seq<Seq<char>>
    decreases ls.len(),
{
    if ls.len() == 0 {
        Seq::empty()
    } else {
        spec_blame_hashes(ls.drop_last()) + match spec_blame_hash_of_line(ls.last()) {
            Some(h) => seq![h],
            None => Seq::<Seq<char>>::empty(),
        }
    }
}

/// Strips the leading carets off a token.
fn strip_carets_exec(tok: &str) -> (r: String)
    ensures
        r@ == strip_carets(tok@),
    decreases tok@.len(),
{
    let n = str_char_len(tok);
    if n > 0 && tok.get_char(0) == '^' {
        let rest = str_drop(tok, 1);
        let r = strip_carets_exec(rest.as_str());
        proof {
            assert(rest@ =~= tok@.drop_first());
        }
        r
    } else {
        String::from_str(tok)
    }
}

/// The short hash of one porcelain line, if the line carries one.
fn blame_hash_of_line(line: &str) -> (r: Option<String>)
    ensures
        match r {
            Some(h) => spec_blame_hash_of_line(line@) == Some(h@),
            None => spec_blame_hash_of_line(line@) is None,
        },
{
    let n = str_char_len(line);
    if n > 0 && line.get_char(0) == '\t' {
        return None;
    }
    let ts = scan_spaces(line, 0);
    let te = scan_token(line, ts);
    if te == ts {
        proof {
            assert(line@.subrange(ts as int, te as int).len() == 0);
        }
        return None;
    }
    let tok = line.substring_char(ts, te);
    let hash = strip_carets_exec(tok);
    let hn = str_char_len(hash.as_str());
    if hn < 40 {
        return None;
    }
    proof {
        assert(spec_blame_hash_of_line(line@) == (if forall|j: int|
            0 <= j < 40 ==> is_hex_char(#[trigger] hash@[j]) {
            Some(hash@.take(7))
        } else {
            None
        }));
    }
    let mut k: usize = 0;
    while k < 40
        invariant
            hn == hash@.len(),
            hn >= 40,
            k <= 40,
            spec_blame_hash_of_line(line@) == (if forall|j: int|
                0 <= j < 40 ==> is_hex_char(#[trigger] hash@[j]) {
                Some(hash@.take(7))
            } else {
                None
            }),
            forall|j: int| 0 <= j < k ==> is_hex_char(#[trigger] hash@[j]),
        decreases 40 - k,
    {
        let c = hash.as_str().get_char(k);
        if !(('0' <= c && c <= '9') || ('a' <= c && c <= 'f') || ('A' <= c && c <= 'F')) {
            proof {
                assert(!is_hex_char(hash@[k as int]));
            }
            return None;
        }
        k += 1;
    }
    Some(crate::text::str_take(hash.as_str(), 7))
}

/// Extracts the per-line short revision hashes from `--line-porcelain`
/// output: one per header line that opens with a 40-digit hex revision,
/// indented content lines skipped.
pub fn parse_blame_hashes(output: &str) -> (r: Vec<String>)
    ensures
        r.deep_view() == spec_blame_hashes(crate::text::spec_lines(output@)),
{
    let lines = crate::text::split_lines(output);
    let n = lines.len();
    let ghost ls = lines.deep_view();
    let mut out: Vec<String> = Vec::new();
    proof {
        assert(ls.take(0) =~= Seq::<Seq<char>>::empty());
        assert(out.deep_view() =~= spec_blame_hashes(ls.take(0)));
    }
    let mut i: usize = 0;
    while i < n
        invariant
            n == lines@.len(),
            ls == lines.deep_view(),
            i <= n,
            out.deep_view() == spec_blame_hashes(ls.take(i as int)),
        decreases n - i,
    {
        proof {
            assert(ls.take(i + 1).drop_last() =~= ls.take(i as int));
            assert(ls.take(i + 1).last() == ls[i as int]);
        }
        let ghost old_dv = out.deep_view();
        match blame_hash_of_line(lines[i].as_str()) {
            Some(h) => {
                out.push(h);
            },
            None => {},
        }
        proof {
            assert(out.deep_view() =~= spec_blame_hashes(ls.take(i + 1)));
        }
        i += 1;
    }
    proof {
        assert(ls.take(n as int) =~= ls);
    }
    out
}

/// The attribution at `i`, or the all-zero sentinel when the lookup
/// returned too few lines.
pub open spec fn blame_at(hashes: Seq<Seq<char>>, i: int) -> Seq<char> {
    if 0 <= i < hashes.len() {
        hashes[i]
    } else {
        "0000000"@
    }
}

/// The attribution of every hunk line, walking the old-side and
/// new-side streams with independent cursors: context consumes both and
/// reports the new side, a deletion consumes and reports the old side,
/// an addition the new side, and any other line gets no attribution.
pub open spec fn spec_align_blame(
    lines: Seq<Seq<char>>,
    ob: Seq<Seq<char>>,
    nb: Seq<Seq<char>>,
    oi: int,
    ni: int,
) -> Seq<Option<Seq<char>>>
    decreases lines.len(),
{
    if lines.len() == 0 {
        Seq::empty()
    } else {
        match crate::patch::line_kind(lines.first()) {
            crate::patch::LineKind::Context => seq![Some(blame_at(nb, ni))] + spec_align_blame(
                lines.drop_first(),
                ob,
                nb,
                oi + 1,
                ni + 1,
            ),
            crate::patch::LineKind::Deletion => seq![Some(blame_at(ob, oi))] + spec_align_blame(
                lines.drop_first(),
                ob,
                nb,
                oi + 1,
                ni,
            ),
            crate::patch::LineKind::Addition => seq![Some(blame_at(nb, ni))] + spec_align_blame(
                lines.drop_first(),
                ob,
                nb,
                oi,
                ni + 1,
            ),
            crate::patch::LineKind::Other => seq![None] + spec_align_blame(
                lines.drop_first(),
                ob,
                nb,
                oi,
                ni,
            ),
        }
    }
}

/// An optional `String` seen as an optional character sequence.
pub open spec fn opt_str_view(h: Option<String>) -> Option<Seq<char>> {
    match h {
        Some(s) => Some(s@),
        None => None,
    }
}

/// Aligns attribution streams against a hunk's lines: one optional short
/// hash per line, in order; a line of no recognized kind gets none, and
/// a missing lookup entry degrades to the all-zero sentinel.
pub fn align_blame(lines: &Vec<String>, old_blame: &Vec<String>, new_blame: &Vec<String>) -> (r:
    Vec<Option<String>>)
    ensures
        r@.len() == lines@.len(),
        forall|i: int| 0 <= i < r@.len() ==> opt_str_view(#[trigger] r@[i]) == spec_align_blame(
            lines.deep_view(),
            old_blame.deep_view(),
            new_blame.deep_view(),
            0,
            0,
        )[i],
{
    let n = lines.len();
    let ghost lv = lines.deep_view();
    let ghost ob = old_blame.deep_view();
    let ghost nb = new_blame.deep_view();
    let ghost full = spec_align_blame(lv, ob, nb, 0, 0);
    let mut out: Vec<Option<String>> = Vec::new();
    let mut oi: usize = 0;
    let mut ni: usize = 0;
    proof {
        assert(lv.skip(0) =~= lv);
        lemma_align_len(lv, ob, nb, 0, 0);
    }
    let mut i: usize = 0;
    while i < n
        invariant
            n == lines@.len(),
            lv == lines.deep_view(),
            ob == old_blame.deep_view(),
            nb == new_blame.deep_view(),
            full == spec_align_blame(lv, ob, nb, 0, 0),
            i <= n,
            oi <= i,
            ni <= i,
            out@.len() == i,
            full.len() == n,
            full =~= out@.map_values(|o: Option<String>| opt_str_view(o)) + spec_align_blame(
                lv.skip(i as int),
                ob,
                nb,
                oi as int,
                ni as int,
            ),
        decreases n - i,
    {
        let ghost rest = lv.skip(i as int);
        proof {
            assert(rest.first() == lv[i as int]);
            assert(rest.drop_first() =~= lv.skip(i + 1));
            lemma_align_len(lv.skip(i + 1), ob, nb, 0, 0);
        }
        let line = &lines[i];
        let k = crate::patch::kind_of(line.as_str());
        let ghost old_out = out@;
        match k {
            crate::patch::LineKind::Context => {
                out.push(Some(pick_blame(new_blame, ni)));
                oi += 1;
                ni += 1;
            },
            crate::patch::LineKind::Deletion => {
                out.push(Some(pick_blame(old_blame, oi)));
                oi += 1;
            },
            crate::patch::LineKind::Addition => {
                out.push(Some(pick_blame(new_blame, ni)));
                ni += 1;
            },
            crate::patch::LineKind::Other => {
                out.push(None);
            },
        }
        proof {
            assert(out@.map_values(|o: Option<String>| opt_str_view(o)) =~= old_out.map_values(
                |o: Option<String>| opt_str_view(o),
            ).push(opt_str_view(out@.last())));
            assert(full =~= out@.map_values(|o: Option<String>| opt_str_view(o))
                + spec_align_blame(lv.skip(i + 1), ob, nb, oi as int, ni as int));
        }
        i += 1;
    }
    proof {
        assert(lv.skip(n as int).len() == 0);
        assert(spec_align_blame(lv.skip(n as int), ob, nb, oi as int, ni as int) =~= Seq::<
            Option<Seq<char>>,
        >::empty());
        assert(full =~= out@.map_values(|o: Option<String>| opt_str_view(o)));
        assert forall|j: int| 0 <= j < out@.len() implies opt_str_view(#[trigger] out@[j])
            == full[j] by {
            assert(out@.map_values(|o: Option<String>| opt_str_view(o))[j] == opt_str_view(
                out@[j],
            ));
        }
    }
    out
}

/// The alignment yields exactly one entry per line.
proof fn lemma_align_len(
    lines: Seq<Seq<char>>,
    ob: Seq<Seq<char>>,
    nb: Seq<Seq<char>>,
    oi: int,
    ni: int,
)
    ensures
        spec_align_blame(lines, ob, nb, oi, ni).len() == lines.len(),
    decreases lines.len(),
{
    if lines.len() > 0 {
        match crate::patch::line_kind(lines.first()) {
            crate::patch::LineKind::Context => lemma_align_len(
                lines.drop_first(),
                ob,
                nb,
                oi + 1,
                ni + 1,
            ),
            crate::patch::LineKind::Deletion => lemma_align_len(
                lines.drop_first(),
                ob,
                nb,
                oi + 1,
                ni,
            ),
            crate::patch::LineKind::Addition => lemma_align_len(
                lines.drop_first(),
                ob,
                nb,
                oi,
                ni + 1,
            ),
            crate::patch::LineKind::Other => lemma_align_len(lines.drop_first(), ob, nb, oi, ni),
        }
    }
}

/// The attribution at one cursor position, with the all-zero sentinel
/// for a stream that ran short.
fn pick_blame(hashes: &Vec<String>, i: usize) -> (r: String)
    ensures
        r@ == blame_at(hashes.deep_view(), i as int),
{
    proof {
        reveal_strlit("0000000");
    }
    if i < hashes.len() {
        hashes[i].clone()
    } else {
        String::from_str("0000000")
    }
}

/// Reads a hunk header line and returns
/// `(old_from, old_count, new_from, new_count)`; a count omitted in the
/// header defaults to one, and anything not of that shape yields `None`.
pub fn parse_hunk_header(header: &str) -> (r: Option<(usize, usize, usize, usize)>)
    ensures
        r == spec_parse_hunk_header(header@),
{
    proof {
        reveal_strlit("@@ ");
    }
    if !str_starts_with(header, "@@ ") {
        return None;
    }
    let rest = str_drop(header, 3);
    match find_str(rest.as_str(), " @@") {
        None => None,
        Some(e) => {
            let range_part = str_take(rest.as_str(), e);
            parse_ranges(range_part.as_str())
        },
    }
}

} // verus!
