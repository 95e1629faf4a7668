//! Character-level text utilities shared by the parser, the slicer and the
//! planners: prefix tests, substring search, decimal formatting and parsing.

use vstd::prelude::*;
use vstd::string::*;

verus! {

/// `p` is a prefix of `s`.
pub open spec fn starts_with(s: Seq<char>, p: Seq<char>) -> bool {
    p.len() <= s.len() && s.subrange(0, p.len() as int) == p
}

/// `p` occurs in `s` at position `i`.
pub open spec fn occurs_at(s: Seq<char>, p: Seq<char>, i: int) -> bool {
    0 <= i && i + p.len() <= s.len() && s.subrange(i, i + p.len() as int) == p
}

/// Relies on `String::push`: appends one character at the end.
#[verifier::external_body]
pub fn push_char(s: &mut String, c: char)
    ensures
        final(s)@ == old(s)@.push(c),
{
    s.push(c)
}

/// Number of characters in `s`.
pub fn str_char_len(s: &str) -> (n: usize)
    ensures
        n == s@.len(),
{
    s.unicode_len()
}

/// Character equality of two string slices.
pub fn str_eq(a: &str, b: &str) -> (r: bool)
    ensures
        r == (a@ == b@),
{
    let alen = a.unicode_len();
    let blen = b.unicode_len();
    if alen != blen {
        return false;
    }
    let mut i: usize = 0;
    while i < alen
        invariant
            alen == a@.len(),
            alen == b@.len(),
            i <= alen,
            forall|j: int| 0 <= j < i ==> a@[j] == b@[j],
        decreases alen - i,
    {
        if a.get_char(i) != b.get_char(i) {
            return false;
        }
        i += 1;
    }
    proof {
        assert(a@ =~= b@);
    }
    true
}

/// Whether `p` is a prefix of `s`, character for character.
pub fn str_starts_with(s: &str, p: &str) -> (r: bool)
    ensures
        r == starts_with(s@, p@),
{
    let slen = s.unicode_len();
    let plen = p.unicode_len();
    if plen > slen {
        return false;
    }
    let mut i: usize = 0;
    while i < plen
        invariant
            slen == s@.len(),
            plen == p@.len(),
            plen <= slen,
            i <= plen,
            forall|j: int| 0 <= j < i ==> s@[j] == p@[j],
        decreases plen - i,
    {
        if s.get_char(i) != p.get_char(i) {
            proof {
                assert(s@.subrange(0, plen as int)[i as int] != p@[i as int]);
            }
            return false;
        }
        i += 1;
    }
    proof {
        assert(s@.subrange(0, plen as int) =~= p@);
    }
    true
}

/// The suffix of `s` after dropping its first `n` characters.
pub fn str_drop(s: &str, n: usize) -> (r: String)
    requires
        n <= s@.len(),
    ensures
        r@ == s@.subrange(n as int, s@.len() as int),
{
    let len = s.unicode_len();
    String::from_str(s.substring_char(n, len))
}

/// The first `n` characters of `s`.
pub fn str_take(s: &str, n: usize) -> (r: String)
    requires
        n <= s@.len(),
    ensures
        r@ == s@.subrange(0, n as int),
{
    String::from_str(s.substring_char(0, n))
}

/// Position of the first occurrence of `p` in `s` at or after `i`,
/// or `-1` when there is none.
pub open spec fn find_from(s: Seq<char>, p: Seq<char>, i: int) -> int
    decreases s.len() + 1 - i,
{
    if i < 0 || i + p.len() > s.len() {
        -1
    } else if occurs_at(s, p, i) {
        i
    } else {
        find_from(s, p, i + 1)
    }
}

/// Index of the first occurrence of `p` in `s`, if any.
pub fn find_str(s: &str, p: &str) -> (r: Option<usize>)
    ensures
        match r {
            Some(i) => find_from(s@, p@, 0) == i && occurs_at(s@, p@, i as int),
            None => find_from(s@, p@, 0) == -1,
        },
{
    let slen = s.unicode_len();
    let plen = p.unicode_len();
    if plen > slen {
        return None;
    }
    if plen == 0 {
        proof {
            assert(s@.subrange(0, 0) =~= p@);
        }
        return Some(0);
    }
    let limit = slen - plen;
    let mut i: usize = 0;
    while i <= limit
        invariant
            slen == s@.len(),
            plen == p@.len(),
            0 < plen <= slen,
            limit == slen - plen,
            i <= limit + 1,
            find_from(s@, p@, 0) == find_from(s@, p@, i as int),
        decreases slen - i,
    {
        let mut k: usize = 0;
        let mut hit = true;
        while k < plen
            invariant
                slen == s@.len(),
                plen == p@.len(),
                i + plen <= slen,
                k <= plen,
                hit ==> forall|j: int| 0 <= j < k ==> s@[i + j] == p@[j],
                !hit ==> !occurs_at(s@, p@, i as int),
            decreases plen - k,
        {
            if s.get_char(i + k) != p.get_char(k) {
                proof {
                    if occurs_at(s@, p@, i as int) {
                        assert(s@.subrange(i as int, i + plen as int)[k as int] == p@[k as int]);
                    }
                }
                hit = false;
                k = plen;
            } else {
                k += 1;
            }
        }
        if hit {
            proof {
                assert(s@.subrange(i as int, i + plen as int) =~= p@);
            }
            return Some(i);
        }
        i += 1;
    }
    None
}

/// A digit character carries its own value.
pub proof fn lemma_digit_char_val(d: int)
    requires
        0 <= d < 10,
    ensures
        digit_val(digit_char(d)) == d,
        is_digit(digit_char(d)),
{
}

/// The character for a single decimal digit value.
pub open spec fn digit_char(d: int) -> char {
    if d == 0 { '0' }
    else if d == 1 { '1' }
    else if d == 2 { '2' }
    else if d == 3 { '3' }
    else if d == 4 { '4' }
    else if d == 5 { '5' }
    else if d == 6 { '6' }
    else if d == 7 { '7' }
    else if d == 8 { '8' }
    else { '9' }
}

/// `c` is a decimal digit.
pub open spec fn is_digit(c: char) -> bool {
    '0' <= c && c <= '9'
}

/// Numeric value of a digit character.
pub open spec fn digit_val(c: char) -> int {
    c as int - '0' as int
}

/// Every character of `s` is a decimal digit.
pub open spec fn all_digits(s: Seq<char>) -> bool {
    forall|i: int| 0 <= i < s.len() ==> is_digit(#[trigger] s[i])
}

/// Value of a digit string read in base ten.
pub open spec fn dec_value(s: Seq<char>) -> int
    decreases s.len(),
{
    if s.len() == 0 {
        0
    } else {
        dec_value(s.drop_last()) * 10 + digit_val(s.last())
    }
}

/// The canonical decimal rendering of `n` (no leading zeros, nonempty).
pub open spec fn dec_digits(n: nat) -> Seq<char>
    decreases n,
{
    if n < 10 {
        seq![digit_char(n as int)]
    } else {
        dec_digits(n / 10).push(digit_char((n % 10) as int))
    }
}

pub proof fn lemma_dec_digits_value(n: nat)
    ensures
        dec_value(dec_digits(n)) == n,
        all_digits(dec_digits(n)),
        dec_digits(n).len() >= 1,
    decreases n,
{
    if n < 10 {
        lemma_digit_char_val(n as int);
        let s = dec_digits(n);
        assert(s.len() == 1);
        assert(s.last() == digit_char(n as int));
        assert(s.drop_last() =~= Seq::<char>::empty());
        assert(dec_value(s.drop_last()) == 0);
        assert(dec_value(s) == 0 * 10 + digit_val(s.last()));
    } else {
        lemma_dec_digits_value(n / 10);
        lemma_digit_char_val((n % 10) as int);
        assert(dec_digits(n).drop_last() == dec_digits(n / 10));
        assert(dec_digits(n).last() == digit_char((n % 10) as int));
        assert(dec_value(dec_digits(n)) == (n / 10) * 10 + n % 10);
    }
}

pub proof fn lemma_dec_value_nonneg(s: Seq<char>)
    requires
        all_digits(s),
    ensures
        dec_value(s) >= 0,
    decreases s.len(),
{
    if s.len() > 0 {
        assert(all_digits(s.drop_last())) by {
            assert(forall|i: int| 0 <= i < s.len() - 1 ==> s.drop_last()[i] == s[i]);
        }
        lemma_dec_value_nonneg(s.drop_last());
    }
}

/// Appending digits never decreases the decimal value.
pub proof fn lemma_dec_value_prefix(s: Seq<char>, i: int)
    requires
        all_digits(s),
        0 <= i <= s.len(),
    ensures
        dec_value(s) >= dec_value(s.subrange(0, i)),
    decreases s.len() - i,
{
    if i < s.len() {
        let t = s.subrange(0, i + 1);
        assert(t.drop_last() == s.subrange(0, i));
        assert(all_digits(t));
        assert(all_digits(s.subrange(0, i)));
        lemma_dec_value_nonneg(s.subrange(0, i));
        assert(dec_value(t) == dec_value(s.subrange(0, i)) * 10 + digit_val(s[i]));
        assert(dec_value(t) >= dec_value(s.subrange(0, i)));
        lemma_dec_value_prefix(s, i + 1);
        assert(s.subrange(0, s.len() as int) == s);
    } else {
        assert(s.subrange(0, s.len() as int) == s);
    }
}

/// Appends the decimal rendering of `n` to `out`.
pub fn push_decimal(out: &mut String, n: usize)
    ensures
        final(out)@ == old(out)@ + dec_digits(n as nat),
    decreases n,
{
    if n >= 10 {
        push_decimal(out, n / 10);
    }
    let d = n % 10;
    let c = if d == 0 { '0' }
        else if d == 1 { '1' }
        else if d == 2 { '2' }
        else if d == 3 { '3' }
        else if d == 4 { '4' }
        else if d == 5 { '5' }
        else if d == 6 { '6' }
        else if d == 7 { '7' }
        else if d == 8 { '8' }
        else { '9' };
    push_char(out, c);
    proof {
        if n < 10 {
            assert(final(out)@ =~= old(out)@ + dec_digits(n as nat));
        } else {
            assert(final(out)@ =~= old(out)@ + dec_digits(n as nat));
        }
    }
}

/// Distinct numbers render to distinct digit strings.
pub proof fn lemma_dec_digits_injective(a: nat, b: nat)
    requires
        dec_digits(a) == dec_digits(b),
    ensures
        a == b,
{
    lemma_dec_digits_value(a);
    lemma_dec_digits_value(b);
}

/// `s` without one leading plus sign, if it has one.
pub open spec fn strip_plus(s: Seq<char>) -> Seq<char> {
    if s.len() > 0 && s[0] == '+' {
        s.drop_first()
    } else {
        s
    }
}

/// `s` is an acceptable decimal number: an optional leading `+`,
/// then at least one digit.
pub open spec fn valid_dec(s: Seq<char>) -> bool {
    strip_plus(s).len() >= 1 && all_digits(strip_plus(s))
}

/// The number `s` denotes, when it is an acceptable decimal whose value
/// fits in `usize`.
pub open spec fn spec_parse_usize(s: Seq<char>) -> Option<usize> {
    if valid_dec(s) && dec_value(strip_plus(s)) <= usize::MAX {
        Some(dec_value(strip_plus(s)) as usize)
    } else {
        None
    }
}

/// Reads a decimal number with an optional leading plus sign; rejects
/// anything else, and values that do not fit in `usize`.
pub fn parse_usize(s: &str) -> (r: Option<usize>)
    ensures
        r == spec_parse_usize(s@),
{
    let len = s.unicode_len();
    let start: usize = if len > 0 && s.get_char(0) == '+' { 1 } else { 0 };
    let ghost t = strip_plus(s@);
    proof {
        assert(t =~= s@.subrange(start as int, len as int));
    }
    if start == len {
        return None;
    }
    let mut v: usize = 0;
    let mut i: usize = start;
    while i < len
        invariant
            len == s@.len(),
            start <= i <= len,
            start < len,
            t == s@.subrange(start as int, len as int),
            t == strip_plus(s@),
            all_digits(t.subrange(0, i - start)),
            v == dec_value(t.subrange(0, i - start)),
        decreases len - i,
    {
        let c = s.get_char(i);
        if !('0' <= c && c <= '9') {
            proof {
                assert(t[i - start] == c);
                assert(!is_digit(t[i - start]));
            }
            return None;
        }
        let d: usize = (c as u32 as usize) - 48;
        proof {
            assert(d == digit_val(c)) by {
                assert('0' <= c <= '9');
            }
        }
        let ghost pre = t.subrange(0, i - start);
        let ghost pre1 = t.subrange(0, i + 1 - start);
        proof {
            assert(pre1.drop_last() =~= pre);
            assert(pre1.last() == c);
            assert(all_digits(pre1));
            assert(dec_value(pre1) == v * 10 + d);
        }
        if v > (usize::MAX - d) / 10 {
            proof {
                assert(v >= (usize::MAX - d) / 10 + 1);
                assert(v * 10 >= ((usize::MAX - d) / 10 + 1) * 10);
                assert((usize::MAX - d) % 10 < 10);
                assert(usize::MAX - d == ((usize::MAX - d) / 10) * 10 + (usize::MAX - d) % 10);
                assert(((usize::MAX - d) / 10) * 10 + 10 > usize::MAX - d);
                assert(dec_value(pre1) > usize::MAX);
                if all_digits(t) {
                    lemma_dec_value_prefix(t, i + 1 - start);
                    assert(dec_value(t) > usize::MAX);
                }
            }
            return None;
        }
        proof {
            assert(v <= (usize::MAX - d) / 10);
            assert(v * 10 <= ((usize::MAX - d) / 10) * 10);
            assert(((usize::MAX - d) / 10) * 10 <= usize::MAX - d);
        }
        v = v * 10 + d;
        i += 1;
    }
    proof {
        assert(t.subrange(0, len - start) =~= t);
    }
    Some(v)
}

/// Whitespace for the purposes of header token splitting.
pub open spec fn is_space(c: char) -> bool {
    c == ' ' || c == '\t'
}

/// The first non-space position at or after `i`, or the length of `s`.
pub open spec fn skip_spaces(s: Seq<char>, i: int) -> int
    decreases s.len() - i,
{
    if i < 0 || i >= s.len() {
        s.len() as int
    } else if is_space(s[i]) {
        skip_spaces(s, i + 1)
    } else {
        i
    }
}

/// The first space position at or after `i`, or the length of `s`.
pub open spec fn token_end(s: Seq<char>, i: int) -> int
    decreases s.len() - i,
{
    if i < 0 || i >= s.len() {
        s.len() as int
    } else if is_space(s[i]) {
        i
    } else {
        token_end(s, i + 1)
    }
}

/// Advances past spaces, starting at `from`.
pub fn scan_spaces(s: &str, from: usize) -> (r: usize)
    requires
        from <= s@.len(),
    ensures
        r == skip_spaces(s@, from as int),
        from <= r <= s@.len(),
{
    let len = s.unicode_len();
    let mut i = from;
    loop
        invariant
            len == s@.len(),
            from <= i <= len,
            skip_spaces(s@, from as int) == skip_spaces(s@, i as int),
        ensures
            i == skip_spaces(s@, from as int),
            from <= i <= len,
        decreases len - i,
    {
        if i >= len {
            break;
        }
        let c = s.get_char(i);
        if !(c == ' ' || c == '\t') {
            break;
        }
        i += 1;
    }
    i
}

/// Advances to the next space, starting at `from`.
pub fn scan_token(s: &str, from: usize) -> (r: usize)
    requires
        from <= s@.len(),
    ensures
        r == token_end(s@, from as int),
        from <= r <= s@.len(),
{
    let len = s.unicode_len();
    let mut i = from;
    loop
        invariant
            len == s@.len(),
            from <= i <= len,
            token_end(s@, from as int) == token_end(s@, i as int),
        ensures
            i == token_end(s@, from as int),
            from <= i <= len,
        decreases len - i,
    {
        if i >= len {
            break;
        }
        let c = s.get_char(i);
        if c == ' ' || c == '\t' {
            break;
        }
        i += 1;
    }
    i
}

/// Position of the first `c` in `s` at or after `i`, or `-1`.
pub open spec fn char_index(s: Seq<char>, c: char, i: int) -> int
    decreases s.len() + 1 - i,
{
    if i < 0 || i >= s.len() {
        -1
    } else if s[i] == c {
        i
    } else {
        char_index(s, c, i + 1)
    }
}

pub proof fn lemma_char_index_bounds(s: Seq<char>, c: char, i: int)
    requires
        0 <= i,
    ensures
        char_index(s, c, i) == -1 || (i <= char_index(s, c, i) < s.len() && s[char_index(s, c, i)]
            == c),
    decreases s.len() + 1 - i,
{
    if !(i < 0 || i >= s.len()) && s[i] != c {
        lemma_char_index_bounds(s, c, i + 1);
    }
}

/// Advances to the first occurrence of `c` at or after `from`, or to the
/// end of `s`.
pub fn scan_char(s: &str, c: char, from: usize) -> (r: usize)
    requires
        from <= s@.len(),
    ensures
        from <= r <= s@.len(),
        r < s@.len() ==> char_index(s@, c, from as int) == r && s@[r as int] == c,
        r == s@.len() ==> char_index(s@, c, from as int) == -1,
{
    let len = s.unicode_len();
    let mut i = from;
    loop
        invariant
            len == s@.len(),
            from <= i <= len,
            char_index(s@, c, from as int) == char_index(s@, c, i as int),
        ensures
            from <= i <= len,
            i < len ==> char_index(s@, c, from as int) == i && s@[i as int] == c,
            i == len ==> char_index(s@, c, from as int) == -1,
        decreases len - i,
    {
        if i >= len {
            break;
        }
        if s.get_char(i) == c {
            break;
        }
        i += 1;
    }
    i
}

/// The pieces of `s` from `pos` on, split at every `c`; always at least
/// one piece, the separators not included.
pub open spec fn split_from(s: Seq<char>, c: char, pos: int) -> Seq<Seq<char>>
    decreases s.len() + 1 - pos,
{
    let j = char_index(s, c, pos);
    if pos <= j && j < s.len() {
        seq![s.subrange(pos, j)] + split_from(s, c, j + 1)
    } else {
        seq![s.subrange(pos, s.len() as int)]
    }
}

/// `s` without one trailing carriage return, if it has one.
pub open spec fn strip_cr(s: Seq<char>) -> Seq<char> {
    if s.len() > 0 && s.last() == '\r' {
        s.drop_last()
    } else {
        s
    }
}

/// The lines of `s`: split at every newline, each piece that a newline
/// closed losing one trailing carriage return, and no empty final piece
/// for text that ends with a newline.
pub open spec fn spec_lines(s: Seq<char>) -> Seq<Seq<char>> {
    let ps = split_from(s, '\n', 0);
    if ps.last().len() == 0 {
        ps.drop_last().map_values(|p: Seq<char>| strip_cr(p))
    } else {
        ps.drop_last().map_values(|p: Seq<char>| strip_cr(p)).push(ps.last())
    }
}

/// Splits text into lines the way the diff parser consumes them.
pub fn split_lines(s: &str) -> (r: Vec<String>)
    ensures
        r.deep_view() == spec_lines(s@),
{
    let len = s.unicode_len();
    let mut out: Vec<String> = Vec::new();
    let ghost mut raws: Seq<Seq<char>> = Seq::empty();
    let mut pos: usize = 0;
    proof {
        assert(Seq::<Seq<char>>::empty() + split_from(s@, '\n', 0) =~= split_from(s@, '\n', 0));
        assert(out.deep_view() =~= Seq::<Seq<char>>::empty().map_values(
            |p: Seq<char>| strip_cr(p),
        ));
    }
    loop
        invariant
            len == s@.len(),
            pos <= len,
            split_from(s@, '\n', 0) == raws + split_from(s@, '\n', pos as int),
            out.deep_view() == raws.map_values(|p: Seq<char>| strip_cr(p)),
        ensures
            pos <= len,
            split_from(s@, '\n', 0) == raws.push(s@.subrange(pos as int, len as int)),
            out.deep_view() == raws.map_values(|p: Seq<char>| strip_cr(p)),
        decreases len - pos,
    {
        let j = scan_char(s, '\n', pos);
        if j >= len {
            proof {
                assert(char_index(s@, '\n', pos as int) == -1);
                assert(split_from(s@, '\n', pos as int) == seq![
                    s@.subrange(pos as int, len as int),
                ]);
                assert(raws + seq![s@.subrange(pos as int, len as int)] =~= raws.push(
                    s@.subrange(pos as int, len as int),
                ));
            }
            break;
        }
        let ghost raw = s@.subrange(pos as int, j as int);
        let piece = if j > pos && s.get_char(j - 1) == '\r' {
            s.substring_char(pos, j - 1)
        } else {
            s.substring_char(pos, j)
        };
        proof {
            if j > pos && s@[j - 1] == '\r' {
                assert(raw.len() > 0 && raw.last() == '\r');
                assert(piece@ =~= strip_cr(raw));
            } else {
                assert(piece@ =~= strip_cr(raw));
            }
            assert(split_from(s@, '\n', pos as int) == seq![raw] + split_from(
                s@,
                '\n',
                j as int + 1,
            ));
        }
        let ghost old_raws = raws;
        let ghost old_dv = out.deep_view();
        out.push(String::from_str(piece));
        proof {
            raws = raws.push(raw);
            assert(out.deep_view() =~= old_dv.push(strip_cr(raw)));
            assert(out.deep_view() =~= raws.map_values(|p: Seq<char>| strip_cr(p)));
            assert(raws + split_from(s@, '\n', j as int + 1) =~= old_raws + (seq![raw]
                + split_from(s@, '\n', j as int + 1)));
        }
        pos = j + 1;
    }
    let ghost ps = split_from(s@, '\n', 0);
    proof {
        assert(ps.last() == s@.subrange(pos as int, len as int));
        assert(ps.drop_last() =~= raws);
    }
    if pos < len {
        let tail = s.substring_char(pos, len);
        let ghost old_dv = out.deep_view();
        out.push(String::from_str(tail));
        proof {
            assert(ps.last().len() != 0);
            assert(out.deep_view() =~= old_dv.push(ps.last()));
        }
    } else {
        proof {
            assert(s@.subrange(pos as int, len as int).len() == 0);
        }
    }
    out
}

/// When `p` occurs at `j` and nowhere earlier, the search finds `j`.
pub proof fn lemma_find_from_first(s: Seq<char>, p: Seq<char>, i: int, j: int)
    requires
        0 <= i <= j,
        occurs_at(s, p, j),
        forall|q: int| i <= q < j ==> !occurs_at(s, p, q),
    ensures
        find_from(s, p, i) == j,
    decreases j - i,
{
    if i < j {
        lemma_find_from_first(s, p, i + 1, j);
    }
}

/// When `c` stands at `j` and nowhere earlier, the scan finds `j`.
pub proof fn lemma_char_index_first(s: Seq<char>, c: char, i: int, j: int)
    requires
        0 <= i <= j < s.len(),
        s[j] == c,
        forall|q: int| i <= q < j ==> s[q] != c,
    ensures
        char_index(s, c, i) == j,
    decreases j - i,
{
    if i < j {
        lemma_char_index_first(s, c, i + 1, j);
    }
}

/// The first space at or after a run of non-spaces ends the token there.
pub proof fn lemma_token_end_at(s: Seq<char>, i: int, j: int)
    requires
        0 <= i <= j <= s.len(),
        forall|m: int| i <= m < j ==> !is_space(#[trigger] s[m]),
        j < s.len() ==> is_space(s[j]),
    ensures
        token_end(s, i) == j,
    decreases j - i,
{
    if i < j {
        lemma_token_end_at(s, i + 1, j);
    }
}

/// A run of spaces ending at the first non-space is skipped whole.
pub proof fn lemma_skip_spaces_at(s: Seq<char>, i: int, j: int)
    requires
        0 <= i <= j <= s.len(),
        forall|m: int| i <= m < j ==> is_space(#[trigger] s[m]),
        j < s.len() ==> !is_space(s[j]),
    ensures
        skip_spaces(s, i) == j,
    decreases j - i,
{
    if i < j {
        lemma_skip_spaces_at(s, i + 1, j);
    }
}

/// A digit character is none of the header's punctuation.
pub proof fn lemma_digit_not_marker(c: char)
    requires
        is_digit(c),
    ensures
        c != '@' && c != ' ' && c != ',' && c != '+' && c != '-' && c != '\t',
{
}

/// Before the found position there is no `c`.
pub proof fn lemma_char_index_before(s: Seq<char>, c: char, i: int, q: int)
    requires
        0 <= i <= q,
        char_index(s, c, i) == -1 || q < char_index(s, c, i),
    ensures
        q < s.len() ==> s[q] != c,
    decreases q - i,
{
    if i < q {
        if !(i < 0 || i >= s.len()) && s[i] != c {
            lemma_char_index_before(s, c, i + 1, q);
        }
    }
}

/// Scanning a suffix finds the same character, shifted.
pub proof fn lemma_char_index_skip(s: Seq<char>, c: char, pos: int, k: int)
    requires
        0 <= pos <= s.len(),
        0 <= k,
    ensures
        char_index(s, c, pos + k) == (if char_index(s.skip(pos), c, k) == -1 {
            -1
        } else {
            char_index(s.skip(pos), c, k) + pos
        }),
    decreases s.len() + 1 - (pos + k),
{
    let t = s.skip(pos);
    if pos + k >= s.len() {
        assert(k >= t.len());
    } else {
        assert(t[k] == s[pos + k]);
        if s[pos + k] != c {
            lemma_char_index_skip(s, c, pos, k + 1);
        }
    }
}

/// Splitting from a position splits the suffix from its start.
pub proof fn lemma_split_from_skip(s: Seq<char>, c: char, pos: int)
    requires
        0 <= pos <= s.len(),
    ensures
        split_from(s, c, pos) == split_from(s.skip(pos), c, 0),
    decreases s.len() + 1 - pos,
{
    let t = s.skip(pos);
    lemma_char_index_skip(s, c, pos, 0);
    let j2 = char_index(t, c, 0);
    let j = char_index(s, c, pos);
    if 0 <= j2 && j2 < t.len() {
        assert(j == j2 + pos);
        assert(s.subrange(pos, j) =~= t.subrange(0, j2));
        lemma_split_from_skip(s, c, j + 1);
        lemma_split_from_skip(t, c, j2 + 1);
        assert(t.skip(j2 + 1) =~= s.skip(j + 1));
        assert(split_from(s, c, pos) == seq![s.subrange(pos, j)] + split_from(s, c, j + 1));
        assert(split_from(t, c, 0) == seq![t.subrange(0, j2)] + split_from(t, c, j2 + 1));
    } else {
        lemma_char_index_bounds(t, c, 0);
        assert(s.subrange(pos, s.len() as int) =~= t.subrange(0, t.len() as int));
        assert(split_from(s, c, pos) == seq![s.subrange(pos, s.len() as int)]);
        assert(split_from(t, c, 0) == seq![t.subrange(0, t.len() as int)]);
    }
}

} // verus!
