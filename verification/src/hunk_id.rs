//! Stable content-derived hunk identifiers: a digest over the display
//! path and the lines, a short hex prefix, and a numeric suffix for
//! repeated content within one listing.

use vstd::prelude::*;
use vstd::string::*;
use vstd::utf8::encode_utf8;
use sha1::Digest;
use crate::diff::{DiffHunk, HunkView};
use crate::text::dec_digits;

verus! {

/// The SHA-1 digest of a byte sequence; a function of the bytes alone.
pub uninterp spec fn sha1_of(data: Seq<u8>) -> Seq<u8>;

/// Relies on `sha1::Sha1` through the `Digest` trait: the one-shot digest
/// of a byte slice, 20 bytes, depending on the input bytes alone.
#[verifier::external_body]
fn sha1_digest(data: &[u8]) -> (r: Vec<u8>)
    ensures
        r@ == sha1_of(data@),
        r@.len() == 20,
{
    sha1::Sha1::digest(data).to_vec()
}

/// The character for one hexadecimal digit value, lower case.
pub open spec fn hex_digit(d: int) -> char {
    if d == 0 { '0' }
    else if d == 1 { '1' }
    else if d == 2 { '2' }
    else if d == 3 { '3' }
    else if d == 4 { '4' }
    else if d == 5 { '5' }
    else if d == 6 { '6' }
    else if d == 7 { '7' }
    else if d == 8 { '8' }
    else if d == 9 { '9' }
    else if d == 10 { 'a' }
    else if d == 11 { 'b' }
    else if d == 12 { 'c' }
    else if d == 13 { 'd' }
    else if d == 14 { 'e' }
    else { 'f' }
}

/// Lower-case hex of a byte sequence: two digits per byte, high nibble
/// first.
pub open spec fn hex_of(bytes: Seq<u8>) -> Seq<char>
    decreases bytes.len(),
{
    if bytes.len() == 0 {
        Seq::empty()
    } else {
        hex_of(bytes.drop_last()) + seq![
            hex_digit(bytes.last() as int / 16),
            hex_digit(bytes.last() as int % 16),
        ]
    }
}

pub proof fn lemma_hex_of_len(bytes: Seq<u8>)
    ensures
        hex_of(bytes).len() == 2 * bytes.len(),
    decreases bytes.len(),
{
    if bytes.len() > 0 {
        lemma_hex_of_len(bytes.drop_last());
    }
}

/// Relies on `hex::encode`: lower-case hex, two digits per byte, high
/// nibble first.
#[verifier::external_body]
fn hex_lower(data: &[u8]) -> (r: String)
    ensures
        r@ == hex_of(data@),
{
    hex::encode(data)
}

/// The bytes a hunk's digest is computed over: the display path, then
/// every line closed by a separator byte, so that differently split
/// lines never collide with a concatenation.
pub open spec fn lines_bytes(ls: Seq<Seq<char>>) -> Seq<u8>
    decreases ls.len(),
{
    if ls.len() == 0 {
        Seq::empty()
    } else {
        lines_bytes(ls.drop_last()) + encode_utf8(ls.last()) + seq![10u8]
    }
}

/// The digest input for one hunk.
pub open spec fn id_message(h: HunkView) -> Seq<u8> {
    encode_utf8(h.file) + lines_bytes(h.lines)
}

/// The raw id of a hunk before any collision suffix: the hex of the
/// first four digest bytes, eight characters.
pub open spec fn spec_raw_id(h: HunkView) -> Seq<char> {
    hex_of(sha1_of(id_message(h)).take(4))
}

/// Builds the digest input bytes for one hunk.
fn id_message_bytes(hunk: &DiffHunk) -> (r: Vec<u8>)
    ensures
        r@ == id_message(hunk@),
{
    let mut buf: Vec<u8> = Vec::new();
    buf.extend_from_slice(hunk.file.as_str().as_bytes());
    let n = hunk.lines.len();
    let ghost ls = hunk@.lines;
    proof {
        assert(ls.take(0) =~= Seq::<Seq<char>>::empty());
        assert(buf@ =~= encode_utf8(hunk@.file) + lines_bytes(ls.take(0)));
    }
    let mut i: usize = 0;
    while i < n
        invariant
            n == hunk@.lines.len(),
            ls == hunk@.lines,
            i <= n,
            buf@ == encode_utf8(hunk@.file) + lines_bytes(ls.take(i as int)),
        decreases n - i,
    {
        proof {
            assert(ls.take(i + 1).drop_last() =~= ls.take(i as int));
            assert(ls.take(i + 1).last() == ls[i as int]);
        }
        buf.extend_from_slice(hunk.lines[i].as_str().as_bytes());
        buf.push(10u8);
        proof {
            assert(buf@ =~= encode_utf8(hunk@.file) + lines_bytes(ls.take(i + 1)));
        }
        i += 1;
    }
    proof {
        assert(ls.take(n as int) =~= ls);
    }
    buf
}

/// The first `n` bytes of a vector.
fn prefix_bytes(v: &Vec<u8>, n: usize) -> (r: Vec<u8>)
    requires
        n <= v@.len(),
    ensures
        r@ == v@.take(n as int),
{
    let mut r: Vec<u8> = Vec::new();
    let mut i: usize = 0;
    while i < n
        invariant
            n <= v@.len(),
            i <= n,
            r@ == v@.take(i as int),
        decreases n - i,
    {
        r.push(v[i]);
        proof {
            assert(r@ =~= v@.take(i + 1));
        }
        i += 1;
    }
    r
}

/// Computes the eight-character raw hash of a hunk: the display path and
/// every line (each closed by a separator byte) digested, the first four
/// digest bytes in hex.
fn compute_raw_id(hunk: &DiffHunk) -> (r: String)
    ensures
        r@ == spec_raw_id(hunk@),
        r@.len() == 8,
{
    let msg = id_message_bytes(hunk);
    let digest = sha1_digest(msg.as_slice());
    let four = prefix_bytes(&digest, 4);
    let r = hex_lower(four.as_slice());
    proof {
        lemma_hex_of_len(sha1_of(id_message(hunk@)).take(4));
    }
    r
}

/// How many of the first `i` hunks carry the raw prefix `key`.
pub open spec fn count_prefix_matches(hunks: Seq<HunkView>, key: Seq<char>, i: int) -> nat
    decreases i,
{
    if i <= 0 {
        0
    } else {
        count_prefix_matches(hunks, key, i - 1) + if spec_raw_id(hunks[i - 1]).take(7) == key {
            1nat
        } else {
            0nat
        }
    }
}

/// The id assigned to hunk `i` of a listing: the seven-character prefix
/// of its raw hash, and for the Nth repetition of one prefix (N at least
/// two) the suffix `-N`.
pub open spec fn spec_assigned_id(hunks: Seq<HunkView>, i: int) -> Seq<char> {
    let key = spec_raw_id(hunks[i]).take(7);
    let occurrence = count_prefix_matches(hunks, key, i) + 1;
    if occurrence == 1 {
        key
    } else {
        key + "-"@ + dec_digits(occurrence)
    }
}

/// Assigns ids to hunks in listing order: each the seven-character hex
/// prefix of its content digest, repeated content within the listing
/// taking `-2`, `-3`, ... from its second occurrence on.
pub fn assign_ids<'a>(hunks: &'a [DiffHunk]) -> (r: Vec<(String, &'a DiffHunk)>)
    ensures
        r@.len() == hunks@.len(),
        forall|i: int| 0 <= i < r@.len() ==> (#[trigger] r@[i]).0@ == spec_assigned_id(
            hunks.deep_view(),
            i,
        ) && r@[i].1@ == hunks.deep_view()[i],
{
    let ghost hv = hunks.deep_view();
    let n = hunks.len();
    let mut seen: Vec<(String, usize)> = Vec::new();
    let mut result: Vec<(String, &DiffHunk)> = Vec::new();
    proof {
        assert(hunks@.len() == hv.len());
    }
    let mut i: usize = 0;
    while i < n
        invariant
            n == hunks@.len(),
            hv == hunks.deep_view(),
            hv.len() == n,
            i <= n,
            result@.len() == i,
            forall|j: int| 0 <= j < i ==> (#[trigger] result@[j]).0@ == spec_assigned_id(hv, j)
                && result@[j].1@ == hv[j],
            forall|j: int| 0 <= j < seen@.len() ==> (#[trigger] seen@[j]).1
                == count_prefix_matches(hv, seen@[j].0@, i as int) && seen@[j].1 >= 1,
            forall|j1: int, j2: int| 0 <= j1 < j2 < seen@.len() ==> (#[trigger] seen@[j1]).0@ != (
            #[trigger] seen@[j2]).0@,
            forall|key: Seq<char>| count_prefix_matches(hv, key, i as int) > 0 ==> exists|j: int|
                0 <= j < seen@.len() && (#[trigger] seen@[j]).0@ == key,
        decreases n - i,
    {
        let raw = compute_raw_id(&hunks[i]);
        let prefix = crate::text::str_take(raw.as_str(), 7);
        let ghost key = spec_raw_id(hv[i as int]).take(7);
        proof {
            assert(hunks@[i as int]@ == hv[i as int]);
            assert(prefix@ == key);
        }
        let found = find_seen(&seen, &prefix);
        let ghost cnt_before = count_prefix_matches(hv, key, i as int);
        let ghost seen0 = seen@;
        let ghost fpos: int = match found { Some(f) => f as int, None => -1 };
        let occurrence: usize;
        match found {
            Some(f) => {
                let c = seen[f].1;
                proof {
                    lemma_count_prefix_le(hv, key, i as int);
                    assert(c == cnt_before);
                    assert(cnt_before < n);
                }
                occurrence = c + 1;
                let removed = seen.remove(f);
                seen.push((removed.0, occurrence));
            },
            None => {
                proof {
                    if cnt_before > 0 {
                        let j0 = choose|j0: int|
                            0 <= j0 < seen@.len() && (#[trigger] seen@[j0]).0@ == key;
                        assert(false);
                    }
                }
                occurrence = 1;
                seen.push((prefix.clone(), 1));
            },
        }
        proof {
            assert(seen@.last().0@ == key);
            assert forall|key2: Seq<char>| #[trigger] count_prefix_matches(hv, key2, i + 1) > 0 implies exists|j: int|
                0 <= j < seen@.len() && (#[trigger] seen@[j]).0@ == key2 by {
                if key2 == key {
                    assert(seen@[seen@.len() - 1].0@ == key2);
                } else {
                    assert(count_prefix_matches(hv, key2, i + 1) == count_prefix_matches(
                        hv,
                        key2,
                        i as int,
                    ));
                    let j0 = choose|j0: int|
                        0 <= j0 < seen0.len() && (#[trigger] seen0[j0]).0@ == key2;
                    if fpos == -1 {
                        assert(seen@[j0].0@ == key2);
                    } else if j0 < fpos {
                        assert(seen@[j0].0@ == key2);
                    } else {
                        assert(j0 != fpos);
                        assert(seen@[j0 - 1].0@ == key2);
                    }
                }
            }
        }
        let id = if occurrence == 1 {
            prefix
        } else {
            let mut s = prefix;
            s.append("-");
            crate::text::push_decimal(&mut s, occurrence);
            s
        };
        proof {
            assert(id@ == spec_assigned_id(hv, i as int));
        }
        result.push((id, &hunks[i]));
        proof {
            assert(count_prefix_matches(hv, key, i + 1) == cnt_before + 1);
            assert forall|key2: Seq<char>| key2 != key implies count_prefix_matches(
                hv,
                key2,
                i + 1,
            ) == count_prefix_matches(hv, key2, i as int) by {}
        }
        i += 1;
    }
    result
}

/// Looks a prefix up in the running occurrence table.
fn find_seen(seen: &Vec<(String, usize)>, prefix: &String) -> (found: Option<usize>)
    ensures
        match found {
            Some(f) => f < seen@.len() && seen@[f as int].0@ == prefix@,
            None => forall|k: int| 0 <= k < seen@.len() ==> (#[trigger] seen@[k]).0@ != prefix@,
        },
{
    let sn = seen.len();
    let mut j: usize = 0;
    while j < sn
        invariant
            sn == seen@.len(),
            j <= sn,
            forall|k: int| 0 <= k < j ==> (#[trigger] seen@[k]).0@ != prefix@,
        decreases sn - j,
    {
        if seen[j].0 == *prefix {
            return Some(j);
        }
        j += 1;
    }
    None
}

/// Law: id assignment is deterministic. Two id sequences computed over
/// the same hunk sequence, each as `assign_ids` promises them, are
/// identical, element for element and in order.
pub proof fn lemma_assign_ids_deterministic(
    hunks: Seq<HunkView>,
    a: Seq<Seq<char>>,
    b: Seq<Seq<char>>,
)
    requires
        a.len() == hunks.len(),
        b.len() == hunks.len(),
        forall|i: int| 0 <= i < hunks.len() ==> a[i] == spec_assigned_id(hunks, i),
        forall|i: int| 0 <= i < hunks.len() ==> b[i] == spec_assigned_id(hunks, i),
    ensures
        a == b,
{
    assert(a =~= b);
}

/// Counting over a longer prefix never loses occurrences.
proof fn lemma_count_prefix_monotone(hunks: Seq<HunkView>, key: Seq<char>, i: int, j: int)
    requires
        i <= j,
    ensures
        count_prefix_matches(hunks, key, i) <= count_prefix_matches(hunks, key, j),
    decreases j - i,
{
    if i < j {
        lemma_count_prefix_monotone(hunks, key, i, j - 1);
    }
}

/// Law: two hunks of one listing with the same display path and the same
/// lines always receive distinct ids, whatever their header offsets: the
/// later one carries a strictly larger occurrence number, so either the
/// earlier id is the bare prefix and the later one is longer, or their
/// numeric suffixes differ.
pub proof fn lemma_identical_hunks_distinct_ids(hunks: Seq<HunkView>, i: int, j: int)
    requires
        0 <= i < j < hunks.len(),
        hunks[i].file == hunks[j].file,
        hunks[i].lines == hunks[j].lines,
    ensures
        spec_assigned_id(hunks, i) != spec_assigned_id(hunks, j),
{
    let key = spec_raw_id(hunks[i]).take(7);
    assert(id_message(hunks[i]) == id_message(hunks[j]));
    assert(spec_raw_id(hunks[j]).take(7) == key);
    let ci = count_prefix_matches(hunks, key, i);
    let cj = count_prefix_matches(hunks, key, j);
    lemma_count_prefix_monotone(hunks, key, i + 1, j);
    assert(count_prefix_matches(hunks, key, i + 1) == ci + 1);
    assert(cj >= ci + 1);
    let id_i = spec_assigned_id(hunks, i);
    let id_j = spec_assigned_id(hunks, j);
    reveal_strlit("-");
    crate::text::lemma_dec_digits_value(cj + 1);
    assert(id_j == key + "-"@ + dec_digits((cj + 1) as nat));
    assert(id_j.len() > key.len());
    if ci == 0 {
        assert(id_i == key);
    } else {
        crate::text::lemma_dec_digits_value(ci + 1);
        assert(id_i == key + "-"@ + dec_digits((ci + 1) as nat));
        if id_i == id_j {
            let di = dec_digits((ci + 1) as nat);
            let dj = dec_digits((cj + 1) as nat);
            assert(id_i.len() == key.len() + 1 + di.len());
            assert(id_j.len() == key.len() + 1 + dj.len());
            assert(di.len() == dj.len());
            assert forall|k: int| 0 <= k < di.len() implies di[k] == dj[k] by {
                assert(id_i[key.len() + 1 + k] == di[k]);
                assert(id_j[key.len() + 1 + k] == dj[k]);
            }
            assert(di =~= dj);
            crate::text::lemma_dec_digits_injective((ci + 1) as nat, (cj + 1) as nat);
            assert(false);
        }
    }
}

/// A prefix occurs at most as often as there are hunks before `i`.
proof fn lemma_count_prefix_le(hunks: Seq<HunkView>, key: Seq<char>, i: int)
    ensures
        count_prefix_matches(hunks, key, i) <= if i >= 0 {
            i as nat
        } else {
            0nat
        },
    decreases i,
{
    if i > 0 {
        lemma_count_prefix_le(hunks, key, i - 1);
    }
}

} // verus!
