//! Character-level, case-insensitive literal matching, and byte offsets
//! of character positions.
//!
//! Matching compares the characters of a line and a pattern after a 1:1
//! case folding: a character whose Unicode lowercase mapping is a single
//! character folds to it, and a character whose lowercase form would
//! change the character count is left as it is. Matches are found at
//! character positions; the byte ranges reported to callers are derived
//! from those positions in the original text, so they always lie on
//! character boundaries of the unmodified line.
use vstd::prelude::*;

use vstd::string::StrSliceExecFns;
use vstd::utf8::{
    encode_utf8, is_char_boundary, length_of_first_scalar, pop_first_scalar, valid_utf8,
    valid_utf8_split,
};

verus! {

/// The lowercase mapping of one character, as `char::to_lowercase` yields
/// it: one or more characters, a function of the character alone.
pub uninterp spec fn full_lower(c: char) -> Seq<char>;

/// Relies on char::to_lowercase: yields the Unicode lowercase mapping of
/// the character, one or more characters, depending on nothing but the
/// character itself.
#[verifier::external_body]
fn lower_char_parts(c: char) -> (r: Vec<char>)
    ensures
        r@ == full_lower(c),
        r@.len() >= 1,
{
    c.to_lowercase().collect()
}

/// Case-folds one character, 1:1: a character whose lowercase mapping is
/// a single character folds to that character; one whose lowercase form
/// has several characters is left unchanged, so folding never moves
/// character positions.
pub open spec fn fold_char(c: char) -> char {
    if full_lower(c).len() == 1 {
        full_lower(c)[0]
    } else {
        c
    }
}

/// Executable character case-folding, equal to `fold_char`.
pub fn fold_char_exec(c: char) -> (r: char)
    ensures
        r == fold_char(c),
{
    let parts = lower_char_parts(c);
    if parts.len() == 1 {
        parts[0]
    } else {
        c
    }
}

/// Case-folds every character of a sequence.
pub open spec fn fold_seq(s: Seq<char>) -> Seq<char> {
    Seq::new(s.len(), |i: int| fold_char(s[i]))
}

/// Executable case-folding of a whole character sequence.
pub fn fold_chars(v: &Vec<char>) -> (r: Vec<char>)
    ensures
        r@ == fold_seq(v@),
{
    let n = v.len();
    let mut out: Vec<char> = Vec::new();
    let mut i: usize = 0;
    while i < n
        invariant
            n == v@.len(),
            0 <= i <= n,
            out@.len() == i,
            forall|k: int| 0 <= k < i ==> out@[k] == fold_char(v@[k]),
        decreases n - i,
    {
        out.push(fold_char_exec(v[i]));
        i = i + 1;
    }
    assert(out@ =~= fold_seq(v@));
    out
}

/// The characters of a string, as a vector.
pub fn str_chars(text: &str) -> (r: Vec<char>)
    ensures
        r@ == text@,
{
    let n = text.unicode_len();
    let mut out: Vec<char> = Vec::new();
    let mut i: usize = 0;
    while i < n
        invariant
            n == text@.len(),
            0 <= i <= n,
            out@.len() == i,
            forall|k: int| 0 <= k < i ==> out@[k] == text@[k],
        decreases n - i,
    {
        out.push(text.get_char(i));
        i = i + 1;
    }
    assert(out@ =~= text@);
    out
}

/// The already-folded pattern `fpat` matches `text` at character position
/// `i`, comparing character by character after case folding the text.
pub open spec fn match_at(text: Seq<char>, fpat: Seq<char>, i: int) -> bool {
    &&& 0 <= i
    &&& i + fpat.len() <= text.len()
    &&& forall|j: int| 0 <= j < fpat.len() ==> fold_char(text[i + j]) == fpat[j]
}

/// Some match of the folded pattern starts at or after position `from`.
pub open spec fn has_match_from(text: Seq<char>, fpat: Seq<char>, from: int) -> bool {
    exists|i: int| from <= i && match_at(text, fpat, i)
}

/// The literal, case-insensitive notion of "this pattern occurs in this
/// text". An empty pattern never matches.
pub open spec fn lit_match(text: Seq<char>, pat: Seq<char>) -> bool {
    pat.len() > 0 && has_match_from(text, fold_seq(pat), 0)
}

/// The character ranges found by the greedy left-to-right scan for the
/// folded pattern from position `from`: take the leftmost match, then
/// continue from its end, so that the chosen ranges never overlap.
pub open spec fn lit_ranges_from(text: Seq<char>, fpat: Seq<char>, from: int) -> Seq<(int, int)>
    decreases text.len() - from,
{
    if fpat.len() == 0 || from < 0 || from + fpat.len() > text.len() {
        Seq::empty()
    } else if match_at(text, fpat, from) {
        seq![(from, from + fpat.len())] + lit_ranges_from(text, fpat, from + fpat.len())
    } else {
        lit_ranges_from(text, fpat, from + 1)
    }
}

/// All character ranges of the greedy case-insensitive scan of `text` for
/// `pat`.
pub open spec fn lit_ranges(text: Seq<char>, pat: Seq<char>) -> Seq<(int, int)> {
    lit_ranges_from(text, fold_seq(pat), 0)
}

/// Whether the folded pattern matches `text` at position `i`, by direct
/// comparison of case-folded characters.
pub fn match_at_exec(text: &[char], fpat: &[char], i: usize) -> (r: bool)
    requires
        i + fpat@.len() <= text@.len(),
    ensures
        r == match_at(text@, fpat@, i as int),
{
    let n = text.len();
    let m = fpat.len();
    let mut j: usize = 0;
    while j < m
        invariant
            n == text@.len(),
            m == fpat@.len(),
            i + m <= n,
            0 <= j <= m,
            forall|k: int| 0 <= k < j ==> fold_char(text@[i + k]) == fpat@[k],
        decreases m - j,
    {
        if fold_char_exec(text[i + j]) != fpat[j] {
            assert(!match_at(text@, fpat@, i as int));
            return false;
        }
        j = j + 1;
    }
    true
}

/// The leftmost position at or after `from` where the folded pattern
/// matches `text`, or `None` when there is none.
pub fn find_from(text: &[char], fpat: &[char], from: usize) -> (r: Option<usize>)
    requires
        fpat@.len() >= 1,
    ensures
        match r {
            Some(i) => from <= i && match_at(text@, fpat@, i as int) && forall|j: int|
                from <= j < i ==> !match_at(text@, fpat@, j),
            None => forall|j: int| from <= j ==> !match_at(text@, fpat@, j),
        },
{
    if text.len() < fpat.len() {
        return None;
    }
    let last = text.len() - fpat.len();
    if from > last {
        assert(forall|j: int| from <= j ==> !match_at(text@, fpat@, j));
        return None;
    }
    let mut i: usize = from;
    while i <= last
        invariant
            fpat@.len() >= 1,
            text@.len() <= usize::MAX,
            last == text@.len() - fpat@.len(),
            from <= i <= last + 1,
            forall|j: int| from <= j < i ==> !match_at(text@, fpat@, j),
        decreases last + 1 - i,
    {
        if match_at_exec(text, fpat, i) {
            return Some(i);
        }
        i = i + 1;
    }
    assert(forall|j: int| j > last ==> !match_at(text@, fpat@, j));
    None
}

/// Whether the folded pattern occurs anywhere in `text`; an empty pattern
/// never occurs.
pub fn has_match_exec(text: &[char], fpat: &[char]) -> (r: bool)
    ensures
        r == (fpat@.len() > 0 && has_match_from(text@, fpat@, 0)),
{
    if fpat.len() == 0 {
        return false;
    }
    match find_from(text, fpat, 0) {
        Some(i) => {
            assert(has_match_from(text@, fpat@, 0));
            true
        },
        None => false,
    }
}

/// The byte `b` occurs somewhere in `s`.
pub open spec fn contains_byte(s: Seq<u8>, b: u8) -> bool {
    exists|i: int| 0 <= i < s.len() && s[i] == b
}

/// Whether the byte `b` occurs in the slice.
pub fn contains_byte_exec(v: &[u8], b: u8) -> (r: bool)
    ensures
        r == contains_byte(v@, b),
{
    let n = v.len();
    let mut i: usize = 0;
    while i < n
        invariant
            n == v@.len(),
            0 <= i <= n,
            forall|k: int| 0 <= k < i ==> v@[k] != b,
        decreases n - i,
    {
        if v[i] == b {
            return true;
        }
        i = i + 1;
    }
    false
}

/// The position of the first byte of `s` at or after `i` that is neither a
/// space nor a tab, or the length of `s` when there is none.
pub open spec fn skip_ws(s: Seq<u8>, i: int) -> int
    decreases s.len() - i,
{
    if 0 <= i < s.len() && (s[i] == 32 || s[i] == 9) {
        skip_ws(s, i + 1)
    } else {
        i
    }
}

/// The index of the first non-blank byte of the slice, or its length.
pub fn skip_ws_exec(v: &[u8]) -> (r: usize)
    ensures
        r == skip_ws(v@, 0),
{
    let n = v.len();
    let mut i: usize = 0;
    while i < n && (v[i] == 32 || v[i] == 9)
        invariant
            n == v@.len(),
            0 <= i <= n,
            skip_ws(v@, 0) == skip_ws(v@, i as int),
        decreases n - i,
    {
        i = i + 1;
    }
    i
}

/// With no match at or after `from`, the greedy scan records nothing.
pub proof fn lemma_lit_ranges_none(text: Seq<char>, fpat: Seq<char>, from: int)
    requires
        0 <= from,
        forall|j: int| from <= j ==> !match_at(text, fpat, j),
    ensures
        lit_ranges_from(text, fpat, from).len() == 0,
    decreases text.len() - from,
{
    if !(fpat.len() == 0 || from + fpat.len() > text.len()) {
        lemma_lit_ranges_none(text, fpat, from + 1);
    }
}

/// Skipping match-free positions does not change the greedy scan: if no
/// match starts in `[from, to)`, the scan from `from` equals the scan
/// from `to`.
pub proof fn lemma_lit_ranges_skip(text: Seq<char>, fpat: Seq<char>, from: int, to: int)
    requires
        0 <= from <= to,
        forall|j: int| from <= j < to ==> !match_at(text, fpat, j),
    ensures
        lit_ranges_from(text, fpat, from) == lit_ranges_from(text, fpat, to),
    decreases to - from,
{
    if from < to {
        if fpat.len() == 0 || from + fpat.len() > text.len() {
            lemma_lit_ranges_out(text, fpat, from, to);
        } else {
            lemma_lit_ranges_skip(text, fpat, from + 1, to);
        }
    }
}

/// Once the remaining text is shorter than the pattern (or the pattern is
/// empty), the greedy scan finds nothing, from any later position too.
proof fn lemma_lit_ranges_out(text: Seq<char>, fpat: Seq<char>, from: int, to: int)
    requires
        0 <= from <= to,
        fpat.len() == 0 || from + fpat.len() > text.len(),
    ensures
        lit_ranges_from(text, fpat, from) == Seq::<(int, int)>::empty(),
        lit_ranges_from(text, fpat, to) == Seq::<(int, int)>::empty(),
    decreases to - from,
{
    if from < to {
        lemma_lit_ranges_out(text, fpat, from + 1, to);
    }
}

/// Soundness and order of the greedy scan: every recorded range is a true
/// match of the pattern's length starting at or after `from`, and the
/// ranges are strictly ordered and pairwise non-overlapping.
pub proof fn lemma_lit_ranges_sound(text: Seq<char>, fpat: Seq<char>, from: int)
    ensures
        forall|k: int|
            0 <= k < lit_ranges_from(text, fpat, from).len() ==> {
                let r = #[trigger] lit_ranges_from(text, fpat, from)[k];
                &&& from <= r.0
                &&& r.1 == r.0 + fpat.len()
                &&& match_at(text, fpat, r.0)
            },
        forall|k: int, l: int|
            0 <= k < l < lit_ranges_from(text, fpat, from).len()
                ==> #[trigger] lit_ranges_from(text, fpat, from)[k].1
                <= #[trigger] lit_ranges_from(text, fpat, from)[l].0,
    decreases text.len() - from,
{
    let rs = lit_ranges_from(text, fpat, from);
    if fpat.len() == 0 || from < 0 || from + fpat.len() > text.len() {
    } else if match_at(text, fpat, from) {
        let next = from + fpat.len() as int;
        let tail = lit_ranges_from(text, fpat, next);
        lemma_lit_ranges_sound(text, fpat, next);
        assert(rs == seq![(from, next)] + tail);
        assert(rs[0] == (from, next));
        assert forall|k: int| 1 <= k < rs.len() implies rs[k] == tail[k - 1] by {}
    } else {
        lemma_lit_ranges_sound(text, fpat, from + 1);
        assert(rs == lit_ranges_from(text, fpat, from + 1));
    }
}

/// Completeness of the greedy scan: every position at or after `from`
/// where the pattern matches lies inside one of the recorded ranges.
pub proof fn lemma_lit_ranges_complete(text: Seq<char>, fpat: Seq<char>, from: int, i: int)
    requires
        0 <= from <= i,
        fpat.len() > 0,
        match_at(text, fpat, i),
    ensures
        exists|k: int|
            0 <= k < lit_ranges_from(text, fpat, from).len()
                && (#[trigger] lit_ranges_from(text, fpat, from)[k]).0 <= i
                < lit_ranges_from(text, fpat, from)[k].1,
    decreases i - from,
{
    let rs = lit_ranges_from(text, fpat, from);
    if match_at(text, fpat, from) {
        if i < from + fpat.len() {
            assert(rs[0] == (from, from + fpat.len()));
        } else {
            lemma_lit_ranges_complete(text, fpat, from + fpat.len() as int, i);
            let tail = lit_ranges_from(text, fpat, from + fpat.len() as int);
            let k = choose|k: int| 0 <= k < tail.len() && (#[trigger] tail[k]).0 <= i < tail[k].1;
            assert(rs[k + 1] == tail[k]);
        }
    } else {
        assert(from + fpat.len() <= text.len()) by {
            assert(i + fpat.len() <= text.len());
        }
        if i == from {
            assert(false);
        } else {
            lemma_lit_ranges_complete(text, fpat, from + 1, i);
            assert(rs == lit_ranges_from(text, fpat, from + 1));
        }
    }
}

/// The greedy scan finds a range exactly when the pattern occurs at all.
pub proof fn lemma_lit_ranges_nonempty(text: Seq<char>, pat: Seq<char>)
    ensures
        lit_ranges(text, pat).len() > 0 <==> lit_match(text, pat),
{
    let fpat = fold_seq(pat);
    if lit_match(text, pat) {
        let i = choose|i: int| 0 <= i && match_at(text, fpat, i);
        lemma_lit_ranges_complete(text, fpat, 0, i);
    }
    if lit_ranges(text, pat).len() > 0 {
        lemma_lit_ranges_sound(text, fpat, 0);
        assert(match_at(text, fpat, lit_ranges(text, pat)[0].0));
    }
}

/// The byte offset at which character position `k` starts in a line: the
/// UTF-8 length of the first `k` characters (of all of them when `k` is
/// past the end).
pub open spec fn spec_char_byte_offset(s: Seq<char>, k: int) -> int {
    if k <= s.len() {
        encode_utf8(s.take(k)).len() as int
    } else {
        encode_utf8(s).len() as int
    }
}

/// The byte offset in `text` where the character at position `k` starts,
/// clamped to the end of the text.
pub fn char_byte_offset(text: &str, k: usize) -> (r: usize)
    ensures
        r == spec_char_byte_offset(text@, k as int),
{
    let n = text.unicode_len();
    let kk = if k > n {
        n
    } else {
        k
    };
    let prefix = text.substring_char(0, kk);
    let b = prefix.as_bytes();
    proof {
        if k <= text@.len() {
            assert(prefix@ =~= text@.take(k as int));
        } else {
            assert(prefix@ =~= text@);
        }
    }
    b.len()
}

/// UTF-8 encoding splits over a character split: the bytes of the whole
/// sequence are the bytes of the first `k` characters followed by the
/// bytes of the rest.
pub proof fn lemma_encode_split(s: Seq<char>, k: int)
    requires
        0 <= k <= s.len(),
    ensures
        encode_utf8(s) == encode_utf8(s.take(k)) + encode_utf8(s.skip(k)),
    decreases k,
{
    if k == 0 {
        assert(s.take(0) =~= Seq::<char>::empty());
        assert(s.skip(0) =~= s);
        assert(encode_utf8(s) =~= encode_utf8(s.take(0)) + encode_utf8(s.skip(0)));
    } else {
        let d = s.drop_first();
        lemma_encode_split(d, k - 1);
        assert(s.take(k).drop_first() =~= d.take(k - 1));
        assert(s.skip(k) =~= d.skip(k - 1));
        assert(s.take(k)[0] == s[0]);
        assert(encode_utf8(s.take(k)) == vstd::utf8::encode_scalar(s[0] as u32) + encode_utf8(
            d.take(k - 1),
        ));
        assert(encode_utf8(s) =~= encode_utf8(s.take(k)) + encode_utf8(s.skip(k)));
    }
}

/// A sequence of characters encodes to at least one byte per character.
pub proof fn lemma_encode_len_ge(s: Seq<char>)
    ensures
        encode_utf8(s).len() >= s.len(),
    decreases s.len(),
{
    if s.len() > 0 {
        lemma_encode_len_ge(s.drop_first());
        assert(vstd::utf8::encode_scalar(s[0] as u32).len() >= 1);
    }
}

/// The byte offsets of character positions grow with the position, by at
/// least one byte per character in between, and never pass the end of the
/// encoded line.
pub proof fn lemma_char_offsets_ordered(s: Seq<char>, i: int, j: int)
    requires
        0 <= i <= j <= s.len(),
    ensures
        spec_char_byte_offset(s, i) + (j - i) <= spec_char_byte_offset(s, j),
        spec_char_byte_offset(s, j) <= encode_utf8(s).len(),
{
    lemma_encode_split(s.take(j), i);
    assert(s.take(j).take(i) =~= s.take(i));
    assert(s.take(j).skip(i) =~= s.subrange(i, j));
    lemma_encode_len_ge(s.subrange(i, j));
    lemma_encode_split(s, j);
    if j == s.len() {
        assert(s.take(j) =~= s);
    }
}

/// Walking one whole scalar forward from a character boundary lands on a
/// character boundary again.
proof fn lemma_boundary_step(text: Seq<u8>, p: int, w: int)
    requires
        valid_utf8(text),
        is_char_boundary(text, p),
        0 <= p < text.len(),
        w == length_of_first_scalar(text.subrange(p, text.len() as int)),
    ensures
        is_char_boundary(text, p + w),
    decreases text.len(),
{
    valid_utf8_split(text, p);
    let suffix = text.subrange(p, text.len() as int);
    assert(1 <= w <= suffix.len());
    if p == 0 {
        assert(suffix =~= text);
        assert(is_char_boundary(pop_first_scalar(text), 0));
    } else {
        let w0 = length_of_first_scalar(text);
        let rest = pop_first_scalar(text);
        assert(rest =~= text.subrange(w0, text.len() as int));
        assert(rest.subrange(p - w0, rest.len() as int) =~= suffix);
        lemma_boundary_step(rest, p - w0, w);
    }
}

/// The byte offset of every character position is a character boundary of
/// the encoded line.
pub proof fn lemma_char_offset_boundary(s: Seq<char>, i: int)
    requires
        0 <= i <= s.len(),
    ensures
        is_char_boundary(encode_utf8(s), spec_char_byte_offset(s, i)),
    decreases i,
{
    let bytes = encode_utf8(s);
    vstd::utf8::encode_utf8_valid_utf8(s);
    if i == 0 {
        assert(s.take(0) =~= Seq::<char>::empty());
    } else {
        lemma_char_offset_boundary(s, i - 1);
        let p = spec_char_byte_offset(s, i - 1);
        lemma_encode_split(s, i - 1);
        let suffix = s.skip(i - 1);
        assert(bytes.subrange(p, bytes.len() as int) =~= encode_utf8(suffix));
        assert(suffix.len() > 0);
        vstd::utf8::encode_utf8_first_scalar(suffix);
        let w = vstd::utf8::encode_scalar(suffix[0] as u32).len() as int;
        lemma_char_offsets_ordered(s, i, s.len() as int);
        lemma_char_offsets_ordered(s, i - 1, i);
        assert(p < bytes.len());
        assert(spec_char_byte_offset(s, i) == p + w) by {
            lemma_encode_split(s.take(i), i - 1);
            assert(s.take(i).take(i - 1) =~= s.take(i - 1));
            assert(s.take(i).skip(i - 1) =~= seq![s[i - 1]]);
            let single = seq![s[i - 1]];
            assert(single.drop_first() =~= Seq::<char>::empty());
            assert(encode_utf8(single.drop_first()) =~= Seq::<u8>::empty());
            assert(encode_utf8(single) =~= vstd::utf8::encode_scalar(single[0] as u32)
                + encode_utf8(single.drop_first()));
            assert(encode_utf8(single) =~= vstd::utf8::encode_scalar(s[i - 1] as u32));
            assert(suffix[0] == s[i - 1]);
        }
        lemma_boundary_step(bytes, p, w);
    }
}

} // verus!
