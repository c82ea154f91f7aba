//! The filter engine: a user-editable query in literal or regex mode,
//! with match discovery as byte ranges.
//!
//! Literal mode is a case-insensitive substring scan over characters (see
//! `crate::text`); the byte ranges it reports are derived from the match's
//! character positions in the original line. Regex mode uses a compiled
//! matcher from the `regex` crate; when the pattern does not compile, the
//! filter degrades to the same case-insensitive literal scan over the raw
//! pattern, so the filter stays active and usable. An empty pattern
//! matches nothing in either mode.
use vstd::prelude::*;

use crate::text::{
    char_byte_offset, find_from, fold_chars, fold_seq, has_match_exec, lemma_char_offset_boundary,
    lemma_char_offsets_ordered, lemma_lit_ranges_none, lemma_lit_ranges_skip,
    lemma_lit_ranges_sound, lit_match, lit_ranges, lit_ranges_from, match_at,
    spec_char_byte_offset, str_chars,
};
use vstd::string::StringSliceAdditionalSpecFns;
use vstd::utf8::encode_utf8;

verus! {

/// A half-open byte interval `[start, end)` within one line's text where
/// the filter matched.
#[derive(Clone, Copy, Debug, PartialEq, Eq, Structural)]
pub struct MatchRange {
    pub start: usize,
    pub end: usize,
}

/// A named, inert filter record; reactivating it builds a fresh
/// `ActiveFilter` from the pattern and mode.
#[derive(Clone, Debug)]
pub struct SavedFilter {
    pub name: String,
    pub pattern: String,
    pub is_regex: bool,
}

#[verifier::external_type_specification]
#[verifier::external_body]
pub struct ExRegex(regex::Regex);

/// The pattern a compiled regex was built from, as `regex::Regex::as_str`
/// reports it.
pub uninterp spec fn regex_source(re: regex::Regex) -> Seq<char>;

/// Whether `regex::Regex::new` accepts a pattern; success depends on the
/// pattern text alone.
pub uninterp spec fn regex_accepts(pat: Seq<char>) -> bool;

/// The byte ranges of the successive non-overlapping matches that
/// `regex::Regex::find_iter` yields for the given pattern on the given
/// text, in left-to-right order.
pub uninterp spec fn regex_found(pat: Seq<char>, text: Seq<char>) -> Seq<(int, int)>;

/// Relies on regex::Regex::new: it returns Ok exactly when the pattern is
/// a valid regex (within the default size limit), and the compiled value
/// remembers the pattern it was built from.
#[verifier::external_body]
fn compile_regex(pat: &str) -> (r: Option<regex::Regex>)
    ensures
        r is Some <==> regex_accepts(pat@),
        r is Some ==> regex_source(r->0) == pat@,
{
    regex::Regex::new(pat).ok()
}

/// Relies on regex::Regex::is_match: true if and only if there is a match
/// anywhere in the haystack, i.e. iff `find_iter` would yield one.
#[verifier::external_body]
fn regex_is_match(re: &regex::Regex, line: &str) -> (r: bool)
    ensures
        r == (regex_found(regex_source(*re), line@).len() > 0),
{
    re.is_match(line)
}

/// Relies on regex::Regex::find_iter and regex::Match::start/end:
/// successive non-overlapping matches in left-to-right order, with byte
/// offsets into the haystack satisfying start <= end <= haystack length.
/// Starts increase strictly: the iterator resumes at each match's end and
/// bumps one position past an empty match at the previous match's end.
#[verifier::external_body]
fn regex_find_ranges(re: &regex::Regex, line: &str) -> (r: Vec<MatchRange>)
    ensures
        ranges_of(r@) == regex_found(regex_source(*re), line@),
        forall|k: int|
            0 <= k < r@.len() ==> (#[trigger] r@[k]).start <= r@[k].end && r@[k].end
                <= line.spec_bytes().len(),
        forall|k: int| 1 <= k < r@.len() ==> r@[k - 1].end <= (#[trigger] r@[k]).start,
        forall|k: int| 1 <= k < r@.len() ==> r@[k - 1].start < (#[trigger] r@[k]).start,
{
    let mut v = Vec::new();
    for m in re.find_iter(line) {
        v.push(MatchRange { start: m.start(), end: m.end() });
    }
    v
}

/// The byte intervals of a sequence of match ranges, as integer pairs.
pub open spec fn ranges_of(ms: Seq<MatchRange>) -> Seq<(int, int)> {
    Seq::new(ms.len(), |i: int| (ms[i].start as int, ms[i].end as int))
}

/// Character ranges of a line turned into byte ranges: each endpoint is
/// the byte offset at which that character position starts in the line.
pub open spec fn byte_ranges_of(line: Seq<char>, crs: Seq<(int, int)>) -> Seq<(int, int)> {
    Seq::new(
        crs.len(),
        |k: int| (spec_char_byte_offset(line, crs[k].0), spec_char_byte_offset(line, crs[k].1)),
    )
}

/// The current query: the pattern text, the regex/literal mode, the
/// compiled matcher when regex mode is on and compilation succeeded, and
/// the case-folded pattern characters used by the literal scan.
pub struct ActiveFilter {
    /// The pattern string.
    pub pattern: String,
    /// Whether to treat the pattern as a regex.
    pub is_regex: bool,
    /// Compiled regex (if `is_regex` is true and the pattern is valid).
    pub compiled: Option<regex::Regex>,
    /// Case-folded pattern characters for the case-insensitive scan.
    pub pattern_lower: Vec<char>,
}

impl ActiveFilter {
    /// The filter's internal consistency: a compiled matcher is present
    /// only in regex mode and was built from this very pattern, and the
    /// folded pattern is the case-folded form of the pattern's characters.
    pub open spec fn wf(self) -> bool {
        &&& self.compiled is Some ==> self.is_regex && regex_source(self.compiled->0)
            == self.pattern@
        &&& self.pattern_lower@ == fold_seq(self.pattern@)
    }

    /// Whether this filter is in regex mode with a usable compiled matcher.
    pub open spec fn uses_regex(self) -> bool {
        self.is_regex && self.compiled is Some
    }

    /// What this filter matches: nothing for an empty pattern; the
    /// compiled regex's matches in regex mode; otherwise a case-insensitive
    /// literal occurrence of the pattern (also the fallback for a regex
    /// that did not compile).
    pub open spec fn spec_matches(self, line: Seq<char>) -> bool {
        if self.pattern@.len() == 0 {
            false
        } else if self.uses_regex() {
            regex_found(self.pattern@, line).len() > 0
        } else {
            lit_match(line, self.pattern@)
        }
    }

    /// The match ranges this filter finds, as byte intervals: none for an
    /// empty pattern; the regex's non-overlapping matches in regex mode;
    /// otherwise the greedy case-insensitive literal scan's character
    /// ranges, read as byte offsets of the original line.
    pub open spec fn spec_find(self, line: Seq<char>) -> Seq<(int, int)> {
        if self.pattern@.len() == 0 {
            Seq::empty()
        } else if self.uses_regex() {
            regex_found(self.pattern@, line)
        } else {
            byte_ranges_of(line, lit_ranges(line, self.pattern@))
        }
    }

    /// Builds a filter from a pattern and a mode flag. Regex compilation
    /// is attempted exactly when `is_regex` is set; on failure the filter
    /// still works, in literal fallback mode.
    pub fn new(pattern: String, is_regex: bool) -> (r: Self)
        ensures
            r.wf(),
            r.pattern@ == pattern@,
            r.is_regex == is_regex,
            r.uses_regex() <==> is_regex && regex_accepts(pattern@),
    {
        let compiled = if is_regex {
            compile_regex(pattern.as_str())
        } else {
            None
        };
        let pattern_lower = fold_chars(&str_chars(pattern.as_str()));
        ActiveFilter { pattern, is_regex, compiled, pattern_lower }
    }

    /// Whether a line matches this filter.
    pub fn matches(&self, line: &str) -> (r: bool)
        requires
            self.wf(),
        ensures
            r == self.spec_matches(line@),
    {
        if self.pattern.as_str().is_empty() {
            return false;
        }
        if self.is_regex {
            if let Some(re) = &self.compiled {
                return regex_is_match(re, line);
            }
        }
        let chars = str_chars(line);
        has_match_exec(chars.as_slice(), self.pattern_lower.as_slice())
    }

    /// All match ranges of this filter in a line, in left-to-right order
    /// with strictly increasing starts, pairwise non-overlapping, within
    /// the line's byte length.
    pub fn find_matches(&self, line: &str) -> (r: Vec<MatchRange>)
        requires
            self.wf(),
        ensures
            ranges_of(r@) == self.spec_find(line@),
            forall|k: int|
                0 <= k < r@.len() ==> (#[trigger] r@[k]).start <= r@[k].end && r@[k].end
                    <= line.spec_bytes().len(),
            forall|k: int| 1 <= k < r@.len() ==> r@[k - 1].end <= (#[trigger] r@[k]).start,
            forall|k: int| 1 <= k < r@.len() ==> r@[k - 1].start < (#[trigger] r@[k]).start,
    {
        if self.pattern.as_str().is_empty() {
            let r: Vec<MatchRange> = Vec::new();
            assert(ranges_of(r@) =~= self.spec_find(line@));
            return r;
        }
        if self.is_regex {
            if let Some(re) = &self.compiled {
                return regex_find_ranges(re, line);
            }
        }
        let mut out: Vec<MatchRange> = Vec::new();
        self.find_substring_matches(line, &mut out);
        proof {
            let fpat = fold_seq(self.pattern@);
            let crs = lit_ranges(line@, self.pattern@);
            lemma_lit_ranges_sound(line@, fpat, 0);
            assert(ranges_of(out@) =~= self.spec_find(line@));
            assert forall|k: int|
                0 <= k < out@.len() implies (#[trigger] out@[k]).start <= out@[k].end
                && out@[k].end <= line.spec_bytes().len() by {
                assert(ranges_of(out@)[k] == byte_ranges_of(line@, crs)[k]);
                assert(match_at(line@, fpat, crs[k].0));
                lemma_char_offsets_ordered(line@, crs[k].0, crs[k].1);
                lemma_char_offsets_ordered(line@, crs[k].1, line@.len() as int);
            }
            assert forall|k: int| 1 <= k < out@.len() implies out@[k - 1].end
                <= (#[trigger] out@[k]).start && out@[k - 1].start < out@[k].start by {
                assert(ranges_of(out@)[k - 1] == byte_ranges_of(line@, crs)[k - 1]);
                assert(ranges_of(out@)[k] == byte_ranges_of(line@, crs)[k]);
                assert(match_at(line@, fpat, crs[k - 1].0));
                assert(match_at(line@, fpat, crs[k].0));
                assert(crs[k - 1].1 <= crs[k].0);
                lemma_char_offsets_ordered(line@, crs[k - 1].1, crs[k].0);
                lemma_char_offsets_ordered(line@, crs[k - 1].0, crs[k].0);
            }
        }
        out
    }

    /// Appends the match ranges of the greedy case-insensitive literal
    /// scan of `line` for this filter's pattern, resuming after each
    /// match's end so that recorded ranges never overlap; each character
    /// range is recorded as the byte range it spans in the line.
    fn find_substring_matches(&self, line: &str, matches: &mut Vec<MatchRange>)
        requires
            self.wf(),
        ensures
            ranges_of(final(matches)@) == ranges_of(old(matches)@) + byte_ranges_of(
                line@,
                lit_ranges(line@, self.pattern@),
            ),
    {
        let ghost crs = lit_ranges(line@, self.pattern@);
        let chars = str_chars(line);
        if self.pattern_lower.len() == 0 {
            assert(lit_ranges_from(chars@, self.pattern_lower@, 0) =~= Seq::<(int, int)>::empty());
            assert(ranges_of(matches@) =~= ranges_of(matches@) + byte_ranges_of(line@, crs));
            return ;
        }
        let n = chars.len();
        let plen = self.pattern_lower.len();
        let mut start: usize = 0;
        loop
            invariant
                self.wf(),
                n == chars@.len(),
                chars@ == line@,
                crs == lit_ranges(line@, self.pattern@),
                plen == self.pattern_lower@.len(),
                plen >= 1,
                0 <= start,
                ranges_of(matches@) == ranges_of(old(matches)@) + byte_ranges_of(
                    line@,
                    crs.take(matches@.len() - old(matches)@.len()),
                ),
                matches@.len() >= old(matches)@.len(),
                crs == crs.take(matches@.len() - old(matches)@.len()) + lit_ranges_from(
                    chars@,
                    self.pattern_lower@,
                    start as int,
                ),
                crs.len() == (matches@.len() - old(matches)@.len()) + lit_ranges_from(
                    chars@,
                    self.pattern_lower@,
                    start as int,
                ).len(),
            decreases n + 1 - start,
        {
            match find_from(chars.as_slice(), self.pattern_lower.as_slice(), start) {
                Some(pos) => {
                    proof {
                        lemma_lit_ranges_skip(chars@, self.pattern_lower@, start as int, pos as int);
                    }
                    let c_end = pos + plen;
                    proof {
                        let folded = self.pattern_lower@;
                        let done = matches@.len() - old(matches)@.len();
                        assert(lit_ranges_from(chars@, folded, pos as int) =~= seq![
                            (pos as int, c_end as int),
                        ] + lit_ranges_from(chars@, folded, c_end as int));
                        assert(crs =~= crs.take(done) + (seq![(pos as int, c_end as int)]
                            + lit_ranges_from(chars@, folded, c_end as int)));
                        assert(crs.len() >= done + 1);
                        assert(crs[done] == (pos as int, c_end as int));
                        assert(crs.take(done + 1) =~= crs.take(done) + seq![
                            (pos as int, c_end as int),
                        ]);
                        assert(crs =~= crs.take(done + 1) + lit_ranges_from(
                            chars@,
                            folded,
                            c_end as int,
                        ));
                    }
                    let b_start = char_byte_offset(line, pos);
                    let b_end = char_byte_offset(line, c_end);
                    let ghost ms0 = matches@;
                    matches.push(MatchRange { start: b_start, end: b_end });
                    proof {
                        let done = matches@.len() - old(matches)@.len();
                        assert(ranges_of(matches@) =~= ranges_of(ms0) + seq![
                            (b_start as int, b_end as int),
                        ]);
                        assert(byte_ranges_of(line@, crs.take(done)) =~= byte_ranges_of(
                            line@,
                            crs.take(done - 1),
                        ) + seq![(b_start as int, b_end as int)]);
                        assert(ranges_of(matches@) =~= ranges_of(old(matches)@) + byte_ranges_of(
                            line@,
                            crs.take(done),
                        ));
                    }
                    start = c_end;
                },
                None => {
                    proof {
                        lemma_lit_ranges_none(chars@, self.pattern_lower@, start as int);
                        let done = matches@.len() - old(matches)@.len();
                        assert(crs =~= crs.take(done));
                        assert(byte_ranges_of(line@, crs.take(done)) =~= byte_ranges_of(
                            line@,
                            crs,
                        ));
                        assert(ranges_of(matches@) =~= ranges_of(old(matches)@) + byte_ranges_of(
                            line@,
                            crs,
                        ));
                    }
                    return ;
                },
            }
        }
    }
}

/// An empty pattern finds nothing and matches nothing, in any mode and on
/// any text.
pub proof fn lemma_empty_pattern_finds_nothing(f: ActiveFilter, line: Seq<char>)
    requires
        f.pattern@.len() == 0,
    ensures
        f.spec_find(line) == Seq::<(int, int)>::empty(),
        !f.spec_matches(line),
{
}

/// A filter matches a line exactly when it finds at least one range there.
pub proof fn lemma_matches_iff_finds(f: ActiveFilter, line: Seq<char>)
    ensures
        f.spec_matches(line) <==> f.spec_find(line).len() > 0,
{
    if f.pattern@.len() > 0 && !f.uses_regex() {
        crate::text::lemma_lit_ranges_nonempty(line, f.pattern@);
    }
}

/// For a filter in literal mode (or in the literal fallback), the found
/// byte ranges are sorted and pairwise non-overlapping, each is the byte
/// span of a run of exactly the pattern's number of characters in the
/// line, that run equals the pattern case-insensitively (character by
/// character, after 1:1 case folding), and both endpoints lie on
/// character boundaries of the line's UTF-8 bytes.
pub proof fn lemma_literal_ranges_correct(f: ActiveFilter, line: Seq<char>)
    requires
        !f.uses_regex(),
    ensures
        f.spec_find(line).len() == lit_ranges(line, f.pattern@).len(),
        forall|k: int|
            0 <= k < f.spec_find(line).len() ==> {
                let c = lit_ranges(line, f.pattern@)[k];
                let r = #[trigger] f.spec_find(line)[k];
                &&& 0 <= c.0
                &&& c.1 == c.0 + f.pattern@.len()
                &&& c.1 <= line.len()
                &&& fold_seq(line.subrange(c.0, c.1)) == fold_seq(f.pattern@)
                &&& r.0 == spec_char_byte_offset(line, c.0)
                &&& r.1 == spec_char_byte_offset(line, c.1)
                &&& r.1 <= encode_utf8(line).len()
                &&& vstd::utf8::is_char_boundary(encode_utf8(line), r.0)
                &&& vstd::utf8::is_char_boundary(encode_utf8(line), r.1)
            },
        forall|k: int, l: int|
            0 <= k < l < f.spec_find(line).len() ==> (#[trigger] f.spec_find(line)[k]).1
                <= (#[trigger] f.spec_find(line)[l]).0,
{
    let fpat = fold_seq(f.pattern@);
    let crs = lit_ranges(line, f.pattern@);
    lemma_lit_ranges_sound(line, fpat, 0);
    assert forall|k: int| 0 <= k < f.spec_find(line).len() implies {
        let c = lit_ranges(line, f.pattern@)[k];
        let r = #[trigger] f.spec_find(line)[k];
        &&& 0 <= c.0
        &&& c.1 == c.0 + f.pattern@.len()
        &&& c.1 <= line.len()
        &&& fold_seq(line.subrange(c.0, c.1)) == fold_seq(f.pattern@)
        &&& r.0 == spec_char_byte_offset(line, c.0)
        &&& r.1 == spec_char_byte_offset(line, c.1)
        &&& r.1 <= encode_utf8(line).len()
        &&& vstd::utf8::is_char_boundary(encode_utf8(line), r.0)
        &&& vstd::utf8::is_char_boundary(encode_utf8(line), r.1)
    } by {
        let c = crs[k];
        assert(match_at(line, fpat, c.0));
        assert(fold_seq(line.subrange(c.0, c.1)) =~= fold_seq(f.pattern@));
        lemma_char_offsets_ordered(line, c.1, line.len() as int);
        lemma_char_offset_boundary(line, c.0);
        lemma_char_offset_boundary(line, c.1);
    }
    assert forall|k: int, l: int|
        0 <= k < l < f.spec_find(line).len() implies (#[trigger] f.spec_find(line)[k]).1 <= (
    #[trigger] f.spec_find(line)[l]).0 by {
        assert(match_at(line, fpat, crs[k].0));
        assert(match_at(line, fpat, crs[l].0));
        assert(crs[k].1 <= crs[l].0);
        lemma_char_offsets_ordered(line, crs[k].1, crs[l].0);
    }
}

} // verus!
