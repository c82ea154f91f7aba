//! The viewport over the filtered index: a scroll offset plus a display
//! height give a window of filtered positions; follow mode pins the window
//! to the newest matching line; bookmark navigation moves the scroll
//! offset to the nearest bookmarked line still visible under the filter;
//! horizontal scrolling works in character units and re-clips match
//! ranges.
use vstd::prelude::*;

use crate::filter::MatchRange;
use crate::state::{has_val, strictly_increasing, ViewerState};
use crate::text::{char_byte_offset, lemma_encode_split, spec_char_byte_offset};
use vstd::string::StrSliceExecFns;
use vstd::utf8::encode_utf8;

verus! {

/// The largest admissible scroll offset for a filtered index of length
/// `len` shown in a window of `height` rows.
pub open spec fn spec_max_scroll(len: int, height: int) -> int {
    if len > height {
        len - height
    } else {
        0
    }
}

impl ViewerState {
    /// The first visible position of the filtered index for the given
    /// display height: the bottom window in follow mode, else the scroll
    /// offset clamped to the admissible range.
    pub open spec fn spec_window_start(self, height: int) -> int {
        let ms = spec_max_scroll(self.filtered_indices@.len() as int, height);
        if self.stick_to_bottom {
            ms
        } else if self.scroll <= ms {
            self.scroll as int
        } else {
            ms
        }
    }

    /// One past the last visible position of the filtered index.
    pub open spec fn spec_window_end(self, height: int) -> int {
        let start = self.spec_window_start(height);
        if start + height <= self.filtered_indices@.len() {
            start + height
        } else {
            self.filtered_indices@.len() as int
        }
    }

    /// The window of filtered positions to display: a half-open interval
    /// of positions into the filtered index, clamped so that an
    /// out-of-range scroll offset or an empty filtered index yields an
    /// empty or shortened window, never an error.
    pub fn visible_window(&self, height: usize) -> (r: (usize, usize))
        requires
            self.inv(),
        ensures
            r.0 == self.spec_window_start(height as int),
            r.1 == self.spec_window_end(height as int),
            r.0 <= r.1 <= self.filtered_indices@.len(),
    {
        let len = self.filtered_indices.len();
        let ms = if len > height {
            len - height
        } else {
            0
        };
        let start = if self.stick_to_bottom {
            ms
        } else if self.scroll <= ms {
            self.scroll
        } else {
            ms
        };
        let remaining = len - start;
        let end = if height <= remaining {
            start + height
        } else {
            len
        };
        (start, end)
    }

    /// The buffer indices of the visible rows, in display order.
    pub fn visible_lines(&self, height: usize) -> (r: Vec<usize>)
        requires
            self.inv(),
        ensures
            r@ == self.filtered_indices@.subrange(
                self.spec_window_start(height as int),
                self.spec_window_end(height as int),
            ),
    {
        let (start, end) = self.visible_window(height);
        let mut out: Vec<usize> = Vec::new();
        let mut i: usize = start;
        while i < end
            invariant
                start <= i <= end,
                end <= self.filtered_indices@.len(),
                out@ == self.filtered_indices@.subrange(start as int, i as int),
            decreases end - i,
        {
            let v = self.filtered_indices[i];
            out.push(v);
            proof {
                assert(out@ =~= self.filtered_indices@.subrange(start as int, i + 1));
            }
            i = i + 1;
        }
        out
    }

    /// Scrolls up by `n` rows from the effective window start; any manual
    /// scroll disables follow mode.
    pub fn scroll_up(&mut self, n: usize, height: usize)
        requires
            old(self).inv(),
        ensures
            final(self).inv(),
            *final(self) == (ViewerState {
                scroll: final(self).scroll,
                stick_to_bottom: false,
                ..*old(self)
            }),
            final(self).scroll == if old(self).spec_window_start(height as int) >= n {
                old(self).spec_window_start(height as int) - n
            } else {
                0
            },
    {
        let (start, _) = self.visible_window(height);
        self.scroll = if start >= n {
            start - n
        } else {
            0
        };
        self.stick_to_bottom = false;
    }

    /// Scrolls down by `n` rows from the effective window start, clamped
    /// to the admissible range; disables follow mode.
    pub fn scroll_down(&mut self, n: usize, height: usize)
        requires
            old(self).inv(),
        ensures
            final(self).inv(),
            *final(self) == (ViewerState {
                scroll: final(self).scroll,
                stick_to_bottom: false,
                ..*old(self)
            }),
            final(self).scroll == {
                let ms = spec_max_scroll(old(self).filtered_indices@.len() as int, height as int);
                if old(self).spec_window_start(height as int) + n <= ms {
                    old(self).spec_window_start(height as int) + n
                } else {
                    ms
                }
            },
    {
        let len = self.filtered_indices.len();
        let ms = if len > height {
            len - height
        } else {
            0
        };
        let (start, _) = self.visible_window(height);
        self.scroll = if n <= ms - start {
            start + n
        } else {
            ms
        };
        self.stick_to_bottom = false;
    }

    /// Jumps to the first row; disables follow mode.
    pub fn scroll_to_top(&mut self)
        requires
            old(self).inv(),
        ensures
            final(self).inv(),
            *final(self) == (ViewerState { scroll: 0, stick_to_bottom: false, ..*old(self) }),
    {
        self.scroll = 0;
        self.stick_to_bottom = false;
    }

    /// Jumps to the bottom and re-enables follow mode explicitly.
    pub fn scroll_to_bottom(&mut self)
        requires
            old(self).inv(),
        ensures
            final(self).inv(),
            *final(self) == (ViewerState { stick_to_bottom: true, ..*old(self) }),
    {
        self.stick_to_bottom = true;
    }

    /// Scrolls the view left by `n` characters, saturating at the line
    /// start.
    pub fn scroll_left(&mut self, n: usize)
        requires
            old(self).inv(),
        ensures
            final(self).inv(),
            *final(self) == (ViewerState {
                horizontal_scroll: final(self).horizontal_scroll,
                ..*old(self)
            }),
            final(self).horizontal_scroll == if old(self).horizontal_scroll >= n {
                old(self).horizontal_scroll - n
            } else {
                0
            },
    {
        self.horizontal_scroll = if self.horizontal_scroll >= n {
            self.horizontal_scroll - n
        } else {
            0
        };
    }

    /// Scrolls the view right by `n` characters, saturating at the largest
    /// offset.
    pub fn scroll_right(&mut self, n: usize)
        requires
            old(self).inv(),
        ensures
            final(self).inv(),
            *final(self) == (ViewerState {
                horizontal_scroll: final(self).horizontal_scroll,
                ..*old(self)
            }),
            final(self).horizontal_scroll == if old(self).horizontal_scroll + n <= usize::MAX {
                old(self).horizontal_scroll + n
            } else {
                usize::MAX as int
            },
    {
        self.horizontal_scroll = if n <= usize::MAX - self.horizontal_scroll {
            self.horizontal_scroll + n
        } else {
            usize::MAX
        };
    }

    /// Moves the scroll offset to the nearest later filtered position
    /// whose line is bookmarked; a bookmark on a line the filter excludes
    /// is skipped. Does nothing when there is none.
    pub fn next_bookmark(&mut self)
        requires
            old(self).inv(),
        ensures
            final(self).inv(),
            (exists|k: int|
                old(self).scroll < k < old(self).filtered_indices@.len() && old(
                    self,
                ).bookmark_set().contains(#[trigger] old(self).filtered_indices@[k] as int)) ==> {
                &&& *final(self) == (ViewerState {
                    scroll: final(self).scroll,
                    stick_to_bottom: false,
                    ..*old(self)
                })
                &&& old(self).scroll < final(self).scroll < old(self).filtered_indices@.len()
                &&& old(self).bookmark_set().contains(
                    old(self).filtered_indices@[final(self).scroll as int] as int,
                )
                &&& forall|m: int|
                    old(self).scroll < m < final(self).scroll ==> !old(
                        self,
                    ).bookmark_set().contains(#[trigger] old(self).filtered_indices@[m] as int)
            },
            (forall|k: int|
                old(self).scroll < k < old(self).filtered_indices@.len() ==> !old(
                    self,
                ).bookmark_set().contains(#[trigger] old(self).filtered_indices@[k] as int))
                ==> *final(self) == *old(self),
    {
        let len = self.filtered_indices.len();
        if len == 0 {
            return ;
        }
        let mut k: usize = self.scroll;
        while k < len - 1
            invariant
                self.inv(),
                *self == *old(self),
                len == self.filtered_indices@.len(),
                1 <= len,
                old(self).scroll <= k <= len,
                forall|m: int|
                    old(self).scroll < m <= k && m < len ==> !self.bookmark_set().contains(
                        #[trigger] self.filtered_indices@[m] as int,
                    ),
            decreases len - k,
        {
            k = k + 1;
            if self.is_bookmarked(self.filtered_indices[k]) {
                self.scroll = k;
                self.stick_to_bottom = false;
                return ;
            }
        }
    }

    /// Moves the scroll offset to the nearest earlier filtered position
    /// whose line is bookmarked; skips bookmarks the filter excludes.
    /// Does nothing when there is none.
    pub fn prev_bookmark(&mut self)
        requires
            old(self).inv(),
        ensures
            final(self).inv(),
            (exists|k: int|
                0 <= k < old(self).scroll && k < old(self).filtered_indices@.len() && old(
                    self,
                ).bookmark_set().contains(#[trigger] old(self).filtered_indices@[k] as int)) ==> {
                &&& *final(self) == (ViewerState {
                    scroll: final(self).scroll,
                    stick_to_bottom: false,
                    ..*old(self)
                })
                &&& final(self).scroll < old(self).scroll
                &&& old(self).bookmark_set().contains(
                    old(self).filtered_indices@[final(self).scroll as int] as int,
                )
                &&& forall|m: int|
                    final(self).scroll < m < old(self).scroll && m < old(
                        self,
                    ).filtered_indices@.len() ==> !old(self).bookmark_set().contains(
                        #[trigger] old(self).filtered_indices@[m] as int,
                    )
            },
            (forall|k: int|
                0 <= k < old(self).scroll && k < old(self).filtered_indices@.len() ==> !old(
                    self,
                ).bookmark_set().contains(#[trigger] old(self).filtered_indices@[k] as int))
                ==> *final(self) == *old(self),
    {
        let mut k: usize = self.scroll;
        while k > 0
            invariant
                self.inv(),
                *self == *old(self),
                k <= self.scroll,
                forall|m: int|
                    k <= m < self.scroll && m < self.filtered_indices@.len()
                        ==> !self.bookmark_set().contains(
                        #[trigger] self.filtered_indices@[m] as int,
                    ),
            decreases k,
        {
            k = k - 1;
            if self.is_bookmarked(self.filtered_indices[k]) {
                self.scroll = k;
                self.stick_to_bottom = false;
                return ;
            }
        }
    }
}

/// With follow mode on and at least one row of height, the window over a
/// non-empty filtered index always ends at the newest filtered line: the
/// last visible row is the last element of the filtered index. Together
/// with the contract of `ViewerState::push_line` (a passing appended line
/// becomes the last element of the filtered index), the newest matching
/// line is always the last visible row.
pub proof fn lemma_follow_shows_newest(s: ViewerState, height: int)
    requires
        s.inv(),
        s.stick_to_bottom,
        height >= 1,
        s.filtered_indices@.len() > 0,
    ensures
        s.spec_window_end(height) == s.filtered_indices@.len(),
        s.spec_window_start(height) < s.spec_window_end(height),
        s.filtered_indices@[s.spec_window_end(height) - 1] == s.filtered_indices@.last(),
{
}

/// In a strictly increasing sequence, the element at position `k` is at
/// least `k`.
proof fn lemma_si_lower_bound(s: Seq<usize>, k: int)
    requires
        strictly_increasing(s),
        0 <= k < s.len(),
    ensures
        s[k] >= k,
    decreases k,
{
    if k > 0 {
        lemma_si_lower_bound(s, k - 1);
    }
}

/// A strictly increasing sequence of values below `n` that contains every
/// value in `[0, n)` is exactly the identity range: position `j` holds
/// `j`.
proof fn lemma_full_range_aux(s: Seq<usize>, n: int, j: int)
    requires
        strictly_increasing(s),
        forall|k: int| 0 <= k < s.len() ==> (#[trigger] s[k]) < n,
        forall|q: int| 0 <= q < n ==> has_val(s, q),
        0 <= j < n,
    ensures
        j < s.len() && s[j] == j,
    decreases j,
{
    assert(has_val(s, j));
    let p = choose|p: int| 0 <= p < s.len() && s[p] == j;
    lemma_si_lower_bound(s, p);
    if p < j {
        lemma_full_range_aux(s, n, p);
        assert(false);
    }
    assert(p == j);
}

/// When no filter is active, the filtered index equals the full buffer
/// range: it has one entry per buffer line, and position `k` holds
/// sequence index `k`.
pub proof fn lemma_no_filter_full_range(s: ViewerState)
    requires
        s.inv(),
        s.active_filter is None,
    ensures
        s.filtered_indices@.len() == s.buffer.lines@.len(),
        forall|k: int|
            0 <= k < s.filtered_indices@.len() ==> #[trigger] s.filtered_indices@[k] == k,
{
    let fs = s.filtered_indices@;
    let n = s.buffer.lines@.len() as int;
    assert forall|q: int| 0 <= q < n implies has_val(fs, q) by {
        assert(crate::state::passes(s.active_filter, s.buffer.lines@, q));
    }
    if fs.len() < n {
        lemma_full_range_aux(fs, n, fs.len() as int);
        assert(false);
    }
    if fs.len() > n {
        lemma_si_lower_bound(fs, n);
        assert(fs[n] < n);
        assert(false);
    }
    assert forall|k: int| 0 <= k < fs.len() implies #[trigger] fs[k] == k by {
        lemma_full_range_aux(fs, n, k);
    }
}

/// The characters of a line that stay visible under a horizontal scroll
/// of `k` characters: everything from character `k` on; nothing remains
/// when `k` is past the end.
pub open spec fn spec_scrolled(s: Seq<char>, k: int) -> Seq<char> {
    if k <= s.len() {
        s.skip(k)
    } else {
        Seq::empty()
    }
}

/// Applies a horizontal scroll offset to a line of text: the first
/// `offset` characters are dropped; an offset past the end yields the
/// empty string. The count is in characters, not bytes, so multi-byte
/// text stays intact.
pub fn apply_horizontal_scroll(text: &str, offset: usize) -> (r: String)
    ensures
        r@ == spec_scrolled(text@, offset as int),
{
    if offset == 0 {
        let r = text.to_owned();
        proof {
            assert(r@ =~= text@.skip(0));
        }
        return r;
    }
    let n = text.unicode_len();
    let k = if offset > n {
        n
    } else {
        offset
    };
    let sub = text.substring_char(k, n);
    let r = sub.to_owned();
    proof {
        assert(r@ =~= text@.skip(k as int));
        if offset > text@.len() {
            assert(r@ =~= Seq::<char>::empty());
        }
    }
    r
}

/// The match ranges that remain visible under a horizontal scroll of
/// `off`, in order: a range ending at or before the offset is dropped, a
/// range straddling it is truncated at its start, and a fully visible
/// range is shifted left by the offset. Considers the first `i` ranges.
pub open spec fn clipped_prefix(ms: Seq<MatchRange>, off: int, i: int) -> Seq<MatchRange>
    decreases i,
{
    if i <= 0 {
        Seq::empty()
    } else {
        let m = ms[i - 1];
        clipped_prefix(ms, off, i - 1) + (if m.end <= off {
            Seq::empty()
        } else if m.start < off {
            seq![MatchRange { start: 0, end: (m.end - off) as usize }]
        } else {
            seq![MatchRange { start: (m.start - off) as usize, end: (m.end - off) as usize }]
        })
    }
}

/// All match ranges that remain visible under a horizontal scroll.
pub open spec fn clipped(ms: Seq<MatchRange>, off: int) -> Seq<MatchRange> {
    clipped_prefix(ms, off, ms.len() as int)
}

/// The visible clipping of the first `i` of a sequence of byte intervals,
/// with the same rule as `clipped_prefix`, over plain integer pairs.
pub open spec fn clipped_pairs_prefix(ms: Seq<(int, int)>, off: int, i: int) -> Seq<(int, int)>
    decreases i,
{
    if i <= 0 {
        Seq::empty()
    } else {
        let m = ms[i - 1];
        clipped_pairs_prefix(ms, off, i - 1) + (if m.1 <= off {
            Seq::empty()
        } else if m.0 < off {
            seq![(0int, m.1 - off)]
        } else {
            seq![(m.0 - off, m.1 - off)]
        })
    }
}

/// The visible clipping of a sequence of byte intervals under a
/// horizontal scroll offset.
pub open spec fn clipped_pairs(ms: Seq<(int, int)>, off: int) -> Seq<(int, int)> {
    clipped_pairs_prefix(ms, off, ms.len() as int)
}

/// Clipping match ranges and reading them as byte intervals commute.
pub proof fn lemma_clipped_pairs(ms: Seq<MatchRange>, off: int, i: int)
    requires
        0 <= off,
        0 <= i <= ms.len(),
    ensures
        crate::filter::ranges_of(clipped_prefix(ms, off, i)) == clipped_pairs_prefix(
            crate::filter::ranges_of(ms),
            off,
            i,
        ),
    decreases i,
{
    let pairs = crate::filter::ranges_of(ms);
    if i > 0 {
        lemma_clipped_pairs(ms, off, i - 1);
        let a = clipped_prefix(ms, off, i - 1);
        let m = ms[i - 1];
        assert(pairs[i - 1] == (m.start as int, m.end as int));
        if m.end <= off {
            assert(clipped_prefix(ms, off, i) =~= a);
            assert(clipped_pairs_prefix(pairs, off, i) =~= clipped_pairs_prefix(pairs, off, i - 1));
        } else if m.start < off {
            let mr = MatchRange { start: 0, end: (m.end - off) as usize };
            assert(clipped_prefix(ms, off, i) == a + seq![mr]);
            assert(crate::filter::ranges_of(a + seq![mr]) =~= crate::filter::ranges_of(a) + seq![
                (0int, m.end - off),
            ]);
            assert(clipped_pairs_prefix(pairs, off, i) == clipped_pairs_prefix(pairs, off, i - 1)
                + seq![(0int, m.end - off)]);
        } else {
            let mr = MatchRange { start: (m.start - off) as usize, end: (m.end - off) as usize };
            assert(clipped_prefix(ms, off, i) == a + seq![mr]);
            assert(crate::filter::ranges_of(a + seq![mr]) =~= crate::filter::ranges_of(a) + seq![
                (m.start - off, m.end - off),
            ]);
            assert(clipped_pairs_prefix(pairs, off, i) == clipped_pairs_prefix(pairs, off, i - 1)
                + seq![(m.start - off, m.end - off)]);
        }
    } else {
        assert(crate::filter::ranges_of(clipped_prefix(ms, off, i)) =~= clipped_pairs_prefix(
            pairs,
            off,
            i,
        ));
    }
}

/// Clipping preserves order and bounds: from well-formed, sorted,
/// non-overlapping ranges that end at or before `bound`, the clipping
/// keeps every range well-formed and within `bound` minus the offset,
/// still sorted and non-overlapping, and ending no later than the last
/// source range does.
proof fn lemma_clipped_props(ms: Seq<MatchRange>, off: int, i: int, bound: int)
    requires
        0 <= off,
        0 <= i <= ms.len(),
        forall|k: int|
            0 <= k < ms.len() ==> (#[trigger] ms[k]).start <= ms[k].end && ms[k].end <= bound,
        forall|k: int| 1 <= k < ms.len() ==> ms[k - 1].end <= (#[trigger] ms[k]).start,
    ensures
        forall|k: int|
            0 <= k < clipped_prefix(ms, off, i).len() ==> (#[trigger] clipped_prefix(
                ms,
                off,
                i,
            )[k]).start <= clipped_prefix(ms, off, i)[k].end && clipped_prefix(ms, off, i)[k].end
                <= bound - off,
        forall|k: int|
            1 <= k < clipped_prefix(ms, off, i).len() ==> clipped_prefix(ms, off, i)[k - 1].end
                <= (#[trigger] clipped_prefix(ms, off, i)[k]).start,
        i > 0 ==> forall|k: int|
            0 <= k < clipped_prefix(ms, off, i).len() ==> (#[trigger] clipped_prefix(
                ms,
                off,
                i,
            )[k]).end <= ms[i - 1].end - off,
    decreases i,
{
    if i > 0 {
        lemma_clipped_props(ms, off, i - 1, bound);
        let prev = clipped_prefix(ms, off, i - 1);
        let cur = clipped_prefix(ms, off, i);
        let m = ms[i - 1];
        if i >= 2 {
            assert(ms[i - 2].end <= m.start);
        }
        if m.end <= off {
            assert(cur =~= prev);
        } else if m.start < off {
            let e = MatchRange { start: 0, end: (m.end - off) as usize };
            assert(cur == prev + seq![e]);
            if prev.len() > 0 {
                assert(prev[0].end <= ms[i - 2].end - off);
                assert(false);
            }
            assert(cur =~= seq![e]);
        } else {
            let e = MatchRange { start: (m.start - off) as usize, end: (m.end - off) as usize };
            assert(cur == prev + seq![e]);
            assert forall|k: int| 0 <= k < prev.len() implies prev[k].end <= e.start by {
                assert(prev[k].end <= ms[i - 2].end - off);
            }
        }
    }
}

/// Everything the external renderer needs for one visible row: the line's
/// text and once-derived attributes, its bookmark status, and its match
/// ranges, already re-clipped against the horizontal scroll.
pub struct RowData {
    /// The line's raw text.
    pub raw: String,
    /// The line's severity classification.
    pub level: crate::buffer::LogLevel,
    /// Whether the text carries ANSI escape codes.
    pub has_ansi: bool,
    /// Whether the text is JSON-shaped.
    pub is_json: bool,
    /// Whether the line is bookmarked.
    pub bookmarked: bool,
    /// The active filter's match ranges in this line, clipped against the
    /// horizontal scroll offset.
    pub matches: Vec<MatchRange>,
}

impl ViewerState {
    /// Assembles the render data for the line with the given sequence
    /// index. The horizontal scroll offset counts characters; it is first
    /// converted to the byte offset where that character starts, and the
    /// match ranges are clipped against that byte offset, so they stay
    /// valid byte intervals of the scrolled text even on multi-byte
    /// lines. With no filter active there are no match ranges.
    pub fn row_data(&self, index: usize, h_scroll: usize) -> (r: RowData)
        requires
            self.inv(),
            index < self.buffer.lines@.len(),
        ensures
            r.raw@ == self.buffer.lines@[index as int].raw@,
            r.level == self.buffer.lines@[index as int].level,
            r.has_ansi == self.buffer.lines@[index as int].has_ansi,
            r.is_json == self.buffer.lines@[index as int].is_json,
            r.bookmarked == self.bookmark_set().contains(index as int),
            match self.active_filter {
                Some(f) => crate::filter::ranges_of(r.matches@) == clipped_pairs(
                    f.spec_find(self.buffer.lines@[index as int].raw@),
                    spec_char_byte_offset(
                        self.buffer.lines@[index as int].raw@,
                        h_scroll as int,
                    ),
                ),
                None => r.matches@.len() == 0,
            },
            forall|k: int|
                0 <= k < r.matches@.len() ==> (#[trigger] r.matches@[k]).start
                    <= r.matches@[k].end && r.matches@[k].end <= encode_utf8(
                    spec_scrolled(self.buffer.lines@[index as int].raw@, h_scroll as int),
                ).len(),
            forall|k: int|
                1 <= k < r.matches@.len() ==> r.matches@[k - 1].end <= (
                #[trigger] r.matches@[k]).start,
    {
        let line = self.buffer.get(index);
        let bookmarked = self.is_bookmarked(index);
        let matches = match &self.active_filter {
            Some(f) => {
                let found = f.find_matches(line.raw.as_str());
                let byte_off = char_byte_offset(line.raw.as_str(), h_scroll);
                let clipped_ms = adjust_matches_for_scroll(&found, byte_off);
                proof {
                    let rawv = self.buffer.lines@[index as int].raw@;
                    let kk: int = if h_scroll as int <= rawv.len() {
                        h_scroll as int
                    } else {
                        rawv.len() as int
                    };
                    lemma_encode_split(rawv, kk);
                    lemma_clipped_pairs(found@, byte_off as int, found@.len() as int);
                    lemma_clipped_props(
                        found@,
                        byte_off as int,
                        found@.len() as int,
                        encode_utf8(rawv).len() as int,
                    );
                    if h_scroll as int > rawv.len() {
                        assert(spec_scrolled(rawv, h_scroll as int) =~= rawv.skip(kk));
                        assert(rawv.take(kk) =~= rawv);
                    }
                }
                clipped_ms
            },
            None => Vec::new(),
        };
        RowData {
            raw: line.raw.clone(),
            level: line.level,
            has_ansi: line.has_ansi,
            is_json: line.is_json,
            bookmarked,
            matches,
        }
    }
}

/// The cursor position after walking the first `i` match ranges: the end
/// of the last one that was applied, or the start of the text. A range
/// whose end exceeds the text is skipped and does not move the cursor.
pub open spec fn seg_cursor(text_len: int, rs: Seq<MatchRange>, i: int) -> int
    decreases i,
{
    if i <= 0 {
        0
    } else if rs[i - 1].end <= text_len {
        rs[i - 1].end as int
    } else {
        seg_cursor(text_len, rs, i - 1)
    }
}

/// The highlight segments for the first `i` match ranges: for each range,
/// the plain text between the cursor and the range's start (when
/// non-empty), then the range's own text marked as highlighted — unless
/// the range ends past the text, which yields no highlight.
pub open spec fn segs_prefix(text: Seq<u8>, rs: Seq<MatchRange>, i: int) -> Seq<(Seq<u8>, bool)>
    decreases i,
{
    if i <= 0 {
        Seq::empty()
    } else {
        let c = seg_cursor(text.len() as int, rs, i - 1);
        let m = rs[i - 1];
        segs_prefix(text, rs, i - 1) + (if m.start > c {
            seq![(text.subrange(c, m.start as int), false)]
        } else {
            Seq::empty()
        }) + (if m.end <= text.len() {
            seq![(text.subrange(m.start as int, m.end as int), true)]
        } else {
            Seq::empty()
        })
    }
}

/// The full highlight segmentation of a line: the segments for all the
/// ranges, then the plain remainder after the last applied range, when
/// non-empty.
pub open spec fn segments(text: Seq<u8>, rs: Seq<MatchRange>) -> Seq<(Seq<u8>, bool)> {
    let c = seg_cursor(text.len() as int, rs, rs.len() as int);
    segs_prefix(text, rs, rs.len() as int) + (if c < text.len() {
        seq![(text.subrange(c, text.len() as int), false)]
    } else {
        Seq::empty()
    })
}

/// In a sorted, pairwise non-overlapping range list, any earlier range
/// ends at or before any later range starts.
proof fn lemma_range_chain(rs: Seq<MatchRange>, j: int, k: int)
    requires
        forall|q: int| 0 <= q < rs.len() ==> (#[trigger] rs[q]).start <= rs[q].end,
        forall|q: int| 1 <= q < rs.len() ==> rs[q - 1].end <= (#[trigger] rs[q]).start,
        0 <= j < k < rs.len(),
    ensures
        rs[j].end <= rs[k].start,
    decreases k - j,
{
    if j + 1 < k {
        lemma_range_chain(rs, j + 1, k);
    }
}

/// The byte texts and highlight flags of a segment list.
pub open spec fn segs_of(v: Seq<(Vec<u8>, bool)>) -> Seq<(Seq<u8>, bool)> {
    Seq::new(v.len(), |i: int| (v[i].0@, v[i].1))
}

/// Splits a line into alternating plain and highlighted byte segments
/// according to the discovered match ranges, in left-to-right order. The
/// ranges must be sorted, pairwise non-overlapping, each starting within
/// the line; a range that ends past the line is tolerated and produces no
/// highlight segment.
pub fn highlight_segments(text: &[u8], ranges: &Vec<MatchRange>) -> (r: Vec<(Vec<u8>, bool)>)
    requires
        forall|k: int|
            0 <= k < ranges@.len() ==> (#[trigger] ranges@[k]).start <= ranges@[k].end
                && ranges@[k].start <= text@.len(),
        forall|k: int| 1 <= k < ranges@.len() ==> ranges@[k - 1].end <= (#[trigger] ranges@[k]).start,
    ensures
        segs_of(r@) == segments(text@, ranges@),
{
    let tn = text.len();
    let n = ranges.len();
    let mut out: Vec<(Vec<u8>, bool)> = Vec::new();
    let mut last_end: usize = 0;
    let mut i: usize = 0;
    proof {
        assert(segs_of(out@) =~= segs_prefix(text@, ranges@, 0));
    }
    while i < n
        invariant
            n == ranges@.len(),
            tn == text@.len(),
            0 <= i <= n,
            forall|k: int|
                0 <= k < ranges@.len() ==> (#[trigger] ranges@[k]).start <= ranges@[k].end
                    && ranges@[k].start <= text@.len(),
            forall|k: int|
                1 <= k < ranges@.len() ==> ranges@[k - 1].end <= (#[trigger] ranges@[k]).start,
            last_end == seg_cursor(text@.len() as int, ranges@, i as int),
            last_end <= tn,
            forall|k: int| i <= k < n ==> last_end <= (#[trigger] ranges@[k]).start,
            segs_of(out@) == segs_prefix(text@, ranges@, i as int),
        decreases n - i,
    {
        let m = ranges[i];
        if m.start > last_end {
            out.push((vstd::slice::slice_to_vec(&text[last_end..m.start]), false));
        }
        if m.end <= tn {
            out.push((vstd::slice::slice_to_vec(&text[m.start..m.end]), true));
            last_end = m.end;
        }
        proof {
            assert(segs_of(out@) =~= segs_prefix(text@, ranges@, i + 1));
            assert forall|k: int| i + 1 <= k < n implies last_end <= (
            #[trigger] ranges@[k]).start by {
                lemma_range_chain(ranges@, i as int, k);
            }
        }
        i = i + 1;
    }
    if last_end < tn {
        let tail = vstd::slice::slice_to_vec(&text[last_end..tn]);
        out.push((tail, false));
    }
    proof {
        assert(segs_of(out@) =~= segments(text@, ranges@));
    }
    out
}

/// Re-clips discovered match ranges against a horizontal scroll offset
/// before they are handed to the renderer.
pub fn adjust_matches_for_scroll(ranges: &Vec<MatchRange>, offset: usize) -> (r: Vec<MatchRange>)
    ensures
        r@ == clipped(ranges@, offset as int),
{
    let n = ranges.len();
    let mut out: Vec<MatchRange> = Vec::new();
    let mut i: usize = 0;
    while i < n
        invariant
            n == ranges@.len(),
            0 <= i <= n,
            out@ == clipped_prefix(ranges@, offset as int, i as int),
        decreases n - i,
    {
        let m = ranges[i];
        let ghost out0 = out@;
        if m.end <= offset {
        } else if m.start < offset {
            out.push(MatchRange { start: 0, end: m.end - offset });
        } else {
            out.push(MatchRange { start: m.start - offset, end: m.end - offset });
        }
        proof {
            assert(out@ =~= clipped_prefix(ranges@, offset as int, i + 1));
        }
        i = i + 1;
    }
    out
}

} // verus!
