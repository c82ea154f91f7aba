//! The consumer-side core state: the log buffer, the active filter, the
//! filtered index, bookmarks, the viewport, and the debounced filter-edit
//! state machine.
//!
//! All mutation goes through the methods here, driven by one consumer
//! loop; the invariant `inv` ties the filtered index to the buffer and the
//! active filter at all times. Filter edits do not rescan on every
//! keystroke: an edit only arms a deadline, and the rescan runs once, when
//! a poll observes that the deadline passed with no further edit.
use vstd::prelude::*;

use crate::buffer::LogBuffer;
use crate::filter::{ActiveFilter, SavedFilter};
use vstd::string::StringExecFns;

verus! {

/// The value `j` occurs in the sequence.
pub open spec fn has_val(s: Seq<usize>, j: int) -> bool {
    exists|k: int| 0 <= k < s.len() && s[k] == j
}

/// The sequence is strictly increasing.
pub open spec fn strictly_increasing(s: Seq<usize>) -> bool {
    forall|k: int, l: int| 0 <= k < l < s.len() ==> s[k] < s[l]
}

/// Whether line `i` of `lines` passes the filter `f`; with no filter,
/// every line passes.
pub open spec fn passes(f: Option<ActiveFilter>, lines: Seq<crate::buffer::LogLine>, i: int) -> bool {
    match f {
        Some(g) => g.spec_matches(lines[i].raw@),
        None => true,
    }
}

/// The filtered index is strictly increasing, every element names a line
/// of the buffer that passes the filter, and every passing line is in it.
pub open spec fn filtered_ok_for(
    f: Option<ActiveFilter>,
    lines: Seq<crate::buffer::LogLine>,
    filtered: Seq<usize>,
) -> bool {
    &&& strictly_increasing(filtered)
    &&& forall|k: int|
        0 <= k < filtered.len() ==> (#[trigger] filtered[k]) < lines.len() && passes(
            f,
            lines,
            filtered[k] as int,
        )
    &&& forall|i: int|
        0 <= i < lines.len() && #[trigger] passes(f, lines, i) ==> has_val(filtered, i)
}

/// Whether a debounce poll at instant `now` fires: an edit is pending and
/// its deadline has passed.
pub open spec fn debounce_fires(pending: Option<PendingEdit>, now: u64) -> bool {
    pending is Some && now >= (pending->0).deadline
}

/// The debounce discipline: after an edit at instant `t`, no poll strictly
/// before `t` plus the threshold fires, the first poll at or after that
/// deadline fires, and once the pending edit is cleared no later poll
/// fires again — so edits within the threshold cause no rescan, and one
/// rescan follows once they stop.
pub proof fn lemma_debounce_once(p: PendingEdit, t_early: u64, t_late: u64)
    requires
        t_early < p.deadline,
        t_late >= p.deadline,
    ensures
        !debounce_fires(Some(p), t_early),
        debounce_fires(Some(p), t_late),
        forall|t: u64| !debounce_fires(None, t),
{
}

/// An event from one log source, as the multiplexed queue delivers it.
pub enum LogEvent {
    /// A new line of text.
    Line(String),
    /// A transport error reported by a source; not fatal.
    Error(String),
    /// The source's stream ended; not fatal either.
    EndOfStream,
}

/// A filter edit waiting for its debounce deadline.
pub struct PendingEdit {
    /// The edited pattern text.
    pub pattern: String,
    /// Whether the edited pattern is to be treated as a regex.
    pub is_regex: bool,
    /// The instant (in milliseconds) after which the rescan may run.
    pub deadline: u64,
}

/// The whole core state owned by the consumer loop.
pub struct ViewerState {
    /// The append-only line buffer.
    pub buffer: LogBuffer,
    /// The currently applied filter, if any.
    pub active_filter: Option<ActiveFilter>,
    /// Sequence indices of the lines passing the active filter, in
    /// strictly increasing order; the full range when no filter is active.
    pub filtered_indices: Vec<usize>,
    /// The most recent uncommitted filter edit, if any.
    pub pending: Option<PendingEdit>,
    /// The debounce idle threshold in milliseconds.
    pub debounce_ms: u64,
    /// Bookmarked sequence indices, strictly increasing.
    pub bookmarks: Vec<usize>,
    /// Scroll offset: a position into the filtered index.
    pub scroll: usize,
    /// Follow mode: keep the newest matching line visible.
    pub stick_to_bottom: bool,
    /// Horizontal scroll offset, in characters.
    pub horizontal_scroll: usize,
    /// A transient status line, e.g. a source error.
    pub status_message: Option<String>,
    /// Saved filters, inert until reactivated.
    pub saved_filters: Vec<SavedFilter>,
}

impl ViewerState {
    /// Whether the line at buffer position `i` passes the active filter;
    /// with no filter active, every line passes.
    pub open spec fn line_passes(self, i: int) -> bool {
        passes(self.active_filter, self.buffer.lines@, i)
    }

    /// Some position of the filtered index holds `i`.
    pub open spec fn filtered_contains(self, i: int) -> bool {
        has_val(self.filtered_indices@, i)
    }

    /// The filtered index agrees with the buffer and the active filter.
    pub open spec fn filtered_ok(self) -> bool {
        filtered_ok_for(self.active_filter, self.buffer.lines@, self.filtered_indices@)
    }

    /// The parts of the invariant that do not involve the filtered index:
    /// the buffer and the filter are well formed, the bookmarks are a
    /// strictly increasing sequence of valid line indices.
    pub open spec fn inv_core(self) -> bool {
        &&& self.buffer.wf()
        &&& self.active_filter is Some ==> (self.active_filter->0).wf()
        &&& strictly_increasing(self.bookmarks@)
        &&& forall|k: int|
            0 <= k < self.bookmarks@.len() ==> (#[trigger] self.bookmarks@[k])
                < self.buffer.lines@.len()
    }

    /// The full state invariant: every method preserves it.
    pub open spec fn inv(self) -> bool {
        &&& self.inv_core()
        &&& self.filtered_ok()
        &&& self.scroll <= self.filtered_indices@.len()
    }

    /// A fresh state: empty buffer, no filter, empty filtered index.
    pub fn new(debounce_ms: u64) -> (r: ViewerState)
        ensures
            r.inv(),
            r.buffer.lines@.len() == 0,
            r.active_filter is None,
            r.filtered_indices@.len() == 0,
            r.pending is None,
            r.debounce_ms == debounce_ms,
            r.bookmarks@.len() == 0,
            r.scroll == 0,
            r.stick_to_bottom,
            r.horizontal_scroll == 0,
            r.status_message is None,
            r.saved_filters@.len() == 0,
    {
        ViewerState {
            buffer: LogBuffer::new(),
            active_filter: None,
            filtered_indices: Vec::new(),
            pending: None,
            debounce_ms,
            bookmarks: Vec::new(),
            scroll: 0,
            stick_to_bottom: true,
            horizontal_scroll: 0,
            status_message: None,
            saved_filters: Vec::new(),
        }
    }

    /// Rebuilds the filtered index from the whole buffer, in buffer order,
    /// and clamps the scroll offset to the new length. Everything else is
    /// unchanged.
    fn rescan(&mut self)
        requires
            old(self).inv_core(),
        ensures
            final(self).inv(),
            *final(self) == (ViewerState {
                filtered_indices: final(self).filtered_indices,
                scroll: final(self).scroll,
                ..*old(self)
            }),
            final(self).scroll == if old(self).scroll <= final(self).filtered_indices@.len() {
                old(self).scroll
            } else {
                final(self).filtered_indices@.len() as usize
            },
    {
        let mut out: Vec<usize> = Vec::new();
        let n = self.buffer.length();
        let mut i: usize = 0;
        while i < n
            invariant
                self.inv_core(),
                n == self.buffer.lines@.len(),
                0 <= i <= n,
                strictly_increasing(out@),
                forall|k: int| 0 <= k < out@.len() ==> (#[trigger] out@[k]) < i,
                forall|k: int|
                    0 <= k < out@.len() ==> passes(
                        self.active_filter,
                        self.buffer.lines@,
                        (#[trigger] out@[k]) as int,
                    ),
                forall|j: int|
                    0 <= j < i && #[trigger] passes(self.active_filter, self.buffer.lines@, j)
                        ==> has_val(out@, j),
            decreases n - i,
        {
            let line = self.buffer.get(i);
            let keep = match &self.active_filter {
                Some(f) => f.matches(line.raw.as_str()),
                None => true,
            };
            let ghost out0 = out@;
            if keep {
                out.push(i);
            }
            proof {
                assert(keep == passes(self.active_filter, self.buffer.lines@, i as int));
                assert forall|j: int|
                    0 <= j < i + 1 && #[trigger] passes(
                        self.active_filter,
                        self.buffer.lines@,
                        j,
                    ) implies has_val(out@, j) by {
                    if j < i {
                        let k = choose|k: int| 0 <= k < out0.len() && out0[k] == j;
                        assert(out@[k] == j);
                    } else {
                        assert(out@[out@.len() - 1] == j);
                    }
                }
            }
            i = i + 1;
        }
        self.filtered_indices = out;
        if self.scroll > self.filtered_indices.len() {
            self.scroll = self.filtered_indices.len();
        }
    }

    /// Appends one line to the buffer and, when it passes the active
    /// filter, appends its sequence index to the filtered index; no other
    /// line is re-evaluated. Returns the new line's sequence index.
    pub fn push_line(&mut self, raw: String) -> (idx: usize)
        requires
            old(self).inv(),
            old(self).buffer.lines@.len() < usize::MAX,
        ensures
            final(self).inv(),
            idx == old(self).buffer.lines@.len(),
            final(self).buffer.lines@.len() == idx + 1,
            forall|k: int| 0 <= k < idx ==> final(self).buffer.lines@[k] == old(
                self,
            ).buffer.lines@[k],
            final(self).buffer.lines@[idx as int].raw@ == raw@,
            *final(self) == (ViewerState {
                buffer: final(self).buffer,
                filtered_indices: final(self).filtered_indices,
                ..*old(self)
            }),
            final(self).line_passes(idx as int) ==> final(self).filtered_indices@ == old(
                self,
            ).filtered_indices@.push(idx),
            !final(self).line_passes(idx as int) ==> final(self).filtered_indices@ == old(
                self,
            ).filtered_indices@,
    {
        let idx = self.buffer.append(raw);
        let keep = match &self.active_filter {
            Some(f) => f.matches(self.buffer.get(idx).raw.as_str()),
            None => true,
        };
        let ghost fi0 = self.filtered_indices@;
        if keep {
            self.filtered_indices.push(idx);
        }
        proof {
            let af = self.active_filter;
            let lines = self.buffer.lines@;
            let lines0 = old(self).buffer.lines@;
            assert(keep == passes(af, lines, idx as int));
            assert forall|i: int|
                0 <= i < lines.len() && #[trigger] passes(af, lines, i) implies has_val(
                self.filtered_indices@,
                i,
            ) by {
                if i < idx {
                    assert(lines[i] == lines0[i]);
                    assert(passes(af, lines0, i));
                    let k = choose|k: int| 0 <= k < fi0.len() && fi0[k] == i;
                    assert(self.filtered_indices@[k] == i);
                } else {
                    assert(self.filtered_indices@[self.filtered_indices@.len() - 1] == i);
                }
            }
            assert forall|k: int|
                0 <= k < self.filtered_indices@.len() implies (
            #[trigger] self.filtered_indices@[k]) < lines.len() && passes(
                af,
                lines,
                self.filtered_indices@[k] as int,
            ) by {
                if k < fi0.len() {
                    assert(passes(af, lines0, fi0[k] as int));
                    assert(lines[fi0[k] as int] == lines0[fi0[k] as int]);
                }
            }
        }
        idx
    }

    /// Records a filter edit: arms (or re-arms) the debounce deadline at
    /// `now` plus the threshold and stores the edited pattern. No rescan
    /// happens here, and the applied filter stays as it was.
    pub fn edit_filter(&mut self, pattern: String, is_regex: bool, now: u64)
        requires
            old(self).inv(),
            now <= u64::MAX - old(self).debounce_ms,
        ensures
            final(self).inv(),
            *final(self) == (ViewerState { pending: final(self).pending, ..*old(self) }),
            final(self).pending is Some,
            (final(self).pending->0).pattern@ == pattern@,
            (final(self).pending->0).is_regex == is_regex,
            (final(self).pending->0).deadline == now + old(self).debounce_ms,
    {
        let deadline = now + self.debounce_ms;
        self.pending = Some(PendingEdit { pattern, is_regex, deadline });
    }

    /// One debounce poll at instant `now`. If an edit is pending and its
    /// deadline has passed, applies the edited pattern as the new active
    /// filter, rescans the whole buffer once, clears the pending edit, and
    /// returns true; otherwise changes nothing and returns false.
    pub fn check_filter_debounce(&mut self, now: u64) -> (rescanned: bool)
        requires
            old(self).inv(),
        ensures
            final(self).inv(),
            rescanned == debounce_fires(old(self).pending, now),
            !rescanned ==> *final(self) == *old(self),
            rescanned ==> {
                &&& final(self).pending is None
                &&& final(self).active_filter is Some
                &&& (final(self).active_filter->0).pattern@ == (old(
                    self,
                ).pending->0).pattern@
                &&& (final(self).active_filter->0).is_regex == (old(self).pending->0).is_regex
                &&& ((final(self).active_filter->0).uses_regex() <==> (old(
                    self,
                ).pending->0).is_regex && crate::filter::regex_accepts(
                    (old(self).pending->0).pattern@,
                ))
                &&& *final(self) == (ViewerState {
                    active_filter: final(self).active_filter,
                    filtered_indices: final(self).filtered_indices,
                    pending: None,
                    scroll: final(self).scroll,
                    ..*old(self)
                })
                &&& final(self).scroll == if old(self).scroll <= final(self).filtered_indices@.len() {
                    old(self).scroll as int
                } else {
                    final(self).filtered_indices@.len() as int
                }
            },
    {
        let fire = match &self.pending {
            Some(p) => now >= p.deadline,
            None => false,
        };
        if !fire {
            return false;
        }
        let p = self.pending.take().unwrap();
        let filter = ActiveFilter::new(p.pattern, p.is_regex);
        self.active_filter = Some(filter);
        self.rescan();
        true
    }

    /// Applies a filter immediately (a committed pattern or a reactivated
    /// saved filter): compiles it, rescans once, and drops any pending
    /// edit.
    pub fn apply_filter_now(&mut self, pattern: String, is_regex: bool)
        requires
            old(self).inv(),
        ensures
            final(self).inv(),
            final(self).pending is None,
            final(self).active_filter is Some,
            (final(self).active_filter->0).pattern@ == pattern@,
            (final(self).active_filter->0).is_regex == is_regex,
            (final(self).active_filter->0).uses_regex() <==> is_regex
                && crate::filter::regex_accepts(pattern@),
            *final(self) == (ViewerState {
                active_filter: final(self).active_filter,
                filtered_indices: final(self).filtered_indices,
                pending: None,
                scroll: final(self).scroll,
                ..*old(self)
            }),
            final(self).scroll == if old(self).scroll <= final(self).filtered_indices@.len() {
                old(self).scroll as int
            } else {
                final(self).filtered_indices@.len() as int
            },
    {
        self.pending = None;
        let filter = ActiveFilter::new(pattern, is_regex);
        self.active_filter = Some(filter);
        self.rescan();
    }

    /// Clears the filter: no filter is active, so the filtered index
    /// becomes the full buffer range, with no matching cost.
    pub fn clear_filter(&mut self)
        requires
            old(self).inv(),
        ensures
            final(self).inv(),
            final(self).active_filter is None,
            final(self).pending is None,
            final(self).filtered_indices@.len() == final(self).buffer.lines@.len(),
            forall|k: int|
                0 <= k < final(self).filtered_indices@.len()
                    ==> final(self).filtered_indices@[k] == k,
            *final(self) == (ViewerState {
                active_filter: None,
                filtered_indices: final(self).filtered_indices,
                pending: None,
                scroll: final(self).scroll,
                ..*old(self)
            }),
            final(self).scroll == if old(self).scroll <= final(self).filtered_indices@.len() {
                old(self).scroll as int
            } else {
                final(self).filtered_indices@.len() as int
            },
    {
        self.pending = None;
        self.active_filter = None;
        let n = self.buffer.length();
        let mut out: Vec<usize> = Vec::new();
        let mut i: usize = 0;
        while i < n
            invariant
                0 <= i <= n,
                out@.len() == i,
                forall|k: int| 0 <= k < i ==> out@[k] == k,
            decreases n - i,
        {
            out.push(i);
            i = i + 1;
        }
        proof {
            assert forall|j: int|
                0 <= j < self.buffer.lines@.len() implies has_val(out@, j) by {
                assert(out@[j] == j);
            }
        }
        self.filtered_indices = out;
        if self.scroll > self.filtered_indices.len() {
            self.scroll = self.filtered_indices.len();
        }
    }

    /// Adds the sequence index to the bookmark set when absent, removes it
    /// when present. Bookmarks are independent of filtering.
    pub fn toggle_bookmark(&mut self, index: usize)
        requires
            old(self).inv(),
            index < old(self).buffer.lines@.len(),
        ensures
            final(self).inv(),
            *final(self) == (ViewerState { bookmarks: final(self).bookmarks, ..*old(self) }),
            forall|j: int|
                #[trigger] final(self).bookmark_set().contains(j) <==> (if j == index {
                    !old(self).bookmark_set().contains(j)
                } else {
                    old(self).bookmark_set().contains(j)
                }),
    {
        let n = self.bookmarks.len();
        let mut i: usize = 0;
        while i < n && self.bookmarks[i] < index
            invariant
                n == self.bookmarks@.len(),
                0 <= i <= n,
                forall|k: int| 0 <= k < i ==> (#[trigger] self.bookmarks@[k]) < index,
            decreases n - i,
        {
            i = i + 1;
        }
        if i < n && self.bookmarks[i] == index {
            self.bookmarks.remove(i);
            proof {
                lemma_sorted_remove(old(self).bookmarks@, self.bookmarks@, i as int);
            }
        } else {
            self.bookmarks.insert(i, index);
            proof {
                lemma_sorted_insert(old(self).bookmarks@, self.bookmarks@, i as int, index);
            }
        }
    }

    /// The bookmarks as a set of line indices.
    pub open spec fn bookmark_set(self) -> Set<int> {
        Set::new(|j: int| has_val(self.bookmarks@, j))
    }

    /// Whether the given sequence index is bookmarked.
    pub fn is_bookmarked(&self, index: usize) -> (r: bool)
        requires
            self.inv(),
        ensures
            r == self.bookmark_set().contains(index as int),
    {
        let n = self.bookmarks.len();
        let mut i: usize = 0;
        while i < n
            invariant
                n == self.bookmarks@.len(),
                0 <= i <= n,
                forall|k: int| 0 <= k < i ==> self.bookmarks@[k] != index,
            decreases n - i,
        {
            if self.bookmarks[i] == index {
                return true;
            }
            i = i + 1;
        }
        false
    }

    /// Feeds one multiplexed source event into the state: a line is
    /// appended (and filtered incrementally, leaving every earlier line as
    /// it was), a source error or an end of stream only sets the transient
    /// status message.
    pub fn handle_event(&mut self, ev: LogEvent)
        requires
            old(self).inv(),
            ev is Line ==> old(self).buffer.lines@.len() < usize::MAX,
        ensures
            final(self).inv(),
            match ev {
                LogEvent::Line(t) => {
                    &&& final(self).buffer.lines@.len() == old(self).buffer.lines@.len() + 1
                    &&& final(self).buffer.lines@[old(self).buffer.lines@.len() as int].raw@
                        == t@
                    &&& forall|k: int|
                        0 <= k < old(self).buffer.lines@.len()
                            ==> final(self).buffer.lines@[k] == old(self).buffer.lines@[k]
                    &&& *final(self) == (ViewerState {
                        buffer: final(self).buffer,
                        filtered_indices: final(self).filtered_indices,
                        ..*old(self)
                    })
                },
                LogEvent::Error(m) => {
                    &&& final(self).status_message is Some
                    &&& (final(self).status_message->0)@ == "Error: "@ + m@
                    &&& *final(self) == (ViewerState {
                        status_message: final(self).status_message,
                        ..*old(self)
                    })
                },
                LogEvent::EndOfStream => {
                    &&& final(self).status_message is Some
                    &&& (final(self).status_message->0)@ == "Stream ended"@
                    &&& *final(self) == (ViewerState {
                        status_message: final(self).status_message,
                        ..*old(self)
                    })
                },
            },
    {
        match ev {
            LogEvent::Line(t) => {
                self.push_line(t);
            },
            LogEvent::Error(m) => {
                let mut text = "Error: ".to_owned();
                text.append(m.as_str());
                self.status_message = Some(text);
            },
            LogEvent::EndOfStream => {
                self.status_message = Some("Stream ended".to_owned());
            },
        }
    }

    /// Saves the given name and the active filter's pattern and mode as an
    /// inert record; does nothing when no filter is active.
    pub fn save_filter(&mut self, name: String)
        requires
            old(self).inv(),
        ensures
            final(self).inv(),
            *final(self) == (ViewerState {
                saved_filters: final(self).saved_filters,
                ..*old(self)
            }),
            old(self).active_filter is Some ==> {
                &&& final(self).saved_filters@.len() == old(self).saved_filters@.len() + 1
                &&& final(self).saved_filters@ == old(self).saved_filters@.push(
                    final(self).saved_filters@.last(),
                )
                &&& final(self).saved_filters@.last().name@ == name@
                &&& final(self).saved_filters@.last().pattern@ == (old(
                    self,
                ).active_filter->0).pattern@
                &&& final(self).saved_filters@.last().is_regex == (old(
                    self,
                ).active_filter->0).is_regex
            },
            old(self).active_filter is None ==> *final(self) == *old(self),
    {
        if let Some(f) = &self.active_filter {
            let rec = SavedFilter {
                name,
                pattern: f.pattern.clone(),
                is_regex: f.is_regex,
            };
            self.saved_filters.push(rec);
        }
    }

    /// Reactivates a saved filter: builds a fresh active filter from the
    /// record and rescans immediately.
    pub fn activate_saved(&mut self, i: usize)
        requires
            old(self).inv(),
            i < old(self).saved_filters@.len(),
        ensures
            final(self).inv(),
            final(self).pending is None,
            final(self).active_filter is Some,
            (final(self).active_filter->0).pattern@ == old(self).saved_filters@[i as int].pattern@,
            (final(self).active_filter->0).is_regex == old(self).saved_filters@[i as int].is_regex,
            (final(self).active_filter->0).uses_regex() <==> old(
                self,
            ).saved_filters@[i as int].is_regex && crate::filter::regex_accepts(
                old(self).saved_filters@[i as int].pattern@,
            ),
            *final(self) == (ViewerState {
                active_filter: final(self).active_filter,
                filtered_indices: final(self).filtered_indices,
                pending: None,
                scroll: final(self).scroll,
                ..*old(self)
            }),
            final(self).scroll == if old(self).scroll <= final(self).filtered_indices@.len() {
                old(self).scroll as int
            } else {
                final(self).filtered_indices@.len() as int
            },
    {
        let pattern = self.saved_filters[i].pattern.clone();
        let is_regex = self.saved_filters[i].is_regex;
        self.apply_filter_now(pattern, is_regex);
    }
}

/// Removing one element of a strictly increasing sequence leaves it
/// strictly increasing, and removes exactly that element from the set of
/// members.
proof fn lemma_sorted_remove(before: Seq<usize>, after: Seq<usize>, i: int)
    requires
        0 <= i < before.len(),
        after == before.remove(i),
        forall|k: int, l: int| 0 <= k < l < before.len() ==> before[k] < before[l],
    ensures
        forall|k: int, l: int| 0 <= k < l < after.len() ==> after[k] < after[l],
        forall|j: int| #[trigger] has_val(after, j) <==> (has_val(before, j) && j != before[i]),
{
    assert forall|j: int|
        #[trigger] has_val(after, j) <==> (has_val(before, j) && j != before[i]) by {
        if has_val(after, j) {
            let k = choose|k: int| 0 <= k < after.len() && after[k] == j;
            if k < i {
                assert(before[k] == j);
            } else {
                assert(before[k + 1] == j);
            }
        }
        if has_val(before, j) && j != before[i] {
            let k = choose|k: int| 0 <= k < before.len() && before[k] == j;
            if k < i {
                assert(after[k] == j);
            } else {
                assert(k > i);
                assert(after[k - 1] == j);
            }
        }
    }
}

/// Inserting a new element at its sorted position in a strictly increasing
/// sequence keeps it strictly increasing and adds exactly that element to
/// the set of members.
proof fn lemma_sorted_insert(before: Seq<usize>, after: Seq<usize>, i: int, v: usize)
    requires
        0 <= i <= before.len(),
        after == before.insert(i, v),
        forall|k: int, l: int| 0 <= k < l < before.len() ==> before[k] < before[l],
        forall|k: int| 0 <= k < i ==> before[k] < v,
        i < before.len() ==> before[i] > v,
    ensures
        forall|k: int, l: int| 0 <= k < l < after.len() ==> after[k] < after[l],
        forall|j: int| #[trigger] has_val(after, j) <==> (has_val(before, j) || j == v),
{
    assert forall|k: int, l: int| 0 <= k < l < after.len() implies after[k] < after[l] by {
        if l < i {
        } else if k < i && l == i {
            assert(after[k] == before[k]);
        } else if k < i {
            assert(after[l] == before[l - 1]);
            assert(before[l - 1] >= before[i]);
        } else if k == i {
            assert(after[l] == before[l - 1]);
        } else {
            assert(after[k] == before[k - 1] && after[l] == before[l - 1]);
        }
    }
    assert forall|j: int|
        #[trigger] has_val(after, j) <==> (has_val(before, j) || j == v) by {
        if has_val(after, j) {
            let k = choose|k: int| 0 <= k < after.len() && after[k] == j;
            if k < i {
                assert(before[k] == j);
            } else if k > i {
                assert(before[k - 1] == j);
            }
        }
        if has_val(before, j) {
            let k = choose|k: int| 0 <= k < before.len() && before[k] == j;
            if k < i {
                assert(after[k] == j);
            } else {
                assert(after[k + 1] == j);
            }
        }
        if j == v {
            assert(after[i] == j);
        }
    }
}

} // verus!
