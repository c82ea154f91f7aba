//! The append-only line buffer.
//!
//! Each ingested line gets a monotonically increasing sequence index,
//! assigned at append time and never reused, and a few attributes derived
//! once from its text: a severity classification, whether the text carries
//! ANSI escape codes, and whether it is JSON-shaped. Lines are immutable
//! after creation and never removed.
use vstd::prelude::*;

use crate::text::{
    contains_byte, contains_byte_exec, fold_chars, has_match_exec, lit_match, skip_ws,
    skip_ws_exec, str_chars,
};
use vstd::string::StringSliceAdditionalSpecFns;
use vstd::utf8::encode_utf8;

verus! {

/// Severity classes derived from a line's text.
#[derive(Clone, Copy, Debug, PartialEq, Eq, Structural)]
pub enum LogLevel {
    Error,
    Warn,
    Info,
    Debug,
    Trace,
    Plain,
}

/// The severity of a line: the first of the level words "error", "warn",
/// "info", "debug", "trace" that occurs in the text, case-insensitively,
/// in that order of precedence; `Plain` when none does.
pub open spec fn level_of(text: Seq<char>) -> LogLevel {
    if lit_match(text, "error"@) {
        LogLevel::Error
    } else if lit_match(text, "warn"@) {
        LogLevel::Warn
    } else if lit_match(text, "info"@) {
        LogLevel::Info
    } else if lit_match(text, "debug"@) {
        LogLevel::Debug
    } else if lit_match(text, "trace"@) {
        LogLevel::Trace
    } else {
        LogLevel::Plain
    }
}

/// Whether the word occurs in the text, case-insensitively.
fn contains_word(text: &Vec<char>, word: &str) -> (r: bool)
    ensures
        r == lit_match(text@, word@),
{
    let folded = fold_chars(&str_chars(word));
    has_match_exec(text.as_slice(), folded.as_slice())
}

/// The text carries ANSI escape codes when it contains the escape byte.
pub open spec fn spec_has_ansi(text: Seq<u8>) -> bool {
    contains_byte(text, 27)
}

/// The text is JSON-shaped when its first byte after leading blanks opens
/// an object or an array.
pub open spec fn spec_is_json(text: Seq<u8>) -> bool {
    let i = skip_ws(text, 0);
    i < text.len() && (text[i] == 123 || text[i] == 91)
}

/// Classifies a line's severity by its text.
pub fn classify_level(line: &str) -> (lv: LogLevel)
    ensures
        lv == level_of(line@),
{
    let chars = str_chars(line);
    if contains_word(&chars, "error") {
        LogLevel::Error
    } else if contains_word(&chars, "warn") {
        LogLevel::Warn
    } else if contains_word(&chars, "info") {
        LogLevel::Info
    } else if contains_word(&chars, "debug") {
        LogLevel::Debug
    } else if contains_word(&chars, "trace") {
        LogLevel::Trace
    } else {
        LogLevel::Plain
    }
}

/// One ingested line: its raw text, its sequence index, and attributes
/// computed once from the text at ingestion.
#[derive(Clone, Debug)]
pub struct LogLine {
    /// The raw text, immutable once created.
    pub raw: String,
    /// The sequence index assigned at append time.
    pub index: usize,
    /// Derived severity classification.
    pub level: LogLevel,
    /// Whether the text contains ANSI escape/color codes.
    pub has_ansi: bool,
    /// Whether the text is JSON-shaped.
    pub is_json: bool,
}

/// A line's derived attributes agree with its text.
pub open spec fn line_wf(l: LogLine) -> bool {
    &&& l.level == level_of(l.raw@)
    &&& l.has_ansi == spec_has_ansi(encode_utf8(l.raw@))
    &&& l.is_json == spec_is_json(encode_utf8(l.raw@))
}

impl LogLine {
    /// Builds a line from its text and its sequence index, deriving the
    /// severity and the text-shape flags.
    pub fn new(raw: String, index: usize) -> (l: LogLine)
        ensures
            l.raw@ == raw@,
            l.index == index,
            line_wf(l),
    {
        let level = classify_level(raw.as_str());
        let has_ansi = contains_byte_exec(raw.as_str().as_bytes(), 27);
        let is_json_flag = {
            let b = raw.as_str().as_bytes();
            let i = skip_ws_exec(b);
            i < b.len() && (b[i] == 123 || b[i] == 91)
        };
        LogLine { raw, index, level, has_ansi, is_json: is_json_flag }
    }
}

/// The append-only in-memory record of all ingested lines, in arrival
/// order; the position of a line equals its sequence index.
pub struct LogBuffer {
    pub lines: Vec<LogLine>,
}

impl LogBuffer {
    /// Every stored line is internally consistent and sits at the position
    /// its sequence index names.
    pub open spec fn wf(self) -> bool {
        forall|k: int|
            0 <= k < self.lines@.len() ==> line_wf(#[trigger] self.lines@[k])
                && self.lines@[k].index == k
    }

    /// An empty buffer; the next sequence index is zero.
    pub fn new() -> (r: LogBuffer)
        ensures
            r.wf(),
            r.lines@.len() == 0,
    {
        LogBuffer { lines: Vec::new() }
    }

    /// The number of lines appended so far.
    pub fn length(&self) -> (n: usize)
        ensures
            n == self.lines@.len(),
    {
        self.lines.len()
    }

    /// Appends one line, assigning it the next sequence index, and returns
    /// that index. All earlier lines are unchanged.
    pub fn append(&mut self, raw: String) -> (idx: usize)
        requires
            old(self).wf(),
            old(self).lines@.len() < usize::MAX,
        ensures
            final(self).wf(),
            idx == old(self).lines@.len(),
            final(self).lines@.len() == idx + 1,
            forall|k: int| 0 <= k < idx ==> final(self).lines@[k] == old(self).lines@[k],
            final(self).lines@[idx as int].raw@ == raw@,
            final(self).lines@[idx as int].index == idx,
            line_wf(final(self).lines@[idx as int]),
    {
        let idx = self.lines.len();
        let line = LogLine::new(raw, idx);
        self.lines.push(line);
        idx
    }

    /// The line with the given sequence index.
    pub fn get(&self, index: usize) -> (l: &LogLine)
        requires
            index < self.lines@.len(),
        ensures
            *l == self.lines@[index as int],
    {
        &self.lines[index]
    }
}

} // verus!
