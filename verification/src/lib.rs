//! Core of a terminal live-log viewer: an append-only line buffer, a
//! literal/regex filter engine with byte-range match discovery, an
//! incrementally maintained filtered index with edit debouncing, and a
//! scrollable viewport with follow mode and bookmark navigation.
//!
//! Case-insensitive literal matching folds case per character, 1:1: a
//! character whose Unicode lowercase mapping is a single character
//! compares equal to that character, and a character whose lowercase form
//! would change the character count compares as itself. Matches are found
//! at character positions and reported as byte ranges of the original
//! line, so every range lies on character boundaries of the unmodified
//! text even when upper and lower case differ in byte length.
pub mod buffer;
pub mod filter;
pub mod state;
pub mod text;
pub mod view;
