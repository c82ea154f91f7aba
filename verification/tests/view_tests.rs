use bark::filter::MatchRange;
use bark::state::ViewerState;
use bark::view::{adjust_matches_for_scroll, apply_horizontal_scroll, highlight_segments};

fn state_with(lines: &[&str]) -> ViewerState {
    let mut st = ViewerState::new(300);
    for l in lines {
        st.push_line(l.to_string());
    }
    st
}

#[test]
fn empty_state_yields_empty_window() {
    let st = ViewerState::new(300);
    assert_eq!(st.visible_window(10), (0, 0));
    assert!(st.visible_lines(10).is_empty());
}

#[test]
fn follow_mode_keeps_newest_line_visible() {
    let mut st = ViewerState::new(300);
    for i in 0..10 {
        st.push_line(format!("line {}", i));
    }
    assert!(st.stick_to_bottom);
    assert_eq!(st.visible_window(5), (5, 10));
    let vis = st.visible_lines(5);
    assert_eq!(vis, vec![5, 6, 7, 8, 9]);

    st.apply_filter_now("line".to_string(), false);
    let idx = st.push_line("one more line".to_string());
    let vis = st.visible_lines(5);
    assert_eq!(*vis.last().unwrap(), idx);
}

#[test]
fn manual_scroll_disables_follow() {
    let mut st = state_with(&["a", "b", "c", "d", "e", "f"]);
    assert!(st.stick_to_bottom);
    st.scroll_up(1, 2);
    assert!(!st.stick_to_bottom);
    assert_eq!(st.visible_window(2), (3, 5));
    st.scroll_to_bottom();
    assert!(st.stick_to_bottom);
    assert_eq!(st.visible_window(2), (4, 6));
}

#[test]
fn scrolling_is_clamped() {
    let mut st = state_with(&["a", "b", "c"]);
    st.scroll_down(100, 2);
    assert_eq!(st.scroll, 1);
    st.scroll_up(100, 2);
    assert_eq!(st.scroll, 0);
    assert_eq!(st.visible_window(2), (0, 2));
}

#[test]
fn horizontal_scroll_counts_characters() {
    assert_eq!(apply_horizontal_scroll("h\u{e9}llo w\u{f6}rld", 2), "llo w\u{f6}rld");
    assert_eq!(apply_horizontal_scroll("abc", 0), "abc");
    assert_eq!(apply_horizontal_scroll("abc", 3), "");
    assert_eq!(apply_horizontal_scroll("abc", 99), "");
}

#[test]
fn horizontal_scroll_state_saturates() {
    let mut st = state_with(&["a"]);
    st.scroll_right(4);
    assert_eq!(st.horizontal_scroll, 4);
    st.scroll_left(1);
    assert_eq!(st.horizontal_scroll, 3);
    st.scroll_left(10);
    assert_eq!(st.horizontal_scroll, 0);
}

#[test]
fn match_ranges_clip_against_horizontal_scroll() {
    let ranges = vec![
        MatchRange { start: 0, end: 2 },
        MatchRange { start: 3, end: 6 },
        MatchRange { start: 8, end: 10 },
    ];
    let adjusted = adjust_matches_for_scroll(&ranges, 4);
    assert_eq!(
        adjusted,
        vec![MatchRange { start: 0, end: 2 }, MatchRange { start: 4, end: 6 }],
    );
    let unmoved = adjust_matches_for_scroll(&ranges, 0);
    assert_eq!(unmoved, ranges);
    let all_gone = adjust_matches_for_scroll(&ranges, 10);
    assert!(all_gone.is_empty());
}

#[test]
fn row_data_gathers_render_inputs() {
    let mut st = state_with(&["connect ok", "ERROR timeout"]);
    st.apply_filter_now("error".to_string(), false);
    st.toggle_bookmark(1);

    let row = st.row_data(1, 0);
    assert_eq!(row.raw, "ERROR timeout");
    assert_eq!(row.level, bark::buffer::LogLevel::Error);
    assert!(row.bookmarked);
    assert!(!row.has_ansi);
    assert!(!row.is_json);
    assert_eq!(row.matches, vec![MatchRange { start: 0, end: 5 }]);

    let scrolled = st.row_data(1, 2);
    assert_eq!(scrolled.matches, vec![MatchRange { start: 0, end: 3 }]);

    let other = st.row_data(0, 0);
    assert!(!other.bookmarked);
    assert!(other.matches.is_empty());
}

#[test]
fn row_data_clips_by_bytes_on_multibyte_lines() {
    // "h\u{e9}llo ERROR": the second character is two bytes, so character
    // position 2 starts at byte 3; the match at bytes [7,12) must become
    // [4,9) in the scrolled text, not [5,10).
    let mut st = state_with(&["h\u{e9}llo ERROR"]);
    st.apply_filter_now("error".to_string(), false);

    let row = st.row_data(0, 2);
    assert_eq!(row.matches, vec![MatchRange { start: 4, end: 9 }]);

    let scrolled = apply_horizontal_scroll(&row.raw, 2);
    assert_eq!(scrolled, "llo ERROR");
    let segs = highlight_segments(scrolled.as_bytes(), &row.matches);
    assert_eq!(segs, vec![(b"llo ".to_vec(), false), (b"ERROR".to_vec(), true)]);

    // Scrolling into the middle of the match truncates it at its start.
    let row2 = st.row_data(0, 8);
    assert_eq!(row2.matches, vec![MatchRange { start: 0, end: 3 }]);

    // Scrolling past the whole line leaves no visible match.
    let row3 = st.row_data(0, 99);
    assert!(row3.matches.is_empty());
}

#[test]
fn highlight_segments_skip_overlong_range() {
    let segs = highlight_segments(b"abc", &vec![MatchRange { start: 1, end: 99 }]);
    assert_eq!(segs, vec![(b"a".to_vec(), false), (b"abc".to_vec(), false)]);
}

#[test]
fn highlight_segments_partition_the_line() {
    let text = b"xxerrorzz";
    let ranges = vec![MatchRange { start: 2, end: 7 }];
    let segs = highlight_segments(text, &ranges);
    assert_eq!(
        segs,
        vec![
            (b"xx".to_vec(), false),
            (b"error".to_vec(), true),
            (b"zz".to_vec(), false),
        ],
    );

    let no_ranges = highlight_segments(text, &Vec::new());
    assert_eq!(no_ranges, vec![(b"xxerrorzz".to_vec(), false)]);

    let at_edges = highlight_segments(b"abab", &vec![
        MatchRange { start: 0, end: 2 },
        MatchRange { start: 2, end: 4 },
    ]);
    assert_eq!(at_edges, vec![(b"ab".to_vec(), true), (b"ab".to_vec(), true)]);

    let empty = highlight_segments(b"", &Vec::new());
    assert!(empty.is_empty());
}
