use bark::buffer::LogLevel;
use bark::state::{LogEvent, ViewerState};

fn state_with(lines: &[&str]) -> ViewerState {
    let mut st = ViewerState::new(300);
    for l in lines {
        st.push_line(l.to_string());
    }
    st
}

const FOUR_LINES: [&str; 4] = ["connect ok", "ERROR timeout", "retrying", "ERROR fatal"];

#[test]
fn error_filter_scenario() {
    let mut st = state_with(&FOUR_LINES);
    st.apply_filter_now("error".to_string(), false);
    assert_eq!(st.filtered_indices, vec![1, 3]);
    let f = st.active_filter.as_ref().unwrap();
    let ms = f.find_matches("ERROR timeout");
    assert_eq!(ms.len(), 1);
    assert_eq!((ms[0].start, ms[0].end), (0, 5));
}

#[test]
fn no_filter_means_full_range() {
    let st = state_with(&FOUR_LINES);
    assert_eq!(st.filtered_indices, vec![0, 1, 2, 3]);
}

#[test]
fn debounced_edits_rescan_once() {
    let mut st = state_with(&["alpha", "beta", "alpazam"]);
    assert_eq!(st.filtered_indices, vec![0, 1, 2]);

    st.edit_filter("alp".to_string(), false, 0);
    assert!(!st.check_filter_debounce(100));
    assert_eq!(st.filtered_indices, vec![0, 1, 2]);

    st.edit_filter("alpa".to_string(), false, 150);
    st.edit_filter("beta".to_string(), false, 200);
    assert!(!st.check_filter_debounce(499));
    assert_eq!(st.filtered_indices, vec![0, 1, 2]);
    assert!(st.active_filter.is_none());

    assert!(st.check_filter_debounce(500));
    let f = st.active_filter.as_ref().unwrap();
    assert_eq!(f.pattern, "beta");
    assert_eq!(st.filtered_indices, vec![1]);

    assert!(!st.check_filter_debounce(600));
    assert_eq!(st.filtered_indices, vec![1]);
}

#[test]
fn appended_line_is_filtered_incrementally() {
    let mut st = state_with(&["one"]);
    st.apply_filter_now("err".to_string(), false);
    assert!(st.filtered_indices.is_empty());
    let i = st.push_line("no match here".to_string());
    assert_eq!(i, 1);
    let j = st.push_line("ERRor again".to_string());
    assert_eq!(j, 2);
    assert_eq!(st.filtered_indices, vec![2]);
}

#[test]
fn clear_filter_restores_full_range() {
    let mut st = state_with(&FOUR_LINES);
    st.apply_filter_now("error".to_string(), false);
    assert_eq!(st.filtered_indices, vec![1, 3]);
    st.clear_filter();
    assert!(st.active_filter.is_none());
    assert_eq!(st.filtered_indices, vec![0, 1, 2, 3]);
}

#[test]
fn line_attributes_derived_once() {
    let st = state_with(&[
        "ERROR boom",
        "all good",
        "warning: disk low",
        "\u{1b}[31mred text",
        "  {\"a\": 1}",
        "[1, 2, 3]",
        "debugging session",
        "trace me",
        "info: started",
    ]);
    let b = &st.buffer;
    assert_eq!(b.get(0).level, LogLevel::Error);
    assert_eq!(b.get(1).level, LogLevel::Plain);
    assert_eq!(b.get(2).level, LogLevel::Warn);
    assert_eq!(b.get(6).level, LogLevel::Debug);
    assert_eq!(b.get(7).level, LogLevel::Trace);
    assert_eq!(b.get(8).level, LogLevel::Info);
    assert!(b.get(3).has_ansi);
    assert!(!b.get(0).has_ansi);
    assert!(b.get(4).is_json);
    assert!(b.get(5).is_json);
    assert!(!b.get(1).is_json);
    assert_eq!(b.get(2).index, 2);
    assert_eq!(b.length(), 9);
}

#[test]
fn bookmark_toggle_and_navigation() {
    let mut st = state_with(&FOUR_LINES);
    st.toggle_bookmark(1);
    st.toggle_bookmark(3);
    assert!(st.is_bookmarked(1));
    assert!(st.is_bookmarked(3));
    assert!(!st.is_bookmarked(0));

    st.apply_filter_now("error".to_string(), false);
    assert_eq!(st.filtered_indices, vec![1, 3]);

    st.clear_filter();
    st.scroll_to_top();
    assert_eq!(st.scroll, 0);
    st.next_bookmark();
    assert_eq!(st.scroll, 1);
    assert_eq!(st.filtered_indices[st.scroll], 1);
    st.next_bookmark();
    assert_eq!(st.scroll, 3);
    st.prev_bookmark();
    assert_eq!(st.scroll, 1);

    st.toggle_bookmark(1);
    assert!(!st.is_bookmarked(1));
    assert!(st.is_bookmarked(3));
}

#[test]
fn filtered_out_bookmark_is_skipped() {
    let mut st = state_with(&FOUR_LINES);
    st.toggle_bookmark(2);
    st.apply_filter_now("error".to_string(), false);
    st.scroll_to_top();
    st.next_bookmark();
    assert_eq!(st.scroll, 0);
}

#[test]
fn events_update_state() {
    let mut st = ViewerState::new(300);
    st.handle_event(LogEvent::Line("hello".to_string()));
    assert_eq!(st.buffer.length(), 1);
    assert!(st.status_message.is_none());

    st.handle_event(LogEvent::Error("pipe broke".to_string()));
    assert_eq!(st.status_message.as_deref(), Some("Error: pipe broke"));

    st.handle_event(LogEvent::EndOfStream);
    assert_eq!(st.status_message.as_deref(), Some("Stream ended"));
    assert_eq!(st.buffer.length(), 1);
}

#[test]
fn saved_filters_reactivate() {
    let mut st = state_with(&FOUR_LINES);
    st.apply_filter_now("error".to_string(), false);
    st.save_filter("errs".to_string());
    assert_eq!(st.saved_filters.len(), 1);
    assert_eq!(st.saved_filters[0].name, "errs");
    assert_eq!(st.saved_filters[0].pattern, "error");
    assert!(!st.saved_filters[0].is_regex);

    st.clear_filter();
    assert_eq!(st.filtered_indices.len(), 4);
    st.activate_saved(0);
    assert_eq!(st.filtered_indices, vec![1, 3]);

    let mut empty = ViewerState::new(300);
    empty.save_filter("nothing".to_string());
    assert!(empty.saved_filters.is_empty());
}
