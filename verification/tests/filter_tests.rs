use bark::filter::{ActiveFilter, MatchRange};

fn ranges(f: &ActiveFilter, text: &str) -> Vec<(usize, usize)> {
    f.find_matches(text).iter().map(|m| (m.start, m.end)).collect()
}

#[test]
fn empty_pattern_finds_nothing() {
    let f = ActiveFilter::new(String::new(), false);
    assert!(f.find_matches("anything at all").is_empty());
    assert!(f.find_matches("").is_empty());
    assert!(!f.matches("anything at all"));

    let g = ActiveFilter::new(String::new(), true);
    assert!(g.find_matches("anything at all").is_empty());
    assert!(!g.matches("anything at all"));
}

#[test]
fn literal_match_is_case_insensitive() {
    let f = ActiveFilter::new("error".to_string(), false);
    assert!(f.matches("ERROR timeout"));
    assert!(f.matches("an Error occurred"));
    assert!(!f.matches("all fine"));
    assert_eq!(ranges(&f, "ERROR timeout"), vec![(0, 5)]);

    let g = ActiveFilter::new("WaRn".to_string(), false);
    assert!(g.matches("warning: disk"));
    assert_eq!(ranges(&g, "warning"), vec![(0, 4)]);
}

#[test]
fn overlap_free_advancement() {
    let f = ActiveFilter::new("ab".to_string(), false);
    assert_eq!(ranges(&f, "ababab"), vec![(0, 2), (2, 4), (4, 6)]);

    let g = ActiveFilter::new("aa".to_string(), false);
    assert_eq!(ranges(&g, "aaaa"), vec![(0, 2), (2, 4)]);
    assert_eq!(ranges(&g, "aaa"), vec![(0, 2)]);
}

#[test]
fn literal_ranges_sorted_and_match_pattern() {
    let f = ActiveFilter::new("Ab".to_string(), false);
    let text = "ABraCadabra AB";
    let ms = f.find_matches(text);
    assert!(!ms.is_empty());
    for w in ms.windows(2) {
        assert!(w[0].end <= w[1].start);
    }
    for m in &ms {
        assert!(m.end <= text.len());
        let piece = &text[m.start..m.end];
        assert_eq!(piece.to_lowercase(), "ab");
    }
}

#[test]
fn invalid_regex_falls_back_to_literal() {
    let f = ActiveFilter::new("(".to_string(), true);
    assert!(f.matches("foo (bar"));
    assert!(!f.matches("foobar"));
    assert_eq!(ranges(&f, "a(b"), vec![(1, 2)]);
}

#[test]
fn valid_regex_finds_ranges() {
    let f = ActiveFilter::new("wor+ld".to_string(), true);
    assert!(f.matches("hello world"));
    assert!(!f.matches("hello mars"));
    assert_eq!(ranges(&f, "world worrrld"), vec![(0, 5), (6, 13)]);
}

#[test]
fn matches_iff_find_matches_nonempty() {
    let samples = [
        "connect ok",
        "ERROR timeout",
        "retrying",
        "ERROR fatal",
        "",
        "ababab",
        "foo (bar",
    ];
    let filters = [
        ActiveFilter::new("error".to_string(), false),
        ActiveFilter::new("ab".to_string(), false),
        ActiveFilter::new("re".to_string(), false),
        ActiveFilter::new("ERR[A-Z]+".to_string(), true),
        ActiveFilter::new("(".to_string(), true),
    ];
    for f in &filters {
        for t in &samples {
            assert_eq!(f.matches(t), !f.find_matches(t).is_empty());
        }
    }
}

#[test]
fn literal_match_is_case_insensitive_beyond_ascii() {
    let f = ActiveFilter::new("\u{dc}".to_string(), false);
    assert!(f.matches("\u{fc}"));
    assert!(f.matches("s\u{fc}d"));
    assert_eq!(ranges(&f, "s\u{fc}d"), vec![(1, 3)]);

    let g = ActiveFilter::new("\u{dc}BER".to_string(), false);
    assert!(g.matches("\u{fc}ber gut"));
    assert_eq!(ranges(&g, "\u{fc}ber gut"), vec![(0, 5)]);

    let h = ActiveFilter::new("\u{3c9}".to_string(), false);
    assert!(h.matches("\u{3a9}"));
}

#[test]
fn literal_match_works_on_multibyte_text() {
    let f = ActiveFilter::new("\u{e9}".to_string(), false);
    let text = "caf\u{e9}";
    assert!(f.matches(text));
    let ms = f.find_matches(text);
    assert_eq!(ms.len(), 1);
    assert_eq!(ms[0], MatchRange { start: 3, end: 5 });
}

#[test]
fn filter_fields_reflect_construction() {
    let f = ActiveFilter::new("needle".to_string(), false);
    assert_eq!(f.pattern, "needle");
    assert!(!f.is_regex);
    let g = ActiveFilter::new("a+".to_string(), true);
    assert_eq!(g.pattern, "a+");
    assert!(g.is_regex);
}
