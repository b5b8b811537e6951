use editor_input::search::SearchMatcher;
use ropey::Rope;
use std::rc::Rc;

#[test]
fn whole_word_excludes_unicode_word_neighbors() {
    let mut matcher = SearchMatcher::new();
    matcher.update(&Rope::from("café CAFÉ caféine _café café_"));
    matcher.update_query("café", true);
    matcher.set_whole_word(true);
    assert_eq!(&*matcher.matched_ranges(), &[0..5, 6..11]);
    matcher.update(&Rope::from("a.b aXb xa.b a.b_ a.b\u{301} a.b"));
    matcher.update_query("a.b", true);
    assert_eq!(&*matcher.matched_ranges(), &[0..3, 24..27]);
    matcher.update(&Rope::from("(foo) x(foo) (foo)_ (foo)"));
    matcher.update_query("(foo)", false);
    assert_eq!(&*matcher.matched_ranges(), &[0..5, 20..25]);
    matcher.update(&Rope::from("é e\u{301}"));
    matcher.update_query("é", true);
    assert_eq!(&*matcher.matched_ranges(), &[0..2]);
}

#[test]
fn unchanged_query_options_and_text_keep_matches() {
    let mut matcher = SearchMatcher::new();
    let text = Rope::from("foo foo");
    matcher.update(&text);
    matcher.update_query("foo", true);
    matcher.next();
    let ranges = matcher.matched_ranges();
    matcher.update_query("foo", true);
    matcher.set_whole_word(false);
    matcher.update(&text);
    assert!(Rc::ptr_eq(&ranges, &matcher.matched_ranges()));
    assert_eq!(matcher.current_match_index(), 1);
}

#[test]
fn oversized_query_reports_error_and_recovers() {
    let mut matcher = SearchMatcher::new();
    matcher.update(&Rope::from("foo"));
    matcher.update_query(&"Σ".repeat(400_000), true);
    assert!(matcher.error().is_some());
    assert!(matcher.is_empty());
    matcher.update_query("foo", true);
    assert!(matcher.error().is_none());
    assert_eq!(&*matcher.matched_ranges(), &[0..3]);
}

#[test]
fn unicode_literal_search() {
    let mut matcher = SearchMatcher::new();
    matcher.update(&Rope::from("café CAFÉ caféine _café café_"));
    matcher.update_query("café", true);
    assert_eq!(&*matcher.matched_ranges(), &[0..5, 6..11, 12..17, 22..27, 28..33]);
    matcher.update(&Rope::from("Σσς"));
    matcher.update_query("σ", true);
    assert_eq!(&*matcher.matched_ranges(), &[0..2, 2..4, 4..6]);
    matcher.update(&Rope::from("a.b aXb"));
    matcher.update_query("a.b", true);
    assert_eq!(&*matcher.matched_ranges(), &[0..3]);
    matcher.update_query("", true);
    assert!(matcher.is_empty());
}

#[test]
fn finds_navigates_and_preserves_replacement_position() {
    let mut matcher = SearchMatcher::new();
    matcher.update(&Rope::from("foo FOO foo"));
    matcher.update_query("foo", true);
    assert_eq!(&*matcher.matched_ranges(), &[0..3, 4..7, 8..11]);
    assert_eq!(matcher.next(), Some(4..7));
    assert_eq!(matcher.next_back(), Some(0..3));

    matcher.set_current_match_index(2);
    matcher.begin_replacement();
    matcher.update(&Rope::from("foo FOO bar"));
    assert_eq!(matcher.current_match_index(), 1);
}

#[test]
fn next_wraps_to_start() {
    let mut matcher = SearchMatcher::new();
    matcher.update(&Rope::from(".....aaaaa.....aaaaa.....aaaaa"));
    matcher.update_query("aaaaa", false);
    matcher.set_current_match_index(2);
    assert_eq!(matcher.next(), Some(5..10));
}

#[test]
fn replacement_keeps_current_match_index_on_next_match() {
    let mut matcher = SearchMatcher::new();
    matcher.update(&Rope::from("foo foo foo"));
    matcher.update_query("foo", true);
    assert_eq!(matcher.label(), "1/3");

    assert!(matcher.has_next_without_wrap());
    matcher.begin_replacement();
    matcher.update(&Rope::from("bar foo foo"));
    assert_eq!(matcher.current_match_index(), 0);
    assert_eq!(matcher.matched_ranges()[0], 4..7);
    assert_eq!(matcher.label(), "1/2");

    matcher.set_current_match_index(1);
    assert!(!matcher.has_next_without_wrap());
    matcher.set_current_match_index(0);
    matcher.begin_replacement();
    matcher.update(&Rope::from("bar foo bar"));
    assert_eq!(matcher.current_match_index(), 0);
    assert_eq!(matcher.matched_ranges()[0], 4..7);
    assert_eq!(matcher.label(), "1/1");
}

#[test]
fn update_matches_clamps_current_match_index_while_replacing() {
    let mut matcher = SearchMatcher::new();
    matcher.update(&Rope::from("foo foo foo"));
    matcher.update_query("foo", true);
    matcher.set_current_match_index(2);
    matcher.begin_replacement();

    matcher.update(&Rope::from("foo xoo foo"));

    assert_eq!(matcher.len(), 2);
    assert_eq!(matcher.current_match_index(), 1);
    assert_eq!(matcher.label(), "2/2");
}

#[test]
fn test_search() {
    let mut matcher = SearchMatcher::new();
    matcher.update(&Rope::from("Hello 世界 this is a Is test string."));
    matcher.update_query("Is", true);

    assert_eq!(matcher.len(), 3);
    let mut matches = matcher.clone();
    assert_eq!(matches.current_match_index(), 0);
    assert_eq!(matches.next(), Some(18..20));
    assert_eq!(matches.next(), Some(23..25));
    assert_eq!(matches.current_match_index(), 2);
    assert_eq!(matches.next(), Some(15..17));
    assert_eq!(matches.current_match_index(), 0);
    assert_eq!(matches.next_back(), Some(23..25));
    assert_eq!(matches.current_match_index(), 2);
    assert_eq!(matches.next_back(), Some(18..20));
    assert_eq!(matches.current_match_index(), 1);
    assert_eq!(matches.next_back(), Some(15..17));
    assert_eq!(matches.current_match_index(), 0);
    assert_eq!(matches.next_back(), Some(23..25));

    matcher.update_query("IS", false);
    assert_eq!(matcher.len(), 0);
    assert_eq!(matcher.next(), None);
    assert_eq!(matcher.next_back(), None);
}

#[test]
fn test_search_label() {
    let mut matcher = SearchMatcher::new();
    matcher.update(&Rope::from("Hello 世界 this is a Is test string."));
    matcher.update_query("Is", true);
    assert_eq!(matcher.label(), "1/3");
    matcher.next();
    assert_eq!(matcher.label(), "2/3");
    matcher.next();
    assert_eq!(matcher.label(), "3/3");
    matcher.next();
    assert_eq!(matcher.label(), "1/3");

    matcher.update_query("IS", false);
    assert_eq!(matcher.label(), "0/0");
}

#[test]
fn test_select_range_start() {
    let mut matcher = SearchMatcher::new();
    matcher.update(&Rope::from(".....aaaaa.....aaaaa.....aaaaa"));
    matcher.update_query("aaaaa", false);
    matcher.update_cursor_by_offset(0);
    assert_eq!(matcher.current_match_index(), 0);

    matcher.update_cursor_by_offset(5);
    assert_eq!(matcher.current_match_index(), 0);

    matcher.update_cursor_by_offset(12);
    assert_eq!(matcher.current_match_index(), 1);

    matcher.update_cursor_by_offset(16);
    assert_eq!(matcher.current_match_index(), 1);

    matcher.update_cursor_by_offset(30);
    assert_eq!(matcher.current_match_index(), 0);

    matcher.update_cursor_by_offset(31);
    assert_eq!(matcher.current_match_index(), 0);
}

#[test]
fn next_then_back_returns_to_the_same_match() {
    let mut matcher = SearchMatcher::new();
    matcher.update(&Rope::from("ab ab ab ab"));
    matcher.update_query("ab", false);
    matcher.set_current_match_index(1);
    let forward = matcher.next();
    assert_eq!(forward, Some(6..8));
    assert_eq!(matcher.next_back(), Some(3..5));
    assert_eq!(matcher.current_match_index(), 1);
}

#[test]
fn whole_word_keeps_matches_between_non_word_characters() {
    let mut matcher = SearchMatcher::new();
    matcher.update(&Rope::from("foo-foo foofoo"));
    matcher.update_query("foo", false);
    matcher.set_whole_word(true);
    assert_eq!(&*matcher.matched_ranges(), &[0..3, 4..7]);
    matcher.set_whole_word(false);
    assert_eq!(&*matcher.matched_ranges(), &[0..3, 4..7, 8..11, 11..14]);
}

#[test]
fn the_label_writes_numbers_of_several_digits() {
    let mut matcher = SearchMatcher::new();
    matcher.update(&Rope::from("ab ".repeat(120)));
    matcher.update_query("ab", false);
    assert_eq!(matcher.label(), "1/120");
    for _ in 0..9 {
        matcher.next();
    }
    assert_eq!(matcher.label(), "10/120");
    for _ in 0..10 {
        matcher.next_back();
    }
    assert_eq!(matcher.label(), "120/120");
    for _ in 0..10 {
        matcher.next();
    }
    assert_eq!(matcher.label(), "10/120");
}

#[test]
fn case_sensitive_matches_are_the_leftmost_occurrences() {
    let mut matcher = SearchMatcher::new();
    matcher.update(&Rope::from("aaaaa Aa aa"));
    matcher.update_query("aa", false);
    assert_eq!(&*matcher.matched_ranges(), &[0..2, 2..4, 9..11]);
    matcher.update(&Rope::from("ééé"));
    matcher.update_query("éé", false);
    assert_eq!(&*matcher.matched_ranges(), &[0..4]);
}
