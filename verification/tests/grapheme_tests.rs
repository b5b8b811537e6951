use editor_input::grapheme::{ceil, floor, next, previous};
use editor_input::text::{clip_offset, Bias};
use ropey::Rope;
use unicode_segmentation::UnicodeSegmentation;

fn assert_boundaries(value: &str, multi_chunk: bool) {
    let text = Rope::from(value);
    if multi_chunk {
        assert!(text.chunks().count() > 2, "fixture must cross rope chunks");
    }
    let boundaries: Vec<_> = value.grapheme_indices(true).map(|(i, _)| i).chain([value.len()]).collect();
    for offset in (0..=value.len()).chain([usize::MAX]) {
        let left = clip_offset(&text, offset, Bias::Left);
        let right = clip_offset(&text, offset, Bias::Right);
        let expected_previous = boundaries.iter().copied().filter(|i| *i < left).next_back().unwrap_or(0);
        let expected_next = boundaries.iter().copied().find(|i| *i > right).unwrap_or(value.len());
        assert_eq!(previous(&text, offset), expected_previous, "previous at {offset}");
        assert_eq!(next(&text, offset), expected_next, "next at {offset}");
        assert_eq!(
            floor(&text, offset),
            *boundaries.iter().filter(|i| **i <= left).next_back().unwrap(),
            "floor at {offset}"
        );
        assert_eq!(ceil(&text, offset), *boundaries.iter().find(|i| **i >= right).unwrap(), "ceil at {offset}");
    }
}

#[test]
fn grapheme_boundaries_match_string_oracle() {
    for text in ["", "a中🎉e\u{301}👍🏽🇺🇸👨‍👩‍👧‍👦", "\r\n\rX\n"] {
        assert_boundaries(text, false);
    }
}

#[test]
fn grapheme_combining_and_zwj_sequences_cross_chunks() {
    let extended_before_joiner = format!("a👩{}\u{200d}👩b", "\u{301}".repeat(1200));
    assert_boundaries(&extended_before_joiner, true);
    let combining = format!("ae{}b", "\u{301}".repeat(1200));
    assert_boundaries(&combining, true);
    let joined = format!("a👩{}b", "\u{301}\u{200d}👩".repeat(350));
    assert_boundaries(&joined, true);
}

#[test]
fn grapheme_regional_indicator_context_crosses_chunks() {
    assert_boundaries(&format!("a{}b", "🇺".repeat(801)), true);
}

#[test]
fn floor_and_ceil_of_an_offset_inside_a_cluster() {
    let text = Rope::from("ae\u{301}b");
    assert_eq!(floor(&text, 2), 1);
    assert_eq!(ceil(&text, 2), 4);
    assert_eq!(previous(&text, 4), 1);
    assert_eq!(next(&text, 1), 4);
}
