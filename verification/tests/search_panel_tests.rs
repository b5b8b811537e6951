use editor_input::search_panel::{focus_target, next_scroll_direction, prev_scroll_direction, MoveDirection};

#[test]
fn test_next_scroll_direction_returns_down_without_wrap() {
    assert!(matches!(next_scroll_direction(0, 1), Some(MoveDirection::Down)));
}

#[test]
fn test_next_scroll_direction_returns_none_on_wrap() {
    assert!(next_scroll_direction(2, 0).is_none());
}

#[test]
fn test_next_scroll_direction_returns_none_for_single_match() {
    assert!(next_scroll_direction(0, 0).is_none());
}

#[test]
fn test_prev_scroll_direction_returns_up_without_wrap() {
    assert!(matches!(prev_scroll_direction(2, 1), Some(MoveDirection::Up)));
}

#[test]
fn test_prev_scroll_direction_returns_none_on_wrap() {
    assert!(prev_scroll_direction(0, 2).is_none());
}

#[test]
fn test_prev_scroll_direction_returns_none_for_single_match() {
    assert!(prev_scroll_direction(0, 0).is_none());
}

#[test]
fn focus_skips_disabled_controls_in_both_directions() {
    let enabled = vec![true, false, true, true, false, false, false, false, false, true];
    assert_eq!(focus_target(&enabled, 0, false), Some(2));
    assert_eq!(focus_target(&enabled, 0, true), Some(9));
    assert_eq!(focus_target(&enabled, 9, false), Some(0));
    assert_eq!(focus_target(&enabled, 3, false), Some(9));
}

#[test]
fn focus_with_nothing_enabled_stays() {
    let enabled = vec![false, false, false];
    assert_eq!(focus_target(&enabled, 1, false), None);
}
