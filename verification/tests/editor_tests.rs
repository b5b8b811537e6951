use editor_input::comment::{comment_edits, CommentSyntax};
use editor_input::comment_toggle::apply_comment_edits;
use editor_input::editor::InputBaseState;
use editor_input::indent::NewlineIndent;
use editor_input::selection::{EditorSelection, Pixels, Selection};
use editor_input::undo_manager::EditIntent;

fn carets(editor: &InputBaseState) -> Vec<(usize, usize)> {
    editor.selections().iter().map(|s| (s.anchor, s.head)).collect()
}

#[test]
fn an_edit_then_undo_restores_the_text_and_redo_reapplies_it() {
    let mut editor = InputBaseState::new("hello world");
    editor.replace_text_in_range(Selection::new(0, 5), "howdy", EditIntent::Atomic);
    assert_eq!(editor.text.to_string(), "howdy world");
    assert!(editor.undo());
    assert_eq!(editor.text.to_string(), "hello world");
    assert!(editor.redo());
    assert_eq!(editor.text.to_string(), "howdy world");
}

#[test]
fn replacing_every_selection_is_one_undo_step() {
    let mut editor = InputBaseState::new("one two one");
    let primary = editor.primary_selection_id();
    assert!(editor.set_selections(
        vec![EditorSelection::new(primary, 0, 3), EditorSelection::new(primary + 1, 8, 11)],
        primary
    ));
    assert!(editor.replace_selections("X"));
    assert_eq!(editor.text.to_string(), "X two X");
    assert_eq!(carets(&editor), vec![(1, 1), (7, 7)]);
    assert!(editor.undo());
    assert_eq!(editor.text.to_string(), "one two one");
}

#[test]
fn select_next_occurrence_selects_the_caret_word_first() {
    let mut editor = InputBaseState::new("one two one");
    let revealed = editor.select_occurrences(false);
    assert!(revealed.is_empty());
    assert_eq!(carets(&editor), vec![(0, 3)]);
    let revealed = editor.select_occurrences(false);
    assert_eq!(revealed, vec![8..11]);
    assert_eq!(carets(&editor), vec![(0, 3), (8, 11)]);
}

#[test]
fn select_all_occurrences_skips_overlapping_ranges() {
    let mut editor = InputBaseState::new("aaa");
    let primary = editor.primary_selection_id();
    assert!(editor.set_selections(vec![EditorSelection::new(primary, 0, 2)], primary));
    let revealed = editor.select_occurrences(true);
    assert!(revealed.is_empty());
    assert_eq!(carets(&editor), vec![(0, 2)]);

    let mut editor = InputBaseState::new("ab ab ab");
    let primary = editor.primary_selection_id();
    assert!(editor.set_selections(vec![EditorSelection::new(primary, 3, 5)], primary));
    let revealed = editor.select_occurrences(true);
    assert_eq!(revealed, vec![6..8, 0..2]);
    assert_eq!(carets(&editor), vec![(0, 2), (3, 5), (6, 8)]);
}

#[test]
fn select_occurrences_does_nothing_while_disabled() {
    let mut editor = InputBaseState::new("one one");
    editor.disabled = true;
    assert!(editor.select_occurrences(true).is_empty());
    assert_eq!(carets(&editor), vec![(0, 0)]);
}

#[test]
fn toggling_a_caret_adds_then_removes_it() {
    let mut editor = InputBaseState::new("abcdef");
    assert!(editor.toggle_caret(3, false));
    assert_eq!(carets(&editor), vec![(0, 0), (3, 3)]);
    assert!(editor.toggle_caret(3, false));
    assert_eq!(carets(&editor), vec![(0, 0)]);
    assert!(!editor.toggle_caret(0, false));
    assert_eq!(carets(&editor), vec![(0, 0)]);
}

#[test]
fn a_typed_brace_dedents_a_blank_line_to_the_closing_indentation() {
    let mut editor = InputBaseState::new("{\n    ");
    let primary = editor.primary_selection_id();
    assert!(editor.set_selections(vec![EditorSelection::new(primary, 6, 6)], primary));
    assert!(editor.replace_multiple("}", true, vec![Some(String::new())]));
    assert_eq!(editor.text.to_string(), "{\n}");
    assert_eq!(carets(&editor), vec![(3, 3)]);
}

#[test]
fn other_typed_text_replaces_every_selection() {
    let mut editor = InputBaseState::new("{\n    ");
    let primary = editor.primary_selection_id();
    assert!(editor.set_selections(vec![EditorSelection::new(primary, 6, 6)], primary));
    assert!(editor.replace_multiple("x", true, vec![Some(String::new())]));
    assert_eq!(editor.text.to_string(), "{\n    x");
}

#[test]
fn enter_keeps_the_line_indentation_without_a_plan() {
    let mut editor = InputBaseState::new("  abc");
    let primary = editor.primary_selection_id();
    assert!(editor.set_selections(vec![EditorSelection::new(primary, 5, 5)], primary));
    assert!(editor.newline_multiple(vec![None]));
    assert_eq!(editor.text.to_string(), "  abc\n  ");
    assert_eq!(carets(&editor), vec![(8, 8)]);
}

#[test]
fn enter_follows_a_plan_with_a_closing_line() {
    let mut editor = InputBaseState::new("{}");
    let primary = editor.primary_selection_id();
    assert!(editor.set_selections(vec![EditorSelection::new(primary, 1, 1)], primary));
    let plan = NewlineIndent::new("  ".to_string()).with_closing_indent(String::new());
    assert!(editor.newline_multiple(vec![Some(plan)]));
    assert_eq!(editor.text.to_string(), "{\n  \n}");
    assert_eq!(carets(&editor), vec![(4, 4)]);
}

#[test]
fn enter_uses_the_text_line_break() {
    let mut editor = InputBaseState::new("a\r\nb");
    let primary = editor.primary_selection_id();
    assert!(editor.set_selections(vec![EditorSelection::new(primary, 4, 4)], primary));
    assert!(editor.newline_multiple(vec![None]));
    assert_eq!(editor.text.to_string(), "a\r\nb\r\n");
}

#[test]
fn indenting_and_outdenting_selected_lines() {
    let mut editor = InputBaseState::new("abc\nxyz");
    let primary = editor.primary_selection_id();
    assert!(editor.set_selections(vec![EditorSelection::new(primary, 0, 7)], primary));
    assert!(editor.indent_multiple("  ", false, true));
    assert_eq!(editor.text.to_string(), "  abc\n  xyz");
    assert!(editor.indent_multiple("  ", true, true));
    assert_eq!(editor.text.to_string(), "abc\nxyz");
    assert!(!editor.indent_multiple("  ", true, true));
}

#[test]
fn indent_at_carets_types_the_unit() {
    let mut editor = InputBaseState::new("ab");
    let primary = editor.primary_selection_id();
    assert!(editor.set_selections(vec![EditorSelection::new(primary, 1, 1)], primary));
    assert!(editor.indent_multiple("  ", false, false));
    assert_eq!(editor.text.to_string(), "a  b");
}

#[test]
fn toggling_a_line_comment_twice_restores_the_text() {
    let mut editor = InputBaseState::new("let a = 1;\nlet b = 2;");
    let primary = editor.primary_selection_id();
    assert!(editor.set_selections(vec![EditorSelection::new(primary, 0, 21)], primary));
    let syntax = CommentSyntax::line("//");
    assert!(editor.toggle_comment(&syntax));
    assert_eq!(editor.text.to_string(), "// let a = 1;\n// let b = 2;");
    assert!(editor.toggle_comment(&syntax));
    assert_eq!(editor.text.to_string(), "let a = 1;\nlet b = 2;");
}

#[test]
fn search_and_replace_all_through_the_editor() {
    let mut editor = InputBaseState::new("foo bar foo");
    editor.open_search(true);
    editor.set_search_query("foo", true);
    assert_eq!(editor.search_session().matcher.len(), 2);
    assert_eq!(editor.replace_all_search_matches("baz"), 2);
    assert_eq!(editor.text.to_string(), "baz bar baz");
    assert!(editor.undo());
    assert_eq!(editor.text.to_string(), "foo bar foo");
}

#[test]
fn selected_lines_cover_each_selection() {
    let mut editor = InputBaseState::new("a\nb\nc\nd");
    let primary = editor.primary_selection_id();
    assert!(editor.set_selections(
        vec![EditorSelection::new(primary, 0, 4), EditorSelection::new(primary + 1, 6, 6)],
        primary
    ));
    assert_eq!(editor.selected_logical_lines(), vec![0, 1, 3]);
}

#[test]
fn commenting_mixed_lines_then_toggling_again_gives_back_the_text() {
    let source = "  // done\r\n\n\tlet x = 1;  \r\n  \n";
    let syntax = CommentSyntax::line("//");
    let first = comment_edits(source, &syntax).unwrap();
    let once = apply_comment_edits(source, &first);
    assert_eq!(once, "  // // done\r\n\n\t// let x = 1;  \r\n  \n");
    let second = comment_edits(&once, &syntax).unwrap();
    assert_eq!(apply_comment_edits(&once, &second), source);
}

#[test]
fn wrapping_lines_in_a_block_comment_then_toggling_again_gives_back_the_text() {
    let source = "\n  <b>one</b>\n\n  two  \n";
    let syntax = CommentSyntax::block("<!--", "-->").with_forbidden("--");
    let first = comment_edits(source, &syntax).unwrap();
    let once = apply_comment_edits(source, &first);
    assert_eq!(once, "\n  <!-- <b>one</b>\n\n  two -->  \n");
    let second = comment_edits(&once, &syntax).unwrap();
    assert_eq!(apply_comment_edits(&once, &second), source);
}

fn ids_and_carets(editor: &InputBaseState) -> Vec<(u64, usize, usize)> {
    editor.selections().iter().map(|s| (s.id, s.anchor, s.head)).collect()
}

#[test]
fn replacing_selections_then_undo_and_redo_restore_carets_and_primary() {
    let mut editor = InputBaseState::new("one two three");
    assert!(editor.set_selections(vec![EditorSelection::new(10, 0, 3), EditorSelection::new(20, 7, 4)], 20));
    assert!(editor.replace_selections("X"));
    assert_eq!(editor.text.to_string(), "X X three");
    assert_eq!(ids_and_carets(&editor), vec![(10, 1, 1), (20, 3, 3)]);
    assert_eq!(editor.primary_selection_id(), 20);
    assert!(editor.undo());
    assert_eq!(editor.text.to_string(), "one two three");
    assert_eq!(ids_and_carets(&editor), vec![(10, 0, 3), (20, 7, 4)]);
    assert_eq!(editor.primary_selection_id(), 20);
    assert!(editor.redo());
    assert_eq!(editor.text.to_string(), "X X three");
    assert_eq!(ids_and_carets(&editor), vec![(10, 1, 1), (20, 3, 3)]);
}

#[test]
fn toggling_a_comment_keeps_a_reversed_selection_and_undo_restores_it() {
    let mut editor = InputBaseState::new("{}\nxx");
    let primary = editor.primary_selection_id();
    assert!(editor.set_selections(vec![EditorSelection::new(primary, 2, 0)], primary));
    assert!(editor.toggle_comment(&CommentSyntax::line("//")));
    assert_eq!(editor.text.to_string(), "// {}\nxx");
    assert_eq!((editor.selected_range.start, editor.selected_range.end), (0, 5));
    assert!(editor.selection_reversed);
    assert!(editor.undo());
    assert_eq!(editor.text.to_string(), "{}\nxx");
    assert_eq!((editor.selected_range.start, editor.selected_range.end), (0, 2));
    assert!(editor.selection_reversed);
}

#[test]
fn replacing_all_matches_leaves_one_caret_and_undo_restores_both_selections() {
    let mut editor = InputBaseState::new("one two one");
    assert!(editor.set_selections(vec![EditorSelection::new(1, 0, 3), EditorSelection::new(2, 7, 4)], 2));
    editor.open_search(true);
    editor.set_search_query("one", false);
    assert_eq!(editor.replace_all_search_matches("X"), 2);
    assert_eq!(editor.text.to_string(), "X two X");
    assert_eq!(editor.selections().len(), 1);
    assert!(editor.undo());
    assert_eq!(editor.text.to_string(), "one two one");
    assert_eq!(ids_and_carets(&editor), vec![(1, 0, 3), (2, 7, 4)]);
}

#[test]
fn deleting_at_overlapping_carets_unites_them_and_undo_restores_them() {
    let mut editor = InputBaseState::new("a\u{301}\u{1F642}\r\nb");
    assert!(editor.set_selections(
        vec![EditorSelection::new(0, 3, 3), EditorSelection::new(1, 7, 7), EditorSelection::new(2, 9, 9)],
        1
    ));
    assert!(editor.backspace_selections());
    assert_eq!(editor.text.to_string(), "b");
    assert_eq!(ids_and_carets(&editor), vec![(1, 0, 0)]);
    assert!(editor.undo());
    assert_eq!(editor.text.to_string(), "a\u{301}\u{1F642}\r\nb");
    assert_eq!(ids_and_carets(&editor), vec![(0, 3, 3), (1, 7, 7), (2, 9, 9)]);
}

#[test]
fn collapsing_without_secondaries_changes_nothing() {
    let mut editor = InputBaseState::new("abc");
    let primary = editor.primary_selection_id();
    assert!(editor.set_selections(vec![EditorSelection::new(primary, 1, 2)], primary));
    editor.collapse_secondary_selections();
    assert_eq!(editor.selections().len(), 1);
    assert_eq!((editor.selected_range.start, editor.selected_range.end), (1, 2));
}

#[test]
fn normalizing_an_already_normalized_set_changes_nothing() {
    let mut editor = InputBaseState::new("a\u{301}bc def ghi");
    assert!(editor.set_selections(
        vec![
            EditorSelection::new(3, 9, 7),
            EditorSelection::new(1, 1, 4),
            EditorSelection::new(2, 4, 4),
            EditorSelection::new(4, 8, 11),
        ],
        2,
    ));
    let first = ids_and_carets(&editor);
    let again = editor.selections();
    assert!(editor.set_selections(again, editor.primary_selection_id()));
    assert_eq!(ids_and_carets(&editor), first);
}

#[test]
fn the_same_selections_in_another_order_normalize_alike() {
    let mut forward = InputBaseState::new("one two three");
    let mut backward = InputBaseState::new("one two three");
    let sels = vec![
        EditorSelection::new(1, 0, 3),
        EditorSelection::new(2, 2, 5),
        EditorSelection::new(3, 8, 8),
    ];
    let mut reversed = sels.clone();
    reversed.reverse();
    assert!(forward.set_selections(sels, 3));
    assert!(backward.set_selections(reversed, 3));
    assert_eq!(ids_and_carets(&forward), ids_and_carets(&backward));
    assert_eq!(ids_and_carets(&forward), vec![(1, 0, 5), (3, 8, 8)]);
}

#[test]
fn every_occurrence_selected_from_a_caret_holds_the_word() {
    let mut editor = InputBaseState::new("cat scatter cat, cat\u{301} cat");
    let primary = editor.primary_selection_id();
    assert!(editor.set_selections(vec![EditorSelection::new(primary, 1, 1)], primary));
    let revealed = editor.select_occurrences(true);
    let text = editor.text.to_string();
    assert!(!revealed.is_empty());
    for range in &revealed {
        assert_eq!(&text[range.clone()], "cat");
    }
    for (anchor, head) in carets(&editor) {
        assert_eq!(&text[anchor.min(head)..anchor.max(head)], "cat");
    }
    let primary_now = editor
        .selections()
        .into_iter()
        .find(|s| s.id == primary)
        .map(|s| (s.anchor, s.head));
    assert_eq!(primary_now, Some((0, 3)));
}

#[test]
fn restoring_its_own_snapshot_leaves_the_selections_as_they_are() {
    let mut editor = InputBaseState::new("one two three");
    assert!(editor.set_selections(
        vec![
            EditorSelection::new(10, 3, 0),
            EditorSelection::new(20, 7, 4)
                .with_line_end_affinity(true)
                .with_preferred_column(Some((Pixels::from_bits(17.0f32.to_bits()), 4))),
        ],
        20,
    ));
    let before = ids_and_carets(&editor);
    let (range, reversed, affinity, column) = (
        editor.selected_range,
        editor.selection_reversed,
        editor.cursor_line_end_affinity,
        editor.preferred_column,
    );
    let snapshot = editor.selection_snapshot();
    editor.restore_selection_snapshot(snapshot);
    assert_eq!(ids_and_carets(&editor), before);
    assert_eq!(editor.selected_range, range);
    assert_eq!(editor.selection_reversed, reversed);
    assert_eq!(editor.cursor_line_end_affinity, affinity);
    assert_eq!(editor.preferred_column, column);
    assert_eq!(editor.primary_selection_id(), 20);
    let again = editor.selection_snapshot();
    assert_eq!(again.primary_id, 20);
    assert_eq!(again.selections, editor.selections());
}
