use editor_input::change::Change;
use editor_input::selection::Selection;
use editor_input::undo_manager::{EditIntent, UndoManager, MAX_CHANGES_PER_TRANSACTION, MAX_UNDO_TRANSACTIONS};

fn typing_change(offset: usize, text: &str) -> Change {
    let end = offset + text.len();
    Change::new(
        Selection::new(offset, offset),
        "",
        Selection::new(offset, end),
        text,
        Selection::new(offset, offset),
        Selection::new(end, end),
    )
}

#[test]
fn adjacent_typing_transactions_coalesce() {
    let mut manager = UndoManager::new();
    manager.record_transaction(typing_change(0, "a"), EditIntent::Typing, None);
    manager.record_transaction(typing_change(1, "b"), EditIntent::Typing, None);

    assert_eq!(manager.undo().unwrap().len(), 2);
    assert!(manager.undo().is_none());
}

#[test]
fn explicit_transaction_collects_multiple_changes() {
    let mut manager = UndoManager::new();
    manager.begin_transaction();
    manager.record_transaction(typing_change(0, "a"), EditIntent::Typing, None);
    manager.record_transaction(typing_change(0, "ab"), EditIntent::Typing, None);
    manager.commit_transaction();

    let transaction = manager.undo().unwrap();
    assert_eq!(transaction.len(), 1);
    assert_eq!(transaction[0].new_text, "ab");
}

#[test]
fn limits_the_number_of_retained_transactions() {
    let mut manager = UndoManager::new();

    for offset in 0..1_100 {
        manager.record_transaction(typing_change(offset, "a"), EditIntent::Atomic, None);
    }

    for _ in 0..MAX_UNDO_TRANSACTIONS {
        assert!(manager.undo().is_some());
    }
    assert!(manager.undo().is_none());
}

#[test]
fn splits_a_coalesced_transaction_before_its_change_list_grows_too_large() {
    let mut manager = UndoManager::new();

    for offset in 0..1_100 {
        manager.record_transaction(typing_change(offset, "a"), EditIntent::Typing, None);
    }

    assert_eq!(manager.undo().unwrap().len(), 100);
    assert_eq!(manager.undo().unwrap().len(), MAX_CHANGES_PER_TRANSACTION);
    assert!(manager.undo().is_none());
}

#[test]
fn undo_then_redo_gives_back_the_same_transaction() {
    let mut manager = UndoManager::new();
    manager.record_transaction(typing_change(0, "a"), EditIntent::Atomic, None);
    manager.record_transaction(typing_change(1, "b"), EditIntent::Atomic, None);
    let undone = manager.undo().unwrap();
    assert_eq!(undone.len(), 1);
    assert_eq!(undone[0].new_text, "b");
    let redone = manager.redo().unwrap();
    assert_eq!(redone.len(), 1);
    assert_eq!(redone[0].new_text, "b");
    assert!(manager.redo().is_none());
}

#[test]
fn a_new_edit_clears_the_redo_history() {
    let mut manager = UndoManager::new();
    manager.record_transaction(typing_change(0, "a"), EditIntent::Atomic, None);
    assert!(manager.undo().is_some());
    manager.record_transaction(typing_change(0, "c"), EditIntent::Atomic, None);
    assert!(manager.redo().is_none());
    assert!(manager.has_undos());
}

#[test]
fn ignored_changes_are_not_recorded() {
    let mut manager = UndoManager::new();
    manager.set_ignoring(true);
    manager.record_transaction(typing_change(0, "a"), EditIntent::Atomic, None);
    manager.set_ignoring(false);
    assert!(!manager.has_undos());
    assert!(manager.undo().is_none());
}
