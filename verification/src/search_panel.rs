//! Decisions of the find/replace panel: scrolling after navigation and focus order.
use vstd::prelude::*;

verus! {

/// Which way the view scrolls to reveal a newly selected match.
#[derive(Clone, Copy, Debug, PartialEq, Eq, Structural)]
pub enum MoveDirection {
    Up,
    Down,
}

/// After moving to the next match: scroll down unless the index wrapped or stayed.
pub fn next_scroll_direction(previous_match_ix: usize, current_match_ix: usize) -> (r: Option<
    MoveDirection,
>)
    ensures
        r == (if current_match_ix <= previous_match_ix {
            None
        } else {
            Some(MoveDirection::Down)
        }),
{
    if current_match_ix <= previous_match_ix {
        None
    } else {
        Some(MoveDirection::Down)
    }
}

/// After moving to the previous match: scroll up unless the index wrapped or stayed.
pub fn prev_scroll_direction(previous_match_ix: usize, current_match_ix: usize) -> (r: Option<
    MoveDirection,
>)
    ensures
        r == (if current_match_ix >= previous_match_ix {
            None
        } else {
            Some(MoveDirection::Up)
        }),
{
    if current_match_ix >= previous_match_ix {
        None
    } else {
        Some(MoveDirection::Up)
    }
}

/// The control reached `step` places from `current` in the panel's cyclic order.
pub open spec fn cyclic_index(current: int, step: int, n: int, reverse: bool) -> int {
    if reverse {
        (current + n - step) % n
    } else {
        (current + step) % n
    }
}

proof fn lemma_cyclic_index(current: int, step: int, n: int, reverse: bool)
    requires
        0 <= current < n,
        1 <= step <= n,
    ensures
        cyclic_index(current, step, n, reverse) == if reverse {
            if step <= current {
                current - step
            } else {
                n - (step - current)
            }
        } else {
            if step < n - current {
                current + step
            } else {
                step - (n - current)
            }
        },
{
    if reverse {
        if step <= current {
            vstd::arithmetic::div_mod::lemma_mod_add_multiples_vanish(current - step, n);
            vstd::arithmetic::div_mod::lemma_small_mod((current - step) as nat, n as nat);
            assert(n + (current - step) == current + n - step);
        } else {
            vstd::arithmetic::div_mod::lemma_small_mod((current + n - step) as nat, n as nat);
        }
    } else {
        if step < n - current {
            vstd::arithmetic::div_mod::lemma_small_mod((current + step) as nat, n as nat);
        } else {
            vstd::arithmetic::div_mod::lemma_mod_sub_multiples_vanish(current + step, n);
            vstd::arithmetic::div_mod::lemma_small_mod((current + step - n) as nat, n as nat);
            assert(-n + (current + step) == current + step - n);
        }
    }
}

/// Tab order over the panel's controls: the nearest enabled control after the
/// focused one (before it when `reverse`), wrapping around; none if all are disabled.
pub fn focus_target(enabled: &Vec<bool>, current: usize, reverse: bool) -> (r: Option<usize>)
    requires
        current < enabled.len(),
    ensures
        match r {
            Some(ix) => exists|step: int|
                1 <= step <= enabled.len() && ix == cyclic_index(
                    current as int,
                    step,
                    enabled.len() as int,
                    reverse,
                ) && enabled[ix as int] && forall|s: int|
                    1 <= s < step ==> !enabled[#[trigger] cyclic_index(
                        current as int,
                        s,
                        enabled.len() as int,
                        reverse,
                    )],
            None => forall|s: int|
                1 <= s <= enabled.len() ==> !enabled[#[trigger] cyclic_index(
                    current as int,
                    s,
                    enabled.len() as int,
                    reverse,
                )],
        },
{
    let n = enabled.len();
    let mut done: usize = 0;
    while done < n
        invariant
            done <= n,
            n == enabled.len(),
            current < n,
            forall|s: int|
                1 <= s <= done ==> !enabled[#[trigger] cyclic_index(
                    current as int,
                    s,
                    n as int,
                    reverse,
                )],
        decreases n - done,
    {
        let step = done + 1;
        let next = if reverse {
            if step <= current {
                current - step
            } else {
                n - (step - current)
            }
        } else {
            if step < n - current {
                current + step
            } else {
                step - (n - current)
            }
        };
        assert(next == cyclic_index(current as int, step as int, n as int, reverse)) by {
            lemma_cyclic_index(current as int, step as int, n as int, reverse);
        }
        if enabled[next] {
            return Some(next);
        }
        done += 1;
    }
    None
}


/// What Enter does in the panel.
#[derive(Clone, Copy, Debug, PartialEq, Eq, Structural)]
pub enum EnterAction {
    /// Neither field has focus: the key goes on to the editor.
    Propagate,
    /// Shift-Enter: the previous match.
    Previous,
    /// Enter: the next match.
    Next,
}

/// Enter in the panel: navigate while the query or replacement field has
/// focus, backwards with Shift.
pub fn enter_action(search_focused: bool, replace_focused: bool, shift: bool) -> (r: EnterAction)
    ensures
        r == (if !search_focused && !replace_focused {
            EnterAction::Propagate
        } else if shift {
            EnterAction::Previous
        } else {
            EnterAction::Next
        }),
{
    if !search_focused && !replace_focused {
        EnterAction::Propagate
    } else if shift {
        EnterAction::Previous
    } else {
        EnterAction::Next
    }
}

/// Which field takes focus.
#[derive(Clone, Copy, Debug, PartialEq, Eq, Structural)]
pub enum PanelField {
    Query,
    Replacement,
}

/// Toggling replace mode: only where replacing is allowed; the mode flips and
/// focus goes to the field that is going to be used.
pub fn toggle_replace_mode(replaceable: bool, replace_mode: bool) -> (r: Option<(bool, PanelField)>)
    ensures
        !replaceable ==> r is None,
        replaceable ==> r == Some((!replace_mode, if !replace_mode { PanelField::Replacement } else { PanelField::Query })),
{
    if !replaceable {
        return None;
    }
    let mode = !replace_mode;
    Some((mode, if mode { PanelField::Replacement } else { PanelField::Query }))
}

/// The replace controls are live only in replace mode where replacing is allowed.
pub fn replacing(replace_mode: bool, replaceable: bool) -> (r: bool)
    ensures
        r == (replace_mode && replaceable),
{
    replace_mode && replaceable
}

/// Which of the panel's controls can take focus, in tab order: query,
/// replacement, case, whole word, replace mode, previous, next, replace,
/// replace all, close.
pub fn enabled_controls(replace_mode: bool, replaceable: bool, has_matches: bool) -> (r: Vec<bool>)
    ensures
        r@ == seq![
            true,
            replace_mode && replaceable,
            true,
            true,
            replaceable,
            has_matches,
            has_matches,
            replace_mode && replaceable && has_matches,
            replace_mode && replaceable && has_matches,
            true,
        ],
{
    let live = replacing(replace_mode, replaceable);
    let r = vec![true, live, true, true, replaceable, has_matches, has_matches, live && has_matches, live && has_matches, true];
    assert(r@ =~= seq![
        true,
        replace_mode && replaceable,
        true,
        true,
        replaceable,
        has_matches,
        has_matches,
        replace_mode && replaceable && has_matches,
        replace_mode && replaceable && has_matches,
        true,
    ]);
    r
}

} // verus!
