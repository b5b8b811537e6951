//! When the editor's syntax tree counts as current: a short synchronous
//! parse for small texts, else an edited tree until a debounced background
//! parse of the same text lands.
use crate::text::{rope_chars, rope_eq};
use ropey::Rope;
use vstd::prelude::*;

verus! {

/// Texts up to this many bytes are parsed synchronously on an update.
pub const SYNC_PARSE_MAX_BYTES: usize = 262144;

/// The time a synchronous parse may take, in milliseconds.
pub const SYNC_PARSE_TIMEOUT_MS: u64 = 2;

/// The pause before a background parse starts, in milliseconds.
pub const PARSE_DEBOUNCE_MS: u64 = 150;

/// Whether an update parses the text right away (else it only edits the tree).
pub fn parse_synchronously(text_len: usize) -> (r: bool)
    ensures
        r == (text_len <= SYNC_PARSE_MAX_BYTES),
{
    text_len <= SYNC_PARSE_MAX_BYTES
}

/// What follows an update.
#[derive(Clone, Copy, Debug, PartialEq, Eq, Structural)]
pub enum FollowUp {
    /// The tree is current: drop any pending background parse.
    CancelPending,
    /// Schedule a debounced background parse of this text.
    ParseInBackground,
}

/// After an update, the syntax is current when the synchronous parse
/// completed and the text changed or the syntax already was current (an
/// unchanged text does not make a stale tree current); otherwise a
/// background parse follows.
pub fn after_update(completed: bool, changed: bool, was_current: bool) -> (r: (bool, FollowUp))
    ensures
        r.0 == (completed && (changed || was_current)),
        r.1 == (if r.0 { FollowUp::CancelPending } else { FollowUp::ParseInBackground }),
{
    let current = completed && (changed || was_current);
    (current, if current { FollowUp::CancelPending } else { FollowUp::ParseInBackground })
}

/// A finished background parse is applied (and makes the syntax current)
/// only if it was made from the text the highlighter still holds.
pub fn apply_background_parse(held: &Rope, parsed: &Rope) -> (r: bool)
    ensures
        r == (rope_chars(*held) == rope_chars(*parsed)),
{
    rope_eq(held, parsed)
}

} // verus!
