//! The editor state: text, the primary and secondary selections, undo history
//! and the search session, with the operations that keep them consistent.
use crate::change::Change;
use crate::multi_edit::{batch_committed, batch_grown, changes_between};
use crate::search::{first_from_spec, index_after_update, MatcherView, lemma_matches_ordered_whole_words, SearchMatcher, SearchSession, cursor_view, fresh_matcher, matcher_wf, next_index_spec, next_revision, prev_index_spec, requery_view, retext_view};
use crate::selection::{EditorSelection, Pixels, Selection, SelectionSet, SelectionSnapshot, SnapshotView};
use crate::selection_set::{grapheme_aligned, is_normalization, key_le, lemma_normalization_idempotent, lemma_normalization_unique, lemma_separated_sorted, normalized_wf, selections_within, separated, sorted_by_key, valid_identities};
use crate::text::{rope_insert, rope_remove, rope_len, lemma_chars_within_prefix, chars_within, lemma_chars_within_monotone, rope_byte_to_char, rope_bytes, rope_char_slice, rope_chars, rope_from_str};
use crate::undo_manager::{BatchView, opt_view, break_spec, commit_spec, initial_view, lemma_atomic_edit_is_own_transaction, record_spec, redo_spec, undo_spec, EditIntent, UndoManager, UndoView};
use vstd::utf8::encode_utf8;
use vstd::string::StringSliceAdditionalSpecFns;
use crate::utf8_facts::{lemma_boundary_at_char, lemma_encode_utf8_concat};
use crate::text::char_boundary;
use ropey::Rope;
use std::ops::Range;
use vstd::prelude::*;

verus! {

/// The state behind a text input.
pub struct InputBaseState {
    pub text: Rope,
    pub selected_range: Selection,
    pub selection_reversed: bool,
    pub cursor_line_end_affinity: bool,
    pub preferred_column: Option<(Pixels, usize)>,
    pub selection_set: SelectionSet,
    pub undo_manager: UndoManager,
    pub search_session: SearchSession,
    pub searchable: bool,
    pub replaceable: bool,
    pub disabled: bool,
    pub readonly: bool,
    pub ime_marked_range: Option<Selection>,
}

/// The editor's name where it edits several selections.
pub type EditorState = InputBaseState;

/// Every match range is ordered and lies within `len` bytes.
pub open spec fn ranges_in_text(ranges: Seq<Range<usize>>, len: int) -> bool {
    forall|i: int| 0 <= i < ranges.len() ==> (#[trigger] ranges[i]).start <= ranges[i].end <= len
}

/// Strict document order of selections: by range start, range end, then identity.
pub open spec fn key_lt(a: EditorSelection, b: EditorSelection) -> bool {
    let ra = a.spec_range();
    let rb = b.spec_range();
    ||| ra.start < rb.start
    ||| ra.start == rb.start && ra.end < rb.end
    ||| ra.start == rb.start && ra.end == rb.end && a.id < b.id
}

/// Secondary identities are distinct and differ from the primary's.
pub open spec fn identities_ok(secondary: Seq<EditorSelection>, primary_id: u64) -> bool {
    &&& forall|i: int, j: int|
        0 <= i < j < secondary.len() ==> (#[trigger] secondary[i]).id != (#[trigger] secondary[j]).id
    &&& forall|i: int| 0 <= i < secondary.len() ==> (#[trigger] secondary[i]).id != primary_id
}

/// The primary selection as an identified selection.
pub open spec fn primary_spec(e: &InputBaseState) -> EditorSelection {
    EditorSelection {
        id: e.selection_set.primary_id,
        anchor: if e.selection_reversed { e.selected_range.end } else { e.selected_range.start },
        head: if e.selection_reversed { e.selected_range.start } else { e.selected_range.end },
        line_end_affinity: e.cursor_line_end_affinity,
        preferred_column: e.preferred_column,
    }
}

/// The position where the primary joins the secondary selections: after every
/// selection that precedes it in document order, up to the first that does not.
pub open spec fn primary_slot(secondary: Seq<EditorSelection>, p: EditorSelection, ix: int) -> bool {
    &&& 0 <= ix <= secondary.len()
    &&& forall|j: int| 0 <= j < ix ==> key_lt(#[trigger] secondary[j], p)
    &&& ix < secondary.len() ==> !key_lt(secondary[ix], p)
}

/// The selections whose identity is not `id`, in order.
pub open spec fn without_id(s: Seq<EditorSelection>, id: u64) -> Seq<EditorSelection>
    decreases s.len(),
{
    if s.len() == 0 {
        s
    } else {
        let rest = without_id(s.drop_last(), id);
        if s.last().id != id {
            rest.push(s.last())
        } else {
            rest
        }
    }
}

/// The last selection with identity `id`, if any.
pub open spec fn last_with_id(s: Seq<EditorSelection>, id: u64) -> Option<EditorSelection>
    decreases s.len(),
{
    if s.len() == 0 {
        None
    } else if s.last().id == id {
        Some(s.last())
    } else {
        last_with_id(s.drop_last(), id)
    }
}

/// Distinct identities within a sequence.
pub open spec fn distinct_ids(s: Seq<EditorSelection>) -> bool {
    forall|i: int, j: int| 0 <= i < j < s.len() ==> (#[trigger] s[i]).id != (#[trigger] s[j]).id
}

proof fn lemma_without_id(s: Seq<EditorSelection>, id: u64)
    requires
        distinct_ids(s),
    ensures
        identities_ok(without_id(s, id), id),
        forall|k: int|
            0 <= k < without_id(s, id).len() ==> exists|i: int|
                0 <= i < s.len() && s[i] == #[trigger] without_id(s, id)[k],
    decreases s.len(),
{
    if s.len() > 0 {
        let d = s.drop_last();
        assert(distinct_ids(d)) by {
            assert forall|i: int, j: int| 0 <= i < j < d.len() implies (#[trigger] d[i]).id != (
            #[trigger] d[j]).id by {
                assert(d[i] == s[i] && d[j] == s[j]);
            }
        }
        lemma_without_id(d, id);
        let r = without_id(d, id);
        let w = without_id(s, id);
        assert forall|k: int| 0 <= k < w.len() implies exists|i: int|
            0 <= i < s.len() && s[i] == #[trigger] w[k] by {
            if k < r.len() {
                let i = choose|i: int| 0 <= i < d.len() && d[i] == r[k];
                assert(s[i] == d[i]);
                assert(w[k] == r[k]);
            } else {
                assert(s[s.len() - 1] == w[k]);
            }
        }
        if s.last().id != id {
            assert forall|i: int, j: int| 0 <= i < j < w.len() implies (#[trigger] w[i]).id != (
            #[trigger] w[j]).id by {
                if j == w.len() - 1 {
                    let a = choose|a: int| 0 <= a < d.len() && d[a] == r[i];
                    assert(s[a] == d[a]);
                    assert(w[i] == r[i]);
                    assert(s[a].id != s[s.len() - 1].id);
                } else {
                    assert(w[i] == r[i] && w[j] == r[j]);
                }
            }
            assert forall|i: int| 0 <= i < w.len() implies (#[trigger] w[i]).id != id by {
                if i < r.len() {
                    assert(w[i] == r[i]);
                }
            }
        }
    }
}

/// The characters after the characters `[cs, ce)` are replaced by `s`.
pub open spec fn splice(text: Seq<char>, cs: int, ce: int, s: Seq<char>) -> Seq<char> {
    text.subrange(0, cs) + s + text.subrange(ce, text.len() as int)
}

/// The characters after the byte range `[start, end)` is replaced by `s`: the
/// range covers every character that starts at or inside it.
pub open spec fn replace_bytes_spec(text: Seq<char>, start: int, end: int, s: Seq<char>) -> Seq<char> {
    splice(text, chars_within(text, start) as int, chars_within(text, end) as int, s)
}

/// The characters that the byte range `[start, end)` covers.
pub open spec fn covered_chars(text: Seq<char>, start: int, end: int) -> Seq<char> {
    text.subrange(chars_within(text, start) as int, chars_within(text, end) as int)
}

/// A byte offset at which a character starts or the text ends.
pub open spec fn at_char(text: Seq<char>, b: int) -> bool {
    exists|k: int| 0 <= k <= text.len() && #[trigger] encode_utf8(text.subrange(0, k)).len() == b
}

/// The member with the primary's identity ends within the text.
pub open spec fn primary_within(s: Seq<EditorSelection>, pid: u64, len: int) -> bool {
    forall|i: int| 0 <= i < s.len() && (#[trigger] s[i]).id == pid ==> s[i].spec_range().end <= len
}

/// The editor holds the selections `snap` with primary `pid`: the primary as
/// its selection, the others as secondaries.
pub open spec fn holds_snapshot(e: &InputBaseState, snap: Seq<EditorSelection>, pid: u64) -> bool {
    &&& e.selection_set.primary_id == pid
    &&& e.selection_set.secondary@ == without_id(snap, pid)
    &&& last_with_id(snap, pid) matches Some(p) && e.selected_range == p.spec_range() && e.selection_reversed
        == (p.anchor > p.head) && e.cursor_line_end_affinity == p.line_end_affinity && e.preferred_column
        == p.preferred_column
}

/// The selections a history step puts back: the recorded snapshot,
/// normalized for the text, where its identities are valid; else the range
/// `fallback` with its direction where it lies within the text, else a caret
/// at the text's end, the other selections staying as they were.
pub open spec fn history_selection(
    before: &InputBaseState,
    after: &InputBaseState,
    replay: Option<SnapshotView>,
    fallback: Selection,
    reversed: bool,
) -> bool {
    let len = rope_bytes(after.text).len();
    let recorded = match replay {
        Some(snap) => valid_identities(snap.selections, snap.primary_id),
        None => false,
    };
    if recorded {
        let snap = replay.unwrap();
        exists|n: Seq<EditorSelection>|
            #[trigger] is_normalization(n, snap.selections, snap.primary_id, rope_chars(after.text))
                && holds_snapshot(after, n, snap.primary_id)
    } else {
        &&& after.selection_set == before.selection_set
        &&& if fallback.start <= fallback.end <= len {
            after.selected_range == fallback && after.selection_reversed == reversed
        } else {
            after.selected_range == (Selection { start: len as usize, end: len as usize })
                && !after.selection_reversed
        }
    }
}

/// A change undone: its inserted range holds its old text again. A range that
/// lies outside the text leaves the text as it is.
pub open spec fn revert_change(text: Seq<char>, c: Change) -> Seq<char> {
    if c.new_range.start <= c.new_range.end <= encode_utf8(text).len() {
        replace_bytes_spec(text, c.new_range.start as int, c.new_range.end as int, c.old_text@)
    } else {
        text
    }
}

/// A change redone: its replaced range holds its new text again.
pub open spec fn apply_change(text: Seq<char>, c: Change) -> Seq<char> {
    if c.old_range.start <= c.old_range.end <= encode_utf8(text).len() {
        replace_bytes_spec(text, c.old_range.start as int, c.old_range.end as int, c.new_text@)
    } else {
        text
    }
}

/// Undo the changes in the given order.
pub open spec fn revert_all(text: Seq<char>, changes: Seq<Change>) -> Seq<char>
    decreases changes.len(),
{
    if changes.len() == 0 {
        text
    } else {
        revert_all(revert_change(text, changes[0]), changes.drop_first())
    }
}

/// Redo the changes in the given order.
pub open spec fn apply_all(text: Seq<char>, changes: Seq<Change>) -> Seq<char>
    decreases changes.len(),
{
    if changes.len() == 0 {
        text
    } else {
        apply_all(apply_change(text, changes[0]), changes.drop_first())
    }
}

/// Replace the characters a byte range covers with `s`, returning those characters.
pub fn replace_bytes(text: &mut Rope, start: usize, end: usize, s: &str) -> (removed: String)
    requires
        start <= end <= rope_bytes(*old(text)).len(),
    ensures
        rope_chars(*final(text)) == replace_bytes_spec(rope_chars(*old(text)), start as int, end as int, s@),
        removed@ == covered_chars(rope_chars(*old(text)), start as int, end as int),
{
    let cs = rope_byte_to_char(text, start);
    let ce = rope_byte_to_char(text, end);
    proof {
        lemma_chars_within_monotone(rope_chars(*text), start as int, end as int);
    }
    let removed = rope_char_slice(text, cs, ce);
    rope_remove(text, cs, ce);
    rope_insert(text, cs, s);
    proof {
        let t = rope_chars(*old(text));
        let mid = t.subrange(0, cs as int) + t.subrange(ce as int, t.len() as int);
        assert(mid.subrange(0, cs as int) =~= t.subrange(0, cs as int));
        assert(mid.subrange(cs as int, mid.len() as int) =~= t.subrange(ce as int, t.len() as int));
    }
    removed
}

/// The change that replacing `[start, end)` of `text` by `s` records.
pub open spec fn edit_change(c: Change, text: Seq<char>, start: int, end: int, s: Seq<char>) -> bool {
    &&& c.old_range == (Selection { start: start as usize, end: end as usize })
    &&& c.old_text@ == covered_chars(text, start, end)
    &&& c.new_range == (Selection {
        start: start as usize,
        end: (start + encode_utf8(s).len()) as usize,
    })
    &&& c.new_text@ == s
}

/// The prefix of `k` characters ends at byte `b`.
pub proof fn lemma_at_char_index(t: Seq<char>, b: int) -> (k: int)
    requires
        at_char(t, b),
    ensures
        0 <= k <= t.len(),
        encode_utf8(t.subrange(0, k)).len() == b,
        chars_within(t, b) == k,
{
    let k = choose|k: int| 0 <= k <= t.len() && #[trigger] encode_utf8(t.subrange(0, k)).len() == b;
    lemma_chars_within_prefix(t, k);
    k
}

/// Replacing a range that starts and ends at characters: the byte length of
/// the result, and where the inserted text lies in it.
pub proof fn lemma_replace_shape(t: Seq<char>, start: int, end: int, s: Seq<char>)
    requires
        start <= end,
        at_char(t, start),
        at_char(t, end),
    ensures
        ({
            let n = replace_bytes_spec(t, start, end, s);
            &&& encode_utf8(n).len() == encode_utf8(t).len() - (end - start) + encode_utf8(s).len()
            &&& start <= encode_utf8(t).len()
            &&& end <= encode_utf8(t).len()
            &&& at_char(n, start)
            &&& at_char(n, start + encode_utf8(s).len())
            &&& chars_within(n, start) == chars_within(t, start)
            &&& chars_within(n, start + encode_utf8(s).len()) == chars_within(t, start) + s.len()
        }),
{
    let k1 = lemma_at_char_index(t, start);
    let k2 = lemma_at_char_index(t, end);
    lemma_chars_within_monotone(t, start, end);
    let a = t.subrange(0, k1);
    let z = t.subrange(k2, t.len() as int);
    let n = replace_bytes_spec(t, start, end, s);
    assert(n == a + s + z);
    lemma_encode_utf8_concat(a + s, z);
    lemma_encode_utf8_concat(a, s);
    assert(t =~= t.subrange(0, k2) + z);
    lemma_encode_utf8_concat(t.subrange(0, k2), z);
    assert(n.subrange(0, k1) =~= a);
    assert(n.subrange(0, k1 + s.len()) =~= a + s);
    lemma_chars_within_prefix(n, k1);
    lemma_chars_within_prefix(n, k1 + s.len());
    assert(t.subrange(0, t.len() as int) =~= t);
    lemma_chars_within_prefix(t, t.len() as int);
    lemma_chars_within_monotone(t, end, encode_utf8(t).len() as int);
}

/// Undoing a recorded replacement gives back the text it was made on, and
/// redoing it gives the replaced text again.
pub proof fn lemma_revert_apply_edit(t: Seq<char>, start: int, end: int, s: Seq<char>, c: Change)
    requires
        start <= end,
        at_char(t, start),
        at_char(t, end),
        edit_change(c, t, start, end, s),
        end <= usize::MAX,
        start + encode_utf8(s).len() <= usize::MAX,
    ensures
        revert_change(replace_bytes_spec(t, start, end, s), c) == t,
        apply_change(t, c) == replace_bytes_spec(t, start, end, s),
{
    lemma_replace_shape(t, start, end, s);
    let n = replace_bytes_spec(t, start, end, s);
    let k1 = chars_within(t, start) as int;
    let k2 = chars_within(t, end) as int;
    lemma_chars_within_monotone(t, start, end);
    let back = splice(n, k1, k1 + s.len(), c.old_text@);
    assert(n.subrange(0, k1) =~= t.subrange(0, k1));
    assert(n.subrange(k1 + s.len(), n.len() as int) =~= t.subrange(k2, t.len() as int));
    assert(back =~= t);
}

pub(crate) proof fn lemma_revert_all_push(t: Seq<char>, cs: Seq<Change>, c: Change)
    ensures
        revert_all(t, cs.push(c)) == revert_change(revert_all(t, cs), c),
    decreases cs.len(),
{
    let p = cs.push(c);
    assert(revert_all(t, p) == revert_all(revert_change(t, p[0]), p.drop_first()));
    if cs.len() == 0 {
        assert(p.drop_first() =~= Seq::<Change>::empty());
        assert(revert_all(t, cs) == t);
    } else {
        assert(p.drop_first() =~= cs.drop_first().push(c));
        assert(p[0] == cs[0]);
        lemma_revert_all_push(revert_change(t, cs[0]), cs.drop_first(), c);
        assert(revert_all(t, cs) == revert_all(revert_change(t, cs[0]), cs.drop_first()));
    }
}

pub(crate) proof fn lemma_apply_all_push(t: Seq<char>, cs: Seq<Change>, c: Change)
    ensures
        apply_all(t, cs.push(c)) == apply_change(apply_all(t, cs), c),
    decreases cs.len(),
{
    let p = cs.push(c);
    assert(apply_all(t, p) == apply_all(apply_change(t, p[0]), p.drop_first()));
    if cs.len() == 0 {
        assert(p.drop_first() =~= Seq::<Change>::empty());
        assert(apply_all(t, cs) == t);
    } else {
        assert(p.drop_first() =~= cs.drop_first().push(c));
        assert(p[0] == cs[0]);
        lemma_apply_all_push(apply_change(t, cs[0]), cs.drop_first(), c);
        assert(apply_all(t, cs) == apply_all(apply_change(t, cs[0]), cs.drop_first()));
    }
}

/// A replacement made outside any batch or transaction, as its own atomic
/// edit, is what the next undo reverts, giving back the text it was made on;
/// the redo after that makes it again.
pub proof fn lemma_edit_undo_redo(
    m: UndoView,
    t: Seq<char>,
    start: int,
    end: int,
    s: Seq<char>,
    c: Change,
)
    requires
        !m.ignoring,
        m.atomic_batch is None,
        !m.transaction_open,
        start <= end <= usize::MAX,
        start + encode_utf8(s).len() <= usize::MAX,
        at_char(t, start),
        at_char(t, end),
        edit_change(c, t, start, end, s),
        !c.spec_is_noop(),
    ensures
        ({
            let m1 = record_spec(m, c, EditIntent::Atomic, None);
            let (m2, reverted) = undo_spec(m1);
            let (m3, replayed) = redo_spec(m2);
            &&& reverted == Some(seq![c])
            &&& revert_all(replace_bytes_spec(t, start, end, s), reverted.unwrap()) == t
            &&& replayed == Some(seq![c])
            &&& apply_all(t, replayed.unwrap()) == replace_bytes_spec(t, start, end, s)
        }),
{
    lemma_atomic_edit_is_own_transaction(m, c, None);
    let m1 = record_spec(m, c, EditIntent::Atomic, None);
    assert(commit_spec(m1) == m1);
    assert(seq![c].reverse() =~= seq![c]);
    let (m2, reverted) = undo_spec(m1);
    assert(commit_spec(m2) == m2);
    lemma_revert_apply_edit(t, start, end, s, c);
    let one = seq![c];
    assert(one.drop_first() =~= Seq::<Change>::empty());
    let n = replace_bytes_spec(t, start, end, s);
    assert(revert_all(n, one) == revert_all(revert_change(n, one[0]), one.drop_first()));
    assert(revert_all(revert_change(n, c), Seq::<Change>::empty()) == revert_change(n, c));
    assert(apply_all(t, one) == apply_all(apply_change(t, one[0]), one.drop_first()));
    assert(apply_all(apply_change(t, c), Seq::<Change>::empty()) == apply_change(t, c));
}

/// The characters between two character positions take exactly the bytes between them.
pub proof fn lemma_covered_len(t: Seq<char>, start: int, end: int)
    requires
        start <= end,
        at_char(t, start),
        at_char(t, end),
    ensures
        encode_utf8(covered_chars(t, start, end)).len() == end - start,
{
    let k1 = lemma_at_char_index(t, start);
    let k2 = lemma_at_char_index(t, end);
    lemma_chars_within_monotone(t, start, end);
    assert(t.subrange(0, k2) =~= t.subrange(0, k1) + t.subrange(k1, k2));
    lemma_encode_utf8_concat(t.subrange(0, k1), t.subrange(k1, k2));
}

/// The matcher after its current match is replaced: matched anew over the new
/// text (keeping its position) unless nothing changed, then pointed at the
/// first match at or after the end of the inserted text.
pub open spec fn replaced_matcher(
    m: MatcherView,
    same: bool,
    text: Seq<char>,
    inserted_end: usize,
) -> MatcherView {
    let m2 = if same {
        m
    } else {
        retext_view(MatcherView { replacing: true, ..m }, text)
    };
    MatcherView { current: first_from_spec(m2.ranges, inserted_end), ..m2 }
}

/// The history after one replacement is recorded as a change of `intent`.
#[verifier::opaque]
pub open spec fn recorded_edit(
    before: UndoView,
    after: UndoView,
    t: Seq<char>,
    start: int,
    end: int,
    s: Seq<char>,
    intent: EditIntent,
) -> bool {
    exists|c: Change| edit_change(c, t, start, end, s) && after == record_spec(before, c, intent, None)
}

/// Replace the byte range unless it already reads as `s`.
pub open spec fn replace_unless_same(t: Seq<char>, start: int, end: int, s: Seq<char>) -> Seq<char> {
    if covered_chars(t, start, end) == s {
        t
    } else {
        replace_bytes_spec(t, start, end, s)
    }
}

/// Replace `ranges[k..]`, the last range first, each unless it already reads as `s`.
pub open spec fn replace_from(t: Seq<char>, ranges: Seq<Range<usize>>, k: int, s: Seq<char>) -> Seq<char>
    decreases ranges.len() - k,
{
    if k < 0 || k >= ranges.len() {
        t
    } else {
        let rest = replace_from(t, ranges, k + 1, s);
        replace_unless_same(rest, ranges[k].start as int, ranges[k].end as int, s)
    }
}

/// Replacing after a character position keeps that position.
pub proof fn lemma_replace_keeps_prefix(t: Seq<char>, start: int, end: int, s: Seq<char>, b: int)
    requires
        b <= start <= end,
        at_char(t, b),
        at_char(t, start),
        at_char(t, end),
    ensures
        at_char(replace_bytes_spec(t, start, end, s), b),
        at_char(replace_unless_same(t, start, end, s), b),
{
    let kb = lemma_at_char_index(t, b);
    let k1 = lemma_at_char_index(t, start);
    lemma_chars_within_monotone(t, b, start);
    lemma_chars_within_monotone(t, start, end);
    let n = replace_bytes_spec(t, start, end, s);
    assert(n.subrange(0, kb) =~= t.subrange(0, kb));
    assert(encode_utf8(n.subrange(0, kb)).len() == b);
}

/// The slot where the primary joins the secondary selections.
pub open spec fn slot_of(secondary: Seq<EditorSelection>, p: EditorSelection) -> int {
    choose|ix: int| primary_slot(secondary, p, ix)
}

/// All live selections in document order: the primary placed among the others.
pub open spec fn snapshot_selections(e: &InputBaseState) -> Seq<EditorSelection> {
    e.selection_set.secondary@.insert(
        slot_of(e.selection_set.secondary@, primary_spec(e)),
        primary_spec(e),
    )
}

/// The slot is unique.
pub proof fn lemma_slot_unique(secondary: Seq<EditorSelection>, p: EditorSelection, ix: int)
    requires
        primary_slot(secondary, p, ix),
    ensures
        slot_of(secondary, p) == ix,
{
    let k = slot_of(secondary, p);
    assert(primary_slot(secondary, p, k));
    if k < ix {
        assert(key_lt(secondary[k], p));
    } else if k > ix {
        assert(key_lt(secondary[ix], p));
    }
}

/// The live selections name the primary once and no identity twice.
pub proof fn lemma_snapshot_valid(e: &InputBaseState)
    requires
        identities_ok(e.selection_set.secondary@, e.selection_set.primary_id),
        exists|ix: int| primary_slot(e.selection_set.secondary@, primary_spec(e), ix),
    ensures
        valid_identities(snapshot_selections(e), e.selection_set.primary_id),
{
    let sec = e.selection_set.secondary@;
    let p = primary_spec(e);
    let ix = slot_of(sec, p);
    let all = snapshot_selections(e);
    assert(all[ix] == p);
    assert forall|i: int, j: int| 0 <= i < j < all.len() implies (#[trigger] all[i]).id != (#[trigger] all[j]).id by {
        if i < ix {
            assert(all[i] == sec[i]);
            if j < ix {
                assert(all[j] == sec[j]);
            } else if j > ix {
                assert(all[j] == sec[j - 1]);
            }
        } else if i == ix {
            assert(all[j] == sec[j - 1]);
        } else {
            assert(all[i] == sec[i - 1]);
            assert(all[j] == sec[j - 1]);
        }
    }
}

proof fn lemma_without_absent(s: Seq<EditorSelection>, id: u64)
    requires
        forall|k: int| 0 <= k < s.len() ==> (#[trigger] s[k]).id != id,
    ensures
        without_id(s, id) == s,
    decreases s.len(),
{
    if s.len() > 0 {
        let d = s.drop_last();
        assert forall|k: int| 0 <= k < d.len() implies (#[trigger] d[k]).id != id by {
            assert(d[k] == s[k]);
        }
        lemma_without_absent(d, id);
        assert(s.last() == s[s.len() - 1]);
        assert(s == d.push(s.last()));
    }
}

proof fn lemma_insert_absent(s: Seq<EditorSelection>, ix: int, p: EditorSelection)
    requires
        0 <= ix <= s.len(),
        forall|k: int| 0 <= k < s.len() ==> (#[trigger] s[k]).id != p.id,
    ensures
        without_id(s.insert(ix, p), p.id) == s,
        last_with_id(s.insert(ix, p), p.id) == Some(p),
    decreases s.len(),
{
    let w = s.insert(ix, p);
    if ix == s.len() {
        assert(w == s.push(p));
        assert(w.drop_last() =~= s);
        lemma_without_absent(s, p.id);
    } else {
        let d = s.drop_last();
        assert forall|k: int| 0 <= k < d.len() implies (#[trigger] d[k]).id != p.id by {
            assert(d[k] == s[k]);
        }
        lemma_insert_absent(d, ix, p);
        assert(w.drop_last() =~= d.insert(ix, p));
        assert(w.last() == s[s.len() - 1]);
        assert(s == d.push(s.last()));
    }
}

/// An editor holds the selections of its own snapshot: restoring the
/// snapshot it gives leaves its selections as they are. (A reversed
/// selection that is empty comes back unreversed, as a caret has no
/// direction.) The snapshot names each identity once, the primary among
/// them.
pub proof fn lemma_snapshot_round_trip(e: &InputBaseState)
    requires
        e.wf(),
        !(e.selection_reversed && e.selected_range.start == e.selected_range.end),
    ensures
        valid_identities(snapshot_selections(e), e.selection_set.primary_id),
        snapshot_selections(e).len() == e.selection_set.secondary@.len() + 1,
        holds_snapshot(e, snapshot_selections(e), e.selection_set.primary_id),
{
    let sec = e.selection_set.secondary@;
    let p = primary_spec(e);
    lemma_some_slot(sec, p, 0);
    let ix = slot_of(sec, p);
    lemma_snapshot_valid(e);
    lemma_insert_absent(sec, ix, p);
}

/// An editor holding a selection set in document order (sorted by start,
/// end and identity, no identity twice, the primary among them) lists
/// exactly that set: restoring such a snapshot and taking the snapshot again
/// gives it back, and `selections()` returns it.
pub proof fn lemma_held_set_is_listed(e: &InputBaseState, snap: Seq<EditorSelection>, pid: u64)
    requires
        sorted_by_key(snap),
        valid_identities(snap, pid),
        holds_snapshot(e, snap, pid),
    ensures
        snapshot_selections(e) == snap,
{
    let m = choose|i: int| 0 <= i < snap.len() && (#[trigger] snap[i]).id == pid;
    let q = snap[m];
    let s = snap.remove(m);
    lemma_remove_member(snap, m);
    assert(e.selection_set.secondary@ == s);
    lemma_primary_is(e, q);
    assert(primary_slot(s, q, m)) by {
        lemma_slot_after_removal(snap, m);
    }
    lemma_slot_unique(s, q, m);
    assert(snap =~= s.insert(m, q));
}

/// Setting the selections an editor lists gives them back: once
/// `set_selections` has accepted a set, the listed selections are a valid
/// request (so setting them again is accepted without IME), and setting
/// them again lists the same selections.
pub proof fn lemma_set_selections_idempotent(
    e0: &InputBaseState,
    e1: &InputBaseState,
    e2: &InputBaseState,
    selections: Seq<EditorSelection>,
    primary_id: u64,
)
    requires
        InputBaseState::selections_replaced(e0, e1, selections, primary_id),
    ensures
        valid_identities(snapshot_selections(e1), primary_id),
        InputBaseState::selections_replaced(e1, e2, snapshot_selections(e1), primary_id) ==> snapshot_selections(e2)
            == snapshot_selections(e1),
{
    let snap = choose|snap: Seq<EditorSelection>|
        {
            &&& is_normalization(snap, selections, primary_id, rope_chars(e0.text))
            &&& selections_within(snap, rope_bytes(e0.text))
            &&& grapheme_aligned(snap, rope_chars(e0.text))
            &&& holds_snapshot(e1, snap, primary_id)
            &&& snapshot_selections(e1) == snap
        };
    lemma_normalization_idempotent(snap, primary_id, rope_chars(e0.text));
    if InputBaseState::selections_replaced(e1, e2, snapshot_selections(e1), primary_id) {
        let snap2 = choose|snap2: Seq<EditorSelection>|
            {
                &&& is_normalization(snap2, snap, primary_id, rope_chars(e1.text))
                &&& selections_within(snap2, rope_bytes(e1.text))
                &&& grapheme_aligned(snap2, rope_chars(e1.text))
                &&& holds_snapshot(e2, snap2, primary_id)
                &&& snapshot_selections(e2) == snap2
            };
        lemma_normalization_unique(snap2, snap, snap, primary_id, rope_chars(e1.text));
    }
}

/// Taking out the one member with its identity leaves what `without_id`
/// keeps, and that member is the last with the identity.
proof fn lemma_remove_member(snap: Seq<EditorSelection>, m: int)
    requires
        0 <= m < snap.len(),
        distinct_ids(snap),
    ensures
        without_id(snap, snap[m].id) == snap.remove(m),
        last_with_id(snap, snap[m].id) == Some(snap[m]),
{
    let q = snap[m];
    let s = snap.remove(m);
    assert(snap =~= s.insert(m, q));
    assert forall|k: int| 0 <= k < s.len() implies (#[trigger] s[k]).id != q.id by {
        if k < m {
            assert(s[k] == snap[k]);
        } else {
            assert(s[k] == snap[k + 1]);
        }
    }
    lemma_insert_absent(s, m, q);
}

/// The primary selection, read back from the editor's fields.
proof fn lemma_primary_is(e: &InputBaseState, q: EditorSelection)
    requires
        e.selection_set.primary_id == q.id,
        e.selected_range == q.spec_range(),
        e.selection_reversed == (q.anchor > q.head),
        e.cursor_line_end_affinity == q.line_end_affinity,
        e.preferred_column == q.preferred_column,
    ensures
        primary_spec(e) == q,
{
}

/// In a set in document order without a repeated identity, the member at
/// `m` belongs at `m` among the others.
proof fn lemma_slot_after_removal(snap: Seq<EditorSelection>, m: int)
    requires
        sorted_by_key(snap),
        distinct_ids(snap),
        0 <= m < snap.len(),
    ensures
        primary_slot(snap.remove(m), snap[m], m),
{
    let s = snap.remove(m);
    let q = snap[m];
    assert forall|j: int| 0 <= j < m implies key_lt(#[trigger] s[j], q) by {
        assert(s[j] == snap[j]);
        assert(key_le(snap[j], snap[m]));
        assert(snap[j].id != snap[m].id);
    }
    if m < s.len() {
        assert(s[m] == snap[m + 1]);
        assert(key_le(snap[m], snap[m + 1]));
        assert(snap[m].id != snap[m + 1].id);
    }
}

/// Restoring the snapshot an editor gives is a valid request and leaves its
/// selections as they are; only a reversed caret, which has no direction,
/// comes back unreversed.
pub proof fn lemma_restore_own_snapshot(e: &InputBaseState, f: &InputBaseState)
    requires
        e.wf(),
        holds_snapshot(f, snapshot_selections(e), e.selection_set.primary_id),
    ensures
        distinct_ids(snapshot_selections(e)),
        primary_within(snapshot_selections(e), e.selection_set.primary_id, rope_bytes(e.text).len() as int),
        f.selection_set.primary_id == e.selection_set.primary_id,
        f.selection_set.secondary@ == e.selection_set.secondary@,
        f.selected_range == e.selected_range,
        f.cursor_line_end_affinity == e.cursor_line_end_affinity,
        f.preferred_column == e.preferred_column,
        f.selection_reversed == (e.selection_reversed && e.selected_range.start != e.selected_range.end),
{
    let sec = e.selection_set.secondary@;
    let p = primary_spec(e);
    let pid = e.selection_set.primary_id;
    lemma_some_slot(sec, p, 0);
    let ix = slot_of(sec, p);
    lemma_snapshot_valid(e);
    lemma_insert_absent(sec, ix, p);
    let snap = snapshot_selections(e);
    assert(snap[ix] == p);
    assert forall|i: int| 0 <= i < snap.len() && (#[trigger] snap[i]).id == pid implies snap[i].spec_range().end
        <= rope_bytes(e.text).len() by {
        if i != ix {
            if i < ix {
                assert(snap[i].id != snap[ix].id);
            } else {
                assert(snap[ix].id != snap[i].id);
            }
        }
    }
}

/// Some slot for the primary exists from every start on which every earlier
/// selection precedes it.
proof fn lemma_some_slot(sec: Seq<EditorSelection>, p: EditorSelection, j: int)
    requires
        0 <= j <= sec.len(),
        forall|i: int| 0 <= i < j ==> key_lt(#[trigger] sec[i], p),
    ensures
        exists|ix: int| primary_slot(sec, p, ix),
    decreases sec.len() - j,
{
    if j == sec.len() || !key_lt(sec[j], p) {
        assert(primary_slot(sec, p, j));
    } else {
        lemma_some_slot(sec, p, j + 1);
    }
}

/// A normalized set names the primary, and no identity twice.
pub proof fn lemma_normalized_primary(s: Seq<EditorSelection>, primary_id: u64)
    requires
        normalized_wf(s, primary_id),
    ensures
        distinct_ids(s),
        last_with_id(s, primary_id) is Some,
    decreases s.len(),
{
    lemma_last_with_id_exists(s, primary_id);
}

proof fn lemma_last_with_id_member(s: Seq<EditorSelection>, id: u64)
    ensures
        last_with_id(s, id) matches Some(p) ==> p.id == id && exists|i: int| 0 <= i < s.len() && s[i] == p,
    decreases s.len(),
{
    if s.len() > 0 && s.last().id != id {
        lemma_last_with_id_member(s.drop_last(), id);
        if let Some(p) = last_with_id(s, id) {
            let i = choose|i: int| 0 <= i < s.drop_last().len() && s.drop_last()[i] == p;
            assert(s[i] == p);
        }
    } else if s.len() > 0 {
        assert(s[s.len() - 1] == s.last());
    }
}

proof fn lemma_last_with_id_exists(s: Seq<EditorSelection>, id: u64)
    requires
        exists|i: int| 0 <= i < s.len() && (#[trigger] s[i]).id == id,
    ensures
        last_with_id(s, id) is Some,
    decreases s.len(),
{
    if s.last().id != id {
        let i = choose|i: int| 0 <= i < s.len() && (#[trigger] s[i]).id == id;
        assert(s.drop_last()[i] == s[i]);
        lemma_last_with_id_exists(s.drop_last(), id);
    }
}

impl InputBaseState {
    /// The editor's consistency: history and matcher are well formed, the
    /// primary range is ordered, selection identities are distinct, and no
    /// atomic batch of edits is open between operations.
    pub open spec fn wf(&self) -> bool {
        &&& self.core_wf()
        &&& (self.search_session.matcher@.text == rope_chars(self.text)
            || self.search_session.matcher@.text.len() == 0)
        &&& self.undo_manager@.atomic_batch is None
    }

    /// Consistency apart from the matcher's view of the text, which an atomic
    /// batch of edits brings up to date once at its end.
    pub open spec fn core_wf(&self) -> bool {
        &&& self.undo_manager.wf()
        &&& self.search_session.matcher.wf()
        &&& self.selected_range.start <= self.selected_range.end
        &&& self.selected_range.end <= rope_bytes(self.text).len()
        &&& rope_bytes(self.text).len() <= usize::MAX
        &&& identities_ok(self.selection_set.secondary@, self.selection_set.primary_id)
    }

    /// Match ranges lie within the text.
    pub proof fn lemma_ranges_in_text(&self)
        requires
            self.wf(),
        ensures
            ranges_in_text(self.search_session.matcher@.ranges, rope_bytes(self.text).len() as int),
    {
        lemma_matches_ordered_whole_words(self.search_session.matcher@);
    }

    /// An editable input holding `text`, with a caret at its start.
    pub fn new(text: &str) -> (e: Self)
        ensures
            e.wf(),
            rope_chars(e.text) == text@,
            e.selected_range == (Selection { start: 0, end: 0 }),
            !e.selection_reversed,
            e.selection_set.primary_id == 0,
            e.selection_set.secondary@.len() == 0,
            e.undo_manager@ == initial_view(),
            !e.search_session.open,
            e.search_session.case_insensitive,
            fresh_matcher(e.search_session.matcher@),
            e.searchable,
            e.replaceable,
            !e.disabled,
            !e.readonly,
            e.ime_marked_range is None,
    {
        let rope = rope_from_str(text);
        let _len = rope_len(&rope);
        InputBaseState {
            text: rope,
            selected_range: Selection { start: 0, end: 0 },
            selection_reversed: false,
            cursor_line_end_affinity: false,
            preferred_column: None,
            selection_set: SelectionSet::new(),
            undo_manager: UndoManager::new(),
            search_session: SearchSession::default(),
            searchable: true,
            replaceable: true,
            disabled: false,
            readonly: false,
            ime_marked_range: None,
        }
    }

    /// Whether the user may change the text.
    pub fn is_editable(&self) -> (r: bool)
        ensures
            r == (!self.disabled && !self.readonly),
    {
        !self.disabled && !self.readonly
    }

    /// Returns true if the search panel can replace the matches.
    ///
    /// This is false when the input is not `replaceable`, or when it is
    /// `disabled` or `readonly`.
    pub fn is_replaceable(&self) -> (r: bool)
        ensures
            r == (self.replaceable && !self.disabled && !self.readonly),
    {
        self.replaceable && self.is_editable()
    }

    /// Stable identity of the selection used by existing caret and geometry APIs.
    pub fn primary_selection_id(&self) -> (r: u64)
        ensures
            r == self.selection_set.primary_id,
    {
        self.selection_set.primary_id()
    }

    /// Every selection in document order, the primary placed among the others.
    pub fn selection_snapshot(&self) -> (r: SelectionSnapshot)
        ensures
            r.primary_id == self.selection_set.primary_id,
            exists|ix: int|
                primary_slot(self.selection_set.secondary@, primary_spec(self), ix) && r@.selections
                    == self.selection_set.secondary@.insert(ix, primary_spec(self)),
            r@.selections == snapshot_selections(self),
    {
        let (anchor, head) = if self.selection_reversed {
            (self.selected_range.end, self.selected_range.start)
        } else {
            (self.selected_range.start, self.selected_range.end)
        };
        let primary = EditorSelection {
            id: self.selection_set.primary_id,
            anchor,
            head,
            line_end_affinity: self.cursor_line_end_affinity,
            preferred_column: self.preferred_column,
        };
        let pr = primary.range();
        let secondary = &self.selection_set.secondary;
        let mut index: usize = 0;
        let mut stop = false;
        while index < secondary.len() && !stop
            invariant
                index <= secondary@.len(),
                primary == primary_spec(self),
                pr == primary.spec_range(),
                forall|j: int| 0 <= j < index ==> key_lt(#[trigger] secondary@[j], primary),
                stop ==> index < secondary@.len() && !key_lt(secondary@[index as int], primary),
            decreases secondary@.len() - index, if stop { 0int } else { 1int },
        {
            let s = secondary[index];
            let r = s.range();
            let less = r.start < pr.start || (r.start == pr.start && r.end < pr.end) || (r.start
                == pr.start && r.end == pr.end && s.id < primary.id);
            if less {
                index += 1;
            } else {
                stop = true;
            }
        }
        assert(primary_slot(secondary@, primary, index as int));
        let mut selections: Vec<EditorSelection> = Vec::new();
        let mut i: usize = 0;
        while i < secondary.len()
            invariant
                i <= secondary@.len(),
                index <= secondary@.len(),
                selections@ == (if i <= index {
                    secondary@.subrange(0, i as int)
                } else {
                    secondary@.subrange(0, index as int).push(primary) + secondary@.subrange(
                        index as int,
                        i as int,
                    )
                }),
            decreases secondary@.len() - i,
        {
            if i == index {
                selections.push(primary);
            }
            selections.push(secondary[i]);
            i += 1;
            proof {
                if i <= index {
                    assert(selections@ =~= secondary@.subrange(0, i as int));
                } else {
                    assert(selections@ =~= secondary@.subrange(0, index as int).push(primary)
                        + secondary@.subrange(index as int, i as int));
                }
            }
        }
        if index == secondary.len() {
            selections.push(primary);
        }
        assert(selections@ =~= secondary@.insert(index as int, primary));
        proof {
            lemma_slot_unique(secondary@, primary, index as int);
        }
        SelectionSnapshot { selections, primary_id: self.selection_set.primary_id }
    }

    /// Make a snapshot's selections the live ones: the primary's range, direction,
    /// affinity and column come from its member; the others become secondary.
    pub fn restore_selection_snapshot(&mut self, snapshot: SelectionSnapshot)
        requires
            old(self).core_wf(),
            distinct_ids(snapshot@.selections),
            primary_within(snapshot@.selections, snapshot.primary_id, rope_bytes(old(self).text).len() as int),
        ensures
            final(self).core_wf(),
            old(self).wf() ==> final(self).wf(),
            final(self).selection_set.primary_id == snapshot.primary_id,
            final(self).selection_set.secondary@ == without_id(snapshot@.selections, snapshot.primary_id),
            match last_with_id(snapshot@.selections, snapshot.primary_id) {
                Some(p) => {
                    &&& final(self).selected_range == p.spec_range()
                    &&& final(self).selection_reversed == (p.anchor > p.head)
                    &&& final(self).cursor_line_end_affinity == p.line_end_affinity
                    &&& final(self).preferred_column == p.preferred_column
                },
                None => {
                    &&& final(self).selected_range == old(self).selected_range
                    &&& final(self).selection_reversed == old(self).selection_reversed
                    &&& final(self).cursor_line_end_affinity == old(self).cursor_line_end_affinity
                    &&& final(self).preferred_column == old(self).preferred_column
                },
            },
            final(self).text == old(self).text,
            final(self).undo_manager == old(self).undo_manager,
            final(self).search_session == old(self).search_session,
            final(self).ime_marked_range == old(self).ime_marked_range,
            final(self).disabled == old(self).disabled,
            final(self).readonly == old(self).readonly,
            final(self).searchable == old(self).searchable,
            final(self).replaceable == old(self).replaceable,
    {
        let pid = snapshot.primary_id;
        let sel = snapshot.selections;
        let ghost all = sel@;
        let ghost o = *self;
        self.selection_set.primary_id = pid;
        self.selection_set.secondary = Vec::new();
        let mut i: usize = 0;
        while i < sel.len()
            invariant
                sel@ == all,
                i <= all.len(),
                primary_within(all, pid, rope_bytes(o.text).len() as int),
                o.core_wf(),
                self.selection_set.primary_id == pid,
                self.selection_set.secondary@ == without_id(all.subrange(0, i as int), pid),
                match last_with_id(all.subrange(0, i as int), pid) {
                    Some(p) => {
                        &&& self.selected_range == p.spec_range()
                        &&& self.selection_reversed == (p.anchor > p.head)
                        &&& self.cursor_line_end_affinity == p.line_end_affinity
                        &&& self.preferred_column == p.preferred_column
                    },
                    None => {
                        &&& self.selected_range == o.selected_range
                        &&& self.selection_reversed == o.selection_reversed
                        &&& self.cursor_line_end_affinity == o.cursor_line_end_affinity
                        &&& self.preferred_column == o.preferred_column
                    },
                },
                self.text == o.text,
                self.undo_manager == o.undo_manager,
                self.search_session == o.search_session,
                self.ime_marked_range == o.ime_marked_range,
                self.disabled == o.disabled,
                self.readonly == o.readonly,
                self.searchable == o.searchable,
                self.replaceable == o.replaceable,
            decreases all.len() - i,
        {
            let selection = sel[i];
            assert(all.subrange(0, i + 1).drop_last() =~= all.subrange(0, i as int));
            if selection.id == pid {
                self.selected_range = selection.range();
                self.selection_reversed = selection.anchor > selection.head;
                self.cursor_line_end_affinity = selection.line_end_affinity;
                self.preferred_column = selection.preferred_column;
            } else {
                self.selection_set.secondary.push(selection);
            }
            i += 1;
        }
        assert(all.subrange(0, all.len() as int) =~= all);
        proof {
            lemma_without_id(all, pid);
            lemma_last_with_id_member(all, pid);
            if let Some(p) = last_with_id(all, pid) {
                let k = choose|k: int| 0 <= k < all.len() && all[k] == p;
                assert(all[k].id == pid);
            }
        }
    }

    /// The complete selection set in document order, including the primary.
    pub fn selections(&self) -> (r: Vec<EditorSelection>)
        ensures
            exists|ix: int|
                primary_slot(self.selection_set.secondary@, primary_spec(self), ix) && r@
                    == self.selection_set.secondary@.insert(ix, primary_spec(self)),
    {
        self.selection_snapshot().selections
    }

    /// Ordinary editing, movement, and IME retain their single-selection contract.
    pub fn collapse_secondary_selections(&mut self)
        requires
            old(self).wf(),
        ensures
            final(self).wf(),
            final(self).selection_set.secondary@.len() == 0,
            old(self).selection_set.secondary@.len() > 0 ==> *final(self) == (InputBaseState {
                selection_set: final(self).selection_set,
                undo_manager: final(self).undo_manager,
                ..*old(self)
            }) && final(self).undo_manager@ == break_spec(old(self).undo_manager@),
            old(self).selection_set.secondary@.len() == 0 ==> *final(self) == *old(self),
            final(self).selection_set.primary_id == old(self).selection_set.primary_id,
            final(self).selected_range == old(self).selected_range,
            final(self).selection_reversed == old(self).selection_reversed,
            final(self).cursor_line_end_affinity == old(self).cursor_line_end_affinity,
            final(self).preferred_column == old(self).preferred_column,
            final(self).text == old(self).text,
            final(self).search_session == old(self).search_session,
    {
        if self.selection_set.secondary.len() > 0 {
            self.selection_set.secondary = Vec::new();
            self.undo_manager.break_transaction_coalescing();
        }
    }

    /// The selection set of `after` is the normalization of `selections` over
    /// the text of `before`, with `primary_id` as primary (within the text, on
    /// grapheme boundaries, and listed as it is), and nothing else but the
    /// coalescing of undo history changed.
    pub open spec fn selections_replaced(before: &Self, after: &Self, selections: Seq<EditorSelection>, primary_id: u64) -> bool {
        &&& after.selection_set.primary_id == primary_id
        &&& after.undo_manager@ == break_spec(before.undo_manager@)
        &&& after.text == before.text
        &&& after.search_session == before.search_session
        &&& exists|snap: Seq<EditorSelection>|
            {
                &&& is_normalization(snap, selections, primary_id, rope_chars(before.text))
                &&& selections_within(snap, rope_bytes(before.text))
                &&& grapheme_aligned(snap, rope_chars(before.text))
                &&& holds_snapshot(after, snap, primary_id)
                &&& snapshot_selections(after) == snap
            }
    }

    /// Set ordered, nonoverlapping editor selections. Invalid identity sets are
    /// rejected unchanged. Ranges expand to grapheme boundaries; carets clip left.
    /// Overlaps retain the primary's identity and direction, or the lowest ID.
    /// Empty collections, duplicate IDs, a missing primary, or active IME are
    /// rejected unchanged. Returns whether the request was accepted, including
    /// an unchanged valid set.
    pub fn set_selections(&mut self, selections: Vec<EditorSelection>, primary_id: u64) -> (r: bool)
        requires
            old(self).wf(),
        ensures
            final(self).wf(),
            r == (old(self).ime_marked_range is None && valid_identities(selections@, primary_id)),
            !r ==> *final(self) == *old(self),
            r ==> Self::selections_replaced(old(self), final(self), selections@, primary_id),
    {
        if self.ime_marked_range.is_some() {
            return false;
        }
        match SelectionSnapshot::normalized(selections, primary_id, &self.text) {
            None => false,
            Some(snapshot) => {
                let ghost snap = snapshot@.selections;
                proof {
                    lemma_normalized_primary(snap, primary_id);
                }
                self.undo_manager.break_transaction_coalescing();
                self.restore_selection_snapshot(snapshot);
                assert(holds_snapshot(self, snap, primary_id));
                proof {
                    assert(separated(snap));
                    lemma_separated_sorted(snap);
                    lemma_held_set_is_listed(self, snap, primary_id);
                }
                true
            },
        }
    }


    /// The characters of the primary selection.
    pub open spec fn selected_chars(&self) -> Seq<char> {
        rope_chars(self.text).subrange(
            chars_within(rope_chars(self.text), self.selected_range.start as int) as int,
            chars_within(rope_chars(self.text), self.selected_range.end as int) as int,
        )
    }

    /// The text of the primary selection.
    pub fn selected_text(&self) -> (r: String)
        requires
            self.wf(),
        ensures
            r@ == self.selected_chars(),
    {
        let start = rope_byte_to_char(&self.text, self.selected_range.start);
        let end = rope_byte_to_char(&self.text, self.selected_range.end);
        proof {
            lemma_chars_within_monotone(
                rope_chars(self.text),
                self.selected_range.start as int,
                self.selected_range.end as int,
            );
        }
        rope_char_slice(&self.text, start, end)
    }

    /// The search state of this input.
    pub fn search_session(&self) -> (r: &SearchSession)
        ensures
            *r == self.search_session,
    {
        &self.search_session
    }

    /// The match the search panel points at, if there is one.
    pub fn current_search_match(&self) -> (r: Option<Range<usize>>)
        requires
            self.wf(),
        ensures
            self.search_session.matcher@.ranges.len() == 0 ==> r is None,
            self.search_session.matcher@.ranges.len() > 0 ==> r == Some(
                self.search_session.matcher@.ranges[self.search_session.matcher@.current as int],
            ),
    {
        self.search_session.matcher.current_range()
    }

    /// Open the find panel (or the replace panel, where replacing is allowed),
    /// seeded with the selected text, and find the first match from the selection.
    pub fn open_search(&mut self, replace_mode: bool)
        requires
            old(self).wf(),
        ensures
            final(self).wf(),
            !old(self).searchable ==> *final(self) == *old(self),
            old(self).searchable ==> {
                let query = if old(self).selected_chars().len() > 0 {
                    old(self).selected_chars()
                } else {
                    old(self).search_session.query@
                };
                let s = final(self).search_session;
                let o = old(self).search_session;
                let ci = o.case_insensitive;
                let m1 = if o.matcher@.query == query && o.matcher@.case_insensitive == ci {
                    o.matcher@
                } else {
                    requery_view(o.matcher@, query, ci)
                };
                &&& s.open
                &&& s.focus_revision == next_revision(o.focus_revision)
                &&& s.replace_mode == (replace_mode && old(self).replaceable && !old(self).disabled
                    && !old(self).readonly)
                &&& s.query@ == query
                &&& s.anchor_offset == Some(old(self).selected_range.start)
                &&& s.case_insensitive == ci
                &&& s.whole_word == o.whole_word
                &&& s.replacement == o.replacement
                &&& s.matcher@ == cursor_view(
                    retext_view(m1, rope_chars(old(self).text)),
                    old(self).selected_range.start,
                )
                &&& final(self).text == old(self).text
                &&& final(self).selected_range == old(self).selected_range
                &&& final(self).selection_set == old(self).selection_set
                &&& final(self).undo_manager == old(self).undo_manager
            },
    {
        if !self.searchable {
            return;
        }
        let replaceable = self.is_replaceable();
        self.search_session.open(replace_mode, replaceable);
        let selected = self.selected_text();
        if !selected.as_str().is_empty() {
            self.search_session.query = selected;
        }
        self.search_session.anchor_offset = Some(self.selected_range.start);
        let query = self.search_session.query.clone();
        let ci = self.search_session.case_insensitive;
        self.search_session.matcher.update_query(query.as_str(), ci);
        self.search_session.matcher.update(&self.text);
        self.search_session.matcher.update_cursor_by_offset(self.selected_range.start);
    }


    /// Show or hide the replace row; it only shows where replacing is allowed.
    pub fn set_search_replace_mode(&mut self, replace_mode: bool)
        requires
            old(self).wf(),
        ensures
            final(self).wf(),
            *final(self) == (InputBaseState {
                search_session: SearchSession {
                    replace_mode: replace_mode && old(self).replaceable && !old(self).disabled
                        && !old(self).readonly,
                    ..old(self).search_session
                },
                ..*old(self)
            }),
    {
        self.search_session.replace_mode = replace_mode && self.is_replaceable();
    }

    /// The offset matches are found from: the search anchor, else the selection start.
    pub open spec fn search_anchor(&self) -> usize {
        match self.search_session.anchor_offset {
            Some(a) => a,
            None => self.selected_range.start,
        }
    }

    fn anchor_search_match(&mut self)
        requires
            old(self).wf(),
        ensures
            final(self).wf(),
            *final(self) == (InputBaseState {
                search_session: SearchSession {
                    matcher: final(self).search_session.matcher,
                    ..old(self).search_session
                },
                ..*old(self)
            }),
            final(self).search_session.matcher@ == cursor_view(
                old(self).search_session.matcher@,
                old(self).search_anchor(),
            ),
    {
        let anchor = match self.search_session.anchor_offset {
            Some(a) => a,
            None => self.selected_range.start,
        };
        self.search_session.matcher.update_cursor_by_offset(anchor);
    }

    /// Search for a new query (or case option) from the search anchor.
    pub fn set_search_query(&mut self, query: &str, case_insensitive: bool)
        requires
            old(self).wf(),
        ensures
            final(self).wf(),
            old(self).search_session.query@ == query@ && old(self).search_session.case_insensitive
                == case_insensitive ==> *final(self) == *old(self),
            !(old(self).search_session.query@ == query@ && old(self).search_session.case_insensitive
                == case_insensitive) ==> {
                let o = old(self).search_session;
                let m1 = if o.matcher@.query == query@ && o.matcher@.case_insensitive
                    == case_insensitive {
                    o.matcher@
                } else {
                    requery_view(o.matcher@, query@, case_insensitive)
                };
                &&& final(self).search_session.query@ == query@
                &&& final(self).search_session.case_insensitive == case_insensitive
                &&& final(self).search_session.matcher@ == cursor_view(
                    retext_view(m1, rope_chars(old(self).text)),
                    old(self).search_anchor(),
                )
                &&& final(self).search_session.open == o.open
                &&& final(self).search_session.replace_mode == o.replace_mode
                &&& final(self).search_session.whole_word == o.whole_word
                &&& final(self).search_session.anchor_offset == o.anchor_offset
                &&& final(self).search_session.replacement == o.replacement
                &&& final(self).text == old(self).text
                &&& final(self).selected_range == old(self).selected_range
                &&& final(self).selection_set == old(self).selection_set
                &&& final(self).undo_manager == old(self).undo_manager
            },
    {
        if self.search_session.query == query.to_owned()
            && self.search_session.case_insensitive == case_insensitive {
            return;
        }
        self.search_session.update_query(query, case_insensitive);
        self.search_session.matcher.update(&self.text);
        self.anchor_search_match();
    }

    /// Turn whole-word matching on or off, finding matches from the search anchor.
    pub fn set_search_whole_word(&mut self, whole_word: bool)
        requires
            old(self).wf(),
        ensures
            final(self).wf(),
            old(self).search_session.whole_word == whole_word ==> *final(self) == *old(self),
            old(self).search_session.whole_word != whole_word ==> {
                let o = old(self).search_session.matcher@;
                let m1 = if o.whole_word == whole_word {
                    o
                } else {
                    let ranges = crate::search::match_ranges_spec(
                        o.text,
                        o.query,
                        o.case_insensitive,
                        o.compiled,
                        whole_word,
                    );
                    crate::search::MatcherView {
                        whole_word,
                        ranges,
                        current: crate::search::index_after_update(o.current, o.replacing, ranges.len()),
                        replacing: false,
                        ..o
                    }
                };
                &&& final(self).search_session.whole_word == whole_word
                &&& final(self).search_session.matcher@ == cursor_view(m1, old(self).search_anchor())
                &&& final(self).search_session.query == old(self).search_session.query
                &&& final(self).search_session.open == old(self).search_session.open
                &&& final(self).text == old(self).text
                &&& final(self).selected_range == old(self).selected_range
                &&& final(self).undo_manager == old(self).undo_manager
            },
    {
        if self.search_session.whole_word == whole_word {
            return;
        }
        self.search_session.whole_word = whole_word;
        self.search_session.matcher.set_whole_word(whole_word);
        self.anchor_search_match();
    }

    /// Remember the replacement text.
    pub fn set_search_replacement(&mut self, replacement: &str)
        requires
            old(self).wf(),
        ensures
            final(self).wf(),
            final(self).search_session.replacement@ == replacement@,
            *final(self) == (InputBaseState {
                search_session: SearchSession {
                    replacement: final(self).search_session.replacement,
                    ..old(self).search_session
                },
                ..*old(self)
            }),
    {
        if self.search_session.replacement != replacement.to_owned() {
            self.search_session.replacement = replacement.to_owned();
        }
    }

    /// Select a range as the primary selection, from its start to its end.
    fn select_range(&mut self, range: &Range<usize>)
        requires
            old(self).wf(),
            range.start <= range.end <= rope_bytes(old(self).text).len(),
        ensures
            final(self).wf(),
            *final(self) == (InputBaseState {
                selected_range: Selection { start: range.start, end: range.end },
                selection_reversed: false,
                ..*old(self)
            }),
    {
        self.selected_range = Selection { start: range.start, end: range.end };
        self.selection_reversed = false;
    }

    /// Close the panel, selecting the current match if there is one.
    pub fn close_search(&mut self)
        requires
            old(self).wf(),
        ensures
            final(self).wf(),
            !old(self).search_session.open ==> *final(self) == *old(self),
            old(self).search_session.open ==> {
                let m = old(self).search_session.matcher@;
                let selected = if m.ranges.len() > 0 {
                    Selection { start: m.ranges[m.current as int].start, end: m.ranges[m.current as int].end }
                } else {
                    old(self).selected_range
                };
                &&& *final(self) == (InputBaseState {
                    selected_range: selected,
                    selection_reversed: if m.ranges.len() > 0 { false } else { old(self).selection_reversed },
                    search_session: SearchSession { open: false, ..old(self).search_session },
                    ..*old(self)
                })
            },
    {
        if !self.search_session.open {
            return;
        }
        proof {
            self.lemma_ranges_in_text();
        }
        match self.current_search_match() {
            Some(range) => {
                self.select_range(&range);
            },
            None => {},
        }
        self.search_session.close();
    }

    /// Move to the next match (wrapping); with the panel closed, select it.
    pub fn next_search_match(&mut self) -> (r: Option<Range<usize>>)
        requires
            old(self).wf(),
        ensures
            final(self).wf(),
            ({
                let m = old(self).search_session.matcher@;
                if m.ranges.len() == 0 {
                    &&& r is None
                    &&& final(self).search_session.matcher@ == m
                    &&& *final(self) == (InputBaseState {
                        search_session: SearchSession {
                            matcher: final(self).search_session.matcher,
                            ..old(self).search_session
                        },
                        ..*old(self)
                    })
                } else {
                    let ix = next_index_spec(m.current, m.ranges.len());
                    let range = m.ranges[ix as int];
                    &&& r == Some(range)
                    &&& final(self).search_session.matcher@ == (crate::search::MatcherView { current: ix, ..m })
                    &&& *final(self) == (InputBaseState {
                        selected_range: if old(self).search_session.open {
                            old(self).selected_range
                        } else {
                            Selection { start: range.start, end: range.end }
                        },
                        selection_reversed: old(self).search_session.open && old(self).selection_reversed,
                        search_session: SearchSession {
                            matcher: final(self).search_session.matcher,
                            ..old(self).search_session
                        },
                        ..*old(self)
                    })
                }
            }),
    {
        let range = match self.search_session.matcher.next() {
            Some(range) => range,
            None => {
                return None;
            },
        };
        if !self.search_session.open {
            proof {
                self.lemma_ranges_in_text();
            }
            self.select_range(&range);
        }
        Some(range)
    }

    /// Move to the previous match (wrapping); with the panel closed, select it.
    pub fn previous_search_match(&mut self) -> (r: Option<Range<usize>>)
        requires
            old(self).wf(),
        ensures
            final(self).wf(),
            ({
                let m = old(self).search_session.matcher@;
                if m.ranges.len() == 0 {
                    &&& r is None
                    &&& final(self).search_session.matcher@ == m
                    &&& *final(self) == (InputBaseState {
                        search_session: SearchSession {
                            matcher: final(self).search_session.matcher,
                            ..old(self).search_session
                        },
                        ..*old(self)
                    })
                } else {
                    let ix = prev_index_spec(m.current, m.ranges.len());
                    let range = m.ranges[ix as int];
                    &&& r == Some(range)
                    &&& final(self).search_session.matcher@ == (crate::search::MatcherView { current: ix, ..m })
                    &&& *final(self) == (InputBaseState {
                        selected_range: if old(self).search_session.open {
                            old(self).selected_range
                        } else {
                            Selection { start: range.start, end: range.end }
                        },
                        selection_reversed: old(self).search_session.open && old(self).selection_reversed,
                        search_session: SearchSession {
                            matcher: final(self).search_session.matcher,
                            ..old(self).search_session
                        },
                        ..*old(self)
                    })
                }
            }),
    {
        let range = match self.search_session.matcher.next_back() {
            Some(range) => range,
            None => {
                return None;
            },
        };
        if !self.search_session.open {
            proof {
                self.lemma_ranges_in_text();
            }
            self.select_range(&range);
        }
        Some(range)
    }


    /// Replace a range that starts and ends at characters, record the change
    /// with the given intent, and put the caret after the inserted text. The
    /// matcher is not told; `update_search` does that.
    pub(crate) fn record_edit(&mut self, start: usize, end: usize, new_text: &str, intent: EditIntent)
        requires
            old(self).core_wf(),
            start <= end,
            at_char(rope_chars(old(self).text), start as int),
            at_char(rope_chars(old(self).text), end as int),
            rope_bytes(old(self).text).len() + new_text.spec_bytes().len() <= usize::MAX,
        ensures
            final(self).core_wf(),
            rope_chars(final(self).text) == replace_bytes_spec(
                rope_chars(old(self).text),
                start as int,
                end as int,
                new_text@,
            ),
            final(self).selected_range == (Selection {
                start: (start + new_text.spec_bytes().len()) as usize,
                end: (start + new_text.spec_bytes().len()) as usize,
            }),
            !final(self).selection_reversed,
            exists|c: Change|
                edit_change(c, rope_chars(old(self).text), start as int, end as int, new_text@)
                    && c.selection_before == old(self).selected_range
                    && c.selection_before_reversed == old(self).selection_reversed
                    && final(self).undo_manager@ == record_spec(
                    old(self).undo_manager@,
                    c,
                    intent,
                    None,
                ),
            final(self).selection_set == old(self).selection_set,
            final(self).search_session == old(self).search_session,
            final(self).ime_marked_range == old(self).ime_marked_range,
            final(self).disabled == old(self).disabled,
            final(self).readonly == old(self).readonly,
            final(self).searchable == old(self).searchable,
            final(self).replaceable == old(self).replaceable,
    {
        proof {
            lemma_replace_shape(rope_chars(self.text), start as int, end as int, new_text@);
        }
        let before = self.selected_range;
        let before_reversed = self.selection_reversed;
        let removed = replace_bytes(&mut self.text, start, end, new_text);
        let new_end = start + new_text.len();
        let change = Change {
            selection_before_reversed: before_reversed,
            ..Change::new(
                Selection { start, end },
                removed.as_str(),
                Selection { start, end: new_end },
                new_text,
                before,
                Selection { start: new_end, end: new_end },
            )
        };
        self.undo_manager.record_transaction(change, intent, None);
        self.selected_range = Selection { start: new_end, end: new_end };
        self.selection_reversed = false;
    }

    /// Bring the matcher up to date with the text, unless a batch of edits is open.
    pub fn update_search(&mut self)
        requires
            old(self).core_wf(),
            old(self).undo_manager@.atomic_batch is None,
        ensures
            final(self).wf(),
            *final(self) == (InputBaseState {
                search_session: SearchSession {
                    matcher: final(self).search_session.matcher,
                    ..old(self).search_session
                },
                ..*old(self)
            }),
            final(self).search_session.matcher@ == crate::search::retext_view(
                old(self).search_session.matcher@,
                rope_chars(old(self).text),
            ),
    {
        if !self.undo_manager.is_atomic_batch() {
            self.search_session.matcher.update(&self.text);
        }
    }

    /// Replace a range that starts and ends at characters by `new_text` as one
    /// recorded edit of the given intent, leaving the caret after the insertion.
    pub fn replace_text_in_range(&mut self, range: Selection, new_text: &str, intent: EditIntent)
        requires
            old(self).wf(),
            range.start <= range.end <= rope_bytes(old(self).text).len(),
            char_boundary(rope_bytes(old(self).text), range.start as int),
            char_boundary(rope_bytes(old(self).text), range.end as int),
            rope_bytes(old(self).text).len() + new_text.spec_bytes().len() <= usize::MAX,
        ensures
            final(self).wf(),
            rope_chars(final(self).text) == replace_bytes_spec(
                rope_chars(old(self).text),
                range.start as int,
                range.end as int,
                new_text@,
            ),
            final(self).selected_range == (Selection {
                start: (range.start + new_text.spec_bytes().len()) as usize,
                end: (range.start + new_text.spec_bytes().len()) as usize,
            }),
            exists|c: Change|
                edit_change(c, rope_chars(old(self).text), range.start as int, range.end as int, new_text@)
                    && c.selection_before == old(self).selected_range
                    && final(self).undo_manager@ == record_spec(
                    old(self).undo_manager@,
                    c,
                    intent,
                    None,
                ),
            final(self).search_session.matcher@ == crate::search::retext_view(
                old(self).search_session.matcher@,
                rope_chars(final(self).text),
            ),
            final(self).selection_set == old(self).selection_set,
    {
        proof {
            lemma_boundary_at_char(rope_chars(self.text), range.start as int);
            lemma_boundary_at_char(rope_chars(self.text), range.end as int);
        }
        self.record_edit(range.start, range.end, new_text, intent);
        self.update_search();
    }


    /// Put back the selections a history step recorded, where they are still
    /// valid for the text; otherwise the range `fallback` where it lies within
    /// the text, else a caret at the text's end.
    fn restore_history_selection(
        &mut self,
        replay: Option<SelectionSnapshot>,
        fallback: Selection,
        reversed: bool,
    )
        requires
            old(self).undo_manager.wf(),
            old(self).search_session.matcher.wf(),
            identities_ok(old(self).selection_set.secondary@, old(self).selection_set.primary_id),
        ensures
            final(self).core_wf(),
            final(self).text == old(self).text,
            final(self).undo_manager == old(self).undo_manager,
            final(self).search_session == old(self).search_session,
            history_selection(&*old(self), &*final(self), opt_view(replay), fallback, reversed),
    {
        let len = rope_len(&self.text);
        if self.selected_range.start > self.selected_range.end || self.selected_range.end > len {
            self.selected_range = Selection { start: len, end: len };
            self.selection_reversed = false;
        }
        match replay {
            Some(snapshot) => {
                let pid = snapshot.primary_id;
                match SelectionSnapshot::normalized(snapshot.selections, pid, &self.text) {
                    Some(n) => {
                        proof {
                            lemma_normalized_primary(n@.selections, pid);
                        }
                        self.restore_selection_snapshot(n);
                        return;
                    },
                    None => {},
                }
            },
            None => {},
        }
        if fallback.start <= fallback.end && fallback.end <= len {
            self.selected_range = fallback;
            self.selection_reversed = reversed;
        } else {
            self.selected_range = Selection { start: len, end: len };
            self.selection_reversed = false;
        }
    }

    /// Revert the newest transaction: its changes are undone newest first,
    /// and the selection goes back to where it was before them.
    pub fn undo(&mut self) -> (r: bool)
        requires
            old(self).wf(),
        ensures
            final(self).wf(),
            r == (undo_spec(old(self).undo_manager@).1 is Some),
            match undo_spec(old(self).undo_manager@).1 {
                Some(cs) => rope_chars(final(self).text) == revert_all(rope_chars(old(self).text), cs),
                None => rope_chars(final(self).text) == rope_chars(old(self).text),
            },
            r ==> final(self).undo_manager@ == (UndoView {
                replay_selection: None,
                ..undo_spec(old(self).undo_manager@).0
            }),
            !r ==> final(self).undo_manager@ == undo_spec(old(self).undo_manager@).0,
            r ==> {
                let cs = undo_spec(old(self).undo_manager@).1.unwrap();
                history_selection(
                    &*old(self),
                    &*final(self),
                    undo_spec(old(self).undo_manager@).0.replay_selection,
                    if cs.len() > 0 {
                        cs.last().selection_before
                    } else {
                        old(self).selected_range
                    },
                    if cs.len() > 0 {
                        cs.last().selection_before_reversed
                    } else {
                        old(self).selection_reversed
                    },
                )
            },
            !r ==> *final(self) == (InputBaseState { undo_manager: final(self).undo_manager, ..*old(self) }),
    {
        let changes = match self.undo_manager.undo() {
            Some(changes) => changes,
            None => {
                return false;
            },
        };
        let ghost t0 = rope_chars(self.text);
        let ghost s1 = *self;
        let mut i: usize = 0;
        while i < changes.len()
            invariant
                i <= changes@.len(),
                rope_chars(self.text) == revert_all(t0, changes@.subrange(0, i as int)),
                *self == (InputBaseState { text: self.text, ..s1 }),
            decreases changes@.len() - i,
        {
            let c = &changes[i];
            let len = rope_len(&self.text);
            proof {
                lemma_revert_all_push(t0, changes@.subrange(0, i as int), changes@[i as int]);
                assert(changes@.subrange(0, i + 1) =~= changes@.subrange(0, i as int).push(
                    changes@[i as int],
                ));
            }
            if c.new_range.start <= c.new_range.end && c.new_range.end <= len {
                let _ = replace_bytes(
                    &mut self.text,
                    c.new_range.start,
                    c.new_range.end,
                    c.old_text.as_str(),
                );
            }
            i += 1;
        }
        assert(changes@.subrange(0, changes@.len() as int) =~= changes@);
        let replay = self.undo_manager.take_replay_selection();
        let n = changes.len();
        let ghost pre = *self;
        if n > 0 {
            let last = &changes[n - 1];
            assert(changes@.last() == *last);
            self.restore_history_selection(replay, last.selection_before, last.selection_before_reversed);
        } else {
            let keep = self.selected_range;
            let reversed = self.selection_reversed;
            self.restore_history_selection(replay, keep, reversed);
        }
        let ghost mid = *self;
        self.search_session.matcher.update(&self.text);
        assert(pre.selection_set == old(self).selection_set);
        assert(mid.text == self.text && mid.selection_set == self.selection_set && mid.selected_range
            == self.selected_range && mid.selection_reversed == self.selection_reversed
            && mid.cursor_line_end_affinity == self.cursor_line_end_affinity && mid.preferred_column
            == self.preferred_column);
        true
    }

    /// Replay the newest undone transaction: its changes are made again oldest
    /// first, and the selection goes to where it was after them.
    pub fn redo(&mut self) -> (r: bool)
        requires
            old(self).wf(),
        ensures
            final(self).wf(),
            r == (redo_spec(old(self).undo_manager@).1 is Some),
            match redo_spec(old(self).undo_manager@).1 {
                Some(cs) => rope_chars(final(self).text) == apply_all(rope_chars(old(self).text), cs),
                None => rope_chars(final(self).text) == rope_chars(old(self).text),
            },
            r ==> final(self).undo_manager@ == (UndoView {
                replay_selection: None,
                ..redo_spec(old(self).undo_manager@).0
            }),
            !r ==> final(self).undo_manager@ == redo_spec(old(self).undo_manager@).0,
            r ==> {
                let cs = redo_spec(old(self).undo_manager@).1.unwrap();
                history_selection(
                    &*old(self),
                    &*final(self),
                    redo_spec(old(self).undo_manager@).0.replay_selection,
                    if cs.len() > 0 {
                        cs.last().selection_after
                    } else {
                        old(self).selected_range
                    },
                    if cs.len() > 0 {
                        cs.last().selection_after_reversed
                    } else {
                        old(self).selection_reversed
                    },
                )
            },
            !r ==> *final(self) == (InputBaseState { undo_manager: final(self).undo_manager, ..*old(self) }),
    {
        let changes = match self.undo_manager.redo() {
            Some(changes) => changes,
            None => {
                return false;
            },
        };
        let ghost t0 = rope_chars(self.text);
        let ghost s1 = *self;
        let mut i: usize = 0;
        while i < changes.len()
            invariant
                i <= changes@.len(),
                rope_chars(self.text) == apply_all(t0, changes@.subrange(0, i as int)),
                *self == (InputBaseState { text: self.text, ..s1 }),
            decreases changes@.len() - i,
        {
            let c = &changes[i];
            let len = rope_len(&self.text);
            proof {
                lemma_apply_all_push(t0, changes@.subrange(0, i as int), changes@[i as int]);
                assert(changes@.subrange(0, i + 1) =~= changes@.subrange(0, i as int).push(
                    changes@[i as int],
                ));
            }
            if c.old_range.start <= c.old_range.end && c.old_range.end <= len {
                let _ = replace_bytes(
                    &mut self.text,
                    c.old_range.start,
                    c.old_range.end,
                    c.new_text.as_str(),
                );
            }
            i += 1;
        }
        assert(changes@.subrange(0, changes@.len() as int) =~= changes@);
        let replay = self.undo_manager.take_replay_selection();
        let n = changes.len();
        let ghost pre = *self;
        if n > 0 {
            let last = &changes[n - 1];
            assert(changes@.last() == *last);
            self.restore_history_selection(replay, last.selection_after, last.selection_after_reversed);
        } else {
            let keep = self.selected_range;
            let reversed = self.selection_reversed;
            self.restore_history_selection(replay, keep, reversed);
        }
        let ghost mid = *self;
        self.search_session.matcher.update(&self.text);
        assert(pre.selection_set == old(self).selection_set);
        assert(mid.text == self.text && mid.selection_set == self.selection_set && mid.selected_range
            == self.selected_range && mid.selection_reversed == self.selection_reversed
            && mid.cursor_line_end_affinity == self.cursor_line_end_affinity && mid.preferred_column
            == self.preferred_column);
        true
    }



    /// Each match starts and ends at characters of the text.
    pub proof fn lemma_match_at_chars(&self, i: int)
        requires
            self.wf(),
            0 <= i < self.search_session.matcher@.ranges.len(),
        ensures
            ({
                let r = self.search_session.matcher@.ranges[i];
                &&& r.start <= r.end <= rope_bytes(self.text).len()
                &&& at_char(rope_chars(self.text), r.start as int)
                &&& at_char(rope_chars(self.text), r.end as int)
            }),
    {
        lemma_matches_ordered_whole_words(self.search_session.matcher@);
        let m = self.search_session.matcher@;
        let r = m.ranges[i];
        if m.text.len() == 0 {
            assert(encode_utf8(m.text) =~= Seq::<u8>::empty());
            assert(encode_utf8(rope_chars(self.text).subrange(0, 0)).len() == 0);
        } else {
            lemma_boundary_at_char(rope_chars(self.text), r.start as int);
            lemma_boundary_at_char(rope_chars(self.text), r.end as int);
        }
    }

    /// The characters the byte range covers.
    pub(crate) fn covered_text(&self, start: usize, end: usize) -> (r: String)
        requires
            start <= end <= rope_bytes(self.text).len(),
        ensures
            r@ == covered_chars(rope_chars(self.text), start as int, end as int),
    {
        let cs = rope_byte_to_char(&self.text, start);
        let ce = rope_byte_to_char(&self.text, end);
        proof {
            lemma_chars_within_monotone(rope_chars(self.text), start as int, end as int);
        }
        rope_char_slice(&self.text, cs, ce)
    }


    /// Replace a match's text as one atomic edit that keeps the matcher's
    /// position, unless the match already reads as the replacement.
    fn replace_match_text(&mut self, start: usize, end: usize, replacement: &str)
        requires
            old(self).wf(),
            start <= end,
            at_char(rope_chars(old(self).text), start as int),
            at_char(rope_chars(old(self).text), end as int),
            rope_bytes(old(self).text).len() + replacement.spec_bytes().len() <= usize::MAX,
        ensures
            final(self).wf(),
            final(self).search_session.replacement == old(self).search_session.replacement,
            final(self).replaceable == old(self).replaceable,
            final(self).disabled == old(self).disabled,
            final(self).readonly == old(self).readonly,
            rope_bytes(final(self).text).len() == rope_bytes(old(self).text).len() - (end - start)
                + replacement.spec_bytes().len(),
            ({
                let m = old(self).search_session.matcher@;
                let t = rope_chars(old(self).text);
                let same = covered_chars(t, start as int, end as int) == replacement@;
                &&& same ==> rope_chars(final(self).text) == t
                &&& same ==> final(self).undo_manager == old(self).undo_manager
                &&& same ==> final(self).search_session.matcher@ == m
                &&& !same ==> rope_chars(final(self).text) == replace_bytes_spec(
                    t,
                    start as int,
                    end as int,
                    replacement@,
                )
                &&& !same ==> recorded_edit(
                    old(self).undo_manager@,
                    final(self).undo_manager@,
                    t,
                    start as int,
                    end as int,
                    replacement@,
                    EditIntent::Atomic,
                )
                &&& !same ==> final(self).search_session.matcher@ == retext_view(
                    MatcherView { replacing: true, ..m },
                    rope_chars(final(self).text),
                )
            }),
    {
        proof {
            lemma_replace_shape(rope_chars(self.text), start as int, end as int, replacement@);
            lemma_covered_len(rope_chars(self.text), start as int, end as int);
        }
        let current = self.covered_text(start, end);
        if current != replacement.to_owned() {
            self.search_session.matcher.begin_replacement();
            self.record_edit(start, end, replacement, EditIntent::Atomic);
            self.update_search();
            proof {
                reveal(recorded_edit);
            }
        }
    }

    /// Replace the current match (unless it already reads as the replacement) as
    /// one atomic edit, then point at the first match after the inserted text.
    /// Nothing happens, and false is returned, when the input is not
    /// replaceable or there is no match.
    #[verifier::spinoff_prover]
    #[verifier::rlimit(100)]
    pub fn replace_current_search_match(&mut self, replacement: &str) -> (r: bool)
        requires
            old(self).wf(),
            rope_bytes(old(self).text).len() + replacement.spec_bytes().len() <= usize::MAX,
        ensures
            final(self).wf(),
            r == (old(self).replaceable && !old(self).disabled && !old(self).readonly
                && old(self).search_session.matcher@.ranges.len() > 0),
            !r ==> *final(self) == *old(self),
            r ==> {
                let m = old(self).search_session.matcher@;
                let range = m.ranges[m.current as int];
                let t = rope_chars(old(self).text);
                let same = covered_chars(t, range.start as int, range.end as int) == replacement@;
                let inserted_end = (range.start + replacement.spec_bytes().len()) as usize;
                &&& final(self).search_session.replacement@ == replacement@
                &&& same ==> rope_chars(final(self).text) == t
                &&& same ==> final(self).undo_manager == old(self).undo_manager
                &&& !same ==> rope_chars(final(self).text) == replace_bytes_spec(
                    t,
                    range.start as int,
                    range.end as int,
                    replacement@,
                )
                &&& final(self).search_session.matcher@ == replaced_matcher(
                    m,
                    same,
                    rope_chars(final(self).text),
                    inserted_end,
                )
                &&& !same ==> recorded_edit(
                    old(self).undo_manager@,
                    final(self).undo_manager@,
                    t,
                    range.start as int,
                    range.end as int,
                    replacement@,
                    EditIntent::Atomic,
                )
            },
    {
        if !self.is_replaceable() {
            return false;
        }
        let range = match self.current_search_match() {
            Some(range) => range,
            None => {
                return false;
            },
        };
        proof {
            self.lemma_match_at_chars(self.search_session.matcher@.current as int);
        }
        self.set_search_replacement(replacement);
        let old_len = rope_len(&self.text);
        self.replace_match_text(range.start, range.end, replacement);
        let new_len = rope_len(&self.text);
        let inserted_end = if new_len >= old_len {
            range.end + (new_len - old_len)
        } else {
            range.end - (old_len - new_len)
        };
        let next = self.search_session.matcher.first_index_from(inserted_end);
        self.search_session.matcher.set_current_match_index(next);
        true
    }


    /// Replace every match (the last first, as one atomic history step),
    /// skipping matches that already read as the replacement. Returns the
    /// number of matches, or zero when the input is not replaceable.
    pub fn replace_all_search_matches(&mut self, replacement: &str) -> (r: usize)
        requires
            old(self).wf(),
            rope_bytes(old(self).text).len() + old(self).search_session.matcher@.ranges.len()
                * replacement.spec_bytes().len() <= usize::MAX,
        ensures
            final(self).wf(),
            r == (if old(self).replaceable && !old(self).disabled && !old(self).readonly {
                old(self).search_session.matcher@.ranges.len()
            } else {
                0
            }),
            r == 0 ==> *final(self) == *old(self),
            r > 0 ==> {
                let m = old(self).search_session.matcher@;
                &&& rope_chars(final(self).text) == replace_from(
                    rope_chars(old(self).text),
                    m.ranges,
                    0,
                    replacement@,
                )
                &&& final(self).search_session.replacement@ == replacement@
                &&& final(self).search_session.matcher@ == retext_view(m, rope_chars(final(self).text))
                &&& final(self).undo_manager@.atomic_batch is None
                &&& final(self).selection_set.primary_id == old(self).selection_set.primary_id
                &&& final(self).selection_set.secondary@.len() == 0
                &&& exists|cs: Seq<Change>|
                    {
                        &&& !old(self).undo_manager@.ignoring ==> changes_between(
                            cs,
                            rope_chars(old(self).text),
                            rope_chars(final(self).text),
                        )
                        &&& final(self).undo_manager@ == #[trigger] batch_committed(
                            old(self).undo_manager@,
                            SnapshotView {
                                selections: snapshot_selections(&*old(self)),
                                primary_id: old(self).selection_set.primary_id,
                            },
                            cs,
                            SnapshotView {
                                selections: snapshot_selections(&*final(self)),
                                primary_id: old(self).selection_set.primary_id,
                            },
                        )
                    }
            },
    {
        if !self.is_replaceable() {
            return 0;
        }
        let ranges = self.search_session.matcher.matched_ranges();
        let n = ranges.len();
        if n == 0 {
            return 0;
        }
        let ghost rs = (*ranges)@;
        let ghost t0 = rope_chars(self.text);
        let ghost len0 = rope_bytes(self.text).len();
        let ghost w = replacement.spec_bytes().len();
        proof {
            lemma_matches_ordered_whole_words(self.search_session.matcher@);
            assert forall|j: int| 0 <= j < n implies at_char(t0, (#[trigger] rs[j]).start as int)
                && at_char(t0, rs[j].end as int) by {
                self.lemma_match_at_chars(j);
            }
        }
        self.set_search_replacement(replacement);
        let before = self.selection_snapshot();
        let ghost bv = before@;
        let ghost um0 = self.undo_manager@;
        self.undo_manager.begin_atomic_batch(Some(before));
        let ghost s0 = *self;
        let ghost m0 = self.undo_manager@;
        let ghost mut cs: Seq<Change> = Seq::empty();
        proof {
            assert(cs.reverse() =~= Seq::<Change>::empty());
            assert(m0.atomic_batch.unwrap().changes + cs =~= m0.atomic_batch.unwrap().changes);
            assert(m0 == (UndoView { atomic_batch: Some(BatchView { changes: m0.atomic_batch.unwrap().changes + cs, ..m0.atomic_batch.unwrap() }), ..m0 }));
        }
        let mut i: usize = n;
        while i > 0
            invariant
                i <= n,
                n == rs.len(),
                (*ranges)@ == rs,
                w == replacement.spec_bytes().len(),
                len0 + n * w <= usize::MAX,
                forall|a: int, b: int| 0 <= a < b < n ==> (#[trigger] rs[a]).end <= (#[trigger] rs[b]).start,
                forall|j: int| 0 <= j < n ==> (#[trigger] rs[j]).start <= rs[j].end,
                self.core_wf(),
                self.undo_manager@.atomic_batch is Some,
                m0 == s0.undo_manager@,
                m0.atomic_batch is Some,
                t0 == rope_chars(s0.text),
                !m0.ignoring ==> changes_between(cs, t0, rope_chars(self.text)),
                batch_grown(m0, self.undo_manager@, cs),
                self.selection_set == s0.selection_set,
                rope_chars(self.text) == replace_from(t0, rs, i as int, replacement@),
                rope_bytes(self.text).len() <= len0 + (n - i) * w,
                forall|j: int| 0 <= j < i ==> at_char(rope_chars(self.text), (#[trigger] rs[j]).start as int)
                    && at_char(rope_chars(self.text), rs[j].end as int),
                self.search_session == s0.search_session,
                self.replaceable == s0.replaceable,
                self.disabled == s0.disabled,
                self.readonly == s0.readonly,
            decreases i,
        {
            i -= 1;
            let range = &ranges[i];
            let ghost tb = rope_chars(self.text);
            proof {
                assert((n - i) * w == (n - (i + 1)) * w + w) by (nonlinear_arith);
                assert((n - i) * w <= n * w) by (nonlinear_arith)
                    requires
                        i <= n,
                ;
                lemma_replace_shape(tb, range.start as int, range.end as int, replacement@);
                lemma_covered_len(tb, range.start as int, range.end as int);
            }
            let current = self.covered_text(range.start, range.end);
            if current != replacement.to_owned() {
                let ghost mb = self.undo_manager@;
                let ghost sel_b = self.selected_range;
                let ghost rev_b = self.selection_reversed;
                self.record_edit(range.start, range.end, replacement, EditIntent::Atomic);
                proof {
                    let ta = rope_chars(self.text);
                    let c = choose|c: Change|
                        edit_change(c, tb, range.start as int, range.end as int, replacement@)
                            && c.selection_before == sel_b
                            && c.selection_before_reversed == rev_b
                            && self.undo_manager@ == record_spec(mb, c, EditIntent::Atomic, None);
                    lemma_revert_apply_edit(tb, range.start as int, range.end as int, replacement@, c);
                    if m0.ignoring {
                    } else if c.spec_is_noop() {
                        assert(c.old_text@ == c.new_text@);
                        assert(false);
                    } else {
                        let cs2 = cs.push(c);
                        lemma_apply_all_push(t0, cs, c);
                        assert(cs2.reverse() =~= seq![c] + cs.reverse());
                        assert((seq![c] + cs.reverse()).drop_first() =~= cs.reverse());
                        let b0 = m0.atomic_batch.unwrap();
                        assert(b0.changes + cs2 =~= (b0.changes + cs).push(c));
                        cs = cs2;
                    }
                }
            }
            proof {
                assert forall|j: int| 0 <= j < i implies at_char(rope_chars(self.text), (#[trigger] rs[j]).start as int)
                    && at_char(rope_chars(self.text), rs[j].end as int) by {
                    lemma_replace_keeps_prefix(tb, range.start as int, range.end as int, replacement@, rs[j].start as int);
                    lemma_replace_keeps_prefix(tb, range.start as int, range.end as int, replacement@, rs[j].end as int);
                }
            }
        }
        if self.selection_set.secondary.len() > 0 {
            self.selection_set.secondary = Vec::new();
        }
        let after = self.selection_snapshot();
        let ghost av = after@;
        self.undo_manager.commit_atomic_batch(Some(after));
        proof {
            let b1 = m0.atomic_batch.unwrap();
            if !um0.ignoring {
                assert(b1.changes + cs =~= cs);
            }
            assert(av == SnapshotView { selections: snapshot_selections(self), primary_id: s0.selection_set.primary_id });
            assert(self.undo_manager@ == batch_committed(um0, bv, cs, av));
        }
        self.update_search();
        n
    }

}

} // verus!
