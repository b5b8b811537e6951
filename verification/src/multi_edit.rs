//! Edits applied at every selection at once, as one atomic history step.
use crate::editor::{snapshot_selections, lemma_snapshot_valid, 
    at_char, covered_chars, identities_ok, primary_slot, primary_spec, replace_bytes_spec,
    without_id, last_with_id, distinct_ids, lemma_replace_shape, lemma_covered_len,
    lemma_replace_keeps_prefix, InputBaseState,
};
use crate::grapheme::{next, next_spec, previous, previous_spec};
use crate::selection::{copy_selections, max_offset, EditorSelection, Selection, SelectionSnapshot};
use crate::selection_set::{is_normalization, normalized_wf, selections_within, valid_identities};
use crate::text::{char_boundary, offset_to_point_in, rope_bytes, rope_chars, rope_len, rope_text, row_of, line_start};
use crate::comment::last_covered_row;
use crate::undo_manager::{
    begin_batch_spec, commit_batch_spec, commit_spec, record_spec, redo_spec, undo_spec, BatchView, EditIntent,
    UndoView,
};
use crate::change::Change;
use crate::editor::{
    apply_all, apply_change, edit_change, lemma_apply_all_push, lemma_revert_apply_edit, revert_all,
    revert_change,
};
use crate::selection::SnapshotView;
use crate::utf8_facts::lemma_boundary_at_char;
use vstd::prelude::*;
use vstd::string::StringSliceAdditionalSpecFns;

verus! {

/// The range a selection edits: its own range, or, for a caret that deletes,
/// the grapheme before it (backward) or after it (forward).
pub open spec fn edit_range(text: Seq<char>, r: Selection, deletion: Option<bool>) -> Selection {
    if r.start == r.end {
        match deletion {
            Some(true) => Selection { start: r.start, end: next_spec(text, r.end as int) as usize },
            Some(false) => Selection { start: previous_spec(text, r.start as int) as usize, end: r.end },
            None => r,
        }
    } else {
        r
    }
}

/// Add the next edit range; a deletion that reaches the previous range joins it.
pub open spec fn plan_step(acc: Seq<Selection>, r: Selection, deletion: Option<bool>) -> Seq<Selection> {
    if deletion is Some && acc.len() > 0 && r.start <= acc.last().end {
        acc.update(
            acc.len() - 1,
            Selection { start: acc.last().start, end: max_offset(acc.last().end, r.end) },
        )
    } else {
        acc.push(r)
    }
}

/// The ranges an edit of every selection replaces, in document order.
pub open spec fn plan_ranges(text: Seq<char>, sels: Seq<EditorSelection>, deletion: Option<bool>) -> Seq<
    Selection,
>
    decreases sels.len(),
{
    if sels.len() == 0 {
        Seq::empty()
    } else {
        plan_step(
            plan_ranges(text, sels.drop_last(), deletion),
            edit_range(text, sels.last().spec_range(), deletion),
            deletion,
        )
    }
}

/// Where each selection's edit starts.
pub open spec fn member_starts(text: Seq<char>, sels: Seq<EditorSelection>, deletion: Option<bool>) -> Seq<
    usize,
> {
    Seq::new(sels.len(), |i: int| edit_range(text, sels[i].spec_range(), deletion).start)
}

/// The planned ranges whose text differs from the replacement.
pub open spec fn changed_ranges(t: Seq<char>, plan: Seq<Selection>, s: Seq<char>) -> Seq<Selection>
    decreases plan.len(),
{
    if plan.len() == 0 {
        plan
    } else {
        let rest = changed_ranges(t, plan.drop_last(), s);
        let r = plan.last();
        if covered_chars(t, r.start as int, r.end as int) != s {
            rest.push(r)
        } else {
            rest
        }
    }
}

/// Replace `ranges[k..]` by `s`, the last range first.
pub open spec fn replace_each_from(t: Seq<char>, ranges: Seq<Selection>, k: int, s: Seq<char>) -> Seq<char>
    decreases ranges.len() - k,
{
    if k < 0 || k >= ranges.len() {
        t
    } else {
        replace_bytes_spec(
            replace_each_from(t, ranges, k + 1, s),
            ranges[k].start as int,
            ranges[k].end as int,
            s,
        )
    }
}

/// Ranges in order: each within `len`, none before the previous one ends.
pub open spec fn ordered_ranges(r: Seq<Selection>, len: int) -> bool {
    &&& forall|i: int| 0 <= i < r.len() ==> (#[trigger] r[i]).start <= r[i].end <= len
    &&& forall|i: int, j: int| 0 <= i < j < r.len() ==> (#[trigger] r[i]).end <= (#[trigger] r[j]).start
}

/// Every range starts and ends at a character boundary.
pub open spec fn ranges_on_boundaries(r: Seq<Selection>, bytes: Seq<u8>) -> bool {
    forall|i: int|
        0 <= i < r.len() ==> char_boundary(bytes, (#[trigger] r[i]).start as int) && char_boundary(
            bytes,
            r[i].end as int,
        )
}


/// Consecutive selections of a normalized set: each ends at or before the next starts.
pub open spec fn consecutive_ordered(s: Seq<EditorSelection>) -> bool {
    forall|i: int| 0 <= i < s.len() - 1 ==> (#[trigger] s[i]).spec_range().end <= s[i + 1].spec_range().start
}

/// The ranges and start offsets that an edit of every selection works on.
pub fn plan_edit_ranges(text: &ropey::Rope, sels: &Vec<EditorSelection>, deletion: Option<bool>) -> (r: (
    Vec<Selection>,
    Vec<usize>,
))
    requires
        consecutive_ordered(sels@),
        selections_within(sels@, rope_bytes(*text)),
    ensures
        r.0@ == plan_ranges(rope_chars(*text), sels@, deletion),
        r.1@ == member_starts(rope_chars(*text), sels@, deletion),
        ordered_ranges(r.0@, rope_bytes(*text).len() as int),
        ranges_on_boundaries(r.0@, rope_bytes(*text)),
        r.0@.len() <= sels@.len(),
        forall|j: int| 0 <= j < r.1@.len() ==> #[trigger] r.1@[j] <= rope_bytes(*text).len(),
{
    let ghost t = rope_chars(*text);
    let ghost bytes = rope_bytes(*text);
    let mut ranges: Vec<Selection> = Vec::new();
    let mut starts: Vec<usize> = Vec::new();
    let mut k: usize = 0;
    while k < sels.len()
        invariant
            k <= sels@.len(),
            consecutive_ordered(sels@),
            selections_within(sels@, bytes),
            t == rope_chars(*text),
            bytes == rope_bytes(*text),
            ranges@ == plan_ranges(t, sels@.subrange(0, k as int), deletion),
            starts@ == member_starts(t, sels@.subrange(0, k as int), deletion),
            ordered_ranges(ranges@, bytes.len() as int),
            ranges_on_boundaries(ranges@, bytes),
            deletion is None ==> ranges@.len() == k && (k > 0 ==> ranges@.last() == sels@[k - 1].spec_range()),
            ranges@.len() <= k,
            forall|j: int| 0 <= j < starts@.len() ==> #[trigger] starts@[j] <= bytes.len(),
            starts@.len() == k,
        decreases sels@.len() - k,
    {
        let sel = sels[k];
        let mut range = sel.range();
        if range.start == range.end {
            match deletion {
                Some(true) => {
                    range.end = next(text, range.end);
                },
                Some(false) => {
                    range.start = previous(text, range.start);
                },
                None => {},
            }
        }
        let ghost pre = sels@.subrange(0, k as int);
        assert(sels@.subrange(0, k + 1).drop_last() =~= pre);
        assert(sels@.subrange(0, k + 1).last() == sel);
        assert(range == edit_range(t, sel.spec_range(), deletion));
        starts.push(range.start);
        assert(starts@ =~= member_starts(t, sels@.subrange(0, k + 1), deletion));
        let n = ranges.len();
        if deletion.is_some() && n > 0 && range.start <= ranges[n - 1].end {
            let last = ranges[n - 1];
            let end = if last.end >= range.end { last.end } else { range.end };
            ranges.set(n - 1, Selection { start: last.start, end });
        } else {
            proof {
                if deletion is None && n > 0 {
                    assert(sels@[k - 1].spec_range().end <= sels@[k as int].spec_range().start);
                }
            }
            ranges.push(range);
        }
        k += 1;
    }
    assert(sels@.subrange(0, sels@.len() as int) =~= sels@);
    (ranges, starts)
}


/// The planned ranges whose text differs from the replacement.
pub fn changed_of(text: &ropey::Rope, plan: &Vec<Selection>, replacement: &str) -> (r: Vec<Selection>)
    requires
        ordered_ranges(plan@, rope_bytes(*text).len() as int),
        ranges_on_boundaries(plan@, rope_bytes(*text)),
    ensures
        r@ == changed_ranges(rope_chars(*text), plan@, replacement@),
        ordered_ranges(r@, rope_bytes(*text).len() as int),
        ranges_on_boundaries(r@, rope_bytes(*text)),
        r@.len() <= plan@.len(),
{
    let ghost t = rope_chars(*text);
    let ghost len = rope_bytes(*text).len() as int;
    let mut changed: Vec<Selection> = Vec::new();
    let mut k: usize = 0;
    while k < plan.len()
        invariant
            k <= plan@.len(),
            t == rope_chars(*text),
            len == rope_bytes(*text).len(),
            ordered_ranges(plan@, len),
            ranges_on_boundaries(plan@, rope_bytes(*text)),
            changed@ == changed_ranges(t, plan@.subrange(0, k as int), replacement@),
            ordered_ranges(changed@, len),
            ranges_on_boundaries(changed@, rope_bytes(*text)),
            changed@.len() <= k,
            forall|i: int| 0 <= i < changed@.len() ==> (#[trigger] changed@[i]).end <= (if k < plan@.len() { plan@[k as int].start as int } else { len }),
        decreases plan@.len() - k,
    {
        let r = plan[k];
        let cs = crate::text::rope_byte_to_char(text, r.start);
        let ce = crate::text::rope_byte_to_char(text, r.end);
        proof {
            crate::text::lemma_chars_within_monotone(t, r.start as int, r.end as int);
        }
        let current = crate::text::rope_char_slice(text, cs, ce);
        assert(plan@.subrange(0, k + 1).drop_last() =~= plan@.subrange(0, k as int));
        assert(plan@.subrange(0, k + 1).last() == r);
        if current != replacement.to_owned() {
            changed.push(r);
        }
        proof {
            if k + 1 < plan@.len() {
                assert(plan@[k as int].end <= plan@[k + 1].start);
            }
        }
        k += 1;
    }
    assert(plan@.subrange(0, plan@.len() as int) =~= plan@);
    changed
}

/// The index scanning stops at for offset `p`, from `ri`: past every range
/// that ends at or before `p` and starts before it.
pub open spec fn skip_index(changed: Seq<Selection>, p: usize, ri: int) -> int
    decreases changed.len() - ri,
{
    if 0 <= ri < changed.len() && changed[ri].end <= p && changed[ri].start < p {
        skip_index(changed, p, ri + 1)
    } else {
        ri
    }
}

/// The scan index for member `j`, continuing from the previous member's.
pub open spec fn scan_index(changed: Seq<Selection>, starts: Seq<usize>, j: int) -> int
    decreases j,
{
    if j <= 0 {
        skip_index(changed, starts[0], 0)
    } else {
        skip_index(changed, starts[j], scan_index(changed, starts, j - 1))
    }
}

/// The bytes the first `k` ranges cover.
pub open spec fn removed_len(changed: Seq<Selection>, k: int) -> int
    decreases k,
{
    if k <= 0 || k > changed.len() {
        0
    } else {
        removed_len(changed, k - 1) + (changed[k - 1].end - changed[k - 1].start)
    }
}

/// An offset moved by added and removed bytes, stopping at zero.
pub open spec fn shifted(p: int, removed: int, added: int) -> int {
    if p + added >= removed {
        p + added - removed
    } else {
        0
    }
}

/// Where member `j`'s caret lands: after the replacement of the range it
/// starts in, or after the replacement inserted at its own start.
pub open spec fn caret_offset(changed: Seq<Selection>, starts: Seq<usize>, j: int, w: int) -> int {
    let ri = scan_index(changed, starts, j);
    let p = if 0 <= ri < changed.len() && changed[ri].start <= starts[j] {
        changed[ri].start as int
    } else {
        starts[j] as int
    };
    shifted(p, removed_len(changed, ri), ri * w) + w
}

proof fn lemma_skip_index_bounds(changed: Seq<Selection>, p: usize, ri: int)
    requires
        0 <= ri <= changed.len(),
    ensures
        ri <= skip_index(changed, p, ri) <= changed.len(),
    decreases changed.len() - ri,
{
    if 0 <= ri < changed.len() && changed[ri].end <= p && changed[ri].start < p {
        lemma_skip_index_bounds(changed, p, ri + 1);
    }
}

proof fn lemma_removed_le(changed: Seq<Selection>, k: int, len: int)
    requires
        ordered_ranges(changed, len),
        0 <= k <= changed.len(),
        0 <= len,
    ensures
        0 <= removed_len(changed, k),
        k > 0 ==> removed_len(changed, k) <= changed[k - 1].end,
        removed_len(changed, k) <= len,
    decreases k,
{
    if k > 0 {
        lemma_removed_le(changed, k - 1, len);
        assert(changed[k - 1].start <= changed[k - 1].end <= len);
        if k > 1 {
            assert(changed[k - 2].end <= changed[k - 1].start);
        }
    }
}

/// The caret offset of every member after the edit.
pub fn caret_offsets(changed: &Vec<Selection>, starts: &Vec<usize>, w: usize, len: usize) -> (r: Vec<usize>)
    requires
        ordered_ranges(changed@, len as int),
        forall|j: int| 0 <= j < starts@.len() ==> #[trigger] starts@[j] <= len,
        len + (changed@.len() + 1) * w <= usize::MAX,
    ensures
        r@.len() == starts@.len(),
        forall|j: int| 0 <= j < starts@.len() ==> #[trigger] r@[j] == caret_offset(changed@, starts@, j, w as int),
{
    let mut out: Vec<usize> = Vec::new();
    let mut ri: usize = 0;
    let mut removed: usize = 0;
    let mut added: usize = 0;
    let mut j: usize = 0;
    let n = changed.len();
    proof {
        lemma_removed_le(changed@, 0, len as int);
    }
    while j < starts.len()
        invariant
            n == changed@.len(),
            ordered_ranges(changed@, len as int),
            forall|q: int| 0 <= q < starts@.len() ==> #[trigger] starts@[q] <= len,
            len + (n + 1) * w <= usize::MAX,
            j <= starts@.len(),
            ri <= n,
            j > 0 ==> ri == scan_index(changed@, starts@, j - 1),
            j == 0 ==> ri == 0,
            removed == removed_len(changed@, ri as int),
            added == ri * w,
            out@.len() == j,
            forall|q: int| 0 <= q < j ==> #[trigger] out@[q] == caret_offset(changed@, starts@, q, w as int),
        decreases starts@.len() - j,
    {
        let start = starts[j];
        let ghost ri0 = ri as int;
        proof {
            lemma_skip_index_bounds(changed@, start, ri0);
        }
        while ri < n && changed[ri].end <= start && changed[ri].start < start
            invariant
                n == changed@.len(),
                ordered_ranges(changed@, len as int),
                len + (n + 1) * w <= usize::MAX,
                ri0 <= ri <= n,
                skip_index(changed@, start, ri as int) == skip_index(changed@, start, ri0),
                removed == removed_len(changed@, ri as int),
                added == ri * w,
            decreases n - ri,
        {
            proof {
                lemma_removed_le(changed@, ri + 1, len as int);
                assert((ri + 1) * w == ri * w + w) by (nonlinear_arith);
                assert((ri + 1) * w <= (n + 1) * w) by (nonlinear_arith)
                    requires
                        ri + 1 <= n + 1,
                ;
            }
            removed = removed + (changed[ri].end - changed[ri].start);
            added = added + w;
            ri += 1;
        }
        proof {
            assert(ri == skip_index(changed@, start, ri0));
            if j == 0 {
                assert(scan_index(changed@, starts@, 0) == skip_index(changed@, starts@[0], 0));
            }
            assert(ri * w <= n * w) by (nonlinear_arith)
                requires
                    ri <= n,
            ;
            assert((n + 1) * w == n * w + w) by (nonlinear_arith);
            lemma_removed_le(changed@, ri as int, len as int);
        }
        let p = if ri < n && changed[ri].start <= start {
            changed[ri].start
        } else {
            start
        };
        let moved = if p + added >= removed {
            p + added - removed
        } else {
            0
        };
        out.push(moved + w);
        j += 1;
    }
    out
}


/// Ranges whose ends are all character positions of the text.
pub open spec fn ranges_at_chars(r: Seq<Selection>, t: Seq<char>) -> bool {
    forall|i: int|
        0 <= i < r.len() ==> at_char(t, (#[trigger] r[i]).start as int) && at_char(t, r[i].end as int)
}

proof fn lemma_boundaries_at_chars(r: Seq<Selection>, t: Seq<char>)
    requires
        ranges_on_boundaries(r, vstd::utf8::encode_utf8(t)),
        ordered_ranges(r, vstd::utf8::encode_utf8(t).len() as int),
    ensures
        ranges_at_chars(r, t),
{
    assert forall|i: int| 0 <= i < r.len() implies at_char(t, (#[trigger] r[i]).start as int) && at_char(
        t,
        r[i].end as int,
    ) by {
        lemma_boundary_at_char(t, r[i].start as int);
        lemma_boundary_at_char(t, r[i].end as int);
    }
}

impl InputBaseState {
    /// Replace each range by `replacement`, the last range first, recording
    /// every replacement as an atomic change.
    pub(crate) fn replace_ranges_desc(&mut self, ranges: &Vec<Selection>, replacement: &str)
        requires
            old(self).core_wf(),
            ordered_ranges(ranges@, rope_bytes(old(self).text).len() as int),
            ranges_at_chars(ranges@, rope_chars(old(self).text)),
            rope_bytes(old(self).text).len() + ranges@.len() * replacement.spec_bytes().len() <= usize::MAX,
            old(self).undo_manager@.atomic_batch is Some,
        ensures
            final(self).core_wf(),
            rope_chars(final(self).text) == replace_each_from(rope_chars(old(self).text), ranges@, 0, replacement@),
            rope_bytes(final(self).text).len() <= rope_bytes(old(self).text).len() + ranges@.len() * replacement.spec_bytes().len(),
            exists|cs: Seq<Change>|
                {
                    &&& !old(self).undo_manager@.ignoring ==> changes_between(cs, rope_chars(old(self).text), rope_chars(final(self).text))
                    &&& #[trigger] batch_grown(old(self).undo_manager@, final(self).undo_manager@, cs)
                    &&& (!old(self).undo_manager@.ignoring && ranges@.len() > 0 && covered_chars(
                        rope_chars(old(self).text),
                        ranges@.last().start as int,
                        ranges@.last().end as int,
                    ) != replacement@) ==> cs.len() > 0
                },
            final(self).selection_set == old(self).selection_set,
            final(self).search_session == old(self).search_session,
            final(self).ime_marked_range == old(self).ime_marked_range,
            final(self).disabled == old(self).disabled,
            final(self).readonly == old(self).readonly,
            final(self).searchable == old(self).searchable,
            final(self).replaceable == old(self).replaceable,
    {
        let n = ranges.len();
        let ghost rs = ranges@;
        let ghost t0 = rope_chars(self.text);
        let ghost len0 = rope_bytes(self.text).len();
        let ghost w = replacement.spec_bytes().len();
        let ghost s0 = *self;
        let ghost m0 = self.undo_manager@;
        let ghost first_changed = !m0.ignoring && n > 0 && covered_chars(
            t0,
            rs.last().start as int,
            rs.last().end as int,
        ) != replacement@;
        let ghost mut cs: Seq<Change> = Seq::empty();
        proof {
            assert(cs.reverse() =~= Seq::<Change>::empty());
            assert(m0.atomic_batch.unwrap().changes + cs =~= m0.atomic_batch.unwrap().changes);
            assert(m0 == (UndoView { atomic_batch: Some(BatchView { changes: m0.atomic_batch.unwrap().changes + cs, ..m0.atomic_batch.unwrap() }), ..m0 }));
        }
        let mut i: usize = n;
        while i > 0
            invariant
                i <= n,
                n == rs.len(),
                ranges@ == rs,
                w == replacement.spec_bytes().len(),
                len0 + n * w <= usize::MAX,
                ordered_ranges(rs, len0 as int),
                self.core_wf(),
                m0 == s0.undo_manager@,
                m0.atomic_batch is Some,
                t0 == rope_chars(s0.text),
                !m0.ignoring ==> changes_between(cs, t0, rope_chars(self.text)),
                batch_grown(m0, self.undo_manager@, cs),
                (first_changed && i < n) ==> cs.len() > 0,
                i == n ==> rope_chars(self.text) == t0,
                first_changed ==> n > 0 && rs.last() == rs[n - 1],
                first_changed == (!m0.ignoring && n > 0 && covered_chars(
                    t0,
                    rs.last().start as int,
                    rs.last().end as int,
                ) != replacement@),
                rope_chars(self.text) == replace_each_from(t0, rs, i as int, replacement@),
                rope_bytes(self.text).len() <= len0 + (n - i) * w,
                forall|j: int| 0 <= j < i ==> at_char(rope_chars(self.text), (#[trigger] rs[j]).start as int)
                    && at_char(rope_chars(self.text), rs[j].end as int),
                self.selection_set == s0.selection_set,
                self.search_session == s0.search_session,
                self.ime_marked_range == s0.ime_marked_range,
                self.disabled == s0.disabled,
                self.readonly == s0.readonly,
                self.searchable == s0.searchable,
                self.replaceable == s0.replaceable,
            decreases i,
        {
            i -= 1;
            let range = ranges[i];
            let ghost tb = rope_chars(self.text);
            proof {
                assert((n - i) * w == (n - (i + 1)) * w + w) by (nonlinear_arith);
                assert((n - i) * w <= n * w) by (nonlinear_arith)
                    requires
                        i <= n,
                ;
                lemma_replace_shape(tb, range.start as int, range.end as int, replacement@);
            }
            let ghost mb = self.undo_manager@;
            let ghost sel_b = self.selected_range;
            self.record_edit(range.start, range.end, replacement, EditIntent::Atomic);
            proof {
                let ta = rope_chars(self.text);
                let c = choose|c: Change|
                    edit_change(c, tb, range.start as int, range.end as int, replacement@)
                        && c.selection_before == sel_b
                        && self.undo_manager@ == record_spec(mb, c, EditIntent::Atomic, None);
                lemma_revert_apply_edit(tb, range.start as int, range.end as int, replacement@, c);
                if first_changed && i + 1 == n {
                    assert(tb == t0);
                    assert(range == rs[n - 1]);
                    assert(covered_chars(tb, range.start as int, range.end as int) != replacement@);
                    assert(c.old_text@ != c.new_text@);
                }
                if m0.ignoring {
                } else if c.spec_is_noop() {
                    lemma_replace_same(tb, range.start as int, range.end as int);
                    assert(ta == tb);
                } else {
                    let cs2 = cs.push(c);
                    lemma_apply_all_push(t0, cs, c);
                    assert(cs2.reverse() =~= seq![c] + cs.reverse());
                    assert((seq![c] + cs.reverse()).drop_first() =~= cs.reverse());
                    let b0 = m0.atomic_batch.unwrap();
                    assert(b0.changes + cs2 =~= (b0.changes + cs).push(c));
                    cs = cs2;
                }
                assert forall|j: int| 0 <= j < i implies at_char(rope_chars(self.text), (#[trigger] rs[j]).start as int)
                    && at_char(rope_chars(self.text), rs[j].end as int) by {
                    lemma_replace_keeps_prefix(tb, range.start as int, range.end as int, replacement@, rs[j].start as int);
                    lemma_replace_keeps_prefix(tb, range.start as int, range.end as int, replacement@, rs[j].end as int);
                }
            }
        }
    }
}


/// The caret every member moves to, keeping its identity.
pub open spec fn caret_selections(
    ns: Seq<EditorSelection>,
    changed: Seq<Selection>,
    starts: Seq<usize>,
    w: int,
) -> Seq<EditorSelection> {
    Seq::new(
        ns.len(),
        |j: int|
            EditorSelection {
                id: ns[j].id,
                anchor: caret_offset(changed, starts, j, w) as usize,
                head: caret_offset(changed, starts, j, w) as usize,
                line_end_affinity: false,
                preferred_column: None,
            },
    )
}

/// What editing every selection does to the text and the selections.
pub open spec fn edited_selections(
    old_e: InputBaseState,
    new_e: InputBaseState,
    replacement: Seq<char>,
    deletion: Option<bool>,
    r: bool,
) -> bool {
    let t0 = rope_chars(old_e.text);
    let pid = old_e.selection_set.primary_id;
    exists|ns: Seq<EditorSelection>|
        #[trigger] is_normalization(ns, snapshot_selections(&old_e), pid, t0) && {
            let plan = plan_ranges(t0, ns, deletion);
            let changed = changed_ranges(t0, plan, replacement);
            let t1 = replace_each_from(t0, changed, 0, replacement);
            let carets = caret_selections(
                ns,
                changed,
                member_starts(t0, ns, deletion),
                vstd::utf8::encode_utf8(replacement).len() as int,
            );
            &&& r == (changed.len() > 0)
            &&& r ==> rope_chars(new_e.text) == t1
            &&& r ==> new_e.selection_set.primary_id == pid
            &&& r ==> exists|after: Seq<EditorSelection>|
                {
                    &&& #[trigger] is_normalization(after, carets, pid, t1)
                    &&& new_e.selection_set.secondary@ == without_id(after, pid)
                    &&& last_with_id(after, pid) matches Some(p) && new_e.selected_range == p.spec_range()
                        && new_e.selection_reversed == (p.anchor > p.head) && new_e.cursor_line_end_affinity
                        == p.line_end_affinity && new_e.preferred_column == p.preferred_column
                    &&& history_after_batch(
                        old_e.undo_manager@,
                        new_e.undo_manager@,
                        SnapshotView { selections: snapshot_selections(&old_e), primary_id: pid },
                        SnapshotView { selections: after, primary_id: pid },
                        t0,
                        t1,
                    )
                }
        }
}

proof fn lemma_plan_len(t: Seq<char>, sels: Seq<EditorSelection>, deletion: Option<bool>)
    ensures
        plan_ranges(t, sels, deletion).len() <= sels.len(),
    decreases sels.len(),
{
    if sels.len() > 0 {
        lemma_plan_len(t, sels.drop_last(), deletion);
    }
}

impl InputBaseState {
    /// Replace every selection by `replacement` (deleting a grapheme at carets
    /// when `deletion` says which way) as one atomic history step. Returns
    /// false, changing nothing, when the input is not editable, IME composition
    /// is active, or no selected text would change.
    fn edit_selections(&mut self, replacement: &str, deletion: Option<bool>) -> (r: bool)
        requires
            old(self).wf(),
            rope_bytes(old(self).text).len() + (old(self).selection_set.secondary@.len() + 2)
                * replacement.spec_bytes().len() <= usize::MAX,
        ensures
            final(self).wf(),
            (old(self).disabled || old(self).readonly || old(self).ime_marked_range is Some) ==> !r
                && *final(self) == *old(self),
            !(old(self).disabled || old(self).readonly || old(self).ime_marked_range is Some) ==> edited_selections(
                *old(self),
                *final(self),
                replacement@,
                deletion,
                r,
            ),
            !r ==> *final(self) == *old(self),
    {
        if !self.is_editable() || self.ime_marked_range.is_some() {
            return false;
        }
        let before = self.selection_snapshot();
        let pid = before.primary_id;
        proof {
            lemma_snapshot_valid(self);
        }
        let normalized = match SelectionSnapshot::normalized(
            copy_selections(&before.selections),
            pid,
            &self.text,
        ) {
            Some(n) => n,
            None => {
                return false;
            },
        };
        let ghost ns = normalized.selections@;
        let ghost t0 = rope_chars(self.text);
        let ghost w = replacement.spec_bytes().len();
        assert(consecutive_ordered(ns));
        let (plan, starts) = plan_edit_ranges(&self.text, &normalized.selections, deletion);
        let changed = changed_of(&self.text, &plan, replacement);
        if changed.len() == 0 {
            return false;
        }
        proof {
            lemma_plan_len(t0, ns, deletion);
            assert((changed@.len() + 1) * w <= (self.selection_set.secondary@.len() + 2) * w)
                by (nonlinear_arith)
                requires
                    changed@.len() <= self.selection_set.secondary@.len() + 1,
            ;
            assert(changed@.len() * w <= (changed@.len() + 1) * w) by (nonlinear_arith);
            assert(rope_bytes(self.text).len() + (changed@.len() + 1) * w <= usize::MAX);
        }
        proof {
            assert(w <= (self.selection_set.secondary@.len() + 2) * w) by (nonlinear_arith);
        }
        let rl = replacement.len();
        let tl = rope_len(&self.text);
        assert(rl == w);
        assert(tl + (changed@.len() + 1) * rl <= usize::MAX);
        let offsets = caret_offsets(&changed, &starts, rl, tl);
        let mut after_sels: Vec<EditorSelection> = Vec::new();
        let mut j: usize = 0;
        while j < normalized.selections.len()
            invariant
                j <= ns.len(),
                normalized.selections@ == ns,
                offsets@.len() == ns.len(),
                after_sels@ == caret_selections(ns, changed@, starts@, w as int).subrange(0, j as int),
                forall|q: int| 0 <= q < ns.len() ==> #[trigger] offsets@[q] == caret_offset(changed@, starts@, q, w as int),
            decreases ns.len() - j,
        {
            let id = normalized.selections[j].id;
            after_sels.push(EditorSelection::new(id, offsets[j], offsets[j]));
            assert(after_sels@ =~= caret_selections(ns, changed@, starts@, w as int).subrange(0, j + 1));
            j += 1;
        }
        assert(after_sels@ =~= caret_selections(ns, changed@, starts@, w as int));
        proof {
            lemma_boundaries_at_chars(changed@, t0);
        }
        let ghost m0 = self.undo_manager@;
        let ghost bv = before@;
        self.undo_manager.begin_atomic_batch(Some(before));
        let ghost m1 = self.undo_manager@;
        self.replace_ranges_desc(&changed, replacement);
        let ghost m2 = self.undo_manager@;
        let ghost t1 = rope_chars(self.text);
        proof {
            let carets = caret_selections(ns, changed@, starts@, w as int);
            assert(valid_identities(carets, pid)) by {
                crate::editor::lemma_normalized_primary(ns, pid);
                let k = choose|k: int| 0 <= k < ns.len() && (#[trigger] ns[k]).id == pid;
                assert(carets[k].id == pid);
                assert forall|a: int, b: int| 0 <= a < b < carets.len() implies (#[trigger] carets[a]).id != (
                #[trigger] carets[b]).id by {
                    assert(carets[a].id == ns[a].id && carets[b].id == ns[b].id);
                }
            }
        }
        let after = match SelectionSnapshot::normalized(after_sels, pid, &self.text) {
            Some(a) => a,
            None => {
                return false;
            },
        };
        self.undo_manager.set_atomic_selection_after(after.clone_snapshot());
        let taken = self.undo_manager.take_atomic_selection_after();
        self.undo_manager.commit_atomic_batch(taken);
        proof {
            crate::editor::lemma_normalized_primary(after@.selections, pid);
            lemma_changed_ranges_last(t0, plan@, replacement@);
            let cs = choose|cs: Seq<Change>|
                {
                    &&& !m1.ignoring ==> changes_between(cs, t0, t1)
                    &&& #[trigger] batch_grown(m1, m2, cs)
                    &&& (!m1.ignoring && changed@.len() > 0 && covered_chars(
                        t0,
                        changed@.last().start as int,
                        changed@.last().end as int,
                    ) != replacement@) ==> cs.len() > 0
                };
            let av = SnapshotView { selections: after@.selections, primary_id: pid };
            assert(after@ == av);
            let b1 = m1.atomic_batch.unwrap();
            if !m0.ignoring {
                assert(b1.changes + cs =~= cs);
            }
            assert(self.undo_manager@ == batch_committed(m0, bv, cs, av));
        }
        let ghost m5 = self.undo_manager@;
        self.restore_selection_snapshot(after);
        self.update_search();
        assert(self.undo_manager@ == m5);
        true
    }
}


impl InputBaseState {
    /// Replace every selection with the same text as one undo operation.
    /// Returns false for no text change, read-only/disabled state, or active IME.
    pub fn replace_selections(&mut self, text: &str) -> (r: bool)
        requires
            old(self).wf(),
            rope_bytes(old(self).text).len() + (old(self).selection_set.secondary@.len() + 2)
                * text.spec_bytes().len() <= usize::MAX,
        ensures
            final(self).wf(),
            (old(self).disabled || old(self).readonly || old(self).ime_marked_range is Some) ==> !r,
            !(old(self).disabled || old(self).readonly || old(self).ime_marked_range is Some) ==> edited_selections(
                *old(self),
                *final(self),
                text@,
                None,
                r,
            ),
            !r ==> *final(self) == *old(self),
    {
        self.edit_selections(text, None)
    }

    /// Delete selected text or the preceding grapheme at each caret atomically.
    pub fn backspace_selections(&mut self) -> (r: bool)
        requires
            old(self).wf(),
        ensures
            final(self).wf(),
            (old(self).disabled || old(self).readonly || old(self).ime_marked_range is Some) ==> !r,
            !(old(self).disabled || old(self).readonly || old(self).ime_marked_range is Some) ==> edited_selections(
                *old(self),
                *final(self),
                Seq::empty(),
                Some(false),
                r,
            ),
            !r ==> *final(self) == *old(self),
    {
        let empty = "";
        proof {
            reveal_strlit("");
            assert(empty@ =~= Seq::<char>::empty());
            assert(vstd::utf8::encode_utf8(empty@) =~= Seq::<u8>::empty());
            assert((self.selection_set.secondary@.len() + 2) * empty.spec_bytes().len() == 0)
                by (nonlinear_arith)
                requires
                    empty.spec_bytes().len() == 0,
            ;
        }
        self.edit_selections(empty, Some(false))
    }

    /// Delete selected text or the following grapheme at each caret atomically.
    pub fn delete_selections(&mut self) -> (r: bool)
        requires
            old(self).wf(),
        ensures
            final(self).wf(),
            (old(self).disabled || old(self).readonly || old(self).ime_marked_range is Some) ==> !r,
            !(old(self).disabled || old(self).readonly || old(self).ime_marked_range is Some) ==> edited_selections(
                *old(self),
                *final(self),
                Seq::empty(),
                Some(true),
                r,
            ),
            !r ==> *final(self) == *old(self),
    {
        let empty = "";
        proof {
            reveal_strlit("");
            assert(empty@ =~= Seq::<char>::empty());
            assert(vstd::utf8::encode_utf8(empty@) =~= Seq::<u8>::empty());
            assert((self.selection_set.secondary@.len() + 2) * empty.spec_bytes().len() == 0)
                by (nonlinear_arith)
                requires
                    empty.spec_bytes().len() == 0,
            ;
        }
        self.edit_selections(empty, Some(true))
    }
}

/// The largest identity in use (zero for none).
pub open spec fn max_id(s: Seq<EditorSelection>) -> u64
    decreases s.len(),
{
    if s.len() == 0 {
        0
    } else {
        let m = max_id(s.drop_last());
        if s.last().id > m {
            s.last().id
        } else {
            m
        }
    }
}

/// Whether some selection has the identity.
pub open spec fn id_used(s: Seq<EditorSelection>, id: u64) -> bool {
    exists|i: int| 0 <= i < s.len() && (#[trigger] s[i]).id == id
}

pub(crate) proof fn lemma_max_id(s: Seq<EditorSelection>)
    ensures
        forall|i: int| 0 <= i < s.len() ==> (#[trigger] s[i]).id <= max_id(s),
    decreases s.len(),
{
    if s.len() > 0 {
        lemma_max_id(s.drop_last());
        assert forall|i: int| 0 <= i < s.len() implies (#[trigger] s[i]).id <= max_id(s) by {
            if i < s.len() - 1 {
                assert(s[i] == s.drop_last()[i]);
            }
        }
    }
}

/// Among the first `n + 1` identities, one is not in use by `n` selections.
pub(crate) proof fn lemma_some_small_id_free(s: Seq<EditorSelection>)
    requires
        s.len() < u64::MAX,
    ensures
        exists|c: u64| c <= s.len() && !id_used(s, c),
{
    broadcast use vstd::set::group_set_axioms;

    let ids = s.map_values(|x: EditorSelection| x.id as int);
    ids.lemma_cardinality_of_set();
    if forall|c: u64| c <= s.len() ==> id_used(s, c) {
        let range = vstd::set_lib::set_int_range(0, s.len() as int + 1);
        vstd::set_lib::lemma_int_range(0, s.len() as int + 1);
        assert(range.subset_of(ids.to_set())) by {
            assert forall|x: int| range.contains(x) implies ids.to_set().contains(x) by {
                let c = x as u64;
                assert(id_used(s, c));
                let i = choose|i: int| 0 <= i < s.len() && (#[trigger] s[i]).id == c;
                assert(ids[i] == x);
                assert(ids.contains(x));
            }
        }
        vstd::seq_lib::seq_to_set_is_finite(ids);
        vstd::set_lib::lemma_len_subset(range, ids.to_set());
        assert(false);
    }
}

/// A fresh identity: one past the largest in use, or, when that would wrap,
/// the smallest identity not in use.
pub fn next_selection_id(selections: &Vec<EditorSelection>) -> (r: u64)
    requires
        selections@.len() < u64::MAX,
    ensures
        !id_used(selections@, r),
        max_id(selections@) < u64::MAX ==> r == max_id(selections@) + 1,
        max_id(selections@) == u64::MAX ==> forall|c: u64| c < r ==> id_used(selections@, c),
{
    let mut max: u64 = 0;
    let mut i: usize = 0;
    while i < selections.len()
        invariant
            i <= selections@.len(),
            max == max_id(selections@.subrange(0, i as int)),
        decreases selections@.len() - i,
    {
        assert(selections@.subrange(0, i + 1).drop_last() =~= selections@.subrange(0, i as int));
        if selections[i].id > max {
            max = selections[i].id;
        }
        i += 1;
    }
    assert(selections@.subrange(0, selections@.len() as int) =~= selections@);
    proof {
        lemma_max_id(selections@);
    }
    if max < u64::MAX {
        return max + 1;
    }
    proof {
        lemma_some_small_id_free(selections@);
    }
    let n = selections.len();
    let mut id: u64 = 0;
    while (id as usize) <= n
        invariant
            n == selections@.len(),
            n < u64::MAX,
            max_id(selections@) == u64::MAX,
            id <= n + 1,
            forall|c: u64| c < id ==> id_used(selections@, c),
            exists|c: u64| c <= n && !id_used(selections@, c),
        decreases n + 1 - id,
    {
        let mut used = false;
        let mut k: usize = 0;
        while k < n
            invariant
                n == selections@.len(),
                k <= n,
                used ==> id_used(selections@, id),
                !used ==> forall|q: int| 0 <= q < k ==> (#[trigger] selections@[q]).id != id,
            decreases n - k,
        {
            if selections[k].id == id {
                used = true;
            }
            k += 1;
        }
        if !used {
            return id;
        }
        id = id + 1;
    }
    proof {
        let c = choose|c: u64| c <= n && !id_used(selections@, c);
        assert(c < id);
    }
    0
}


/// A row is covered when some selection's lines include it: from the row of
/// its start to its last covered row.
pub open spec fn row_covered(bytes: Seq<u8>, sels: Seq<EditorSelection>, r: int) -> bool {
    exists|i: int|
        0 <= i < sels.len() && row_of(bytes, (#[trigger] sels[i]).spec_range().start as int) <= r
            <= last_covered_row(bytes, sels[i].spec_range().start as int, sels[i].spec_range().end as int)
}

impl InputBaseState {
    /// The logical rows that any selection covers, ascending and distinct.
    pub fn selected_logical_lines(&self) -> (rows: Vec<usize>)
        requires
            self.wf(),
        ensures
            forall|i: int, j: int| 0 <= i < j < rows@.len() ==> rows@[i] < rows@[j],
            forall|r: int| rows@.contains(r as usize) && 0 <= r <= usize::MAX <==> row_covered(
                rope_bytes(self.text),
                snapshot_selections(self),
                r,
            ) && 0 <= r <= usize::MAX,
    {
        let snapshot = self.selection_snapshot();
        let sels = snapshot.selections;
        let source = rope_text(&self.text);
        let bytes = source.as_str().as_bytes();
        let ghost b = rope_bytes(self.text);
        let ghost ss = sels@;
        let mut firsts: Vec<usize> = Vec::new();
        let mut lasts: Vec<usize> = Vec::new();
        let mut i: usize = 0;
        while i < sels.len()
            invariant
                i <= ss.len(),
                sels@ == ss,
                bytes@ == b,
                firsts@.len() == i,
                lasts@.len() == i,
                forall|k: int| 0 <= k < i ==> #[trigger] firsts@[k] == row_of(b, ss[k].spec_range().start as int),
                forall|k: int| 0 <= k < i ==> #[trigger] lasts@[k] == last_covered_row(b, ss[k].spec_range().start as int, ss[k].spec_range().end as int),
            decreases ss.len() - i,
        {
            let range = sels[i].range();
            let first = offset_to_point_in(bytes, range.start).row;
            let end = offset_to_point_in(bytes, range.end);
            let last = if !(range.start == range.end) && end.column == 0 {
                if end.row == 0 {
                    0
                } else {
                    end.row - 1
                }
            } else {
                end.row
            };
            firsts.push(first);
            lasts.push(last);
            i += 1;
        }
        let n = firsts.len();
        let mut rows: Vec<usize> = Vec::new();
        let mut next: usize = 0;
        let mut done = false;
        while !done
            invariant
                n == ss.len(),
                firsts@.len() == n,
                lasts@.len() == n,
                forall|k: int| 0 <= k < n ==> #[trigger] firsts@[k] == row_of(b, ss[k].spec_range().start as int),
                forall|k: int| 0 <= k < n ==> #[trigger] lasts@[k] == last_covered_row(b, ss[k].spec_range().start as int, ss[k].spec_range().end as int),
                forall|a: int, c: int| 0 <= a < c < rows@.len() ==> rows@[a] < rows@[c],
                forall|a: int| 0 <= a < rows@.len() ==> rows@[a] < next || (done && rows@[a] == next),
                forall|r: int| 0 <= r < next ==> (rows@.contains(r as usize) <==> row_covered(b, ss, r)),
                done ==> forall|r: int| next <= r <= usize::MAX ==> (rows@.contains(r as usize) <==> row_covered(b, ss, r)),
            decreases usize::MAX - next, if done { 0int } else { 1int },
        {
            let mut found = false;
            let mut best: usize = 0;
            let mut k: usize = 0;
            while k < n
                invariant
                    n == ss.len(),
                    firsts@.len() == n,
                    lasts@.len() == n,
                    k <= n,
                    forall|q: int| 0 <= q < n ==> #[trigger] firsts@[q] == row_of(b, ss[q].spec_range().start as int),
                    forall|q: int| 0 <= q < n ==> #[trigger] lasts@[q] == last_covered_row(b, ss[q].spec_range().start as int, ss[q].spec_range().end as int),
                    found ==> next <= best && row_covered(b, ss, best as int),
                    forall|q: int| 0 <= q < k && lasts@[q] >= next && firsts@[q] <= lasts@[q] ==> found && best <= (if firsts@[q] >= next { firsts@[q] } else { next }),
                    !found ==> forall|q: int| 0 <= q < k ==> lasts@[q] < next || firsts@[q] > lasts@[q],
                decreases n - k,
            {
                if lasts[k] >= next && firsts[k] <= lasts[k] {
                    let cand = if firsts[k] >= next {
                        firsts[k]
                    } else {
                        next
                    };
                    if !found || cand < best {
                        best = cand;
                        found = true;
                        assert(row_of(b, ss[k as int].spec_range().start as int) <= cand);
                        assert(row_covered(b, ss, best as int));
                    }
                }
                k += 1;
            }
            if !found {
                proof {
                    assert forall|r: int| next <= r <= usize::MAX implies !row_covered(b, ss, r) by {
                        if row_covered(b, ss, r) {
                            let q = choose|q: int| 0 <= q < ss.len() && row_of(b, (#[trigger] ss[q]).spec_range().start as int) <= r
                                <= last_covered_row(b, ss[q].spec_range().start as int, ss[q].spec_range().end as int);
                            assert(lasts@[q] < next || firsts@[q] > lasts@[q]);
                        }
                    }
                }
                done = true;
            } else {
                proof {
                    assert forall|r: int| next <= r < best implies !row_covered(b, ss, r) by {
                        if row_covered(b, ss, r) {
                            let q = choose|q: int| 0 <= q < ss.len() && row_of(b, (#[trigger] ss[q]).spec_range().start as int) <= r
                                <= last_covered_row(b, ss[q].spec_range().start as int, ss[q].spec_range().end as int);
                            assert(lasts@[q] >= next && firsts@[q] <= lasts@[q]);
                        }
                    }
                }
                let ghost old_rows = rows@;
                rows.push(best);
                proof {
                    assert forall|r: int| 0 <= r <= best implies (rows@.contains(r as usize) <==> row_covered(b, ss, r)) by {
                        if r < next {
                            if old_rows.contains(r as usize) {
                                let a = choose|a: int| 0 <= a < old_rows.len() && old_rows[a] == r as usize;
                                assert(rows@[a] == r as usize);
                            }
                            if rows@.contains(r as usize) {
                                let a = choose|a: int| 0 <= a < rows@.len() && rows@[a] == r as usize;
                                if a < old_rows.len() {
                                    assert(old_rows[a] == r as usize);
                                }
                            }
                        } else if r < best {
                            if rows@.contains(r as usize) {
                                let a = choose|a: int| 0 <= a < rows@.len() && rows@[a] == r as usize;
                                if a < old_rows.len() {
                                    assert(old_rows[a] < next);
                                }
                            }
                        } else {
                            assert(rows@[rows@.len() - 1] == best);
                        }
                    }
                }
                if best == usize::MAX {
                    next = best;
                    done = true;
                } else {
                    next = best + 1;
                }
            }
        }
        rows
    }
}


/// One replacement planned against the text as it stands before any of them.
pub struct SelectionEdit {
    pub range: Selection,
    pub text: String,
}

/// The bytes an edit inserts.
pub open spec fn edit_width(e: SelectionEdit) -> int {
    vstd::utf8::encode_utf8(e.text@).len() as int
}

/// Edits in order over `len` bytes, none starting before the previous one ends.
pub open spec fn edits_in_order(edits: Seq<SelectionEdit>, len: int) -> bool {
    &&& forall|i: int| 0 <= i < edits.len() ==> (#[trigger] edits[i]).range.start <= edits[i].range.end <= len
    &&& forall|i: int, j: int|
        0 <= i < j < edits.len() ==> (#[trigger] edits[i]).range.end <= (#[trigger] edits[j]).range.start
}

/// The bytes the first `k` edits insert, and the bytes they replace.
pub open spec fn added_upto(edits: Seq<SelectionEdit>, k: int) -> int
    decreases k,
{
    if k <= 0 || k > edits.len() {
        0
    } else {
        added_upto(edits, k - 1) + edit_width(edits[k - 1])
    }
}

pub open spec fn removed_upto(edits: Seq<SelectionEdit>, k: int) -> int
    decreases k,
{
    if k <= 0 || k > edits.len() {
        0
    } else {
        removed_upto(edits, k - 1) + (edits[k - 1].range.end - edits[k - 1].range.start)
    }
}

/// The first edit, from `i`, that does not end at or before `offset` while
/// starting before it.
pub open spec fn part_from(edits: Seq<SelectionEdit>, offset: int, i: int) -> int
    decreases edits.len() - i,
{
    if 0 <= i < edits.len() && edits[i].range.end <= offset && edits[i].range.start < offset {
        part_from(edits, offset, i + 1)
    } else {
        i
    }
}

/// Where an offset of the text before the edits lands after them: inside (or
/// at either end of) an edit it moves to that edit's start, or past its new
/// text for a right-hand endpoint; elsewhere it moves by the edits before it.
pub open spec fn map_offset(edits: Seq<SelectionEdit>, offset: int, right: bool) -> int {
    let i = part_from(edits, offset, 0);
    if 0 <= i < edits.len() && edits[i].range.start <= offset {
        shifted(edits[i].range.start as int, removed_upto(edits, i), added_upto(edits, i)) + if right {
            edit_width(edits[i])
        } else {
            0
        }
    } else {
        shifted(offset, removed_upto(edits, i), added_upto(edits, i))
    }
}

/// Replace `edits[k..]`, the last first, each by its own text.
pub open spec fn apply_edits_from(t: Seq<char>, edits: Seq<SelectionEdit>, k: int) -> Seq<char>
    decreases edits.len() - k,
{
    if k < 0 || k >= edits.len() {
        t
    } else {
        replace_bytes_spec(
            apply_edits_from(t, edits, k + 1),
            edits[k].range.start as int,
            edits[k].range.end as int,
            edits[k].text@,
        )
    }
}

pub proof fn lemma_upto_bounds(edits: Seq<SelectionEdit>, i: int, j: int)
    requires
        0 <= i <= j <= edits.len(),
    ensures
        0 <= added_upto(edits, i) <= added_upto(edits, j),
    decreases j,
{
    if i < j {
        lemma_upto_bounds(edits, i, j - 1);
    } else if i > 0 {
        lemma_upto_bounds(edits, i - 1, i - 1);
    }
}

proof fn lemma_removed_upto(edits: Seq<SelectionEdit>, k: int, len: int)
    requires
        edits_in_order(edits, len),
        0 <= k <= edits.len(),
        0 <= len,
    ensures
        0 <= removed_upto(edits, k) <= len,
        k > 0 ==> removed_upto(edits, k) <= edits[k - 1].range.end,
    decreases k,
{
    if k > 0 {
        lemma_removed_upto(edits, k - 1, len);
        assert(edits[k - 1].range.start <= edits[k - 1].range.end <= len);
        if k > 1 {
            assert(edits[k - 2].range.end <= edits[k - 1].range.start);
        }
    }
}

/// Map an offset through ordered edits.
fn map_through(edits: &Vec<SelectionEdit>, offset: usize, right: bool, len: usize) -> (r: usize)
    requires
        edits_in_order(edits@, len as int),
        offset <= len,
        len + added_upto(edits@, edits@.len() as int) <= usize::MAX,
    ensures
        r == map_offset(edits@, offset as int, right),
        r <= len + added_upto(edits@, edits@.len() as int),
{
    let n = edits.len();
    let mut i: usize = 0;
    let mut removed: usize = 0;
    let mut added: usize = 0;
    proof {
        lemma_removed_upto(edits@, 0, len as int);
    }
    while i < n && edits[i].range.end <= offset && edits[i].range.start < offset
        invariant
            n == edits@.len(),
            edits_in_order(edits@, len as int),
            len + added_upto(edits@, n as int) <= usize::MAX,
            i <= n,
            part_from(edits@, offset as int, i as int) == part_from(edits@, offset as int, 0),
            removed == removed_upto(edits@, i as int),
            added == added_upto(edits@, i as int),
        decreases n - i,
    {
        proof {
            lemma_removed_upto(edits@, i + 1, len as int);
            lemma_upto_bounds(edits@, i + 1, n as int);
        }
        removed = removed + (edits[i].range.end - edits[i].range.start);
        added = added + edits[i].text.as_str().len();
        i += 1;
    }
    proof {
        lemma_upto_bounds(edits@, i as int, n as int);
        if i < n {
            lemma_upto_bounds(edits@, i as int + 1, n as int);
        }
        lemma_removed_upto(edits@, i as int, len as int);
    }
    if i < n && edits[i].range.start <= offset {
        let base = edits[i].range.start;
        let moved = if base + added >= removed {
            base + added - removed
        } else {
            0
        };
        if right {
            moved + edits[i].text.as_str().len()
        } else {
            moved
        }
    } else {
        if offset + added >= removed {
            offset + added - removed
        } else {
            0
        }
    }
}


/// The edits whose text differs from what their range holds.
pub open spec fn changed_edits(t: Seq<char>, edits: Seq<SelectionEdit>) -> Seq<SelectionEdit>
    decreases edits.len(),
{
    if edits.len() == 0 {
        edits
    } else {
        let rest = changed_edits(t, edits.drop_last());
        let e = edits.last();
        if covered_chars(t, e.range.start as int, e.range.end as int) != e.text@ {
            rest.push(e)
        } else {
            rest
        }
    }
}

/// Edits whose ends are character boundaries of the text.
pub open spec fn edits_on_boundaries(edits: Seq<SelectionEdit>, bytes: Seq<u8>) -> bool {
    forall|i: int|
        0 <= i < edits.len() ==> char_boundary(bytes, (#[trigger] edits[i]).range.start as int)
            && char_boundary(bytes, edits[i].range.end as int)
}

proof fn lemma_added_push(s: Seq<SelectionEdit>, x: SelectionEdit, i: int)
    requires
        0 <= i <= s.len(),
    ensures
        added_upto(s.push(x), i) == added_upto(s, i),
        added_upto(s.push(x), s.len() as int + 1) == added_upto(s, s.len() as int) + edit_width(x),
    decreases i,
{
    if i > 0 {
        lemma_added_push(s, x, i - 1);
        assert(s.push(x)[i - 1] == s[i - 1]);
    }
    lemma_added_prefix_push(s, x);
}

proof fn lemma_added_prefix_push(s: Seq<SelectionEdit>, x: SelectionEdit)
    ensures
        added_upto(s.push(x), s.len() as int + 1) == added_upto(s, s.len() as int) + edit_width(x),
    decreases s.len(),
{
    lemma_added_same_prefix(s.push(x), s, s.len() as int);
    assert(s.push(x)[s.len() as int] == x);
}

proof fn lemma_added_same_prefix(a: Seq<SelectionEdit>, b: Seq<SelectionEdit>, i: int)
    requires
        0 <= i <= a.len(),
        i <= b.len(),
        forall|j: int| 0 <= j < i ==> a[j] == b[j],
    ensures
        added_upto(a, i) == added_upto(b, i),
    decreases i,
{
    if i > 0 {
        lemma_added_same_prefix(a, b, i - 1);
    }
}

/// The edits that change the text, copied, with their order and bounds.
fn changed_edits_of(text: &ropey::Rope, edits: &Vec<SelectionEdit>) -> (r: Vec<SelectionEdit>)
    requires
        edits_in_order(edits@, rope_bytes(*text).len() as int),
        edits_on_boundaries(edits@, rope_bytes(*text)),
    ensures
        r@ == changed_edits(rope_chars(*text), edits@),
        edits_in_order(r@, rope_bytes(*text).len() as int),
        edits_on_boundaries(r@, rope_bytes(*text)),
        added_upto(r@, r@.len() as int) <= added_upto(edits@, edits@.len() as int),
{
    let ghost t = rope_chars(*text);
    let ghost len = rope_bytes(*text).len() as int;
    let mut out: Vec<SelectionEdit> = Vec::new();
    let mut k: usize = 0;
    while k < edits.len()
        invariant
            k <= edits@.len(),
            t == rope_chars(*text),
            len == rope_bytes(*text).len(),
            edits_in_order(edits@, len),
            edits_on_boundaries(edits@, rope_bytes(*text)),
            out@ == changed_edits(t, edits@.subrange(0, k as int)),
            edits_in_order(out@, len),
            edits_on_boundaries(out@, rope_bytes(*text)),
            forall|i: int| 0 <= i < out@.len() ==> (#[trigger] out@[i]).range.end <= (if k < edits@.len() { edits@[k as int].range.start as int } else { len }),
            added_upto(out@, out@.len() as int) <= added_upto(edits@, k as int),
        decreases edits@.len() - k,
    {
        let e = &edits[k];
        let cs = crate::text::rope_byte_to_char(text, e.range.start);
        let ce = crate::text::rope_byte_to_char(text, e.range.end);
        proof {
            crate::text::lemma_chars_within_monotone(t, e.range.start as int, e.range.end as int);
        }
        let current = crate::text::rope_char_slice(text, cs, ce);
        assert(edits@.subrange(0, k + 1).drop_last() =~= edits@.subrange(0, k as int));
        assert(edits@.subrange(0, k + 1).last() == *e);
        if current != e.text {
            let copy = SelectionEdit { range: e.range, text: e.text.clone() };
            let ghost before = out@;
            out.push(copy);
            assert(out@.drop_last() =~= before);
            proof {
                lemma_added_prefix_push(before, copy);
                lemma_added_same_prefix(edits@.subrange(0, k + 1), edits@, k as int + 1);
            }
        }
        proof {
            if k + 1 < edits@.len() {
                assert(edits@[k as int].range.end <= edits@[k + 1].range.start);
            }
            assert(added_upto(edits@, k + 1) == added_upto(edits@, k as int) + edit_width(edits@[k as int]));
        }
        k += 1;
    }
    assert(edits@.subrange(0, edits@.len() as int) =~= edits@);
    out
}

/// Edits whose ends are character positions of the text.
pub open spec fn edits_at_chars(edits: Seq<SelectionEdit>, t: Seq<char>) -> bool {
    forall|i: int|
        0 <= i < edits.len() ==> at_char(t, (#[trigger] edits[i]).range.start as int) && at_char(
            t,
            edits[i].range.end as int,
        )
}

// ---------------------------------------------------------------------------
// Edits sorted by range.

/// `a` comes no later than `b` by (start, end).
pub open spec fn key_le(a: SelectionEdit, b: SelectionEdit) -> bool {
    a.range.start < b.range.start || (a.range.start == b.range.start && a.range.end <= b.range.end)
}

/// An edit inserted into edits sorted by range, after those that do not
/// come later.
pub open spec fn insert_edit(s: Seq<SelectionEdit>, e: SelectionEdit) -> Seq<SelectionEdit>
    decreases s.len(),
{
    if s.len() == 0 {
        seq![e]
    } else if key_le(s.last(), e) {
        s.push(e)
    } else {
        insert_edit(s.drop_last(), e).push(s.last())
    }
}

/// The edits sorted by (start, end), equal keys kept in their order.
pub open spec fn sort_edits(s: Seq<SelectionEdit>) -> Seq<SelectionEdit>
    decreases s.len(),
{
    if s.len() == 0 {
        s
    } else {
        insert_edit(sort_edits(s.drop_last()), s.last())
    }
}

/// Edits within `len` bytes, no two of which overlap.
pub open spec fn edits_disjoint(s: Seq<SelectionEdit>, len: int) -> bool {
    &&& forall|i: int| 0 <= i < s.len() ==> (#[trigger] s[i]).range.start <= s[i].range.end <= len
    &&& forall|i: int, j: int|
        0 <= i < s.len() && 0 <= j < s.len() && i != j ==> (#[trigger] s[i]).range.end <= (#[trigger] s[j]).range.start
            || s[j].range.end <= s[i].range.start
}

proof fn lemma_insert_edit_members(s: Seq<SelectionEdit>, e: SelectionEdit)
    ensures
        insert_edit(s, e).len() == s.len() + 1,
        forall|k: int|
            0 <= k < insert_edit(s, e).len() ==> #[trigger] insert_edit(s, e)[k] == e || exists|i: int|
                0 <= i < s.len() && insert_edit(s, e)[k] == s[i],
    decreases s.len(),
{
    if s.len() > 0 && !key_le(s.last(), e) {
        let d = s.drop_last();
        lemma_insert_edit_members(d, e);
        let r = insert_edit(s, e);
        assert forall|k: int| 0 <= k < r.len() implies #[trigger] r[k] == e || exists|i: int|
            0 <= i < s.len() && r[k] == s[i] by {
            if k < r.len() - 1 {
                assert(r[k] == insert_edit(d, e)[k]);
                if r[k] != e {
                    let i = choose|i: int| 0 <= i < d.len() && insert_edit(d, e)[k] == d[i];
                    assert(s[i] == d[i]);
                }
            } else {
                assert(r[k] == s[s.len() - 1]);
            }
        }
    } else if s.len() > 0 {
        let r = insert_edit(s, e);
        assert forall|k: int| 0 <= k < r.len() implies #[trigger] r[k] == e || exists|i: int|
            0 <= i < s.len() && r[k] == s[i] by {
            if k < s.len() {
                assert(r[k] == s[k]);
            }
        }
    }
}

proof fn lemma_sort_edits_members(s: Seq<SelectionEdit>)
    ensures
        sort_edits(s).len() == s.len(),
        forall|k: int|
            0 <= k < sort_edits(s).len() ==> exists|i: int| 0 <= i < s.len() && #[trigger] sort_edits(s)[k] == s[i],
    decreases s.len(),
{
    if s.len() > 0 {
        let d = s.drop_last();
        lemma_sort_edits_members(d);
        lemma_insert_edit_members(sort_edits(d), s.last());
        let r = sort_edits(s);
        assert forall|k: int| 0 <= k < r.len() implies exists|i: int| 0 <= i < s.len() && #[trigger] r[k] == s[i] by {
            if r[k] == s.last() {
                assert(r[k] == s[s.len() - 1]);
            } else {
                let j = choose|j: int| 0 <= j < sort_edits(d).len() && r[k] == sort_edits(d)[j];
                let i = choose|i: int| 0 <= i < d.len() && #[trigger] sort_edits(d)[j] == d[i];
                assert(s[i] == d[i]);
            }
        }
    }
}

proof fn lemma_insert_edit_in_order(s: Seq<SelectionEdit>, e: SelectionEdit, len: int)
    requires
        edits_in_order(s, len),
        e.range.start <= e.range.end <= len,
        forall|i: int| 0 <= i < s.len() ==> (#[trigger] s[i]).range.end <= e.range.start || e.range.end <= s[i].range.start,
        forall|i: int| 0 <= i < s.len() ==> key_le(#[trigger] s[i], s.last()),
    ensures
        edits_in_order(insert_edit(s, e), len),
    decreases s.len(),
{
    if s.len() > 0 {
        let last = s.last();
        assert(last == s[s.len() - 1]);
        if key_le(last, e) {
            let r = s.push(e);
            assert forall|i: int, j: int| 0 <= i < j < r.len() implies (#[trigger] r[i]).range.end <= (#[trigger] r[j]).range.start by {
                if j == r.len() - 1 {
                    assert(r[i] == s[i]);
                    if i < s.len() - 1 {
                        assert(s[i].range.end <= last.range.start);
                    }
                } else {
                    assert(r[i] == s[i] && r[j] == s[j]);
                }
            }
            assert forall|i: int| 0 <= i < r.len() implies (#[trigger] r[i]).range.start <= r[i].range.end <= len by {
                if i < s.len() {
                    assert(r[i] == s[i]);
                }
            }
        } else {
            let d = s.drop_last();
            assert forall|i: int| 0 <= i < d.len() implies (#[trigger] d[i]).range.end <= e.range.start || e.range.end <= d[i].range.start by {
                assert(d[i] == s[i]);
            }
            assert(edits_in_order(d, len)) by {
                assert forall|i: int, j: int| 0 <= i < j < d.len() implies (#[trigger] d[i]).range.end <= (#[trigger] d[j]).range.start by {
                    assert(d[i] == s[i] && d[j] == s[j]);
                }
                assert forall|i: int| 0 <= i < d.len() implies (#[trigger] d[i]).range.start <= d[i].range.end <= len by {
                    assert(d[i] == s[i]);
                }
            }
            if d.len() > 0 {
                assert forall|i: int| 0 <= i < d.len() implies key_le(#[trigger] d[i], d.last()) by {
                    assert(d[i] == s[i]);
                    assert(d.last() == s[d.len() - 1]);
                    if i < d.len() - 1 {
                        assert(s[i].range.end <= s[d.len() - 1].range.start);
                    }
                }
            }
            lemma_insert_edit_in_order(d, e, len);
            lemma_insert_edit_members(d, e);
            let p = insert_edit(d, e);
            let r = p.push(last);
            assert(e.range.end <= last.range.start);
            assert forall|i: int, j: int| 0 <= i < j < r.len() implies (#[trigger] r[i]).range.end <= (#[trigger] r[j]).range.start by {
                if j == r.len() - 1 {
                    assert(r[i] == p[i]);
                    if p[i] != e {
                        let k = choose|k: int| 0 <= k < d.len() && p[i] == d[k];
                        assert(d[k] == s[k]);
                        assert(s[k].range.end <= s[s.len() - 1].range.start);
                    }
                } else {
                    assert(r[i] == p[i] && r[j] == p[j]);
                }
            }
            assert forall|i: int| 0 <= i < r.len() implies (#[trigger] r[i]).range.start <= r[i].range.end <= len by {
                if i < p.len() {
                    assert(r[i] == p[i]);
                }
            }
        }
    }
}

/// Edits no two of which overlap lie in order once sorted.
proof fn lemma_sort_edits_in_order(s: Seq<SelectionEdit>, len: int)
    requires
        edits_disjoint(s, len),
    ensures
        edits_in_order(sort_edits(s), len),
    decreases s.len(),
{
    if s.len() > 0 {
        let d = s.drop_last();
        let e = s.last();
        assert(e == s[s.len() - 1]);
        assert(edits_disjoint(d, len)) by {
            assert forall|i: int| 0 <= i < d.len() implies (#[trigger] d[i]).range.start <= d[i].range.end <= len by {
                assert(d[i] == s[i]);
            }
            assert forall|i: int, j: int| 0 <= i < d.len() && 0 <= j < d.len() && i != j implies (#[trigger] d[i]).range.end
                <= (#[trigger] d[j]).range.start || d[j].range.end <= d[i].range.start by {
                assert(d[i] == s[i] && d[j] == s[j]);
            }
        }
        lemma_sort_edits_in_order(d, len);
        lemma_sort_edits_members(d);
        let sd = sort_edits(d);
        assert forall|i: int| 0 <= i < sd.len() implies (#[trigger] sd[i]).range.end <= e.range.start || e.range.end
            <= sd[i].range.start by {
            let k = choose|k: int| 0 <= k < d.len() && #[trigger] sd[i] == d[k];
            assert(d[k] == s[k]);
            assert(s[k].range.end <= s[s.len() - 1].range.start || s[s.len() - 1].range.end <= s[k].range.start);
        }
        if sd.len() > 0 {
            assert forall|i: int| 0 <= i < sd.len() implies key_le(#[trigger] sd[i], sd.last()) by {
                assert(sd.last() == sd[sd.len() - 1]);
                if i < sd.len() - 1 {
                    assert(sd[i].range.end <= sd[sd.len() - 1].range.start);
                }
            }
        }
        lemma_insert_edit_in_order(sd, e, len);
    }
}

proof fn lemma_insert_edit_added(s: Seq<SelectionEdit>, e: SelectionEdit)
    ensures
        added_upto(insert_edit(s, e), s.len() as int + 1) == added_upto(s, s.len() as int) + edit_width(e),
    decreases s.len(),
{
    if s.len() == 0 {
        assert(insert_edit(s, e) == seq![e]);
        assert(added_upto(seq![e], 0) == 0);
    } else if key_le(s.last(), e) {
        lemma_added_push(s, e, s.len() as int);
    } else {
        let d = s.drop_last();
        lemma_insert_edit_added(d, e);
        lemma_insert_edit_members(d, e);
        lemma_added_push(insert_edit(d, e), s.last(), insert_edit(d, e).len() as int);
        assert(s == d.push(s.last()));
        lemma_added_push(d, s.last(), d.len() as int);
    }
}

/// Sorting keeps the bytes the edits insert.
proof fn lemma_sort_edits_added(s: Seq<SelectionEdit>)
    ensures
        added_upto(sort_edits(s), s.len() as int) == added_upto(s, s.len() as int),
    decreases s.len(),
{
    if s.len() > 0 {
        let d = s.drop_last();
        lemma_sort_edits_added(d);
        lemma_sort_edits_members(d);
        lemma_insert_edit_added(sort_edits(d), s.last());
        assert(s == d.push(s.last()));
        lemma_added_push(d, s.last(), d.len() as int);
    }
}

/// Edits already in order stay as they are.
pub proof fn lemma_sort_edits_in_order_same(s: Seq<SelectionEdit>, len: int)
    requires
        edits_in_order(s, len),
    ensures
        sort_edits(s) == s,
        edits_disjoint(s, len),
    decreases s.len(),
{
    assert forall|i: int, j: int| 0 <= i < s.len() && 0 <= j < s.len() && i != j implies (#[trigger] s[i]).range.end
        <= (#[trigger] s[j]).range.start || s[j].range.end <= s[i].range.start by {
        if i > j {
            assert(s[j].range.end <= s[i].range.start);
        }
    }
    if s.len() > 0 {
        let d = s.drop_last();
        assert(edits_in_order(d, len)) by {
            assert forall|i: int, j: int| 0 <= i < j < d.len() implies (#[trigger] d[i]).range.end <= (#[trigger] d[j]).range.start by {
                assert(d[i] == s[i] && d[j] == s[j]);
            }
            assert forall|i: int| 0 <= i < d.len() implies (#[trigger] d[i]).range.start <= d[i].range.end <= len by {
                assert(d[i] == s[i]);
            }
        }
        lemma_sort_edits_in_order_same(d, len);
        if d.len() > 0 {
            assert(d.last() == s[s.len() - 2]);
            assert(s[s.len() - 2].range.end <= s[s.len() - 1].range.start);
        }
        assert(s == d.push(s.last()));
    }
}

/// Insertion sort of edits by (start, end), equal keys kept in their order.
fn sort_selection_edits(v: Vec<SelectionEdit>) -> (r: Vec<SelectionEdit>)
    ensures
        r@ == sort_edits(v@),
{
    let ghost orig = v@;
    let total = v.len();
    let mut v = v;
    let mut out: Vec<SelectionEdit> = Vec::new();
    let mut i: usize = 0;
    while v.len() > 0
        invariant
            i <= orig.len(),
            total == orig.len(),
            v@ == orig.subrange(i as int, orig.len() as int),
            out@ == sort_edits(orig.subrange(0, i as int)),
        decreases v@.len(),
    {
        let e = v.remove(0);
        assert(e == orig[i as int]);
        let ghost s = out@;
        let mut k: usize = out.len();
        assert(s.subrange(0, k as int) =~= s);
        assert(insert_edit(s, e) =~= insert_edit(s.subrange(0, k as int), e) + s.subrange(k as int, s.len() as int));
        while k > 0 && !(out[k - 1].range.start < e.range.start || (out[k - 1].range.start == e.range.start && out[k - 1].range.end <= e.range.end))
            invariant
                k <= s.len(),
                out@ == s,
                insert_edit(s, e) == insert_edit(s.subrange(0, k as int), e) + s.subrange(k as int, s.len() as int),
            decreases k,
        {
            let ghost p = s.subrange(0, k as int);
            assert(p.last() == s[k - 1]);
            assert(p.drop_last() =~= s.subrange(0, k - 1));
            assert(insert_edit(p, e) == insert_edit(s.subrange(0, k - 1), e).push(s[k - 1]));
            assert(insert_edit(s.subrange(0, k - 1), e).push(s[k - 1]) + s.subrange(k as int, s.len() as int)
                =~= insert_edit(s.subrange(0, k - 1), e) + s.subrange(k - 1, s.len() as int));
            k -= 1;
        }
        proof {
            let p = s.subrange(0, k as int);
            if k > 0 {
                assert(p.last() == s[k - 1]);
                assert(insert_edit(p, e) == p.push(e));
            } else {
                assert(insert_edit(p, e) == seq![e]);
            }
            assert(p.push(e) + s.subrange(k as int, s.len() as int) =~= s.insert(k as int, e));
            let t = orig.subrange(0, i + 1);
            assert(t.drop_last() =~= orig.subrange(0, i as int));
            assert(t.last() == e);
        }
        out.insert(k, e);
        i += 1;
        assert(v@ =~= orig.subrange(i as int, orig.len() as int));
    }
    assert(orig.subrange(0, i as int) =~= orig);
    out
}

/// Changes made to `t0` that give `t1`, and that undo back to `t0` the
/// last first.
pub open spec fn changes_between(cs: Seq<Change>, t0: Seq<char>, t1: Seq<char>) -> bool {
    &&& apply_all(t0, cs) == t1
    &&& revert_all(t1, cs.reverse()) == t0
}

/// An open batch grown by the changes `cs` (nothing while history is ignored).
pub open spec fn batch_grown(before: UndoView, after: UndoView, cs: Seq<Change>) -> bool {
    if before.ignoring {
        after == before
    } else {
        before.atomic_batch matches Some(b) && after == (UndoView {
            atomic_batch: Some(BatchView { changes: b.changes + cs, ..b }),
            ..before
        })
    }
}

/// The history after one atomic batch of the changes `cs`, made between the
/// selections `before` and `after`: a single transaction holding them (none
/// while history is ignored).
pub open spec fn batch_committed(m: UndoView, before: SnapshotView, cs: Seq<Change>, after: SnapshotView) -> UndoView {
    let opened = begin_batch_spec(m, Some(before));
    let filled = if m.ignoring {
        opened
    } else {
        UndoView {
            atomic_batch: Some(
                BatchView { changes: cs, selection_before: Some(before), selection_after: None },
            ),
            ..opened
        }
    };
    commit_batch_spec(filled, Some(after))
}

/// The history after an atomic batch that took the text from `t0` to `t1`:
/// the changes it recorded do that and undo back, and there is at least one
/// unless history is ignored.
pub open spec fn history_after_batch(
    m: UndoView,
    m2: UndoView,
    before: SnapshotView,
    after: SnapshotView,
    t0: Seq<char>,
    t1: Seq<char>,
) -> bool {
    exists|cs: Seq<Change>|
        {
            &&& (!m.ignoring ==> changes_between(cs, t0, t1))
            &&& (!m.ignoring ==> cs.len() > 0)
            &&& m2 == #[trigger] batch_committed(m, before, cs, after)
        }
}

/// One undo after an atomic batch takes back all of its changes, giving back
/// the text it was made on and the selections recorded before it; the redo
/// after that makes them again and brings back the selections after it.
pub proof fn lemma_batch_undo_redo(
    m: UndoView,
    before: SnapshotView,
    cs: Seq<Change>,
    after: SnapshotView,
    t0: Seq<char>,
    t1: Seq<char>,
)
    requires
        !m.ignoring,
        cs.len() > 0,
        changes_between(cs, t0, t1),
    ensures
        ({
            let m1 = batch_committed(m, before, cs, after);
            let (m2, reverted) = undo_spec(m1);
            let (m3, replayed) = redo_spec(m2);
            &&& reverted == Some(cs.reverse())
            &&& revert_all(t1, reverted.unwrap()) == t0
            &&& m2.replay_selection == Some(before)
            &&& replayed == Some(cs)
            &&& apply_all(t0, replayed.unwrap()) == t1
            &&& m3.replay_selection == Some(after)
        }),
{
    let opened = begin_batch_spec(m, Some(before));
    assert(!commit_spec(m).transaction_open);
    let m1 = batch_committed(m, before, cs, after);
    assert(!m1.transaction_open);
    assert(commit_spec(m1) == m1);
    let (m2, reverted) = undo_spec(m1);
    assert(!m2.transaction_open);
    assert(commit_spec(m2) == m2);
}

/// The last range whose text changes does change.
proof fn lemma_changed_ranges_last(t: Seq<char>, plan: Seq<Selection>, s: Seq<char>)
    requires
        changed_ranges(t, plan, s).len() > 0,
    ensures
        ({
            let c = changed_ranges(t, plan, s);
            covered_chars(t, c.last().start as int, c.last().end as int) != s
        }),
    decreases plan.len(),
{
    let r = plan.last();
    if covered_chars(t, r.start as int, r.end as int) == s {
        lemma_changed_ranges_last(t, plan.drop_last(), s);
    }
}

/// The last edit that changes the text changes it.
proof fn lemma_changed_last(t: Seq<char>, edits: Seq<SelectionEdit>)
    requires
        changed_edits(t, edits).len() > 0,
    ensures
        ({
            let c = changed_edits(t, edits);
            covered_chars(t, c.last().range.start as int, c.last().range.end as int) != c.last().text@
        }),
    decreases edits.len(),
{
    let e = edits.last();
    if covered_chars(t, e.range.start as int, e.range.end as int) == e.text@ {
        lemma_changed_last(t, edits.drop_last());
    }
}

/// Replacing characters by the very characters they are changes nothing.
proof fn lemma_replace_same(t: Seq<char>, start: int, end: int)
    requires
        start <= end,
    ensures
        replace_bytes_spec(t, start, end, covered_chars(t, start, end)) == t,
{
    crate::text::lemma_chars_within_monotone(t, start, end);
    let k1 = crate::text::chars_within(t, start) as int;
    let k2 = crate::text::chars_within(t, end) as int;
    assert(t.subrange(0, k1) + t.subrange(k1, k2) + t.subrange(k2, t.len() as int) =~= t);
}

impl InputBaseState {
    /// Apply each edit, the last first, recording every one as an atomic change.
    pub(crate) fn apply_edits_desc(&mut self, edits: &Vec<SelectionEdit>)
        requires
            old(self).core_wf(),
            old(self).undo_manager@.atomic_batch is Some,
            edits_in_order(edits@, rope_bytes(old(self).text).len() as int),
            edits_at_chars(edits@, rope_chars(old(self).text)),
            rope_bytes(old(self).text).len() + added_upto(edits@, edits@.len() as int) <= usize::MAX,
        ensures
            final(self).core_wf(),
            rope_chars(final(self).text) == apply_edits_from(rope_chars(old(self).text), edits@, 0),
            exists|cs: Seq<Change>|
                {
                    &&& !old(self).undo_manager@.ignoring ==> changes_between(cs, rope_chars(old(self).text), rope_chars(final(self).text))
                    &&& #[trigger] batch_grown(old(self).undo_manager@, final(self).undo_manager@, cs)
                    &&& (!old(self).undo_manager@.ignoring && edits@.len() > 0 && covered_chars(
                        rope_chars(old(self).text),
                        edits@.last().range.start as int,
                        edits@.last().range.end as int,
                    ) != edits@.last().text@) ==> cs.len() > 0
                },
            final(self).selection_set == old(self).selection_set,
            final(self).search_session == old(self).search_session,
            final(self).ime_marked_range == old(self).ime_marked_range,
            final(self).disabled == old(self).disabled,
            final(self).readonly == old(self).readonly,
            final(self).searchable == old(self).searchable,
            final(self).replaceable == old(self).replaceable,
    {
        let n = edits.len();
        let ghost es = edits@;
        let ghost t0 = rope_chars(self.text);
        let ghost len0 = rope_bytes(self.text).len();
        let ghost s0 = *self;
        let ghost m0 = self.undo_manager@;
        let ghost first_changed = !m0.ignoring && n > 0 && covered_chars(
            t0,
            es.last().range.start as int,
            es.last().range.end as int,
        ) != es.last().text@;
        let ghost mut cs: Seq<Change> = Seq::empty();
        proof {
            assert(cs.reverse() =~= Seq::<Change>::empty());
            assert(m0.atomic_batch.unwrap().changes + cs =~= m0.atomic_batch.unwrap().changes);
            assert(m0 == (UndoView { atomic_batch: Some(BatchView { changes: m0.atomic_batch.unwrap().changes + cs, ..m0.atomic_batch.unwrap() }), ..m0 }));
        }
        let mut i: usize = n;
        while i > 0
            invariant
                i <= n,
                n == es.len(),
                edits@ == es,
                len0 + added_upto(es, n as int) <= usize::MAX,
                edits_in_order(es, len0 as int),
                self.core_wf(),
                m0 == s0.undo_manager@,
                m0.atomic_batch is Some,
                t0 == rope_chars(s0.text),
                !m0.ignoring ==> changes_between(cs, t0, rope_chars(self.text)),
                batch_grown(m0, self.undo_manager@, cs),
                (first_changed && i < n) ==> cs.len() > 0,
                i == n ==> rope_chars(self.text) == t0,
                first_changed ==> n > 0 && es.last() == es[n - 1],
                first_changed == (!m0.ignoring && n > 0 && covered_chars(
                    t0,
                    es.last().range.start as int,
                    es.last().range.end as int,
                ) != es.last().text@),
                rope_chars(self.text) == apply_edits_from(t0, es, i as int),
                rope_bytes(self.text).len() <= len0 + added_upto(es, n as int) - added_upto(es, i as int),
                forall|j: int| 0 <= j < i ==> at_char(rope_chars(self.text), (#[trigger] es[j]).range.start as int)
                    && at_char(rope_chars(self.text), es[j].range.end as int),
                self.selection_set == s0.selection_set,
                self.search_session == s0.search_session,
                self.ime_marked_range == s0.ime_marked_range,
                self.disabled == s0.disabled,
                self.readonly == s0.readonly,
                self.searchable == s0.searchable,
                self.replaceable == s0.replaceable,
            decreases i,
        {
            i -= 1;
            let e = &edits[i];
            let ghost tb = rope_chars(self.text);
            proof {
                lemma_upto_bounds(es, i as int, i as int + 1);
                lemma_upto_bounds(es, i as int + 1, n as int);
                lemma_replace_shape(tb, e.range.start as int, e.range.end as int, e.text@);
            }
            let ghost mb = self.undo_manager@;
            let ghost sel_b = self.selected_range;
            self.record_edit(e.range.start, e.range.end, e.text.as_str(), EditIntent::Atomic);
            proof {
                let ta = rope_chars(self.text);
                let c = choose|c: Change|
                    edit_change(c, tb, e.range.start as int, e.range.end as int, e.text@)
                        && c.selection_before == sel_b
                        && self.undo_manager@ == record_spec(mb, c, EditIntent::Atomic, None);
                lemma_revert_apply_edit(tb, e.range.start as int, e.range.end as int, e.text@, c);
                if first_changed && i + 1 == n {
                    assert(tb == t0);
                    assert(*e == es[n - 1]);
                    assert(covered_chars(tb, e.range.start as int, e.range.end as int) != e.text@);
                    assert(c.old_text@ != c.new_text@);
                }
                if m0.ignoring {
                } else if c.spec_is_noop() {
                    lemma_replace_same(tb, e.range.start as int, e.range.end as int);
                    assert(ta == tb);
                } else {
                    let cs2 = cs.push(c);
                    lemma_apply_all_push(t0, cs, c);
                    assert(cs2.reverse() =~= seq![c] + cs.reverse());
                    assert((seq![c] + cs.reverse()).drop_first() =~= cs.reverse());
                    let b0 = m0.atomic_batch.unwrap();
                    assert(b0.changes + cs2 =~= (b0.changes + cs).push(c));
                    cs = cs2;
                }
                assert forall|j: int| 0 <= j < i implies at_char(rope_chars(self.text), (#[trigger] es[j]).range.start as int)
                    && at_char(rope_chars(self.text), es[j].range.end as int) by {
                    lemma_replace_keeps_prefix(tb, e.range.start as int, e.range.end as int, e.text@, es[j].range.start as int);
                    lemma_replace_keeps_prefix(tb, e.range.start as int, e.range.end as int, e.text@, es[j].range.end as int);
                }
            }
        }
    }
}


/// Clip an offset to the text's length.
pub open spec fn clip_len(offset: usize, len: int) -> int {
    if offset <= len {
        offset as int
    } else {
        len
    }
}

/// The selections planned after the edits: the given carets (identity, start
/// before the edits, bytes past its mapped start), or else every selection with
/// both ends mapped to the right of what the edits insert there.
pub open spec fn planned_after(
    before: Seq<EditorSelection>,
    changed: Seq<SelectionEdit>,
    carets: Option<Seq<(u64, usize, usize)>>,
    len: int,
) -> Seq<EditorSelection> {
    match carets {
        Some(c) => Seq::new(
            c.len(),
            |j: int|
                EditorSelection {
                    id: c[j].0,
                    anchor: (map_offset(changed, c[j].1 as int, false) + c[j].2) as usize,
                    head: (map_offset(changed, c[j].1 as int, false) + c[j].2) as usize,
                    line_end_affinity: false,
                    preferred_column: None,
                },
        ),
        None => Seq::new(
            before.len(),
            |j: int|
                EditorSelection {
                    anchor: map_offset(changed, clip_len(before[j].anchor, len), true) as usize,
                    head: map_offset(changed, clip_len(before[j].head, len), true) as usize,
                    ..before[j]
                },
        ),
    }
}

/// The identities of planned carets.
pub open spec fn caret_ids(c: Seq<(u64, usize, usize)>) -> Seq<EditorSelection> {
    Seq::new(
        c.len(),
        |j: int|
            EditorSelection {
                id: c[j].0,
                anchor: 0,
                head: 0,
                line_end_affinity: false,
                preferred_column: None,
            },
    )
}

/// What applying planned edits does to the text and the selections.
pub open spec fn applied_edits(
    old_e: InputBaseState,
    new_e: InputBaseState,
    edits: Seq<SelectionEdit>,
    carets: Option<Seq<(u64, usize, usize)>>,
    r: bool,
) -> bool {
    let t0 = rope_chars(old_e.text);
    let pid = old_e.selection_set.primary_id;
    let changed = changed_edits(t0, edits);
    let t1 = apply_edits_from(t0, changed, 0);
    let planned = planned_after(
        snapshot_selections(&old_e),
        changed,
        carets,
        rope_bytes(old_e.text).len() as int,
    );
    &&& r == (changed.len() > 0)
    &&& r ==> rope_chars(new_e.text) == t1
    &&& r ==> new_e.selection_set.primary_id == pid
    &&& r ==> exists|after: Seq<EditorSelection>|
        {
            &&& #[trigger] is_normalization(after, planned, pid, t1)
            &&& new_e.selection_set.secondary@ == without_id(after, pid)
            &&& last_with_id(after, pid) matches Some(p) && new_e.selected_range == p.spec_range()
                && new_e.selection_reversed == (p.anchor > p.head) && new_e.cursor_line_end_affinity
                == p.line_end_affinity && new_e.preferred_column == p.preferred_column
            &&& history_after_batch(
                old_e.undo_manager@,
                new_e.undo_manager@,
                SnapshotView { selections: snapshot_selections(&old_e), primary_id: pid },
                SnapshotView { selections: after, primary_id: pid },
                t0,
                t1,
            )
        }
}

impl InputBaseState {
    /// Apply localized, nonoverlapping edits (the last first, as one atomic
    /// history step) and map every selection from the text before them. Edits
    /// that would not change the text are dropped; with none left, or when the
    /// input is not editable or IME composition is active, nothing happens.
    pub(crate) fn apply_selection_edits(
        &mut self,
        edits: Vec<SelectionEdit>,
        carets: Option<Vec<(u64, usize, usize)>>,
    ) -> (r: bool)
        requires
            old(self).wf(),
            edits_disjoint(edits@, rope_bytes(old(self).text).len() as int),
            edits_on_boundaries(edits@, rope_bytes(old(self).text)),
            rope_bytes(old(self).text).len() + added_upto(edits@, edits@.len() as int) <= usize::MAX,
            carets matches Some(c) ==> {
                &&& valid_identities(caret_ids(c@), old(self).selection_set.primary_id)
                &&& forall|j: int|
                    0 <= j < c@.len() ==> (#[trigger] c@[j]).1 <= rope_bytes(old(self).text).len()
                        && rope_bytes(old(self).text).len() + added_upto(edits@, edits@.len() as int)
                        + c@[j].2 <= usize::MAX
            },
        ensures
            final(self).wf(),
            (old(self).disabled || old(self).readonly || old(self).ime_marked_range is Some) ==> !r,
            !(old(self).disabled || old(self).readonly || old(self).ime_marked_range is Some) ==> applied_edits(
                *old(self),
                *final(self),
                sort_edits(edits@),
                match carets {
                    Some(c) => Some(c@),
                    None => None,
                },
                r,
            ),
            !r ==> *final(self) == *old(self),
    {
        if !self.is_editable() || self.ime_marked_range.is_some() {
            return false;
        }
        let ghost given = edits@;
        proof {
            lemma_sort_edits_in_order(given, rope_bytes(self.text).len() as int);
            lemma_sort_edits_members(given);
            lemma_sort_edits_added(given);
            assert forall|i: int| 0 <= i < sort_edits(given).len() implies char_boundary(
                rope_bytes(self.text),
                (#[trigger] sort_edits(given)[i]).range.start as int,
            ) && char_boundary(rope_bytes(self.text), sort_edits(given)[i].range.end as int) by {
                let k = choose|k: int| 0 <= k < given.len() && #[trigger] sort_edits(given)[i] == given[k];
            }
        }
        let edits = sort_selection_edits(edits);
        let before = self.selection_snapshot();
        let pid = before.primary_id;
        let len = rope_len(&self.text);
        let ghost t0 = rope_chars(self.text);
        let changed = changed_edits_of(&self.text, &edits);
        if changed.len() == 0 {
            return false;
        }
        let ghost cs = changed@;
        let ghost carets_view = match &carets {
            Some(c) => Some(c@),
            None => None,
        };
        let ghost planned = planned_after(before.selections@, cs, carets_view, len as int);
        let mut after_sels: Vec<EditorSelection> = Vec::new();
        match carets {
            Some(c) => {
                let mut j: usize = 0;
                while j < c.len()
                    invariant
                        j <= c@.len(),
                        carets_view == Some(c@),
                        changed@ == cs,
                        len == rope_bytes(self.text).len(),
                        edits_in_order(cs, len as int),
                        added_upto(cs, cs.len() as int) <= added_upto(edits@, edits@.len() as int),
                        forall|q: int|
                            0 <= q < c@.len() ==> (#[trigger] c@[q]).1 <= len && len + added_upto(edits@, edits@.len() as int)
                                + c@[q].2 <= usize::MAX,
                        planned == planned_after(before.selections@, cs, carets_view, len as int),
                        after_sels@ == planned.subrange(0, j as int),
                    decreases c@.len() - j,
                {
                    let (id, start, local) = c[j];
                    let end = map_through(&changed, start, false, len) + local;
                    after_sels.push(EditorSelection::new(id, end, end));
                    assert(after_sels@ =~= planned.subrange(0, j + 1));
                    j += 1;
                }
                assert(after_sels@ =~= planned);
                proof {
                    assert forall|a: int, b: int| 0 <= a < b < planned.len() implies (#[trigger] planned[a]).id != (
                    #[trigger] planned[b]).id by {
                        assert(caret_ids(c@)[a].id == planned[a].id);
                        assert(caret_ids(c@)[b].id == planned[b].id);
                    }
                    let k = choose|k: int| 0 <= k < caret_ids(c@).len() && (#[trigger] caret_ids(c@)[k]).id == pid;
                    assert(planned[k].id == pid);
                }
            },
            None => {
                let sels = &before.selections;
                let mut j: usize = 0;
                while j < sels.len()
                    invariant
                        j <= sels@.len(),
                        carets_view is None,
                        changed@ == cs,
                        len == rope_bytes(self.text).len(),
                        edits_in_order(cs, len as int),
                        added_upto(cs, cs.len() as int) <= added_upto(edits@, edits@.len() as int),
                        len + added_upto(edits@, edits@.len() as int) <= usize::MAX,
                        planned == planned_after(sels@, cs, carets_view, len as int),
                        after_sels@ == planned.subrange(0, j as int),
                    decreases sels@.len() - j,
                {
                    let s = sels[j];
                    let a = if s.anchor <= len {
                        s.anchor
                    } else {
                        len
                    };
                    let h = if s.head <= len {
                        s.head
                    } else {
                        len
                    };
                    let anchor = map_through(&changed, a, true, len);
                    let head = map_through(&changed, h, true, len);
                    after_sels.push(EditorSelection { anchor, head, ..s });
                    assert(after_sels@ =~= planned.subrange(0, j + 1));
                    j += 1;
                }
                assert(after_sels@ =~= planned);
                proof {
                    lemma_snapshot_valid(self);
                    let ss = before.selections@;
                    assert forall|a: int, b: int| 0 <= a < b < planned.len() implies (#[trigger] planned[a]).id != (
                    #[trigger] planned[b]).id by {
                        assert(planned[a].id == ss[a].id && planned[b].id == ss[b].id);
                    }
                    let k = choose|k: int| 0 <= k < ss.len() && (#[trigger] ss[k]).id == pid;
                    assert(planned[k].id == pid);
                }
            },
        }
        proof {
            assert forall|i: int| 0 <= i < cs.len() implies at_char(t0, (#[trigger] cs[i]).range.start as int)
                && at_char(t0, cs[i].range.end as int) by {
                lemma_boundary_at_char(t0, cs[i].range.start as int);
                lemma_boundary_at_char(t0, cs[i].range.end as int);
            }
        }
        let ghost m0 = self.undo_manager@;
        let ghost bv = before@;
        self.undo_manager.begin_atomic_batch(Some(before));
        let ghost m1 = self.undo_manager@;
        self.apply_edits_desc(&changed);
        let ghost m2 = self.undo_manager@;
        let ghost t1 = rope_chars(self.text);
        let after = match SelectionSnapshot::normalized(after_sels, pid, &self.text) {
            Some(a) => a,
            None => {
                return false;
            },
        };
        self.undo_manager.set_atomic_selection_after(after.clone_snapshot());
        let taken = self.undo_manager.take_atomic_selection_after();
        self.undo_manager.commit_atomic_batch(taken);
        proof {
            crate::editor::lemma_normalized_primary(after@.selections, pid);
            lemma_changed_last(t0, edits@);
            let cs = choose|cs: Seq<Change>|
                {
                    &&& !m1.ignoring ==> changes_between(cs, t0, t1)
                    &&& #[trigger] batch_grown(m1, m2, cs)
                    &&& (!m1.ignoring && changed@.len() > 0 && covered_chars(
                        t0,
                        changed@.last().range.start as int,
                        changed@.last().range.end as int,
                    ) != changed@.last().text@) ==> cs.len() > 0
                };
            let av = SnapshotView { selections: after@.selections, primary_id: pid };
            assert(after@ == av);
            let b1 = m1.atomic_batch.unwrap();
            if !m0.ignoring {
                assert(b1.changes + cs =~= cs);
            }
            assert(self.undo_manager@ == batch_committed(m0, bv, cs, av));
        }
        let ghost m5 = self.undo_manager@;
        self.restore_selection_snapshot(after);
        self.update_search();
        assert(self.undo_manager@ == m5);
        true
    }
}

} // verus!
