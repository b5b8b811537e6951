//! Toggling comments over the lines the selections cover.
use crate::comment::{
    affected_lines_in, comment_edits, comment_edits_for, edits_ordered, edits_view, last_covered_row,
    transform_offset, transform_spec, added_before, CommentSyntax, Edit, EditView,
};
use crate::undo_manager::{record_spec, set_last_selection_after_spec};
use crate::change::Change;
use crate::selection::SnapshotView;
use crate::editor::{edit_change, snapshot_selections};
use crate::editor::recorded_edit;
use crate::editor::{
    at_char, covered_chars, lemma_replace_keeps_prefix, lemma_replace_shape, replace_bytes,
    replace_bytes_spec, InputBaseState,
};
use crate::multi_edit::{row_covered, edits_in_order, edits_on_boundaries, added_upto, applied_edits, SelectionEdit};
use crate::selection::Selection;
use crate::text::{
    char_boundary, line_end, line_end_in, line_start, line_start_in, rope_bytes, rope_chars, rope_from_str, rope_len, rope_text,
    rope_to_string, row_of,
};
use crate::undo_manager::EditIntent;
use crate::utf8_facts::{lemma_boundary_at_char, lemma_encode_utf8_concat};
use vstd::prelude::*;
use vstd::string::StringSliceAdditionalSpecFns;
use vstd::utf8::encode_utf8;

verus! {

/// Planned edits lie in order within the bytes and start and end at
/// character boundaries.
pub open spec fn views_fit(edits: Seq<EditView>, bytes: Seq<u8>) -> bool {
    &&& forall|i: int| 0 <= i < edits.len() ==> 0 <= (#[trigger] edits[i]).start <= edits[i].end <= bytes.len()
    &&& forall|i: int, j: int| 0 <= i < j < edits.len() ==> (#[trigger] edits[i]).end <= (#[trigger] edits[j]).start
    &&& forall|i: int|
        0 <= i < edits.len() ==> char_boundary(bytes, (#[trigger] edits[i]).start) && char_boundary(
            bytes,
            edits[i].end,
        )
}

/// Apply `edits[k..]` to the characters, the last first.
pub open spec fn apply_views_from(t: Seq<char>, edits: Seq<EditView>, k: int) -> Seq<char>
    decreases edits.len() - k,
{
    if k < 0 || k >= edits.len() {
        t
    } else {
        replace_bytes_spec(apply_views_from(t, edits, k + 1), edits[k].start, edits[k].end, edits[k].text)
    }
}

/// Whether planned edits fit the source.
pub fn edits_fit(edits: &Vec<Edit>, source: &str) -> (r: bool)
    ensures
        r == views_fit(edits_view(edits@), source.spec_bytes()),
{
    let ghost ev = edits_view(edits@);
    let bytes = source.as_bytes();
    let len = bytes.len();
    let mut i: usize = 0;
    while i < edits.len()
        invariant
            i <= edits@.len(),
            ev == edits_view(edits@),
            bytes@ == source.spec_bytes(),
            len == bytes@.len(),
            forall|k: int| 0 <= k < i ==> 0 <= (#[trigger] ev[k]).start <= ev[k].end <= len,
            forall|k: int, j: int| 0 <= k < j < i ==> (#[trigger] ev[k]).end <= (#[trigger] ev[j]).start,
            forall|k: int| 0 <= k < i ==> char_boundary(bytes@, (#[trigger] ev[k]).start) && char_boundary(bytes@, ev[k].end),
        decreases edits@.len() - i,
    {
        let e = &edits[i];
        assert(e@ == ev[i as int]);
        if !(e.range.start <= e.range.end && e.range.end <= len) {
            return false;
        }
        if i > 0 && edits[i - 1].range.end > e.range.start {
            assert(edits[i - 1]@ == ev[i - 1]);
            return false;
        }
        if !crate::text::is_char_boundary_at(bytes, e.range.start) || !crate::text::is_char_boundary_at(bytes, e.range.end) {
            return false;
        }
        proof {
            if i > 0 {
                assert(edits[i - 1]@ == ev[i - 1]);
                assert forall|k: int| 0 <= k < i implies (#[trigger] ev[k]).end <= ev[i as int].start by {
                    if k < i - 1 {
                        assert(ev[k].end <= ev[i - 1].start);
                    }
                }
            }
        }
        i += 1;
    }
    true
}


/// A character position lies within the text.
pub proof fn lemma_at_char_bound(t: Seq<char>, b: int)
    requires
        at_char(t, b),
    ensures
        0 <= b <= encode_utf8(t).len(),
{
    let k = choose|k: int| 0 <= k <= t.len() && #[trigger] encode_utf8(t.subrange(0, k)).len() == b;
    assert(t =~= t.subrange(0, k) + t.subrange(k, t.len() as int));
    lemma_encode_utf8_concat(t.subrange(0, k), t.subrange(k, t.len() as int));
}

/// The source with the planned edits applied.
pub fn apply_comment_edits(source: &str, edits: &Vec<Edit>) -> (r: String)
    requires
        views_fit(edits_view(edits@), source.spec_bytes()),
    ensures
        r@ == apply_views_from(source@, edits_view(edits@), 0),
{
    let ghost ev = edits_view(edits@);
    let mut rope = rope_from_str(source);
    let n = edits.len();
    let mut i: usize = n;
    proof {
        assert forall|j: int| 0 <= j < n implies at_char(source@, (#[trigger] ev[j]).start) && at_char(source@, ev[j].end) by {
            lemma_boundary_at_char(source@, ev[j].start);
            lemma_boundary_at_char(source@, ev[j].end);
        }
    }
    while i > 0
        invariant
            i <= n,
            n == edits@.len(),
            ev == edits_view(edits@),
            views_fit(ev, source.spec_bytes()),
            rope_chars(rope) == apply_views_from(source@, ev, i as int),
            forall|j: int| 0 <= j < i ==> at_char(rope_chars(rope), (#[trigger] ev[j]).start) && at_char(rope_chars(rope), ev[j].end),
        decreases i,
    {
        i -= 1;
        let e = &edits[i];
        assert(e@ == ev[i as int]);
        let ghost cur = rope_chars(rope);
        proof {
            lemma_at_char_bound(cur, ev[i as int].end);
        }
        let _removed = replace_bytes(&mut rope, e.range.start, e.range.end, e.text.as_str());
        proof {
            assert forall|j: int| 0 <= j < i implies at_char(rope_chars(rope), (#[trigger] ev[j]).start) && at_char(rope_chars(rope), ev[j].end) by {
                assert(ev[j].end <= ev[i as int].start);
                lemma_replace_keeps_prefix(cur, ev[i as int].start, ev[i as int].end, e.text@, ev[j].start);
                lemma_replace_keeps_prefix(cur, ev[i as int].start, ev[i as int].end, e.text@, ev[j].end);
            }
        }
    }
    rope_to_string(&rope)
}


/// The bytes the planned edits insert, unless the sum overflows.
fn inserted_total(edits: &Vec<Edit>) -> (r: Option<usize>)
    ensures
        match r {
            Some(n) => n == added_before(edits_view(edits@), edits@.len() as int),
            None => added_before(edits_view(edits@), edits@.len() as int) > usize::MAX,
        },
{
    let ghost ev = edits_view(edits@);
    let mut total: usize = 0;
    let mut i: usize = 0;
    while i < edits.len()
        invariant
            i <= edits@.len(),
            ev == edits_view(edits@),
            total == added_before(ev, i as int),
        decreases edits@.len() - i,
    {
        assert(edits[i as int]@ == ev[i as int]);
        assert(added_before(ev, i as int + 1) == added_before(ev, i as int) + encode_utf8(ev[i as int].text).len());
        match total.checked_add(edits[i].text.as_str().as_bytes().len()) {
            Some(t) => {
                total = t;
            },
            None => {
                proof {
                    lemma_added_before_monotone(ev, i as int + 1, edits@.len() as int);
                }
                return None;
            },
        }
        i += 1;
    }
    Some(total)
}

proof fn lemma_added_before_monotone(edits: Seq<EditView>, i: int, j: int)
    requires
        0 <= i <= j <= edits.len(),
    ensures
        added_before(edits, i) <= added_before(edits, j),
    decreases j,
{
    if i < j {
        lemma_added_before_monotone(edits, i, j - 1);
    }
}

/// The lines a selection covers, as a byte range of the text.
pub open spec fn covered_lines(b: Seq<u8>, sel: Selection) -> (int, int) {
    (
        line_start(b, row_of(b, sel.start as int)),
        line_end(b, last_covered_row(b, sel.start as int, sel.end as int)),
    )
}

/// What toggling the comment on the primary selection's lines does: the plan
/// for those lines fits them and changes them, and the sizes involved fit.
pub open spec fn single_toggle_applies(e: InputBaseState, syntax: CommentSyntax) -> bool {
    let t = rope_chars(e.text);
    let b = rope_bytes(e.text);
    let sel = e.selected_range;
    let (rs, re) = covered_lines(b, sel);
    let src = covered_chars(t, rs, re);
    &&& rs <= re
    &&& rs <= sel.start
    &&& comment_edits_for(encode_utf8(src), syntax) matches Some(ev) && {
        let new_src = apply_views_from(src, ev, 0);
        &&& views_fit(ev, encode_utf8(src))
        &&& new_src != src
        &&& added_before(ev, ev.len() as int) + (sel.end - rs) <= usize::MAX
        &&& b.len() + encode_utf8(new_src).len() <= usize::MAX
        &&& rs + transform_spec(sel.start - rs, ev, sel.start != sel.end && sel.start == rs) <= usize::MAX
        &&& rs + transform_spec(sel.end - rs, ev, false) <= usize::MAX
    }
}

/// The text and selection after a single-selection toggle.
pub open spec fn single_toggle_result(old_e: InputBaseState, new_e: InputBaseState, syntax: CommentSyntax) -> bool {
    let t = rope_chars(old_e.text);
    let b = rope_bytes(old_e.text);
    let sel = old_e.selected_range;
    let (rs, re) = covered_lines(b, sel);
    let src = covered_chars(t, rs, re);
    let ev = comment_edits_for(encode_utf8(src), syntax).unwrap();
    let new_src = apply_views_from(src, ev, 0);
    let a = rs + transform_spec(sel.start - rs, ev, sel.start != sel.end && sel.start == rs);
    let z = rs + transform_spec(sel.end - rs, ev, false);
    &&& rope_chars(new_e.text) == replace_bytes_spec(t, rs, re, new_src)
    &&& (a <= z <= rope_bytes(new_e.text).len() ==> new_e.selected_range == (Selection { start: a as usize, end: z as usize }))
    &&& new_e.selection_reversed == old_e.selection_reversed
    &&& new_e.selection_set == old_e.selection_set
    &&& exists|c: Change|
        {
            &&& edit_change(c, t, rs, re, new_src)
            &&& c.selection_before == old_e.selected_range
            &&& c.selection_before_reversed == old_e.selection_reversed
            &&& new_e.undo_manager@ == set_last_selection_after_spec(
                #[trigger] record_spec(old_e.undo_manager@, c, EditIntent::Atomic, None),
                new_e.selected_range,
                new_e.selection_reversed,
                SnapshotView { selections: snapshot_selections(&new_e), primary_id: new_e.selection_set.primary_id },
            )
        }
}

impl InputBaseState {
    /// Toggle a comment over the lines the primary selection covers, as one
    /// atomic edit, keeping the selection on the same text.
    fn toggle_single_comment(&mut self, syntax: &CommentSyntax) -> (r: bool)
        requires
            old(self).wf(),
        ensures
            final(self).wf(),
            r == single_toggle_applies(*old(self), *syntax),
            !r ==> *final(self) == *old(self),
            r ==> single_toggle_result(*old(self), *final(self), *syntax),
    {
        let ghost t = rope_chars(self.text);
        let ghost b = rope_bytes(self.text);
        let sel = self.selected_range;
        let text = rope_text(&self.text);
        let range = affected_lines_in(text.as_str().as_bytes(), sel);
        if !(range.start <= range.end && range.start <= sel.start) {
            return false;
        }
        proof {
            crate::text::lemma_line_bounds(t, row_of(b, sel.start as int));
            crate::text::lemma_line_bounds(t, last_covered_row(b, sel.start as int, sel.end as int));
            lemma_boundary_at_char(t, range.start as int);
            lemma_boundary_at_char(t, range.end as int);
        }
        let source = self.covered_text(range.start, range.end);
        let edits = match comment_edits(source.as_str(), syntax) {
            Some(e) => e,
            None => {
                return false;
            },
        };
        if !edits_fit(&edits, source.as_str()) {
            return false;
        }
        let total = match inserted_total(&edits) {
            Some(n) => n,
            None => {
                proof {
                    lemma_added_before_monotone(edits_view(edits@), 0, edits@.len() as int);
                }
                return false;
            },
        };
        let replacement = apply_comment_edits(source.as_str(), &edits);
        if replacement == source {
            return false;
        }
        let len = rope_len(&self.text);
        let replacement_len = replacement.as_str().as_bytes().len();
        if len.checked_add(replacement_len).is_none() {
            return false;
        }
        if total.checked_add(sel.end - range.start).is_none() {
            return false;
        }
        let keep = !(sel.start == sel.end) && sel.start == range.start;
        let a_local = transform_offset(sel.start - range.start, &edits, keep);
        let z_local = transform_offset(sel.end - range.start, &edits, false);
        let a = match range.start.checked_add(a_local) {
            Some(v) => v,
            None => {
                return false;
            },
        };
        let z = match range.start.checked_add(z_local) {
            Some(v) => v,
            None => {
                return false;
            },
        };
        let reversed = self.selection_reversed;
        let ghost m0 = self.undo_manager@;
        self.record_edit(range.start, range.end, replacement.as_str(), EditIntent::Atomic);
        let ghost m1 = self.undo_manager@;
        self.update_search();
        let new_len = rope_len(&self.text);
        if a <= z && z <= new_len {
            self.selected_range = Selection { start: a, end: z };
        }
        self.selection_reversed = reversed;
        let snapshot = self.selection_snapshot();
        let current = self.selected_range;
        self.undo_manager.set_last_selection_after(current, reversed, snapshot);
        proof {
            let c = choose|c: Change|
                edit_change(c, t, range.start as int, range.end as int, replacement@)
                    && c.selection_before == sel
                    && c.selection_before_reversed == reversed
                    && m1 == record_spec(m0, c, EditIntent::Atomic, None);
            assert(snapshot@ == SnapshotView { selections: snapshot_selections(self), primary_id: self.selection_set.primary_id });
        }
        true
    }
}


/// Consecutive rows grouped into runs, each from its first to its last row.
pub open spec fn row_groups(rows: Seq<usize>) -> Seq<(int, int)>
    decreases rows.len(),
{
    if rows.len() == 0 {
        Seq::empty()
    } else {
        let g = row_groups(rows.drop_last());
        let r = rows.last() as int;
        if g.len() > 0 && g.last().1 + 1 == r {
            g.update(g.len() - 1, (g.last().0, r))
        } else {
            g.push((r, r))
        }
    }
}

/// The comment edits for one run of rows, as offsets of the whole text; none
/// when the plan does not fit the run's text.
pub open spec fn group_plan(t: Seq<char>, b: Seq<u8>, g: (int, int), syntax: CommentSyntax) -> Seq<EditView> {
    let ls = line_start(b, g.0 as nat);
    let le = line_end(b, g.1 as nat);
    let src = covered_chars(t, ls, le);
    if ls <= le && (comment_edits_for(encode_utf8(src), syntax) matches Some(ev) && views_fit(ev, encode_utf8(src))) {
        comment_edits_for(encode_utf8(src), syntax).unwrap().map_values(
            |e: EditView| EditView { start: e.start + ls, end: e.end + ls, ..e },
        )
    } else {
        Seq::empty()
    }
}

/// The edits for the first `k` runs of rows, in order.
pub open spec fn multi_plan(t: Seq<char>, b: Seq<u8>, groups: Seq<(int, int)>, syntax: CommentSyntax, k: int) -> Seq<EditView>
    decreases k,
{
    if k <= 0 || k > groups.len() {
        Seq::empty()
    } else {
        multi_plan(t, b, groups, syntax, k - 1) + group_plan(t, b, groups[k - 1], syntax)
    }
}

/// Planned selection edits carry exactly the given ranges and texts.
pub open spec fn edits_match(planned: Seq<SelectionEdit>, views: Seq<EditView>) -> bool {
    &&& planned.len() == views.len()
    &&& forall|i: int|
        0 <= i < planned.len() ==> (#[trigger] planned[i]).range.start == views[i].start
            && planned[i].range.end == views[i].end && planned[i].text@ == views[i].text
}

/// Whether planned edits lie in order in the text, on character boundaries,
/// with room for what they insert.
fn selection_edits_fit(edits: &Vec<SelectionEdit>, bytes: &[u8]) -> (r: bool)
    ensures
        r == (edits_in_order(edits@, bytes@.len() as int) && edits_on_boundaries(edits@, bytes@)
            && bytes@.len() + added_upto(edits@, edits@.len() as int) <= usize::MAX),
{
    let len = bytes.len();
    let mut total: usize = len;
    let mut i: usize = 0;
    while i < edits.len()
        invariant
            i <= edits@.len(),
            len == bytes@.len(),
            total == len + added_upto(edits@, i as int),
            forall|k: int| 0 <= k < i ==> (#[trigger] edits@[k]).range.start <= edits@[k].range.end <= len,
            forall|k: int, j: int| 0 <= k < j < i ==> (#[trigger] edits@[k]).range.end <= (#[trigger] edits@[j]).range.start,
            forall|k: int| 0 <= k < i ==> char_boundary(bytes@, (#[trigger] edits@[k]).range.start as int)
                && char_boundary(bytes@, edits@[k].range.end as int),
        decreases edits@.len() - i,
    {
        let e = &edits[i];
        if !(e.range.start <= e.range.end && e.range.end <= len) {
            return false;
        }
        if i > 0 && edits[i - 1].range.end > e.range.start {
            return false;
        }
        if !crate::text::is_char_boundary_at(bytes, e.range.start) || !crate::text::is_char_boundary_at(bytes, e.range.end) {
            return false;
        }
        assert(added_upto(edits@, i as int + 1) == added_upto(edits@, i as int) + crate::multi_edit::edit_width(edits@[i as int]));
        match total.checked_add(e.text.as_str().as_bytes().len()) {
            Some(t) => {
                total = t;
            },
            None => {
                proof {
                    crate::multi_edit::lemma_upto_bounds(edits@, i as int + 1, edits@.len() as int);
                }
                return false;
            },
        }
        proof {
            if i > 0 {
                assert forall|k: int| 0 <= k < i implies (#[trigger] edits@[k]).range.end <= edits@[i as int].range.start by {
                    if k < i - 1 {
                        assert(edits@[k].range.end <= edits@[i - 1].range.start);
                    }
                }
            }
        }
        i += 1;
    }
    true
}


/// The group view of exec row runs.
pub open spec fn groups_view(g: Seq<(usize, usize)>) -> Seq<(int, int)> {
    g.map_values(|p: (usize, usize)| (p.0 as int, p.1 as int))
}

/// Rows listed ascending, exactly those the selections cover.
pub open spec fn covered_row_list(rows: Seq<usize>, e: InputBaseState) -> bool {
    &&& forall|i: int, j: int| 0 <= i < j < rows.len() ==> rows[i] < rows[j]
    &&& forall|r: int|
        rows.contains(r as usize) && 0 <= r <= usize::MAX <==> row_covered(
            rope_bytes(e.text),
            crate::editor::snapshot_selections(&e),
            r,
        ) && 0 <= r <= usize::MAX
}

/// What toggling comments over several selections does.
pub open spec fn multi_toggle_result(old_e: InputBaseState, new_e: InputBaseState, syntax: CommentSyntax, r: bool) -> bool {
    let t = rope_chars(old_e.text);
    let b = rope_bytes(old_e.text);
    exists|rows: Seq<usize>|
        #[trigger] covered_row_list(rows, old_e) && {
            let groups = row_groups(rows);
            let views = multi_plan(t, b, groups, syntax, groups.len() as int);
            exists|planned: Seq<SelectionEdit>|
                #[trigger] edits_match(planned, views) && if edits_in_order(planned, b.len() as int)
                    && edits_on_boundaries(planned, b) && b.len() + added_upto(planned, planned.len() as int)
                    <= usize::MAX {
                    applied_edits(old_e, new_e, planned, None, r)
                } else {
                    !r
                }
        }
}

impl InputBaseState {
    fn toggle_multiple_comments(&mut self, syntax: &CommentSyntax) -> (r: bool)
        requires
            old(self).wf(),
            !(old(self).disabled || old(self).readonly || old(self).ime_marked_range is Some),
        ensures
            final(self).wf(),
            !r ==> *final(self) == *old(self),
            multi_toggle_result(*old(self), *final(self), *syntax, r),
    {
        let ghost t = rope_chars(self.text);
        let ghost b = rope_bytes(self.text);
        let rows = self.selected_logical_lines();
        let mut groups: Vec<(usize, usize)> = Vec::new();
        let mut k: usize = 0;
        while k < rows.len()
            invariant
                k <= rows@.len(),
                groups_view(groups@) == row_groups(rows@.subrange(0, k as int)),
            decreases rows@.len() - k,
        {
            let r = rows[k];
            let n = groups.len();
            assert(rows@.subrange(0, k + 1).drop_last() =~= rows@.subrange(0, k as int));
            assert(rows@.subrange(0, k + 1).last() == r);
            if n > 0 && r > 0 && groups[n - 1].1 == r - 1 {
                let first = groups[n - 1].0;
                groups.set(n - 1, (first, r));
                assert(groups_view(groups@) =~= row_groups(rows@.subrange(0, k + 1)));
            } else {
                proof {
                    if n > 0 {
                        assert(groups_view(groups@)[n - 1].1 == groups@[n - 1].1);
                    }
                }
                groups.push((r, r));
                assert(groups_view(groups@) =~= row_groups(rows@.subrange(0, k + 1)));
            }
            k += 1;
        }
        assert(rows@.subrange(0, rows@.len() as int) =~= rows@);
        let ghost gs = groups_view(groups@);
        let text = rope_text(&self.text);
        let bytes = text.as_str().as_bytes();
        let mut planned: Vec<SelectionEdit> = Vec::new();
        let mut gi: usize = 0;
        while gi < groups.len()
            invariant
                gi <= groups@.len(),
                gs == groups_view(groups@),
                bytes@ == b,
                b == rope_bytes(self.text),
                t == rope_chars(self.text),
                self.wf(),
                edits_match(planned@, multi_plan(t, b, gs, *syntax, gi as int)),
            decreases groups@.len() - gi,
        {
            let (first, last) = groups[gi];
            let ls = line_start_in(bytes, first);
            let le = line_end_in(bytes, last);
            let ghost before = planned@;
            assert(gs[gi as int] == (first as int, last as int));
            if ls <= le {
                proof {
                    crate::text::lemma_line_bounds(t, first as nat);
                    crate::text::lemma_line_bounds(t, last as nat);
                    lemma_boundary_at_char(t, ls as int);
                    lemma_boundary_at_char(t, le as int);
                    crate::editor::lemma_covered_len(t, ls as int, le as int);
                }
                let source = self.covered_text(ls, le);
                match comment_edits(source.as_str(), syntax) {
                    Some(edits) => {
                        if edits_fit(&edits, source.as_str()) {
                            let ghost ev = edits_view(edits@);
                            let mut q: usize = 0;
                            while q < edits.len()
                                invariant
                                    q <= edits@.len(),
                                    ev == edits_view(edits@),
                                    views_fit(ev, encode_utf8(source@)),
                                    encode_utf8(source@).len() == le - ls,
                                    planned@.len() == before.len() + q,
                                    forall|i: int| 0 <= i < before.len() ==> #[trigger] planned@[i] == before[i],
                                    forall|i: int|
                                        0 <= i < q ==> (#[trigger] planned@[before.len() + i]).range.start == ev[i].start + ls
                                            && planned@[before.len() + i].range.end == ev[i].end + ls
                                            && planned@[before.len() + i].text@ == ev[i].text,
                                    le <= usize::MAX,
                                decreases edits@.len() - q,
                            {
                                let e = &edits[q];
                                assert(e@ == ev[q as int]);
                                planned.push(SelectionEdit {
                                    range: Selection { start: ls + e.range.start, end: ls + e.range.end },
                                    text: e.text.clone(),
                                });
                                q += 1;
                            }
                            proof {
                                let gp = group_plan(t, b, gs[gi as int], *syntax);
                                assert(comment_edits_for(encode_utf8(covered_chars(t, ls as int, le as int)), *syntax) == Some(ev));
                                assert(gp == ev.map_values(|e: EditView| EditView { start: e.start + ls, end: e.end + ls, ..e }));
                                let mp = multi_plan(t, b, gs, *syntax, gi as int);
                                assert(multi_plan(t, b, gs, *syntax, gi + 1) == mp + gp);
                                assert(edits_match(before, mp));
                                let np = mp + gp;
                                assert(np.len() == planned@.len());
                                assert forall|i: int| 0 <= i < planned@.len() implies (#[trigger] planned@[i]).range.start == np[i].start
                                    && planned@[i].range.end == np[i].end
                                    && planned@[i].text@ == np[i].text by {
                                    if i < before.len() {
                                        assert(planned@[i] == before[i]);
                                        assert(np[i] == mp[i]);
                                    } else {
                                        let j = i - before.len();
                                        assert(before.len() + j == i);
                                        assert(0 <= j < ev.len());
                                        let pj = planned@[before.len() + j];
                                        assert(pj.range.start == ev[j].start + ls);
                                        assert(np[i] == gp[j]);
                                        assert(gp[j] == EditView { start: ev[j].start + ls, end: ev[j].end + ls, ..ev[j] });
                                    }
                                }
                                assert(edits_match(planned@, np));
                            }
                        } else {
                            assert(multi_plan(t, b, gs, *syntax, gi + 1) =~= multi_plan(t, b, gs, *syntax, gi as int));
                        }
                    },
                    None => {
                        assert(multi_plan(t, b, gs, *syntax, gi + 1) =~= multi_plan(t, b, gs, *syntax, gi as int));
                    },
                }
            } else {
                assert(multi_plan(t, b, gs, *syntax, gi + 1) =~= multi_plan(t, b, gs, *syntax, gi as int));
            }
            gi += 1;
        }
        let ghost views = multi_plan(t, b, gs, *syntax, gs.len() as int);
        assert(gs == row_groups(rows@));
        assert(covered_row_list(rows@, *old(self)));
        assert(edits_match(planned@, views));
        if !selection_edits_fit(&planned, bytes) {
            return false;
        }
        let ghost pv = planned@;
        proof {
            crate::multi_edit::lemma_sort_edits_in_order_same(planned@, rope_bytes(self.text).len() as int);
        }
        let r = self.apply_selection_edits(planned, None);
        assert(edits_match(pv, views));
        r
    }

    /// Toggle line (or block) comments over the lines the selections cover,
    /// as one atomic history step. Returns false, changing nothing, when the
    /// input is not editable, IME composition is active, or nothing would change.
    pub fn toggle_comment(&mut self, syntax: &CommentSyntax) -> (r: bool)
        requires
            old(self).wf(),
        ensures
            final(self).wf(),
            (old(self).disabled || old(self).readonly || old(self).ime_marked_range is Some) ==> !r,
            !r ==> *final(self) == *old(self),
            !(old(self).disabled || old(self).readonly || old(self).ime_marked_range is Some) && old(self).selection_set.secondary@.len() == 0 ==> {
                &&& r == single_toggle_applies(*old(self), *syntax)
                &&& r ==> single_toggle_result(*old(self), *final(self), *syntax)
            },
            !(old(self).disabled || old(self).readonly || old(self).ime_marked_range is Some) && old(self).selection_set.secondary@.len() > 0
                ==> multi_toggle_result(*old(self), *final(self), *syntax, r),
    {
        if !self.is_editable() || self.ime_marked_range.is_some() {
            return false;
        }
        if self.selection_set.has_secondary() {
            return self.toggle_multiple_comments(syntax);
        }
        self.toggle_single_comment(syntax)
    }
}

} // verus!
