//! Typing at every selection at once: a closing brace that dedents a blank
//! line, Enter with the indentation a syntax-aware plan gives, and indenting
//! or outdenting the selected lines. Each is one atomic history step.
use crate::comment::{opt_chars, opt_str_chars};
use crate::editor::{lemma_snapshot_valid, snapshot_selections, InputBaseState};
use crate::indent::{is_blank, joined, lemma_skip_on_boundary, skip_blanks, skip_blanks_in, text_in, text_of, NewlineIndent};
use crate::multi_edit::{
    row_covered,
    added_upto, applied_edits, caret_ids, edit_width, edited_selections, edits_in_order, edits_on_boundaries,
    SelectionEdit,
};
use crate::occurrences::range_is;
use crate::selection::{copy_selections, EditorSelection, Selection, SelectionSnapshot};
use crate::selection_set::{is_normalization, normalized_wf, selections_within, valid_identities};
use crate::syntax::{is_kind, MAX_LINE_BYTES};
use crate::text::{
    char_boundary, lemma_line_bounds, lemma_offset_within_row, line_end, line_end_in, line_start, line_start_in,
    newlines_before_in, rope_bytes, rope_chars, rope_len, rope_text, row_of, str_chars,
};
use vstd::prelude::*;
use vstd::string::StringSliceAdditionalSpecFns;
use vstd::utf8::encode_utf8;

verus! {

/// Every byte of `from..to` is a space or a tab.
pub open spec fn all_blank(b: Seq<u8>, from: int, to: int) -> bool {
    forall|k: int| from <= k < to ==> is_blank(#[trigger] b[k])
}

/// An offset between the carriage return and line feed of a CRLF pair moves
/// before the carriage return.
pub open spec fn clip_crlf(b: Seq<u8>, offset: int) -> int {
    if 0 < offset < b.len() && b[offset - 1] == 13u8 && b[offset] == 10u8 {
        offset - 1
    } else {
        offset
    }
}

/// Every character is a space or a tab.
pub open spec fn blank_chars(s: Seq<char>) -> bool {
    forall|k: int| 0 <= k < s.len() ==> (#[trigger] s[k]) == ' ' || s[k] == '\t'
}

/// The edit a typed closing brace makes at selection `ix`: at a caret on a
/// line of blanks only (after the previous selection's line), with a closing
/// indentation shorter than the caret's column that the line starts with,
/// the line's blanks up to the caret become that indentation and the brace;
/// anywhere else the brace replaces the selection.
pub open spec fn brace_edit(b: Seq<u8>, ns: Seq<EditorSelection>, ix: int, typed: Seq<char>, indent: Option<Seq<char>>) -> (Selection, Seq<char>) {
    let r = ns[ix].spec_range();
    let row = row_of(b, r.start as int);
    let start = line_start(b, row);
    let end = clip_crlf(b, line_end(b, row));
    if r.start == r.end && r.start <= end && r.start - start <= MAX_LINE_BYTES && end - r.start <= MAX_LINE_BYTES
        && all_blank(b, start, end) && (ix == 0 || ns[ix - 1].spec_range().end < start) && (indent matches Some(
        ind,
    ) && encode_utf8(ind).len() < r.start - start && blank_chars(ind) && b.subrange(start, start + encode_utf8(ind).len())
        == encode_utf8(ind)) {
        (Selection { start: start as usize, end: r.end }, indent->0 + "}"@)
    } else {
        (r, typed)
    }
}

/// The closing indentations offered for the selections, by position.
pub open spec fn indents_view(v: Seq<Option<String>>) -> Seq<Option<Seq<char>>> {
    v.map_values(|o: Option<String>| opt_chars(o))
}

/// The offered indentation for selection `ix`, if any.
pub open spec fn indent_for(v: Seq<Option<Seq<char>>>, ix: int) -> Option<Seq<char>> {
    if 0 <= ix < v.len() {
        v[ix]
    } else {
        None
    }
}

/// The brace edits of every selection, in order.
pub open spec fn brace_plan(b: Seq<u8>, ns: Seq<EditorSelection>, typed: Seq<char>, indents: Seq<Option<Seq<char>>>) -> Seq<(Selection, Seq<char>)> {
    Seq::new(ns.len(), |ix: int| brace_edit(b, ns, ix, typed, indent_for(indents, ix)))
}

/// Each selection's caret after the edits: its identity, its edit's start
/// and the bytes past it (the whole replacement).
pub open spec fn plan_carets(ns: Seq<EditorSelection>, plan: Seq<(Selection, Seq<char>)>) -> Seq<(u64, usize, usize)> {
    Seq::new(ns.len(), |ix: int| (ns[ix].id, plan[ix].0.start, encode_utf8(plan[ix].1).len() as usize))
}

/// Edits as ranges and texts.
pub open spec fn edit_views(e: Seq<SelectionEdit>) -> Seq<(Selection, Seq<char>)> {
    e.map_values(|x: SelectionEdit| (x.range, x.text@))
}

/// What a typed closing brace does over a normalization of the selections.
pub open spec fn brace_typed(old_e: InputBaseState, new_e: InputBaseState, typed: Seq<char>, indents: Seq<Option<Seq<char>>>, r: bool) -> bool {
    exists|ns: Seq<EditorSelection>|
        #[trigger] is_normalization(ns, snapshot_selections(&old_e), old_e.selection_set.primary_id, rope_chars(old_e.text))
            && {
            let plan = brace_plan(rope_bytes(old_e.text), ns, typed, indents);
            exists|e: Seq<SelectionEdit>| #[trigger] edit_views(e) == plan && applied_edits(old_e, new_e, e, Some(plan_carets(ns, plan)), r)
        }
}

// ---------------------------------------------------------------------------
// Shared proof steps.

/// Edits each in range and each ending before the next starts are in order.
proof fn lemma_chain_in_order(e: Seq<SelectionEdit>, len: int)
    requires
        forall|i: int| 0 <= i < e.len() ==> (#[trigger] e[i]).range.start <= e[i].range.end <= len,
        forall|i: int| 0 <= i < e.len() - 1 ==> (#[trigger] e[i]).range.end <= e[i + 1].range.start,
    ensures
        edits_in_order(e, len),
{
    assert forall|i: int, j: int| 0 <= i < j < e.len() implies (#[trigger] e[i]).range.end <= (#[trigger] e[j]).range.start by {
        lemma_chain_step(e, i, j);
    }
}

proof fn lemma_chain_step(e: Seq<SelectionEdit>, i: int, j: int)
    requires
        0 <= i < j < e.len(),
        forall|k: int| 0 <= k < e.len() ==> (#[trigger] e[k]).range.start <= e[k].range.end,
        forall|k: int| 0 <= k < e.len() - 1 ==> (#[trigger] e[k]).range.end <= e[k + 1].range.start,
    ensures
        e[i].range.end <= e[j].range.start,
    decreases j - i,
{
    if j > i + 1 {
        lemma_chain_step(e, i, j - 1);
        assert(e[j - 1].range.start <= e[j - 1].range.end);
        assert(e[j - 1].range.end <= e[j].range.start);
    } else {
        assert(e[i].range.end <= e[i + 1].range.start);
    }
}

/// The inserted bytes of `k` edits of at most `w` bytes each.
proof fn lemma_added_bound(e: Seq<SelectionEdit>, k: int, w: int)
    requires
        0 <= k <= e.len(),
        0 <= w,
        forall|i: int| 0 <= i < e.len() ==> edit_width(#[trigger] e[i]) <= w,
    ensures
        0 <= added_upto(e, k) <= k * w,
    decreases k,
{
    if k > 0 {
        lemma_added_bound(e, k - 1, w);
        assert(edit_width(e[k - 1]) <= w);
        assert((k - 1) * w + w == k * w) by (nonlinear_arith);
    }
}

/// The identities of the planned carets are those of the normalized set.
proof fn lemma_caret_identities(ns: Seq<EditorSelection>, c: Seq<(u64, usize, usize)>, pid: u64)
    requires
        normalized_wf(ns, pid),
        c.len() == ns.len(),
        forall|i: int| 0 <= i < c.len() ==> (#[trigger] c[i]).0 == ns[i].id,
    ensures
        valid_identities(caret_ids(c), pid),
{
    let ids = caret_ids(c);
    let k = choose|k: int| 0 <= k < ns.len() && (#[trigger] ns[k]).id == pid;
    assert(ids[k].id == pid);
    assert forall|a: int, b: int| 0 <= a < b < ids.len() implies (#[trigger] ids[a]).id != (#[trigger] ids[b]).id by {
        assert(ids[a].id == ns[a].id && ids[b].id == ns[b].id);
    }
}

// ---------------------------------------------------------------------------
// Executable steps.

/// Whether every byte of `from..to` is a blank.
fn all_blank_in(b: &[u8], from: usize, to: usize) -> (r: bool)
    requires
        from <= to <= b@.len(),
    ensures
        r == all_blank(b@, from as int, to as int),
{
    let mut k = from;
    while k < to
        invariant
            from <= k <= to <= b@.len(),
            forall|q: int| from <= q < k ==> is_blank(#[trigger] b@[q]),
        decreases to - k,
    {
        if !(b[k] == 32u8 || b[k] == 9u8) {
            return false;
        }
        k += 1;
    }
    true
}

/// Whether every character of a string is a space or a tab.
fn blank_chars_in(s: &str) -> (r: bool)
    ensures
        r == blank_chars(s@),
{
    let cs = str_chars(s);
    let mut k: usize = 0;
    while k < cs.len()
        invariant
            cs@ == s@,
            k <= cs@.len(),
            forall|q: int| 0 <= q < k ==> (#[trigger] cs@[q]) == ' ' || cs@[q] == '\t',
        decreases cs@.len() - k,
    {
        if !(cs[k] == ' ' || cs[k] == '\t') {
            return false;
        }
        k += 1;
    }
    true
}

/// The edit a typed closing brace makes at selection `ix`.
fn brace_edit_in(b: &[u8], Ghost(t): Ghost<Seq<char>>, ns: &Vec<EditorSelection>, ix: usize, typed: &str, indent: Option<&str>) -> (r: (Selection, String))
    requires
        ix < ns@.len(),
        b@ == encode_utf8(t),
        selections_within(ns@, b@),
    ensures
        (r.0, r.1@) == brace_edit(b@, ns@, ix as int, typed@, opt_str_chars(indent)),
        r.0.start <= r.0.end <= b@.len(),
        char_boundary(b@, r.0.start as int),
        char_boundary(b@, r.0.end as int),
        encode_utf8(r.1@).len() <= MAX_LINE_BYTES + typed.spec_bytes().len(),
        (r.0 == ns@[ix as int].spec_range() && r.1@ == typed@) || (r.0.start < ns@[ix as int].spec_range().start
            && r.0.end == ns@[ix as int].spec_range().end && (ix == 0 || ns@[ix - 1].spec_range().end < r.0.start)
            && r.0.start == line_start(b@, row_of(b@, ns@[ix as int].spec_range().start as int)) && encode_utf8(r.1@).len()
            <= MAX_LINE_BYTES),
{
    let r = ns[ix].range();
    assert(ns@[ix as int].anchor <= b@.len() && ns@[ix as int].head <= b@.len());
    assert(char_boundary(b@, ns@[ix as int].anchor as int) && char_boundary(b@, ns@[ix as int].head as int));
    let row = newlines_before_in(b, r.start);
    let start = line_start_in(b, row);
    let le = line_end_in(b, row);
    proof {
        lemma_offset_within_row(b@, r.start as int);
        lemma_line_bounds(t, row as nat);
    }
    let end = if le > 0 && le < b.len() && b[le - 1] == 13u8 && b[le] == 10u8 {
        le - 1
    } else {
        le
    };
    if r.start == r.end && r.start <= end && r.start - start <= MAX_LINE_BYTES && end - r.start <= MAX_LINE_BYTES
        && all_blank_in(b, start, end) && (ix == 0 || ns[ix - 1].range().end < start) {
        if let Some(ind) = indent {
            let ib = ind.as_bytes();
            if ib.len() < r.start - start && blank_chars_in(ind) && range_is(b, start, start + ib.len(), ib) {
                let text = joined(ind, "}");
                proof {
                    vstd::utf8::encode_utf8_decode_utf8(text@);
                    crate::utf8_facts::lemma_encode_utf8_concat(ind@, "}"@);
                    reveal_strlit("}");
                    assert(encode_utf8("}"@).len() == 1) by {
                        crate::utf8_facts::lemma_encode_utf8_first("}"@);
                        assert("}"@.drop_first() =~= Seq::<char>::empty());
                    }
                }
                return (Selection::new(start, r.end), text);
            }
        }
    }
    (r, typed.to_owned())
}


/// The brace edits of every selection of a normalized set, and the carets
/// they leave.
fn brace_edits_in(text: &ropey::Rope, ns: &Vec<EditorSelection>, pid: u64, typed: &str, brace_indents: &Vec<Option<String>>) -> (r: (Vec<SelectionEdit>, Vec<(u64, usize, usize)>))
    requires
        selections_within(ns@, rope_bytes(*text)),
        normalized_wf(ns@, pid),
        MAX_LINE_BYTES + typed.spec_bytes().len() <= usize::MAX,
    ensures
        edit_views(r.0@) == brace_plan(rope_bytes(*text), ns@, typed@, indents_view(brace_indents@)),
        r.1@ == plan_carets(ns@, brace_plan(rope_bytes(*text), ns@, typed@, indents_view(brace_indents@))),
        r.0@.len() == ns@.len(),
        edits_in_order(r.0@, rope_bytes(*text).len() as int),
        edits_on_boundaries(r.0@, rope_bytes(*text)),
        0 <= added_upto(r.0@, r.0@.len() as int) <= r.0@.len() * (MAX_LINE_BYTES + typed.spec_bytes().len()),
        valid_identities(caret_ids(r.1@), pid),
        forall|j: int| 0 <= j < r.1@.len() ==> (#[trigger] r.1@[j]).1 <= rope_bytes(*text).len()
            && r.1@[j].2 <= MAX_LINE_BYTES + typed.spec_bytes().len(),
{
    let s = rope_text(text);
    let b = s.as_str().as_bytes();
    let ghost t = rope_chars(*text);
    let ghost indents = indents_view(brace_indents@);
    let ghost plan = brace_plan(b@, ns@, typed@, indents);
    let mut edits: Vec<SelectionEdit> = Vec::new();
    let mut carets: Vec<(u64, usize, usize)> = Vec::new();
    let mut ix: usize = 0;
    while ix < ns.len()
        invariant
            ix <= ns@.len(),
            b@ == rope_bytes(*text),
            b@ == encode_utf8(t),
            selections_within(ns@, b@),
            plan == brace_plan(b@, ns@, typed@, indents),
            indents == indents_view(brace_indents@),
            MAX_LINE_BYTES + typed.spec_bytes().len() <= usize::MAX,
            edit_views(edits@) =~= plan.subrange(0, ix as int),
            carets@ =~= plan_carets(ns@, plan).subrange(0, ix as int),
            edits@.len() == ix,
            forall|i: int| 0 <= i < ix ==> (#[trigger] edits@[i]).range.start <= edits@[i].range.end <= b@.len()
                && char_boundary(b@, edits@[i].range.start as int) && char_boundary(b@, edits@[i].range.end as int)
                && edit_width(edits@[i]) <= MAX_LINE_BYTES + typed.spec_bytes().len(),
            forall|i: int| 0 <= i < ix ==> (#[trigger] edits@[i]).range.end == ns@[i].spec_range().end
                && (edits@[i].range.start == ns@[i].spec_range().start || (i == 0 || ns@[i - 1].spec_range().end < edits@[i].range.start)),
            forall|i: int| 0 <= i < ix ==> (#[trigger] carets@[i]).0 == ns@[i].id && carets@[i].1 == edits@[i].range.start
                && carets@[i].2 == edit_width(edits@[i]),
        decreases ns@.len() - ix,
    {
        let indent: Option<&str> = if ix < brace_indents.len() {
            match &brace_indents[ix] {
                Some(v) => Some(v.as_str()),
                None => None,
            }
        } else {
            None
        };
        assert(opt_str_chars(indent) == indent_for(indents, ix as int));
        let (range, replacement) = brace_edit_in(b, Ghost(t), ns, ix, typed, indent);
        let width = replacement.as_str().len();
        let ghost ghost_text = replacement@;
        let ghost (old_c, old_e) = (carets@, edits@);
        carets.push((ns[ix].id, range.start, width));
        edits.push(SelectionEdit { range, text: replacement });
        assert(edit_width(edits@[ix as int]) == encode_utf8(ghost_text).len());
        assert forall|i: int| 0 <= i <= ix implies (#[trigger] carets@[i]).0 == ns@[i].id && carets@[i].1 == edits@[i].range.start
            && carets@[i].2 == edit_width(edits@[i]) by {
            if i < ix {
                assert(carets@[i] == old_c[i]);
                assert(edits@[i] == old_e[i]);
            }
        }
        ix += 1;
    }
    let ghost e = edits@;
    proof {
        assert(plan.subrange(0, ns@.len() as int) =~= plan);
        assert forall|i: int| 0 <= i < e.len() - 1 implies (#[trigger] e[i]).range.end <= e[i + 1].range.start by {
            assert(ns@[i].spec_range().end <= ns@[i + 1].spec_range().start);
            assert(ns@[i + 1].spec_range().start <= ns@[i + 1].spec_range().end);
        }
        lemma_chain_in_order(e, b@.len() as int);
        lemma_added_bound(e, e.len() as int, MAX_LINE_BYTES + typed.spec_bytes().len());
        lemma_caret_identities(ns@, carets@, pid);
    }
    (edits, carets)
}

impl InputBaseState {
    /// Type `text` at every selection. A typed closing brace at a caret on a
    /// line of blanks dedents that line to the closing indentation offered
    /// for the selection (`brace_indents`, by position in the normalized set);
    /// all other input replaces every selection.
    pub fn replace_multiple(&mut self, text: &str, typed: bool, brace_indents: Vec<Option<String>>) -> (r: bool)
        requires
            old(self).wf(),
            rope_bytes(old(self).text).len() + (old(self).selection_set.secondary@.len() + 2) * (text.spec_bytes().len()
                + MAX_LINE_BYTES + 1) <= usize::MAX,
        ensures
            final(self).wf(),
            (old(self).disabled || old(self).readonly || old(self).ime_marked_range is Some) ==> !r,
            !(old(self).disabled || old(self).readonly || old(self).ime_marked_range is Some) ==> if typed && text@ == "}"@ {
                brace_typed(*old(self), *final(self), text@, indents_view(brace_indents@), r)
            } else {
                edited_selections(*old(self), *final(self), text@, None, r)
            },
            !r ==> *final(self) == *old(self),
    {
        if !typed || !is_kind(text, "}") {
            proof {
                let n = old(self).selection_set.secondary@.len() + 2;
                let t = text.spec_bytes().len();
                assert(n * t <= n * (t + MAX_LINE_BYTES + 1)) by (nonlinear_arith)
                    requires
                        0 <= n,
                        0 <= t,
                ;
            }
            return self.replace_selections(text);
        }
        if !self.is_editable() || self.ime_marked_range.is_some() {
            return false;
        }
        let before = self.selection_snapshot();
        let pid = before.primary_id;
        proof {
            lemma_snapshot_valid(self);
        }
        let normalized = match SelectionSnapshot::normalized(copy_selections(&before.selections), pid, &self.text) {
            Some(n) => n,
            None => {
                return false;
            },
        };
        let ns = normalized.selections;
        proof {
            let sec = old(self).selection_set.secondary@.len();
            let t = text.spec_bytes().len();
            assert(t + MAX_LINE_BYTES + 1 <= (sec + 2) * (t + MAX_LINE_BYTES + 1)) by (nonlinear_arith)
                requires
                    0 <= sec,
                    0 <= t,
            ;
        }
        let (edits, carets) = brace_edits_in(&self.text, &ns, pid, text, &brace_indents);
        proof {
            let sec = old(self).selection_set.secondary@.len();
            let n = edits@.len() as int;
            let w = MAX_LINE_BYTES + text.spec_bytes().len();
            assert(n <= sec + 1);
            assert((n + 1) * w <= (sec + 2) * (text.spec_bytes().len() + MAX_LINE_BYTES + 1)) by (nonlinear_arith)
                requires
                    0 <= n <= sec + 1,
                    w == MAX_LINE_BYTES + text.spec_bytes().len(),
            ;
            assert(n * w + w == (n + 1) * w) by (nonlinear_arith);
        }
        proof {
            crate::multi_edit::lemma_sort_edits_in_order_same(edits@, rope_bytes(self.text).len() as int);
        }
        self.apply_selection_edits(edits, Some(carets))
    }
}

// ---------------------------------------------------------------------------
// Enter at every selection.

/// The line break the text uses: CRLF when its first line ends with one.
pub open spec fn line_break_of(b: Seq<u8>) -> Seq<char> {
    let first = line_end(b, 0);
    if first < b.len() && b[if first >= 1 { first - 1 } else { 0 }] == 13u8 {
        "\r\n"@
    } else {
        "\n"@
    }
}

/// An indentation plan as texts.
pub open spec fn plan_view(p: Option<NewlineIndent>) -> Option<(Seq<char>, Option<Seq<char>>)> {
    match p {
        Some(plan) => Some((plan.indent@, opt_chars(plan.closing_indent))),
        None => None,
    }
}

/// A borrowed indentation plan as texts.
pub open spec fn plan_ref_view(p: Option<&NewlineIndent>) -> Option<(Seq<char>, Option<Seq<char>>)> {
    match p {
        Some(plan) => Some((plan.indent@, opt_chars(plan.closing_indent))),
        None => None,
    }
}

/// The plans offered for the selections, by position.
pub open spec fn plans_view(v: Seq<Option<NewlineIndent>>) -> Seq<Option<(Seq<char>, Option<Seq<char>>)>> {
    v.map_values(|p: Option<NewlineIndent>| plan_view(p))
}

/// The plan offered for selection `ix`, if any.
pub open spec fn plan_for(v: Seq<Option<(Seq<char>, Option<Seq<char>>)>>, ix: int) -> Option<(Seq<char>, Option<Seq<char>>)> {
    if 0 <= ix < v.len() {
        v[ix]
    } else {
        None
    }
}

/// The bytes a plan's texts take.
pub open spec fn plan_bytes(p: Option<(Seq<char>, Option<Seq<char>>)>) -> int {
    match p {
        Some((indent, closing)) => encode_utf8(indent).len() + match closing {
            Some(c) => encode_utf8(c).len() as int,
            None => 0int,
        },
        None => 0,
    }
}

/// The bytes the plans for the first `k` selections take.
pub open spec fn plan_bytes_upto(v: Seq<Option<(Seq<char>, Option<Seq<char>>)>>, k: int) -> int
    decreases k,
{
    if k <= 0 {
        0
    } else {
        plan_bytes_upto(v, k - 1) + plan_bytes(plan_for(v, k - 1))
    }
}

/// The edit Enter makes at selection `ix`: a line break and the plan's
/// indentation (or else the line's own leading blanks) replace the selection;
/// with a closing indentation, the blanks after the selection (up to the next
/// one) go too, and a second line break and that indentation follow. The
/// caret lands after the first indentation.
pub open spec fn newline_edit(b: Seq<u8>, ns: Seq<EditorSelection>, ix: int, plan: Option<(Seq<char>, Option<Seq<char>>)>, brk: Seq<char>) -> (Selection, Seq<char>, int) {
    let r = ns[ix].spec_range();
    let row = row_of(b, r.start as int);
    let ls = line_start(b, row);
    let own = text_of(b, ls, skip_blanks(b, ls, line_end(b, row)));
    let first = brk + match plan {
        Some(p) => p.0,
        None => own,
    };
    let caret = encode_utf8(first).len() as int;
    match plan {
        Some((_, Some(closing))) => {
            let limit = if ix + 1 < ns.len() { ns[ix + 1].spec_range().start as int } else { b.len() as int };
            (Selection { start: r.start, end: skip_blanks(b, r.end as int, limit) as usize }, first + (brk + closing), caret)
        },
        _ => (r, first, caret),
    }
}

/// The Enter edits of every selection, in order.
pub open spec fn newline_plan(b: Seq<u8>, ns: Seq<EditorSelection>, plans: Seq<Option<(Seq<char>, Option<Seq<char>>)>>) -> Seq<(Selection, Seq<char>, int)> {
    Seq::new(ns.len(), |ix: int| newline_edit(b, ns, ix, plan_for(plans, ix), line_break_of(b)))
}

/// Each selection's caret after Enter.
pub open spec fn newline_carets(ns: Seq<EditorSelection>, plan: Seq<(Selection, Seq<char>, int)>) -> Seq<(u64, usize, usize)> {
    Seq::new(ns.len(), |ix: int| (ns[ix].id, plan[ix].0.start, plan[ix].2 as usize))
}

/// The ranges and texts of planned edits.
pub open spec fn plan_edits_view(plan: Seq<(Selection, Seq<char>, int)>) -> Seq<(Selection, Seq<char>)> {
    plan.map_values(|x: (Selection, Seq<char>, int)| (x.0, x.1))
}

/// What Enter does over a normalization of the selections.
pub open spec fn newline_typed(old_e: InputBaseState, new_e: InputBaseState, plans: Seq<Option<(Seq<char>, Option<Seq<char>>)>>, r: bool) -> bool {
    exists|ns: Seq<EditorSelection>|
        #[trigger] is_normalization(ns, snapshot_selections(&old_e), old_e.selection_set.primary_id, rope_chars(old_e.text))
            && {
            let plan = newline_plan(rope_bytes(old_e.text), ns, plans);
            exists|e: Seq<SelectionEdit>|
                #[trigger] edit_views(e) == plan_edits_view(plan) && applied_edits(old_e, new_e, e, Some(newline_carets(ns, plan)), r)
        }
}

/// The plans for the first `k` selections take no more room than all of them.
proof fn lemma_plan_bytes_upto(v: Seq<Option<(Seq<char>, Option<Seq<char>>)>>, k: int)
    requires
        0 <= k,
    ensures
        0 <= plan_bytes_upto(v, k) <= plan_bytes_upto(v, v.len() as int),
    decreases k,
{
    if k > 0 {
        lemma_plan_bytes_upto(v, k - 1);
    }
    if k <= v.len() {
        lemma_plan_bytes_upto_tail(v, k, v.len() as int);
    } else {
        assert(plan_for(v, k - 1) is None);
        if k - 1 <= v.len() {
            lemma_plan_bytes_upto_tail(v, k - 1, v.len() as int);
        }
    }
}

proof fn lemma_plan_bytes_upto_tail(v: Seq<Option<(Seq<char>, Option<Seq<char>>)>>, k: int, m: int)
    requires
        0 <= k <= m,
    ensures
        plan_bytes_upto(v, k) <= plan_bytes_upto(v, m),
    decreases m - k,
{
    if k < m {
        lemma_plan_bytes_upto_tail(v, k, m - 1);
        assert(plan_bytes(plan_for(v, m - 1)) >= 0);
    }
}

/// The added bytes of Enter edits.
proof fn lemma_newline_added(e: Seq<SelectionEdit>, plans: Seq<Option<(Seq<char>, Option<Seq<char>>)>>, k: int, w: int)
    requires
        0 <= k <= e.len(),
        0 <= w,
        forall|i: int| 0 <= i < e.len() ==> edit_width(#[trigger] e[i]) <= w + plan_bytes(plan_for(plans, i)),
    ensures
        0 <= added_upto(e, k) <= k * w + plan_bytes_upto(plans, k),
    decreases k,
{
    if k > 0 {
        lemma_newline_added(e, plans, k - 1, w);
        assert(edit_width(e[k - 1]) <= w + plan_bytes(plan_for(plans, k - 1)));
        assert((k - 1) * w + w == k * w) by (nonlinear_arith);
    }
}

/// The line break the text uses.
fn line_break_in(b: &[u8]) -> (r: String)
    ensures
        r@ == line_break_of(b@),
{
    let first = line_end_in(b, 0);
    let at = if first >= 1 {
        first - 1
    } else {
        0
    };
    proof {
        crate::text::lemma_line_start_from_bounds(b@, 0, 0);
        crate::text::lemma_next_newline_bounds(b@, 0);
    }
    if first < b.len() && b[at] == 13u8 {
        "\r\n".to_owned()
    } else {
        "\n".to_owned()
    }
}

/// The edit Enter makes at selection `ix`.
fn newline_edit_in(
    text: &ropey::Rope,
    b: &[u8],
    ns: &Vec<EditorSelection>,
    ix: usize,
    plan: Option<&NewlineIndent>,
    brk: &str,
) -> (r: (Selection, String, usize))
    requires
        ix < ns@.len(),
        b@ == rope_bytes(*text),
        selections_within(ns@, b@),
        forall|i: int| 0 <= i < ns@.len() - 1 ==> (#[trigger] ns@[i]).spec_range().end <= ns@[i + 1].spec_range().start,
        brk@ == line_break_of(b@),
        b@.len() + 4 + plan_bytes(plan_ref_view(plan)) <= usize::MAX,
    ensures
        (r.0, r.1@, r.2 as int) == newline_edit(b@, ns@, ix as int, plan_ref_view(plan), brk@),
        r.0.start == ns@[ix as int].spec_range().start,
        ns@[ix as int].spec_range().end <= r.0.end <= b@.len(),
        ix + 1 < ns@.len() ==> r.0.end <= ns@[ix + 1].spec_range().start,
        char_boundary(b@, r.0.start as int),
        char_boundary(b@, r.0.end as int),
        encode_utf8(r.1@).len() <= b@.len() + 4 + plan_bytes(plan_ref_view(plan)),
        r.2 <= b@.len() + 4 + plan_bytes(plan_ref_view(plan)),
{
    let ghost t = rope_chars(*text);
    let r = ns[ix].range();
    assert(ns@[ix as int].anchor <= b@.len() && ns@[ix as int].head <= b@.len());
    assert(char_boundary(b@, ns@[ix as int].anchor as int) && char_boundary(b@, ns@[ix as int].head as int));
    let row = newlines_before_in(b, r.start);
    let ls = line_start_in(b, row);
    let le = line_end_in(b, row);
    proof {
        lemma_offset_within_row(b@, r.start as int);
        lemma_line_bounds(t, row as nat);
    }
    let own_end = skip_blanks_in(b, ls, le);
    proof {
        lemma_skip_on_boundary(t, ls as int, le as int);
        reveal_strlit("\r\n");
        reveal_strlit("\n");
        assert(encode_utf8(brk@).len() <= 2) by {
            if brk@ == "\r\n"@ {
                crate::utf8_facts::lemma_encode_utf8_first(brk@);
                crate::utf8_facts::lemma_encode_utf8_first(brk@.drop_first());
                assert(brk@.drop_first().drop_first() =~= Seq::<char>::empty());
            } else {
                crate::utf8_facts::lemma_encode_utf8_first(brk@);
                assert(brk@.drop_first() =~= Seq::<char>::empty());
            }
        }
    }
    let first = match plan {
        Some(p) => joined(brk, p.indent.as_str()),
        None => {
            let own = text_in(text, ls, own_end);
            joined(brk, own.as_str())
        },
    };
    proof {
        match plan {
            Some(p) => crate::utf8_facts::lemma_encode_utf8_concat(brk@, p.indent@),
            None => crate::utf8_facts::lemma_encode_utf8_concat(brk@, text_of(b@, ls as int, own_end as int)),
        }
    }
    let caret = first.as_str().len();
    match plan {
        Some(p) => match &p.closing_indent {
            Some(closing) => {
                let limit = if ix < ns.len() - 1 {
                    ns[ix + 1].range().start
                } else {
                    b.len()
                };
                proof {
                    if ix + 1 < ns@.len() {
                        assert(ns@[ix + 1].anchor <= b@.len() && ns@[ix + 1].head <= b@.len());
                        assert(char_boundary(b@, ns@[ix + 1].anchor as int) && char_boundary(b@, ns@[ix + 1].head as int));
                        assert(ns@[ix as int].spec_range().end <= ns@[ix + 1].spec_range().start);
                    }
                    lemma_skip_on_boundary(t, r.end as int, limit as int);
                }
                let end = skip_blanks_in(b, r.end, limit);
                let second = joined(brk, closing.as_str());
                let all = joined(first.as_str(), second.as_str());
                proof {
                    crate::utf8_facts::lemma_encode_utf8_concat(brk@, closing@);
                    crate::utf8_facts::lemma_encode_utf8_concat(first@, second@);
                }
                (Selection::new(r.start, end), all, caret)
            },
            None => (r, first, caret),
        },
        None => (r, first, caret),
    }
}

/// The Enter edits of every selection of a normalized set, and the carets
/// they leave.
fn newline_edits_in(text: &ropey::Rope, ns: &Vec<EditorSelection>, pid: u64, plans: &Vec<Option<NewlineIndent>>) -> (r: (Vec<SelectionEdit>, Vec<(u64, usize, usize)>))
    requires
        selections_within(ns@, rope_bytes(*text)),
        normalized_wf(ns@, pid),
        rope_bytes(*text).len() + 4 + plan_bytes_upto(plans_view(plans@), plans@.len() as int) <= usize::MAX,
    ensures
        ({
            let plan = newline_plan(rope_bytes(*text), ns@, plans_view(plans@));
            &&& edit_views(r.0@) == plan_edits_view(plan)
            &&& r.1@ == newline_carets(ns@, plan)
        }),
        r.0@.len() == ns@.len(),
        edits_in_order(r.0@, rope_bytes(*text).len() as int),
        edits_on_boundaries(r.0@, rope_bytes(*text)),
        0 <= added_upto(r.0@, r.0@.len() as int) <= r.0@.len() * (rope_bytes(*text).len() + 4) + plan_bytes_upto(
            plans_view(plans@),
            r.0@.len() as int,
        ),
        valid_identities(caret_ids(r.1@), pid),
        forall|j: int| 0 <= j < r.1@.len() ==> (#[trigger] r.1@[j]).1 <= rope_bytes(*text).len() && r.1@[j].2
            <= rope_bytes(*text).len() + 4 + plan_bytes_upto(plans_view(plans@), plans@.len() as int),
{
    let s = rope_text(text);
    let b = s.as_str().as_bytes();
    let brk = line_break_in(b);
    let ghost pv = plans_view(plans@);
    let ghost plan = newline_plan(b@, ns@, pv);
    let ghost total = plan_bytes_upto(pv, pv.len() as int);
    let ghost w = b@.len() + 4;
    let mut edits: Vec<SelectionEdit> = Vec::new();
    let mut carets: Vec<(u64, usize, usize)> = Vec::new();
    let mut ix: usize = 0;
    while ix < ns.len()
        invariant
            ix <= ns@.len(),
            b@ == rope_bytes(*text),
            brk@ == line_break_of(b@),
            selections_within(ns@, b@),
            normalized_wf(ns@, pid),
            pv == plans_view(plans@),
            plan == newline_plan(b@, ns@, pv),
            total == plan_bytes_upto(pv, pv.len() as int),
            w == b@.len() + 4,
            b@.len() + 4 + total <= usize::MAX,
            edit_views(edits@) =~= plan_edits_view(plan).subrange(0, ix as int),
            carets@ =~= newline_carets(ns@, plan).subrange(0, ix as int),
            edits@.len() == ix,
            forall|i: int| 0 <= i < ix ==> (#[trigger] edits@[i]).range.start <= edits@[i].range.end <= b@.len()
                && char_boundary(b@, edits@[i].range.start as int) && char_boundary(b@, edits@[i].range.end as int)
                && edit_width(edits@[i]) <= w + plan_bytes(plan_for(pv, i)),
            forall|i: int| 0 <= i < ix ==> (#[trigger] edits@[i]).range.start == ns@[i].spec_range().start
                && (i + 1 < ns@.len() ==> edits@[i].range.end <= ns@[i + 1].spec_range().start),
            forall|i: int| 0 <= i < ix ==> (#[trigger] carets@[i]).0 == ns@[i].id && carets@[i].1 == edits@[i].range.start
                && carets@[i].2 <= w + total,
        decreases ns@.len() - ix,
    {
        let plan_ix: Option<&NewlineIndent> = if ix < plans.len() {
            match &plans[ix] {
                Some(p) => Some(p),
                None => None,
            }
        } else {
            None
        };
        assert(plan_ref_view(plan_ix) == plan_for(pv, ix as int));
        proof {
            lemma_plan_bytes_upto(pv, ix + 1);
            lemma_plan_bytes_upto(pv, ix as int);
        }
        assert forall|i: int| 0 <= i < ns@.len() - 1 implies (#[trigger] ns@[i]).spec_range().end <= ns@[i + 1].spec_range().start by {
            assert(ns@[i].spec_range().end <= ns@[i + 1].spec_range().start);
        }
        let (range, replacement, caret) = newline_edit_in(text, b, ns, ix, plan_ix, brk.as_str());
        let ghost ghost_text = replacement@;
        let ghost (old_c, old_e) = (carets@, edits@);
        carets.push((ns[ix].id, range.start, caret));
        edits.push(SelectionEdit { range, text: replacement });
        assert(edit_width(edits@[ix as int]) == encode_utf8(ghost_text).len());
        assert forall|i: int| 0 <= i <= ix implies (#[trigger] carets@[i]).0 == ns@[i].id && carets@[i].1 == edits@[i].range.start
            && carets@[i].2 <= w + total by {
            if i < ix {
                assert(carets@[i] == old_c[i]);
                assert(edits@[i] == old_e[i]);
            }
        }
        assert forall|i: int| 0 <= i <= ix implies (#[trigger] edits@[i]).range.start <= edits@[i].range.end <= b@.len()
            && char_boundary(b@, edits@[i].range.start as int) && char_boundary(b@, edits@[i].range.end as int)
            && edit_width(edits@[i]) <= w + plan_bytes(plan_for(pv, i)) by {
            if i < ix {
                assert(edits@[i] == old_e[i]);
            }
        }
        assert forall|i: int| 0 <= i <= ix implies (#[trigger] edits@[i]).range.start == ns@[i].spec_range().start
            && (i + 1 < ns@.len() ==> edits@[i].range.end <= ns@[i + 1].spec_range().start) by {
            if i < ix {
                assert(edits@[i] == old_e[i]);
            }
        }
        ix += 1;
    }
    let ghost e = edits@;
    proof {
        assert(plan_edits_view(plan).subrange(0, ns@.len() as int) =~= plan_edits_view(plan));
        assert(newline_carets(ns@, plan).subrange(0, ns@.len() as int) =~= newline_carets(ns@, plan));
        assert forall|i: int| 0 <= i < e.len() - 1 implies (#[trigger] e[i]).range.end <= e[i + 1].range.start by {
            assert(e[i + 1].range.start == ns@[i + 1].spec_range().start);
        }
        lemma_chain_in_order(e, b@.len() as int);
        lemma_newline_added(e, pv, e.len() as int, w as int);
        lemma_caret_identities(ns@, carets@, pid);
    }
    (edits, carets)
}

impl InputBaseState {
    /// Enter at every selection, with the indentation plan offered for each
    /// (`plans`, by position in the normalized set; where none is offered,
    /// the line's own leading blanks), in the line break the text uses.
    pub fn newline_multiple(&mut self, plans: Vec<Option<NewlineIndent>>) -> (r: bool)
        requires
            old(self).wf(),
            rope_bytes(old(self).text).len() + (old(self).selection_set.secondary@.len() + 2) * (rope_bytes(old(self).text).len()
                + 4) + 2 * plan_bytes_upto(plans_view(plans@), plans@.len() as int) <= usize::MAX,
        ensures
            final(self).wf(),
            (old(self).disabled || old(self).readonly || old(self).ime_marked_range is Some) ==> !r,
            !(old(self).disabled || old(self).readonly || old(self).ime_marked_range is Some) ==> newline_typed(
                *old(self),
                *final(self),
                plans_view(plans@),
                r,
            ),
            !r ==> *final(self) == *old(self),
    {
        if !self.is_editable() || self.ime_marked_range.is_some() {
            return false;
        }
        let before = self.selection_snapshot();
        let pid = before.primary_id;
        proof {
            lemma_snapshot_valid(self);
        }
        let normalized = match SelectionSnapshot::normalized(copy_selections(&before.selections), pid, &self.text) {
            Some(n) => n,
            None => {
                return false;
            },
        };
        let ns = normalized.selections;
        let ghost len = rope_bytes(self.text).len();
        let ghost total = plan_bytes_upto(plans_view(plans@), plans@.len() as int);
        proof {
            lemma_plan_bytes_upto(plans_view(plans@), 0);
            let sec = old(self).selection_set.secondary@.len();
            assert(len + 4 <= (sec + 2) * (len + 4)) by (nonlinear_arith)
                requires
                    0 <= sec,
                    0 <= len,
            ;
        }
        let (edits, carets) = newline_edits_in(&self.text, &ns, pid, &plans);
        proof {
            let sec = old(self).selection_set.secondary@.len();
            let n = edits@.len() as int;
            let w = len + 4;
            lemma_plan_bytes_upto(plans_view(plans@), n);
            assert(n <= sec + 1);
            assert((n + 1) * w <= (sec + 2) * w) by (nonlinear_arith)
                requires
                    0 <= n <= sec + 1,
                    0 <= w,
            ;
            assert(n * w + w == (n + 1) * w) by (nonlinear_arith);
        }
        proof {
            crate::multi_edit::lemma_sort_edits_in_order_same(edits@, rope_bytes(self.text).len() as int);
        }
        self.apply_selection_edits(edits, Some(carets))
    }
}

// ---------------------------------------------------------------------------
// Indenting and outdenting lines.

/// The edit that indents (or outdents) one row: the unit inserted at the
/// line's start, or, to outdent, the unit removed where the line starts with it.
pub open spec fn row_indent_edit(b: Seq<u8>, row: usize, unit: Seq<char>, outdent: bool) -> Option<(Selection, Seq<char>)> {
    let start = line_start(b, row as nat);
    let n = encode_utf8(unit).len();
    if outdent {
        if start + n <= b.len() && b.subrange(start, start + n) == encode_utf8(unit) {
            Some((Selection { start: start as usize, end: (start + n) as usize }, Seq::empty()))
        } else {
            None
        }
    } else {
        Some((Selection { start: start as usize, end: start as usize }, unit))
    }
}

/// The edits of the rows, in order.
pub open spec fn indent_plan(b: Seq<u8>, rows: Seq<usize>, unit: Seq<char>, outdent: bool) -> Seq<(Selection, Seq<char>)>
    decreases rows.len(),
{
    if rows.len() == 0 {
        Seq::empty()
    } else {
        let rest = indent_plan(b, rows.drop_last(), unit, outdent);
        match row_indent_edit(b, rows.last(), unit, outdent) {
            Some(e) => rest.push(e),
            None => rest,
        }
    }
}

/// The rows the selections cover, ascending.
pub open spec fn covered_rows(rows: Seq<usize>, b: Seq<u8>, sels: Seq<EditorSelection>) -> bool {
    &&& forall|i: int, j: int| 0 <= i < j < rows.len() ==> rows[i] < rows[j]
    &&& forall|r: int| rows.contains(r as usize) && 0 <= r <= usize::MAX <==> row_covered(b, sels, r) && 0 <= r <= usize::MAX
}

/// Every selection is a caret.
pub open spec fn all_carets(s: Seq<EditorSelection>) -> bool {
    forall|i: int| 0 <= i < s.len() ==> (#[trigger] s[i]).spec_range().start == s[i].spec_range().end
}

/// What indenting (or outdenting) the covered rows does.
pub open spec fn rows_indented(old_e: InputBaseState, new_e: InputBaseState, unit: Seq<char>, outdent: bool, r: bool) -> bool {
    exists|rows: Seq<usize>|
        #[trigger] covered_rows(rows, rope_bytes(old_e.text), snapshot_selections(&old_e)) && exists|e: Seq<SelectionEdit>|
            #[trigger] edit_views(e) == indent_plan(rope_bytes(old_e.text), rows, unit, outdent) && applied_edits(
                old_e,
                new_e,
                e,
                None,
                r,
            )
}

/// Strictly ascending rows within the text are no more than its rows.
proof fn lemma_rows_count(rows: Seq<usize>, m: int)
    requires
        0 <= m,
        forall|i: int, j: int| 0 <= i < j < rows.len() ==> rows[i] < rows[j],
        forall|i: int| 0 <= i < rows.len() ==> rows[i] <= m,
    ensures
        rows.len() <= m + 1,
{
    if rows.len() > 0 {
        assert forall|i: int| 0 <= i < rows.len() implies rows[i] >= i by {
            lemma_ascending_at_least(rows, i);
        }
        assert(rows[rows.len() - 1] >= rows.len() - 1);
        assert(rows[rows.len() - 1] <= m);
    }
}

proof fn lemma_ascending_at_least(rows: Seq<usize>, i: int)
    requires
        0 <= i < rows.len(),
        forall|a: int, c: int| 0 <= a < c < rows.len() ==> rows[a] < rows[c],
    ensures
        rows[i] >= i,
    decreases i,
{
    if i > 0 {
        lemma_ascending_at_least(rows, i - 1);
        assert(rows[i - 1] < rows[i]);
    }
}

/// The edits that indent (or outdent) the rows.
fn indent_edits_in(text: &ropey::Rope, rows: &Vec<usize>, unit: &str, outdent: bool) -> (r: Vec<SelectionEdit>)
    requires
        forall|i: int, j: int| 0 <= i < j < rows@.len() ==> rows@[i] < rows@[j],
        blank_chars(unit@),
    ensures
        edit_views(r@) == indent_plan(rope_bytes(*text), rows@, unit@, outdent),
        r@.len() <= rows@.len(),
        edits_in_order(r@, rope_bytes(*text).len() as int),
        edits_on_boundaries(r@, rope_bytes(*text)),
        forall|i: int| 0 <= i < r@.len() ==> edit_width(#[trigger] r@[i]) <= unit.spec_bytes().len(),
{
    let s = rope_text(text);
    let b = s.as_str().as_bytes();
    let ghost t = rope_chars(*text);
    let ub = unit.as_bytes();
    let n = ub.len();
    proof {
        assert(vstd::utf8::is_ascii_chars(unit@));
        vstd::utf8::is_ascii_chars_encode_utf8(unit@);
        assert forall|k: int| 0 <= k < n implies is_blank(#[trigger] ub@[k]) by {
            assert(unit@[k] == ' ' || unit@[k] == '\t');
            assert(unit@[k] as u8 == ub@[k]);
        }
    }
    let mut edits: Vec<SelectionEdit> = Vec::new();
    let mut ix: usize = 0;
    while ix < rows.len()
        invariant
            ix <= rows@.len(),
            b@ == rope_bytes(*text),
            b@ == encode_utf8(t),
            ub@ == encode_utf8(unit@),
            n == ub@.len(),
            forall|k: int| 0 <= k < n ==> is_blank(#[trigger] ub@[k]),
            forall|i: int, j: int| 0 <= i < j < rows@.len() ==> rows@[i] < rows@[j],
            edit_views(edits@) == indent_plan(b@, rows@.subrange(0, ix as int), unit@, outdent),
            edits@.len() <= ix,
            edits_in_order(edits@, b@.len() as int),
            edits_on_boundaries(edits@, b@),
            forall|i: int| 0 <= i < edits@.len() ==> edit_width(#[trigger] edits@[i]) <= n,
            edits@.len() > 0 && ix < rows@.len() ==> edits@.last().range.end <= line_start(b@, rows@[ix as int] as nat),
        decreases rows@.len() - ix,
    {
        let row = rows[ix];
        let start = line_start_in(b, row);
        let ghost pre = rows@.subrange(0, ix + 1);
        assert(pre.drop_last() =~= rows@.subrange(0, ix as int));
        assert(pre.last() == row);
        proof {
            lemma_line_bounds(t, row as nat);
            if ix + 1 < rows@.len() {
                assert(rows@[ix as int] < rows@[ix + 1]);
                crate::text::lemma_line_end_before(b@, row as nat, rows@[ix + 1] as nat);
                crate::text::lemma_line_start_monotone(b@, row as nat, rows@[ix + 1] as nat);
            }
        }
        let ghost old_e = edits@;
        if outdent {
            if n <= b.len() - start && range_is(b, start, start + n, ub) {
                proof {
                    crate::text::lemma_next_newline_bounds(b@, start as int);
                    let nn = crate::text::next_newline(b@, start as int);
                    if nn < start + n {
                        assert(b@[nn] == b@.subrange(start as int, start + n)[nn - start]);
                        assert(is_blank(ub@[nn - start]));
                    }
                    if n > 0 {
                        assert(b@[start + n - 1] == ub@[n - 1]);
                        assert(is_blank(ub@[n - 1]));
                        crate::utf8_facts::lemma_after_ascii(t, start + n - 1);
                    }
                }
                edits.push(SelectionEdit { range: Selection::new(start, start + n), text: String::new() });
            }
        } else {
            edits.push(SelectionEdit { range: Selection::new(start, start), text: unit.to_owned() });
        }
        proof {
            assert(edit_views(edits@) =~= indent_plan(b@, pre, unit@, outdent));
            if edits@.len() > old_e.len() {
                assert(edits@ == old_e.push(edits@.last()));
                assert forall|i: int, j: int| 0 <= i < j < edits@.len() implies (#[trigger] edits@[i]).range.end <= (
                #[trigger] edits@[j]).range.start by {
                    if j < old_e.len() {
                        assert(edits@[i] == old_e[i] && edits@[j] == old_e[j]);
                    } else {
                        assert(edits@[i] == old_e[i]);
                        if i < old_e.len() - 1 {
                            assert(old_e[i].range.end <= old_e[old_e.len() - 1].range.start);
                        }
                    }
                }
            }
        }
        ix += 1;
    }
    assert(rows@.subrange(0, rows@.len() as int) =~= rows@);
    edits
}

impl InputBaseState {
    /// Indent (or outdent) by one unit. Carets only, indenting and not as a
    /// block: the unit replaces every caret. Otherwise every row any selection
    /// covers gains the unit at its start, or, to outdent, loses it where it
    /// starts with it.
    pub fn indent_multiple(&mut self, unit: &str, outdent: bool, block: bool) -> (r: bool)
        requires
            old(self).wf(),
            blank_chars(unit@),
            rope_bytes(old(self).text).len() + (rope_bytes(old(self).text).len() + old(self).selection_set.secondary@.len() + 3)
                * unit.spec_bytes().len() <= usize::MAX,
        ensures
            final(self).wf(),
            (old(self).disabled || old(self).readonly || old(self).ime_marked_range is Some) ==> !r,
            !(old(self).disabled || old(self).readonly || old(self).ime_marked_range is Some) ==> if !outdent && !block
                && all_carets(snapshot_selections(old(self))) {
                edited_selections(*old(self), *final(self), unit@, None, r)
            } else {
                rows_indented(*old(self), *final(self), unit@, outdent, r)
            },
            !r ==> *final(self) == *old(self),
    {
        let ghost len = rope_bytes(self.text).len();
        let ghost w = unit.spec_bytes().len();
        if !outdent && !block {
            let snapshot = self.selection_snapshot();
            let mut carets_only = true;
            let mut i: usize = 0;
            while i < snapshot.selections.len()
                invariant
                    i <= snapshot.selections@.len(),
                    carets_only == forall|k: int| 0 <= k < i ==> (#[trigger] snapshot.selections@[k]).spec_range().start
                        == snapshot.selections@[k].spec_range().end,
                decreases snapshot.selections@.len() - i,
            {
                let range = snapshot.selections[i].range();
                if range.start != range.end {
                    carets_only = false;
                }
                i += 1;
            }
            assert(snapshot.selections@ == snapshot_selections(self));
            assert(carets_only == all_carets(snapshot_selections(self)));
            if carets_only {
                proof {
                    let sec = old(self).selection_set.secondary@.len();
                    assert((sec + 2) * w <= (len + sec + 3) * w) by (nonlinear_arith)
                        requires
                            0 <= w,
                            0 <= len,
                            0 <= sec,
                    ;
                }
                return self.replace_selections(unit);
            }
        }
        let rows = self.selected_logical_lines();
        assert(covered_rows(rows@, rope_bytes(self.text), snapshot_selections(self)));
        let edits = indent_edits_in(&self.text, &rows, unit, outdent);
        proof {
            let bytes = rope_bytes(self.text);
            assert forall|i: int| 0 <= i < rows@.len() implies rows@[i] <= len by {
                let r = rows@[i] as int;
                assert(rows@.contains(rows@[i]));
                assert(row_covered(bytes, snapshot_selections(self), r));
                let k = choose|k: int|
                    0 <= k < snapshot_selections(self).len() && row_of(bytes, (#[trigger] snapshot_selections(self)[k]).spec_range().start as int) <= r
                        <= crate::comment::last_covered_row(
                        bytes,
                        snapshot_selections(self)[k].spec_range().start as int,
                        snapshot_selections(self)[k].spec_range().end as int,
                    );
                let e = snapshot_selections(self)[k].spec_range().end as int;
                crate::text::lemma_newlines_before_bound(bytes, if e <= bytes.len() { e } else { bytes.len() as int });
            }
            lemma_rows_count(rows@, len as int);
            lemma_added_bound(edits@, edits@.len() as int, w as int);
            let m = edits@.len() as int;
            let sec = old(self).selection_set.secondary@.len();
            assert(m * w <= (len + sec + 3) * w) by (nonlinear_arith)
                requires
                    0 <= m <= len + 1,
                    0 <= w,
                    0 <= sec,
            ;
        }
        proof {
            crate::multi_edit::lemma_sort_edits_in_order_same(edits@, rope_bytes(self.text).len() as int);
        }
        self.apply_selection_edits(edits, None)
    }
}

} // verus!
