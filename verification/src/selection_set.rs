//! Normalization of a requested selection set: grapheme-aligned, ordered and
//! nonoverlapping, with unique identities.
use crate::grapheme::{ceil_in, ceil_spec, floor_in, floor_spec, grapheme_boundary};
use crate::selection::{max_offset, min_offset, EditorSelection, Selection, SelectionSnapshot};
use crate::text::{char_boundary, clip_left, clip_right, lemma_clip_left_bounds, lemma_clip_right_bounds, rope_bytes, rope_chars, rope_text};
use vstd::string::StringSliceAdditionalSpecFns;
use vstd::utf8::encode_utf8;
use ropey::Rope;
use std::collections::HashSet;
use vstd::prelude::*;

verus! {

broadcast use vstd::std_specs::hash::group_hash_axioms;

/// Selections are ordered by range start, then range end, then identity.
pub open spec fn key_le(a: EditorSelection, b: EditorSelection) -> bool {
    let ra = a.spec_range();
    let rb = b.spec_range();
    ||| ra.start < rb.start
    ||| ra.start == rb.start && ra.end < rb.end
    ||| ra.start == rb.start && ra.end == rb.end && a.id <= b.id
}

pub open spec fn sorted_by_key(s: Seq<EditorSelection>) -> bool {
    forall|i: int, j: int| 0 <= i < j < s.len() ==> key_le(#[trigger] s[i], #[trigger] s[j])
}

/// A request names at least one selection, no identity twice, and the primary.
pub open spec fn valid_identities(s: Seq<EditorSelection>, primary_id: u64) -> bool {
    &&& s.len() > 0
    &&& forall|i: int, j: int| 0 <= i < j < s.len() ==> (#[trigger] s[i]).id != (#[trigger] s[j]).id
    &&& exists|i: int| 0 <= i < s.len() && (#[trigger] s[i]).id == primary_id
}

/// A selection whose range start moves to the grapheme floor and whose
/// nonempty end moves to the grapheme ceiling, keeping its direction.
pub open spec fn snap_selection(s: EditorSelection, text: Seq<char>) -> EditorSelection {
    let r = s.spec_range();
    let start = floor_spec(text, r.start as int) as usize;
    let end = if r.start == r.end {
        start
    } else {
        ceil_spec(text, r.end as int) as usize
    };
    if s.anchor > s.head {
        EditorSelection { anchor: end, head: start, ..s }
    } else {
        EditorSelection { anchor: start, head: end, ..s }
    }
}

pub open spec fn snap_all(s: Seq<EditorSelection>, text: Seq<char>) -> Seq<EditorSelection> {
    s.map_values(|x: EditorSelection| snap_selection(x, text))
}

/// Two ordered ranges overlap, or touch where at least one of them is a caret.
pub open spec fn ranges_merge(a: Selection, b: Selection) -> bool {
    b.start < a.end || (b.start == a.end && (a.start == a.end || b.start == b.end))
}

/// Add the next selection (in order) to the merged prefix.
pub open spec fn merge_step(acc: Seq<EditorSelection>, b: EditorSelection, primary_id: u64) -> Seq<
    EditorSelection,
> {
    if acc.len() > 0 && ranges_merge(acc.last().spec_range(), b.spec_range()) {
        let a = acc.last();
        let ra = a.spec_range();
        let end = max_offset(ra.end, b.spec_range().end);
        let p = if b.id == primary_id || (a.id != primary_id && b.id < a.id) {
            b
        } else {
            a
        };
        let reversed = p.anchor > p.head;
        acc.update(
            acc.len() - 1,
            EditorSelection {
                anchor: if reversed { end } else { ra.start },
                head: if reversed { ra.start } else { end },
                ..p
            },
        )
    } else {
        acc.push(b)
    }
}

/// Merge a whole ordered sequence, left to right.
pub open spec fn merge_all(s: Seq<EditorSelection>, primary_id: u64) -> Seq<EditorSelection>
    decreases s.len(),
{
    if s.len() == 0 {
        Seq::empty()
    } else {
        merge_step(merge_all(s.drop_last(), primary_id), s.last(), primary_id)
    }
}

/// The set of identities of a sequence of selections.
pub open spec fn id_set(s: Seq<EditorSelection>) -> Set<u64> {
    Set::new(|id: u64| exists|i: int| 0 <= i < s.len() && (#[trigger] s[i]).id == id)
}

/// The documented shape of a normalized selection set: nonempty, in document
/// order, nonoverlapping (touching only between two nonempty ranges), with
/// distinct identities that include the primary.
pub open spec fn normalized_wf(s: Seq<EditorSelection>, primary_id: u64) -> bool {
    &&& s.len() > 0
    &&& forall|i: int| 0 <= i < s.len() - 1 ==> {
        let a = (#[trigger] s[i]).spec_range();
        let b = s[i + 1].spec_range();
        a.end < b.start || (a.end == b.start && a.start < a.end && b.start < b.end)
    }
    &&& forall|i: int, j: int| 0 <= i < j < s.len() ==> (#[trigger] s[i]).id != (#[trigger] s[j]).id
    &&& exists|i: int| 0 <= i < s.len() && (#[trigger] s[i]).id == primary_id
}

/// `slice::sort_by_key` with the key `(range start, range end, id)`: the result
/// is a permutation of the input in ascending key order.
#[verifier::external_body]
fn sort_by_range_and_id(v: &mut Vec<EditorSelection>)
    ensures
        final(v)@.to_multiset() == old(v)@.to_multiset(),
        final(v)@.len() == old(v)@.len(),
        sorted_by_key(final(v)@),
{
    v.sort_by_key(
        |s: &EditorSelection|
            {
                let r = s.range();
                (r.start, r.end, s.id)
            },
    );
}

/// The invariant of the merge pass over an ordered prefix.
pub open spec fn merge_inv(
    merged: Seq<EditorSelection>,
    processed: Seq<EditorSelection>,
    primary_id: u64,
) -> bool {
    &&& merged.len() > 0 <==> processed.len() > 0
    &&& forall|i: int| 0 <= i < merged.len() - 1 ==> {
        let a = (#[trigger] merged[i]).spec_range();
        let b = merged[i + 1].spec_range();
        a.end < b.start || (a.end == b.start && a.start < a.end && b.start < b.end)
    }
    &&& forall|i: int, j: int|
        0 <= i < j < merged.len() ==> (#[trigger] merged[i]).id != (#[trigger] merged[j]).id
    &&& forall|i: int|
        0 <= i < merged.len() ==> exists|k: int|
            0 <= k < processed.len() && (#[trigger] processed[k]).id == (#[trigger] merged[i]).id
    &&& (exists|k: int| 0 <= k < processed.len() && (#[trigger] processed[k]).id == primary_id)
        ==> (exists|i: int| 0 <= i < merged.len() && (#[trigger] merged[i]).id == primary_id)
    &&& processed.len() > 0 ==> merged.last().spec_range().start <= processed.last().spec_range().start
    &&& processed.len() > 0 ==> merged.last().spec_range().end >= processed.last().spec_range().end
}

proof fn lemma_merge_step(
    merged: Seq<EditorSelection>,
    processed: Seq<EditorSelection>,
    b: EditorSelection,
    primary_id: u64,
)
    requires
        merge_inv(merged, processed, primary_id),
        processed.len() > 0 ==> key_le(processed.last(), b),
        forall|k: int| 0 <= k < processed.len() ==> (#[trigger] processed[k]).id != b.id,
    ensures
        merge_inv(merge_step(merged, b, primary_id), processed.push(b), primary_id),
{
    let r = merge_step(merged, b, primary_id);
    let p2 = processed.push(b);
    assert(p2.last() == b);
    assert forall|k: int| 0 <= k < processed.len() implies #[trigger] p2[k] == processed[k] by {}
    if merged.len() > 0 && ranges_merge(merged.last().spec_range(), b.spec_range()) {
        let a = merged.last();
        let n = merged.len() - 1;
        let sel = r[n];
        // identities of the merged prefix stay among the processed ones
        assert forall|i: int| 0 <= i < r.len() implies exists|k: int|
            0 <= k < p2.len() && (#[trigger] p2[k]).id == (#[trigger] r[i]).id by {
            if i < n {
                assert(r[i] == merged[i]);
                let k = choose|k: int| 0 <= k < processed.len() && (#[trigger] processed[k]).id == merged[i].id;
                assert(p2[k].id == r[i].id);
            } else {
                if sel.id == b.id {
                    assert(p2[p2.len() - 1].id == r[i].id);
                } else {
                    let k = choose|k: int| 0 <= k < processed.len() && (#[trigger] processed[k]).id == merged[n].id;
                    assert(p2[k].id == r[i].id);
                }
            }
        }
        assert forall|i: int, j: int| 0 <= i < j < r.len() implies (#[trigger] r[i]).id != (#[trigger] r[j]).id by {
            if j == n {
                assert(r[i] == merged[i]);
                if sel.id == b.id {
                    let k = choose|k: int| 0 <= k < processed.len() && (#[trigger] processed[k]).id == merged[i].id;
                    assert(processed[k].id != b.id);
                } else {
                    assert(merged[i].id != merged[n].id);
                }
            } else {
                assert(r[i] == merged[i]);
                assert(r[j] == merged[j]);
            }
        }
        assert forall|i: int| 0 <= i < r.len() - 1 implies {
            let x = (#[trigger] r[i]).spec_range();
            let y = r[i + 1].spec_range();
            x.end < y.start || (x.end == y.start && x.start < x.end && y.start < y.end)
        } by {
            assert(r[i] == merged[i]);
            if i + 1 < n {
                assert(r[i + 1] == merged[i + 1]);
            } else {
                assert(sel.spec_range().start == a.spec_range().start);
                assert(sel.spec_range().end >= a.spec_range().end);
            }
        }
        if exists|k: int| 0 <= k < p2.len() && (#[trigger] p2[k]).id == primary_id {
            let k = choose|k: int| 0 <= k < p2.len() && (#[trigger] p2[k]).id == primary_id;
            if k < processed.len() as int {
                assert(processed[k].id == primary_id);
                let i = choose|i: int| 0 <= i < merged.len() && (#[trigger] merged[i]).id == primary_id;
                if i < n {
                    assert(r[i] == merged[i]);
                } else {
                    assert(r[n].id == primary_id);
                }
            } else {
                assert(b.id == primary_id);
                assert(r[n].id == primary_id);
            }
        }
    } else {
        assert forall|i: int| 0 <= i < r.len() implies exists|k: int|
            0 <= k < p2.len() && (#[trigger] p2[k]).id == (#[trigger] r[i]).id by {
            if i < merged.len() {
                assert(r[i] == merged[i]);
                let k = choose|k: int| 0 <= k < processed.len() && (#[trigger] processed[k]).id == merged[i].id;
                assert(p2[k].id == r[i].id);
            } else {
                assert(p2[p2.len() - 1].id == r[i].id);
            }
        }
        assert forall|i: int, j: int| 0 <= i < j < r.len() implies (#[trigger] r[i]).id != (#[trigger] r[j]).id by {
            assert(r[i] == merged[i]);
            if j == merged.len() {
                let k = choose|k: int| 0 <= k < processed.len() && (#[trigger] processed[k]).id == merged[i].id;
                assert(processed[k].id != b.id);
            } else {
                assert(r[j] == merged[j]);
            }
        }
        if merged.len() > 0 {
            let a = merged.last();
            assert(key_le(processed.last(), b));
            assert(a.spec_range().start <= b.spec_range().start);
        }
        assert forall|i: int| 0 <= i < r.len() - 1 implies {
            let x = (#[trigger] r[i]).spec_range();
            let y = r[i + 1].spec_range();
            x.end < y.start || (x.end == y.start && x.start < x.end && y.start < y.end)
        } by {
            assert(r[i] == merged[i]);
            if i + 1 < merged.len() {
                assert(r[i + 1] == merged[i + 1]);
            }
        }
        if exists|k: int| 0 <= k < p2.len() && (#[trigger] p2[k]).id == primary_id {
            let k = choose|k: int| 0 <= k < p2.len() && (#[trigger] p2[k]).id == primary_id;
            if k < processed.len() as int {
                assert(processed[k].id == primary_id);
                let i = choose|i: int| 0 <= i < merged.len() && (#[trigger] merged[i]).id == primary_id;
                assert(r[i] == merged[i]);
            } else {
                assert(r[r.len() - 1].id == primary_id);
            }
        }
    }
}

/// Merging an ordered sequence with distinct identities yields a normalized set
/// that keeps the primary.
pub proof fn lemma_merge_all_wf(s: Seq<EditorSelection>, primary_id: u64)
    requires
        sorted_by_key(s),
        valid_identities(s, primary_id),
    ensures
        normalized_wf(merge_all(s, primary_id), primary_id),
{
    lemma_merge_all_inv(s, primary_id);
    let k = choose|k: int| 0 <= k < s.len() && (#[trigger] s[k]).id == primary_id;
    assert(s[k].id == primary_id);
}

proof fn lemma_merge_all_inv(s: Seq<EditorSelection>, primary_id: u64)
    requires
        sorted_by_key(s),
        forall|i: int, j: int| 0 <= i < j < s.len() ==> (#[trigger] s[i]).id != (#[trigger] s[j]).id,
    ensures
        merge_inv(merge_all(s, primary_id), s, primary_id),
    decreases s.len(),
{
    if s.len() == 0 {
    } else {
        let p = s.drop_last();
        assert forall|i: int, j: int| 0 <= i < j < p.len() implies key_le(#[trigger] p[i], #[trigger] p[j]) by {
            assert(p[i] == s[i] && p[j] == s[j]);
        }
        assert forall|i: int, j: int| 0 <= i < j < p.len() implies (#[trigger] p[i]).id != (#[trigger] p[j]).id by {
            assert(p[i] == s[i] && p[j] == s[j]);
        }
        lemma_merge_all_inv(p, primary_id);
        assert forall|k: int| 0 <= k < p.len() implies (#[trigger] p[k]).id != s.last().id by {
            assert(p[k] == s[k]);
        }
        if p.len() > 0 {
            assert(key_le(s[p.len() - 1], s[s.len() - 1]));
        }
        lemma_merge_step(merge_all(p, primary_id), p, s.last(), primary_id);
        assert(p.push(s.last()) =~= s);
    }
}

/// Every endpoint of every selection lies within the text, at a character boundary.
pub open spec fn selections_within(s: Seq<EditorSelection>, bytes: Seq<u8>) -> bool {
    forall|i: int|
        0 <= i < s.len() ==> (#[trigger] s[i]).anchor <= bytes.len() && s[i].head <= bytes.len()
            && char_boundary(bytes, s[i].anchor as int) && char_boundary(bytes, s[i].head as int)
}

proof fn lemma_within_permutation(a: Seq<EditorSelection>, b: Seq<EditorSelection>, len: Seq<u8>)
    requires
        selections_within(a, len),
        b.to_multiset() == a.to_multiset(),
    ensures
        selections_within(b, len),
{
    broadcast use vstd::seq_lib::group_to_multiset_ensures;

    assert forall|i: int| 0 <= i < b.len() implies (#[trigger] b[i]).anchor <= len.len() && b[i].head
        <= len.len() && char_boundary(len, b[i].anchor as int) && char_boundary(len, b[i].head as int) by {
        assert(b.contains(b[i]));
        assert(a.to_multiset().count(b[i]) > 0);
        assert(a.contains(b[i]));
    }
}

proof fn lemma_merge_all_len(s: Seq<EditorSelection>, primary_id: u64)
    ensures
        merge_all(s, primary_id).len() <= s.len(),
    decreases s.len(),
{
    if s.len() > 0 {
        lemma_merge_all_len(s.drop_last(), primary_id);
    }
}

proof fn lemma_merge_all_within(s: Seq<EditorSelection>, primary_id: u64, len: Seq<u8>)
    requires
        selections_within(s, len),
    ensures
        selections_within(merge_all(s, primary_id), len),
    decreases s.len(),
{
    if s.len() > 0 {
        let d = s.drop_last();
        assert forall|i: int| 0 <= i < d.len() implies (#[trigger] d[i]).anchor <= len.len() && d[i].head
            <= len.len() && char_boundary(len, d[i].anchor as int) && char_boundary(len, d[i].head as int) by {
            assert(d[i] == s[i]);
        }
        lemma_merge_all_within(d, primary_id, len);
        assert(s.last() == s[s.len() - 1]);
    }
}

/// Every endpoint of every selection is a grapheme boundary of the text.
pub open spec fn grapheme_aligned(s: Seq<EditorSelection>, text: Seq<char>) -> bool {
    forall|i: int|
        0 <= i < s.len() ==> grapheme_boundary(text, (#[trigger] s[i]).anchor) && grapheme_boundary(text, s[i].head)
}

proof fn lemma_aligned_permutation(a: Seq<EditorSelection>, b: Seq<EditorSelection>, text: Seq<char>)
    requires
        grapheme_aligned(a, text),
        b.to_multiset() == a.to_multiset(),
    ensures
        grapheme_aligned(b, text),
{
    broadcast use vstd::seq_lib::group_to_multiset_ensures;

    assert forall|i: int| 0 <= i < b.len() implies grapheme_boundary(text, (#[trigger] b[i]).anchor)
        && grapheme_boundary(text, b[i].head) by {
        assert(b.contains(b[i]));
        assert(a.to_multiset().count(b[i]) > 0);
        assert(a.contains(b[i]));
    }
}

proof fn lemma_merge_all_aligned(s: Seq<EditorSelection>, primary_id: u64, text: Seq<char>)
    requires
        grapheme_aligned(s, text),
    ensures
        grapheme_aligned(merge_all(s, primary_id), text),
    decreases s.len(),
{
    if s.len() > 0 {
        let d = s.drop_last();
        assert forall|i: int| 0 <= i < d.len() implies grapheme_boundary(text, (#[trigger] d[i]).anchor)
            && grapheme_boundary(text, d[i].head) by {
            assert(d[i] == s[i]);
        }
        lemma_merge_all_aligned(d, primary_id, text);
        assert(s.last() == s[s.len() - 1]);
    }
}

/// Neighbours neither overlap nor touch where one of them is a caret.
pub(crate) open spec fn separated(s: Seq<EditorSelection>) -> bool {
    forall|i: int| 0 <= i < s.len() - 1 ==> {
        let a = (#[trigger] s[i]).spec_range();
        let b = s[i + 1].spec_range();
        a.end < b.start || (a.end == b.start && a.start < a.end && b.start < b.end)
    }
}

/// In a separated sequence range starts strictly increase.
pub(crate) proof fn lemma_separated_starts(s: Seq<EditorSelection>, i: int, j: int)
    requires
        separated(s),
        0 <= i < j < s.len(),
    ensures
        s[i].spec_range().start < s[j].spec_range().start,
    decreases j - i,
{
    if j > i + 1 {
        lemma_separated_starts(s, i, j - 1);
    }
    let a = s[j - 1].spec_range();
    let b = s[j].spec_range();
    assert(a.end < b.start || (a.end == b.start && a.start < a.end && b.start < b.end));
}

/// Merging a separated sequence leaves it as it is.
proof fn lemma_merge_all_separated(s: Seq<EditorSelection>, primary_id: u64)
    requires
        separated(s),
    ensures
        merge_all(s, primary_id) == s,
    decreases s.len(),
{
    if s.len() > 0 {
        let d = s.drop_last();
        assert forall|i: int| 0 <= i < d.len() - 1 implies {
            let a = (#[trigger] d[i]).spec_range();
            let b = d[i + 1].spec_range();
            a.end < b.start || (a.end == b.start && a.start < a.end && b.start < b.end)
        } by {
            assert(d[i] == s[i]);
            assert(d[i + 1] == s[i + 1]);
        }
        lemma_merge_all_separated(d, primary_id);
        if d.len() > 0 {
            let a = s[s.len() - 2].spec_range();
            let b = s[s.len() - 1].spec_range();
            assert(a.end < b.start || (a.end == b.start && a.start < a.end && b.start < b.end));
            assert(d.last() == s[s.len() - 2]);
            assert(!ranges_merge(d.last().spec_range(), s.last().spec_range()));
        }
        assert(d.push(s.last()) =~= s);
    }
}

/// A selection whose endpoints are grapheme boundaries within the text is
/// left as it is by snapping.
proof fn lemma_snap_fixed(x: EditorSelection, text: Seq<char>)
    requires
        x.anchor <= encode_utf8(text).len(),
        x.head <= encode_utf8(text).len(),
        char_boundary(encode_utf8(text), x.anchor as int),
        char_boundary(encode_utf8(text), x.head as int),
        grapheme_boundary(text, x.anchor),
        grapheme_boundary(text, x.head),
    ensures
        snap_selection(x, text) == x,
{
    let bytes = encode_utf8(text);
    assert(clip_left(bytes, x.anchor as int) == x.anchor);
    assert(clip_left(bytes, x.head as int) == x.head);
    assert(clip_right(bytes, x.anchor as int) == x.anchor);
    assert(clip_right(bytes, x.head as int) == x.head);
}

/// Normalizing is idempotent: a set in normalized shape whose endpoints are
/// grapheme boundaries within the text (as every normalized set is) is its
/// own normalization, so normalizing it again gives it back unchanged.
pub proof fn lemma_normalization_idempotent(s: Seq<EditorSelection>, primary_id: u64, text: Seq<char>)
    requires
        normalized_wf(s, primary_id),
        selections_within(s, encode_utf8(text)),
        grapheme_aligned(s, text),
    ensures
        is_normalization(s, s, primary_id, text),
{
    assert(snap_all(s, text) == s) by {
        assert forall|i: int| 0 <= i < s.len() implies snap_selection(#[trigger] s[i], text) == s[i] by {
            lemma_snap_fixed(s[i], text);
        }
        assert(snap_all(s, text) =~= s);
    }
    assert(separated(s));
    lemma_separated_sorted(s);
    lemma_merge_all_separated(s, primary_id);
    let sorted = s;
    assert(sorted_by_key(sorted) && sorted.to_multiset() == snap_all(s, text).to_multiset() && s == merge_all(
        sorted,
        primary_id,
    ));
}

pub(crate) proof fn lemma_separated_sorted(s: Seq<EditorSelection>)
    requires
        separated(s),
    ensures
        sorted_by_key(s),
{
    assert forall|i: int, j: int| 0 <= i < j < s.len() implies key_le(#[trigger] s[i], #[trigger] s[j]) by {
        lemma_separated_starts(s, i, j);
    }
}

/// Two sequences in key order holding the same selections, no identity twice,
/// are the same sequence.
proof fn lemma_sorted_unique(x: Seq<EditorSelection>, y: Seq<EditorSelection>)
    requires
        sorted_by_key(x),
        sorted_by_key(y),
        x.to_multiset() == y.to_multiset(),
        forall|a: int, b: int| 0 <= a < b < x.len() ==> (#[trigger] x[a]).id != (#[trigger] x[b]).id,
    ensures
        x == y,
    decreases x.len(),
{
    broadcast use vstd::seq_lib::group_to_multiset_ensures;

    if x.len() == 0 {
        assert(y.to_multiset().len() == 0);
        assert(y =~= x);
    } else {
        assert(y.len() == x.len()) by {
            assert(x.to_multiset().len() == x.len());
            assert(y.to_multiset().len() == y.len());
        }
        let n = x.len() as int;
        let lx = x[n - 1];
        let ly = y[n - 1];
        assert(x.contains(lx));
        assert(y.to_multiset().count(lx) > 0);
        assert(y.contains(lx));
        let k = choose|k: int| 0 <= k < y.len() && y[k] == lx;
        if k < n - 1 {
            assert(key_le(y[k], y[n - 1]));
        }
        assert(key_le(lx, ly));
        assert(y.contains(ly));
        assert(x.to_multiset().count(ly) > 0);
        assert(x.contains(ly));
        let m = choose|m: int| 0 <= m < x.len() && x[m] == ly;
        if m < n - 1 {
            assert(key_le(x[m], x[n - 1]));
        }
        assert(key_le(ly, lx));
        assert(lx.id == ly.id);
        if m < n - 1 {
            assert(x[m].id != x[n - 1].id);
        }
        assert(lx == ly);
        let dx = x.drop_last();
        let dy = y.drop_last();
        assert(dx.push(lx) =~= x);
        assert(dy.push(ly) =~= y);
        assert(dx.to_multiset() =~= dy.to_multiset()) by {
            broadcast use vstd::multiset::group_multiset_properties;

            assert(x.to_multiset() =~= dx.to_multiset().insert(lx));
            assert(y.to_multiset() =~= dy.to_multiset().insert(lx));
            assert forall|v: EditorSelection| dx.to_multiset().count(v) == dy.to_multiset().count(v) by {
                assert(x.to_multiset().count(v) == y.to_multiset().count(v));
                assert(dx.to_multiset().insert(lx).count(v) == x.to_multiset().count(v));
                assert(dy.to_multiset().insert(lx).count(v) == y.to_multiset().count(v));
            }
        }
        assert forall|a: int, b: int| 0 <= a < b < dx.len() implies key_le(#[trigger] dx[a], #[trigger] dx[b]) by {
            assert(dx[a] == x[a] && dx[b] == x[b]);
        }
        assert forall|a: int, b: int| 0 <= a < b < dy.len() implies key_le(#[trigger] dy[a], #[trigger] dy[b]) by {
            assert(dy[a] == y[a] && dy[b] == y[b]);
        }
        assert forall|a: int, b: int| 0 <= a < b < dx.len() implies (#[trigger] dx[a]).id != (#[trigger] dx[b]).id by {
            assert(dx[a] == x[a] && dx[b] == x[b]);
        }
        lemma_sorted_unique(dx, dy);
    }
}

/// A request has one normalization: any two normalizations of the same
/// selections over the same text are equal. With the idempotence law, a
/// normalized set normalizes to itself.
pub proof fn lemma_normalization_unique(
    a: Seq<EditorSelection>,
    b: Seq<EditorSelection>,
    input: Seq<EditorSelection>,
    primary_id: u64,
    text: Seq<char>,
)
    requires
        valid_identities(input, primary_id),
        is_normalization(a, input, primary_id, text),
        is_normalization(b, input, primary_id, text),
    ensures
        a == b,
{
    let sa = choose|sorted: Seq<EditorSelection>|
        {
            &&& sorted_by_key(sorted)
            &&& sorted.to_multiset() == snap_all(input, text).to_multiset()
            &&& a == merge_all(sorted, primary_id)
        };
    let sb = choose|sorted: Seq<EditorSelection>|
        {
            &&& sorted_by_key(sorted)
            &&& sorted.to_multiset() == snap_all(input, text).to_multiset()
            &&& b == merge_all(sorted, primary_id)
        };
    let mapped = snap_all(input, text);
    assert(sa.len() == mapped.len()) by {
        broadcast use vstd::seq_lib::group_to_multiset_ensures;

        assert(sa.to_multiset().len() == sa.len());
        assert(mapped.to_multiset().len() == mapped.len());
    }
    lemma_distinct_ids_permutation(input, mapped, sa);
    lemma_sorted_unique(sa, sb);
}

/// `out` is a normalization of `input` over `text`: the snapped selections,
/// sorted in document order and merged where they overlap, in normalized shape.
pub open spec fn is_normalization(
    out: Seq<EditorSelection>,
    input: Seq<EditorSelection>,
    primary_id: u64,
    text: Seq<char>,
) -> bool {
    &&& normalized_wf(out, primary_id)
    &&& exists|sorted: Seq<EditorSelection>|
        {
            &&& sorted_by_key(sorted)
            &&& sorted.to_multiset() == snap_all(input, text).to_multiset()
            &&& out == merge_all(sorted, primary_id)
        }
}

impl SelectionSnapshot {
    /// Normalize once, in document order. Touching nonempty ranges stay distinct;
    /// carets at either edge are contained in that range. Requests with no
    /// selection, a repeated identity or a missing primary are refused.
    pub fn normalized(selections: Vec<EditorSelection>, primary_id: u64, text: &Rope) -> (r: Option<
        Self,
    >)
        ensures
            r is None <==> !valid_identities(selections@, primary_id),
            r matches Some(snapshot) ==> {
                &&& snapshot@.primary_id == primary_id
                &&& is_normalization(snapshot@.selections, selections@, primary_id, rope_chars(*text))
                &&& selections_within(snapshot@.selections, rope_bytes(*text))
                &&& grapheme_aligned(snapshot@.selections, rope_chars(*text))
                &&& snapshot@.selections.len() <= selections@.len()
            },
    {
        let ghost input = selections@;
        let n = selections.len();
        if n == 0 {
            return None;
        }
        let mut ids: HashSet<u64> = HashSet::with_capacity(n);
        let mut i: usize = 0;
        while i < n
            invariant
                n == selections@.len(),
                selections@ == input,
                i <= n,
                ids@ == id_set(input.subrange(0, i as int)),
                forall|a: int, b: int| 0 <= a < b < i ==> (#[trigger] input[a]).id != (#[trigger] input[b]).id,
            decreases n - i,
        {
            let id = selections[i].id;
            let fresh = ids.insert(id);
            if !fresh {
                proof {
                    assert(id_set(input.subrange(0, i as int)).contains(id));
                    let k = choose|k: int| 0 <= k < i && (#[trigger] input.subrange(0, i as int)[k]).id == id;
                    assert(input.subrange(0, i as int)[k] == input[k]);
                    assert(input[k].id == input[i as int].id);
                    assert(!valid_identities(input, primary_id));
                }
                return None;
            }
            proof {
                assert forall|a: int, b: int| 0 <= a < b < i + 1 implies (#[trigger] input[a]).id != (#[trigger] input[b]).id by {
                    if b == i {
                        assert(input.subrange(0, i as int)[a] == input[a]);
                        assert(id_set(input.subrange(0, i as int)).contains(input[a].id));
                    }
                }
                assert(ids@ =~= id_set(input.subrange(0, i + 1))) by {
                    assert forall|x: u64| ids@.contains(x) implies id_set(input.subrange(0, i + 1)).contains(x) by {
                        if x == id {
                            assert(input.subrange(0, i + 1)[i as int] == input[i as int]);
                        } else {
                            let k = choose|k: int| 0 <= k < i && (#[trigger] input.subrange(0, i as int)[k]).id == x;
                            assert(input.subrange(0, i + 1)[k] == input.subrange(0, i as int)[k]);
                        }
                    }
                    assert forall|x: u64| id_set(input.subrange(0, i + 1)).contains(x) implies ids@.contains(x) by {
                        let k = choose|k: int| 0 <= k < i + 1 && (#[trigger] input.subrange(0, i + 1)[k]).id == x;
                        if k < i {
                            assert(input.subrange(0, i as int)[k] == input.subrange(0, i + 1)[k]);
                        }
                    }
                }
            }
            i += 1;
        }
        assert(input.subrange(0, n as int) =~= input);
        if !ids.contains(&primary_id) {
            assert forall|k: int| 0 <= k < input.len() implies (#[trigger] input[k]).id != primary_id by {
                assert(id_set(input).contains(input[k].id));
            }
            return None;
        }
        proof {
            let k = choose|k: int| 0 <= k < n && (#[trigger] input[k]).id == primary_id;
            assert(input[k].id == primary_id);
        }
        // Snap every range outward to grapheme boundaries, keeping direction.
        let source = rope_text(text);
        let ghost chars = rope_chars(*text);
        let mut snapped: Vec<EditorSelection> = Vec::with_capacity(n);
        let mut j: usize = 0;
        while j < n
            invariant
                n == selections@.len(),
                selections@ == input,
                source@ == chars,
                j <= n,
                snapped@ == snap_all(input, chars).subrange(0, j as int),
                encode_utf8(source@) == rope_bytes(*text),
                selections_within(snapped@, rope_bytes(*text)),
                grapheme_aligned(snapped@, chars),
            decreases n - j,
        {
            let selection = selections[j];
            let range = selection.range();
            let start = floor_in(source.as_str(), range.start);
            let end = if range.start == range.end {
                start
            } else {
                ceil_in(source.as_str(), range.end)
            };
            let next = if selection.anchor > selection.head {
                EditorSelection { anchor: end, head: start, ..selection }
            } else {
                EditorSelection { anchor: start, head: end, ..selection }
            };
            snapped.push(next);
            assert(snapped@ =~= snap_all(input, chars).subrange(0, j + 1));
            j += 1;
        }
        let ghost mapped = snap_all(input, chars);
        assert(snapped@ =~= mapped);
        sort_by_range_and_id(&mut snapped);
        let ghost sorted = snapped@;
        proof {
            // Snapping keeps identities, so the sorted sequence has them all, once each.
            assert forall|a: int, b: int| 0 <= a < b < sorted.len() implies (#[trigger] sorted[a]).id != (#[trigger] sorted[b]).id by {
                lemma_distinct_ids_permutation(input, mapped, sorted);
            }
            lemma_distinct_ids_permutation(input, mapped, sorted);
        }
        proof {
            lemma_within_permutation(mapped, sorted, rope_bytes(*text));
            lemma_aligned_permutation(mapped, sorted, chars);
        }
        let mut merged: Vec<EditorSelection> = Vec::with_capacity(n);
        let mut k: usize = 0;
        while k < n
            invariant
                n == sorted.len(),
                snapped@ == sorted,
                k <= n,
                merged@ == merge_all(sorted.subrange(0, k as int), primary_id),
            decreases n - k,
        {
            let selection = snapped[k];
            let ghost prefix = sorted.subrange(0, k as int);
            assert(sorted.subrange(0, k + 1).drop_last() =~= prefix);
            let m = merged.len();
            let mut joined = false;
            if m > 0 {
                let previous = merged[m - 1];
                let a = previous.range();
                let b = selection.range();
                if b.start < a.end || (b.start == a.end && (a.start == a.end || b.start == b.end)) {
                    let end = if a.end >= b.end { a.end } else { b.end };
                    let p = if selection.id == primary_id || (previous.id != primary_id
                        && selection.id < previous.id) {
                        selection
                    } else {
                        previous
                    };
                    let reversed = p.anchor > p.head;
                    let updated = EditorSelection {
                        anchor: if reversed { end } else { a.start },
                        head: if reversed { a.start } else { end },
                        ..p
                    };
                    merged.set(m - 1, updated);
                    joined = true;
                }
            }
            if !joined {
                merged.push(selection);
            }
            assert(merged@ =~= merge_all(sorted.subrange(0, k + 1), primary_id));
            k += 1;
        }
        assert(sorted.subrange(0, n as int) =~= sorted);
        proof {
            lemma_merge_all_wf(sorted, primary_id);
            lemma_merge_all_within(sorted, primary_id, rope_bytes(*text));
            lemma_merge_all_aligned(sorted, primary_id, chars);
            lemma_merge_all_len(sorted, primary_id);
        }
        Some(SelectionSnapshot { selections: merged, primary_id })
    }
}

/// A permutation of a snapped request keeps its identities: distinct, and
/// including every identity of the request.
proof fn lemma_distinct_ids_permutation(
    input: Seq<EditorSelection>,
    mapped: Seq<EditorSelection>,
    sorted: Seq<EditorSelection>,
)
    requires
        forall|a: int, b: int| 0 <= a < b < input.len() ==> (#[trigger] input[a]).id != (#[trigger] input[b]).id,
        mapped.len() == input.len(),
        forall|a: int| 0 <= a < input.len() ==> (#[trigger] mapped[a]).id == input[a].id,
        sorted.to_multiset() == mapped.to_multiset(),
        sorted.len() == mapped.len(),
    ensures
        forall|a: int, b: int| 0 <= a < b < sorted.len() ==> (#[trigger] sorted[a]).id != (#[trigger] sorted[b]).id,
        forall|a: int| 0 <= a < input.len() ==> exists|b: int| 0 <= b < sorted.len() && (#[trigger] sorted[b]).id == (#[trigger] input[a]).id,
{
    broadcast use vstd::seq_lib::group_to_multiset_ensures;

    assert(mapped.no_duplicates()) by {
        assert forall|a: int, b: int| 0 <= a < mapped.len() && 0 <= b < mapped.len() && a != b implies mapped[a] != mapped[b] by {
            if a < b {
                assert(input[a].id != input[b].id);
            } else {
                assert(input[b].id != input[a].id);
            }
        }
    }
    mapped.lemma_multiset_has_no_duplicates();
    assert forall|x: EditorSelection| sorted.to_multiset().contains(x) implies sorted.to_multiset().count(x) == 1 by {}
    sorted.lemma_multiset_has_no_duplicates_conv();
    assert forall|a: int, b: int| 0 <= a < b < sorted.len() implies (#[trigger] sorted[a]).id != (#[trigger] sorted[b]).id by {
        assert(sorted.contains(sorted[a]));
        assert(sorted.contains(sorted[b]));
        assert(mapped.to_multiset().count(sorted[a]) > 0);
        assert(mapped.to_multiset().count(sorted[b]) > 0);
        assert(mapped.contains(sorted[a]));
        assert(mapped.contains(sorted[b]));
        let p = choose|p: int| 0 <= p < mapped.len() && mapped[p] == sorted[a];
        let q = choose|q: int| 0 <= q < mapped.len() && mapped[q] == sorted[b];
        assert(sorted[a] != sorted[b]);
        if sorted[a].id == sorted[b].id {
            assert(p != q);
            if p < q {
                assert(input[p].id != input[q].id);
            } else {
                assert(input[q].id != input[p].id);
            }
        }
    }
    assert forall|a: int| 0 <= a < input.len() implies exists|b: int| 0 <= b < sorted.len() && (#[trigger] sorted[b]).id == (#[trigger] input[a]).id by {
        let x = input[a].id;
        assert(mapped.contains(mapped[a]));
        assert(sorted.to_multiset().count(mapped[a]) > 0);
        assert(sorted.contains(mapped[a]));
        let b = choose|b: int| 0 <= b < sorted.len() && sorted[b] == mapped[a];
        assert(sorted[b].id == x);
    }
}


/// Mapping every element keeps two sequences' multisets equal.
proof fn lemma_map_multiset<B>(a: Seq<EditorSelection>, b: Seq<EditorSelection>, f: spec_fn(EditorSelection) -> B)
    requires
        a.to_multiset() == b.to_multiset(),
    ensures
        a.map_values(f).to_multiset() == b.map_values(f).to_multiset(),
    decreases a.len(),
{
    broadcast use vstd::seq_lib::group_to_multiset_ensures, vstd::multiset::group_multiset_axioms;

    if a.len() == 0 {
        assert(b.to_multiset().len() == 0);
        assert(b.len() == 0);
        assert(a.map_values(f) =~= Seq::<B>::empty());
        assert(b.map_values(f) =~= Seq::<B>::empty());
    } else {
        let x = a.last();
        let d = a.drop_last();
        assert(a =~= d.push(x));
        assert(a.to_multiset().count(x) > 0);
        assert(b.to_multiset().count(x) > 0);
        assert(b.contains(x));
        let i = choose|i: int| 0 <= i < b.len() && b[i] == x;
        let br = b.remove(i);
        assert(br.to_multiset() == b.to_multiset().remove(b[i]));
        assert(d.to_multiset() =~= br.to_multiset());
        lemma_map_multiset(d, br, f);
        assert(a.map_values(f) =~= d.map_values(f).push(f(x)));
        assert(b =~= br.insert(i, x));
        assert(b.map_values(f) =~= br.map_values(f).insert(i, f(x)));
        assert(a.map_values(f).to_multiset() =~= d.map_values(f).to_multiset().insert(f(x)));
        assert(b.map_values(f).to_multiset() =~= br.map_values(f).to_multiset().insert(f(x)));
    }
}

/// The identities of selections.
spec fn ids_of(s: Seq<EditorSelection>) -> Seq<u64> {
    s.map_values(|x: EditorSelection| x.id)
}

proof fn lemma_valid_identities_by_ids(s: Seq<EditorSelection>, primary_id: u64)
    ensures
        valid_identities(s, primary_id) == (ids_of(s).to_multiset().len() > 0 && (forall|x: u64|
            ids_of(s).to_multiset().contains(x) ==> ids_of(s).to_multiset().count(x) == 1)
            && ids_of(s).to_multiset().count(primary_id) > 0),
{
    broadcast use vstd::seq_lib::group_to_multiset_ensures;

    let ids = ids_of(s);
    if ids.no_duplicates() {
        ids.lemma_multiset_has_no_duplicates();
    }
    if forall|x: u64| ids.to_multiset().contains(x) ==> ids.to_multiset().count(x) == 1 {
        ids.lemma_multiset_has_no_duplicates_conv();
    }
    assert((forall|i: int, j: int| 0 <= i < j < s.len() ==> (#[trigger] s[i]).id != (#[trigger] s[j]).id)
        == ids.no_duplicates()) by {
        if ids.no_duplicates() {
            assert forall|i: int, j: int| 0 <= i < j < s.len() implies (#[trigger] s[i]).id != (#[trigger] s[j]).id by {
                assert(ids[i] == s[i].id && ids[j] == s[j].id);
            }
        }
        if forall|i: int, j: int| 0 <= i < j < s.len() ==> (#[trigger] s[i]).id != (#[trigger] s[j]).id {
            assert forall|i: int, j: int| 0 <= i < ids.len() && 0 <= j < ids.len() && i != j implies ids[i] != ids[j] by {
                if i < j {
                    assert(s[i].id != s[j].id);
                } else {
                    assert(s[j].id != s[i].id);
                }
            }
        }
    }
    assert((exists|i: int| 0 <= i < s.len() && (#[trigger] s[i]).id == primary_id) == ids.contains(primary_id)) by {
        if ids.contains(primary_id) {
            let k = choose|k: int| 0 <= k < ids.len() && ids[k] == primary_id;
            assert(s[k].id == primary_id);
        }
        if exists|i: int| 0 <= i < s.len() && (#[trigger] s[i]).id == primary_id {
            let k = choose|k: int| 0 <= k < s.len() && (#[trigger] s[k]).id == primary_id;
            assert(ids[k] == primary_id);
        }
    }
}

/// The order in which selections are given does not matter: the same
/// selections in any order are accepted alike, and normalize to the same
/// results.
pub proof fn lemma_normalization_ignores_order(
    a: Seq<EditorSelection>,
    b: Seq<EditorSelection>,
    out: Seq<EditorSelection>,
    primary_id: u64,
    text: Seq<char>,
)
    requires
        a.to_multiset() == b.to_multiset(),
    ensures
        valid_identities(a, primary_id) == valid_identities(b, primary_id),
        is_normalization(out, a, primary_id, text) == is_normalization(out, b, primary_id, text),
{
    lemma_map_multiset(a, b, |x: EditorSelection| snap_selection(x, text));
    lemma_map_multiset(a, b, |x: EditorSelection| x.id);
    assert(snap_all(a, text).to_multiset() == snap_all(b, text).to_multiset());
    lemma_valid_identities_by_ids(a, primary_id);
    lemma_valid_identities_by_ids(b, primary_id);
    assert(ids_of(a).to_multiset() == ids_of(b).to_multiset());
}

} // verus!
