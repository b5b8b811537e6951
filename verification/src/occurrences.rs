//! Multi-cursor gestures: toggling a caret, and select next / select all
//! occurrences, which grow the selection set by the literal occurrences of
//! the primary selection's text (or of the word at the primary caret),
//! skipping occurrences that overlap a selection.
use crate::editor::{lemma_snapshot_valid, snapshot_selections, InputBaseState};
use crate::grapheme::{ceil_in, ceil_spec, floor, floor_in, floor_spec};
use crate::multi_edit::{id_used, lemma_max_id, lemma_some_small_id_free, max_id, next_selection_id};
use crate::selection::{EditorSelection, Selection};
use crate::selection_set::{selections_within, valid_identities};
use crate::text::{char_boundary, rope_bytes, rope_chars, rope_text};
use aho_corasick::AhoCorasick;
use std::ops::Range;
use unicode_segmentation::UnicodeSegmentation;
use vstd::prelude::*;
use vstd::string::StringSliceAdditionalSpecFns;
use vstd::utf8::encode_utf8;

verus! {

/// The text's words as (start, byte length): its UAX #29 word segments that
/// hold a letter or a number, in order.
pub uninterp spec fn unicode_words(text: Seq<char>) -> Seq<(usize, usize)>;

/// The byte spans (start, end) of the text's words.
pub open spec fn unicode_word_spans(text: Seq<char>) -> Seq<(usize, usize)> {
    unicode_words(text).map_values(|w: (usize, usize)| (w.0, (w.0 + w.1) as usize))
}

/// `UnicodeSegmentation::unicode_word_indices`, each word given by its start
/// and its length. Words are slices of the text, so both ends lie on
/// character boundaries within it.
#[verifier::external_body]
fn word_indices(text: &str) -> (r: Vec<(usize, usize)>)
    ensures
        r@ == unicode_words(text@),
        forall|i: int|
            0 <= i < r@.len() ==> (#[trigger] r@[i]).0 + r@[i].1 <= text.spec_bytes().len() && char_boundary(
                text.spec_bytes(),
                r@[i].0 as int,
            ) && char_boundary(text.spec_bytes(), r@[i].0 + r@[i].1),
{
    text.unicode_word_indices().map(|(start, word)| (start, word.len())).collect()
}

/// The byte spans (start, end) of the text's words.
fn word_spans(text: &str) -> (r: Vec<(usize, usize)>)
    ensures
        r@ == unicode_word_spans(text@),
        forall|i: int|
            0 <= i < r@.len() ==> (#[trigger] r@[i]).0 <= r@[i].1 <= text.spec_bytes().len() && char_boundary(
                text.spec_bytes(),
                r@[i].0 as int,
            ) && char_boundary(text.spec_bytes(), r@[i].1 as int),
{
    let total = text.as_bytes().len();
    let words = word_indices(text);
    let mut r: Vec<(usize, usize)> = Vec::new();
    let mut i: usize = 0;
    while i < words.len()
        invariant
            i <= words@.len(),
            words@ == unicode_words(text@),
            forall|k: int|
                0 <= k < words@.len() ==> (#[trigger] words@[k]).0 + words@[k].1 <= text.spec_bytes().len()
                    && char_boundary(text.spec_bytes(), words@[k].0 as int) && char_boundary(
                    text.spec_bytes(),
                    words@[k].0 + words@[k].1,
                ),
            r@ == unicode_word_spans(text@).subrange(0, i as int),
            total == text.spec_bytes().len(),
        decreases words@.len() - i,
    {
        let (start, len) = words[i];
        assert(words@[i as int] == (start, len));
        r.push((start, start + len));
        assert(r@ =~= unicode_word_spans(text@).subrange(0, i + 1));
        i += 1;
    }
    assert(r@ =~= unicode_word_spans(text@));
    assert forall|i: int| 0 <= i < r@.len() implies (#[trigger] r@[i]).0 <= r@[i].1 <= text.spec_bytes().len()
        && char_boundary(text.spec_bytes(), r@[i].0 as int) && char_boundary(text.spec_bytes(), r@[i].1 as int) by {
        assert(words@[i].0 + words@[i].1 <= text.spec_bytes().len());
    }
    r
}

/// Whether an automaton for the single pattern can be built.
pub uninterp spec fn automaton_builds(pattern: Seq<u8>) -> bool;

/// Every occurrence of `p` in `h` that starts at or after `i`, as byte
/// ranges, by increasing start.
pub open spec fn occurrences_from(h: Seq<u8>, p: Seq<u8>, i: int) -> Seq<(usize, usize)>
    decreases h.len() - i,
{
    if i < 0 || i >= h.len() || i + p.len() > h.len() {
        Seq::empty()
    } else {
        (if h.subrange(i, i + p.len()) == p {
            seq![(i as usize, (i + p.len()) as usize)]
        } else {
            Seq::empty()
        }) + occurrences_from(h, p, i + 1)
    }
}

/// `AhoCorasick::new` over the single pattern, then
/// `AhoCorasick::find_overlapping_iter` over the haystack: all matches at every
/// position, which for one pattern are its occurrences by increasing start.
/// Building can fail (a pattern too large for the automaton); when it does
/// is not stated.
#[verifier::external_body]
fn overlapping_occurrences(haystack: &[u8], pattern: &[u8]) -> (r: Option<Vec<(usize, usize)>>)
    requires
        pattern@.len() > 0,
    ensures
        (r is Some) == automaton_builds(pattern@),
        r matches Some(v) ==> v@ == occurrences_from(haystack@, pattern@, 0),
{
    match AhoCorasick::new([pattern]) {
        Ok(automaton) => Some(automaton.find_overlapping_iter(haystack).map(|found| (found.start(), found.end())).collect()),
        Err(_) => None,
    }
}

/// The first word from `i` that holds `offset`.
pub open spec fn first_word_holding(w: Seq<(usize, usize)>, offset: int, i: int) -> Option<(usize, usize)>
    decreases w.len() - i,
{
    if i < 0 || i >= w.len() {
        None
    } else if w[i].0 <= offset < w[i].1 {
        Some(w[i])
    } else {
        first_word_holding(w, offset, i + 1)
    }
}

/// The first word from `i` that ends at `offset`.
pub open spec fn first_word_ending(w: Seq<(usize, usize)>, offset: int, i: int) -> Option<(usize, usize)>
    decreases w.len() - i,
{
    if i < 0 || i >= w.len() {
        None
    } else if w[i].1 == offset {
        Some(w[i])
    } else {
        first_word_ending(w, offset, i + 1)
    }
}

/// The word a caret selects: the one holding it, else the one ending at it.
pub open spec fn word_at(w: Seq<(usize, usize)>, offset: int) -> Option<(usize, usize)> {
    match first_word_holding(w, offset, 0) {
        Some(x) => Some(x),
        None => first_word_ending(w, offset, 0),
    }
}

/// The index of the first selection from `i` with the identity (or -1).
pub open spec fn index_of_id(s: Seq<EditorSelection>, id: u64, i: int) -> int
    decreases s.len() - i,
{
    if i < 0 || i >= s.len() {
        -1
    } else if s[i].id == id {
        i
    } else {
        index_of_id(s, id, i + 1)
    }
}

/// A range that starts and ends on grapheme cluster boundaries.
pub open spec fn on_graphemes(m: (usize, usize), text: Seq<char>) -> bool {
    floor_spec(text, m.0 as int) == m.0 && ceil_spec(text, m.1 as int) == m.1
}

/// The ranges that start and end on grapheme cluster boundaries, in order.
pub open spec fn keep_on_graphemes(ms: Seq<(usize, usize)>, text: Seq<char>) -> Seq<(usize, usize)>
    decreases ms.len(),
{
    if ms.len() == 0 {
        Seq::empty()
    } else if on_graphemes(ms.last(), text) {
        keep_on_graphemes(ms.drop_last(), text).push(ms.last())
    } else {
        keep_on_graphemes(ms.drop_last(), text)
    }
}

/// The ranges starting at or after `after` (when `later`) or before it, in order.
pub open spec fn split_at_offset(ms: Seq<(usize, usize)>, after: int, later: bool) -> Seq<(usize, usize)>
    decreases ms.len(),
{
    if ms.len() == 0 {
        Seq::empty()
    } else if (ms.last().0 >= after) == later {
        split_at_offset(ms.drop_last(), after, later).push(ms.last())
    } else {
        split_at_offset(ms.drop_last(), after, later)
    }
}

/// A selection whose text is the query.
pub open spec fn selects_query(s: EditorSelection, b: Seq<u8>, q: Seq<u8>) -> bool {
    b.subrange(s.spec_range().start as int, s.spec_range().end as int) == q
}

/// The furthest end of a selection whose text is the query.
pub open spec fn last_query_end(s: Seq<EditorSelection>, b: Seq<u8>, q: Seq<u8>) -> Option<int>
    decreases s.len(),
{
    if s.len() == 0 {
        None
    } else {
        let prev = last_query_end(s.drop_last(), b, q);
        if selects_query(s.last(), b, q) {
            let e = s.last().spec_range().end as int;
            match prev {
                Some(p) => Some(if p >= e { p } else { e }),
                None => Some(e),
            }
        } else {
            prev
        }
    }
}

/// The (start, end) pairs of selections.
pub open spec fn spans_of(s: Seq<EditorSelection>) -> Seq<(usize, usize)> {
    s.map_values(|x: EditorSelection| (x.spec_range().start, x.spec_range().end))
}

/// In the map from start to end that the pairs build (a later pair for the
/// same start replacing an earlier one), the entry with the greatest start
/// below `bound`.
pub open spec fn last_entry_below(pairs: Seq<(usize, usize)>, bound: int) -> Option<(usize, usize)>
    decreases pairs.len(),
{
    if pairs.len() == 0 {
        None
    } else {
        let prev = last_entry_below(pairs.drop_last(), bound);
        let p = pairs.last();
        if p.0 < bound && (prev matches Some(q) ==> p.0 >= q.0) {
            Some(p)
        } else {
            prev
        }
    }
}

/// In the same map, the end recorded for a start.
pub open spec fn entry_at(pairs: Seq<(usize, usize)>, start: int) -> Option<usize>
    decreases pairs.len(),
{
    if pairs.len() == 0 {
        None
    } else if pairs.last().0 == start {
        Some(pairs.last().1)
    } else {
        entry_at(pairs.drop_last(), start)
    }
}

/// A candidate overlaps the occupied ranges: the last range starting before
/// its end reaches past its start (or is a caret at its start), or a caret
/// sits at its end.
pub open spec fn overlaps_occupied(pairs: Seq<(usize, usize)>, c: (usize, usize)) -> bool {
    ||| (last_entry_below(pairs, c.1 as int) matches Some(p) && (p.1 > c.0 || (p.0 == p.1 && p.1 == c.0)))
    ||| entry_at(pairs, c.1 as int) == Some(c.1)
}

/// The smallest identity no selection uses.
pub open spec fn least_free_id(s: Seq<EditorSelection>) -> u64 {
    choose|c: u64| !id_used(s, c) && forall|d: u64| d < c ==> id_used(s, d)
}

/// The identity a new selection takes: one past the largest in use, or, when
/// that wraps, the smallest free one.
pub open spec fn next_id_spec(s: Seq<EditorSelection>) -> u64 {
    if max_id(s) < u64::MAX {
        (max_id(s) + 1) as u64
    } else {
        least_free_id(s)
    }
}

/// `id + k`, wrapping around the 64-bit range.
pub open spec fn wrap_add(id: u64, k: int) -> u64 {
    if id + k > u64::MAX {
        (id + k - (u64::MAX + 1)) as u64
    } else {
        (id + k) as u64
    }
}

/// Counting up from `id + k` (wrapping), the first identity not in use.
pub open spec fn free_from(s: Seq<EditorSelection>, id: u64, k: int) -> u64
    decreases u64::MAX + 1 - k,
{
    if k < 1 || k > u64::MAX {
        id
    } else if !id_used(s, wrap_add(id, k)) {
        wrap_add(id, k)
    } else {
        free_from(s, id, k + 1)
    }
}

/// Take the candidates from `i` on, in order: one that overlaps an occupied
/// range is skipped; another becomes a selection with the next identity and
/// is revealed. Without `all`, the first one taken ends the walk.
pub open spec fn take_candidates(
    cands: Seq<(usize, usize)>,
    i: int,
    sels: Seq<EditorSelection>,
    occupied: Seq<(usize, usize)>,
    id: u64,
    revealed: Seq<(usize, usize)>,
    all: bool,
) -> (Seq<EditorSelection>, Seq<(usize, usize)>)
    decreases cands.len() - i,
{
    if i < 0 || i >= cands.len() {
        (sels, revealed)
    } else {
        let c = cands[i];
        if overlaps_occupied(occupied, c) {
            take_candidates(cands, i + 1, sels, occupied, id, revealed, all)
        } else {
            let sels2 = sels.push(EditorSelection { id, anchor: c.0, head: c.1, line_end_affinity: false, preferred_column: None });
            let revealed2 = revealed.push(c);
            if !all {
                (sels2, revealed2)
            } else {
                take_candidates(cands, i + 1, sels2, occupied.push(c), free_from(sels2, id, 1), revealed2, all)
            }
        }
    }
}

/// With the query's byte range known: its occurrences on grapheme boundaries,
/// those after the furthest selection of the query first and then the ones
/// before it, taken as new selections.
pub open spec fn plan_for_query(
    sels: Seq<EditorSelection>,
    text: Seq<char>,
    qs: int,
    qe: int,
    all: bool,
) -> Option<(Seq<EditorSelection>, Seq<(usize, usize)>)> {
    let b = encode_utf8(text);
    let q = b.subrange(qs, qe);
    if q.len() == 0 || !automaton_builds(q) {
        None
    } else {
        let ms = keep_on_graphemes(occurrences_from(b, q, 0), text);
        let after = match last_query_end(sels, b, q) {
            Some(e) => e,
            None => qe,
        };
        let cands = split_at_offset(ms, after, true) + split_at_offset(ms, after, false);
        Some(take_candidates(cands, 0, sels, spans_of(sels), next_id_spec(sels), Seq::empty(), all))
    }
}

/// The selections to set and the ranges to reveal, or none when nothing is
/// to be selected. A caret as primary first selects its word; without `all`
/// that is the whole step.
pub open spec fn occurrence_plan(sels: Seq<EditorSelection>, primary: u64, text: Seq<char>, all: bool) -> Option<(Seq<EditorSelection>, Seq<(usize, usize)>)> {
    let ix = index_of_id(sels, primary, 0);
    let r = sels[ix].spec_range();
    if r.start == r.end {
        match word_at(unicode_word_spans(text), r.start as int) {
            None => None,
            Some(w) => {
                let sels2 = sels.update(ix, EditorSelection { id: primary, anchor: w.0, head: w.1, line_end_affinity: false, preferred_column: None });
                if !all {
                    Some((sels2, Seq::empty()))
                } else {
                    plan_for_query(sels2, text, w.0 as int, w.1 as int, all)
                }
            },
        }
    } else {
        plan_for_query(sels, text, r.start as int, r.end as int, all)
    }
}

// ---------------------------------------------------------------------------
// Identities.

/// Among the `n + 1` identities after any one (counting up, wrapping), one is
/// not in use by `n` selections.
proof fn lemma_free_within(s: Seq<EditorSelection>, id: u64)
    requires
        s.len() < u64::MAX,
    ensures
        exists|k: int| 1 <= k <= s.len() + 1 && !id_used(s, #[trigger] wrap_add(id, k)),
{
    broadcast use vstd::set::group_set_axioms;

    let shifted = s.map_values(
        |x: EditorSelection|
            if x.id as int - id as int - 1 < 0 {
                x.id as int - id as int - 1 + (u64::MAX + 1)
            } else {
                x.id as int - id as int - 1
            },
    );
    shifted.lemma_cardinality_of_set();
    if forall|k: int| 1 <= k <= s.len() + 1 ==> id_used(s, #[trigger] wrap_add(id, k)) {
        let range = vstd::set_lib::set_int_range(0, s.len() as int + 1);
        vstd::set_lib::lemma_int_range(0, s.len() as int + 1);
        assert(range.subset_of(shifted.to_set())) by {
            assert forall|x: int| range.contains(x) implies shifted.to_set().contains(x) by {
                let c = wrap_add(id, x + 1);
                assert(id_used(s, c));
                let i = choose|i: int| 0 <= i < s.len() && (#[trigger] s[i]).id == c;
                assert(shifted[i] == x);
                assert(shifted.contains(x));
            }
        }
        vstd::seq_lib::seq_to_set_is_finite(shifted);
        vstd::set_lib::lemma_len_subset(range, shifted.to_set());
        assert(false);
    }
}

/// Whether some selection has the identity.
fn id_used_in(v: &Vec<EditorSelection>, id: u64) -> (r: bool)
    ensures
        r == id_used(v@, id),
{
    let mut i: usize = 0;
    while i < v.len()
        invariant
            i <= v@.len(),
            forall|k: int| 0 <= k < i ==> (#[trigger] v@[k]).id != id,
        decreases v@.len() - i,
    {
        if v[i].id == id {
            return true;
        }
        i += 1;
    }
    false
}

/// Counting up from one past `id` (wrapping), the first identity not in use.
fn free_after_in(v: &Vec<EditorSelection>, id: u64) -> (r: u64)
    requires
        v@.len() < u64::MAX,
    ensures
        r == free_from(v@, id, 1),
        !id_used(v@, r),
{
    proof {
        lemma_free_within(v@, id);
    }
    let n = v.len();
    let mut k: u64 = 1;
    let mut c = id.wrapping_add(1);
    while id_used_in(v, c)
        invariant
            n == v@.len(),
            n < u64::MAX,
            1 <= k <= n + 1,
            c == wrap_add(id, k as int),
            free_from(v@, id, 1) == free_from(v@, id, k as int),
            forall|j: int| 1 <= j < k ==> id_used(v@, #[trigger] wrap_add(id, j)),
            exists|j: int| 1 <= j <= n + 1 && !id_used(v@, #[trigger] wrap_add(id, j)),
        decreases n + 1 - k,
    {
        if k == (n as u64) + 1 {
            assert(forall|j: int| 1 <= j <= n + 1 ==> id_used(v@, #[trigger] wrap_add(id, j)));
            assert(false);
        }
        c = c.wrapping_add(1);
        k += 1;
    }
    c
}

/// The identity `next_selection_id` gives is the one the plan names.
proof fn lemma_next_id_is_spec(s: Seq<EditorSelection>, r: u64)
    requires
        !id_used(s, r),
        max_id(s) < u64::MAX ==> r == max_id(s) + 1,
        max_id(s) == u64::MAX ==> forall|c: u64| c < r ==> id_used(s, c),
    ensures
        r == next_id_spec(s),
{
    if max_id(s) == u64::MAX {
        let c = least_free_id(s);
        assert(!id_used(s, c) && forall|d: u64| d < c ==> id_used(s, d));
        if c < r {
            assert(id_used(s, c));
        }
        if r < c {
            assert(id_used(s, r));
        }
    }
}

// ---------------------------------------------------------------------------
// Sequences of ranges.

proof fn lemma_occurrences_len(h: Seq<u8>, p: Seq<u8>, i: int)
    requires
        0 <= i,
    ensures
        occurrences_from(h, p, i).len() <= if i <= h.len() { h.len() - i } else { 0 },
    decreases h.len() - i,
{
    if !(i < 0 || i >= h.len() || i + p.len() > h.len()) {
        lemma_occurrences_len(h, p, i + 1);
    }
}

proof fn lemma_keep_len(ms: Seq<(usize, usize)>, text: Seq<char>)
    ensures
        keep_on_graphemes(ms, text).len() <= ms.len(),
    decreases ms.len(),
{
    if ms.len() > 0 {
        lemma_keep_len(ms.drop_last(), text);
    }
}

proof fn lemma_split_len(ms: Seq<(usize, usize)>, after: int)
    ensures
        split_at_offset(ms, after, true).len() + split_at_offset(ms, after, false).len() == ms.len(),
    decreases ms.len(),
{
    if ms.len() > 0 {
        lemma_split_len(ms.drop_last(), after);
    }
}

/// The index of the first selection with the identity.
fn index_of_id_in(v: &Vec<EditorSelection>, id: u64) -> (r: usize)
    requires
        exists|i: int| 0 <= i < v@.len() && (#[trigger] v@[i]).id == id,
    ensures
        r == index_of_id(v@, id, 0),
        r < v@.len(),
        v@[r as int].id == id,
{
    let mut i: usize = 0;
    while i < v.len()
        invariant
            i <= v@.len(),
            index_of_id(v@, id, 0) == index_of_id(v@, id, i as int),
            forall|k: int| 0 <= k < i ==> (#[trigger] v@[k]).id != id,
            exists|k: int| 0 <= k < v@.len() && (#[trigger] v@[k]).id == id,
        decreases v@.len() - i,
    {
        if v[i].id == id {
            return i;
        }
        i += 1;
    }
    assert(false);
    0
}

/// The word a caret at `offset` selects.
fn word_at_in(w: &Vec<(usize, usize)>, offset: usize) -> (r: Option<(usize, usize)>)
    ensures
        r == word_at(w@, offset as int),
        r matches Some(x) ==> w@.contains(x),
{
    let mut i: usize = 0;
    while i < w.len()
        invariant
            i <= w@.len(),
            first_word_holding(w@, offset as int, 0) == first_word_holding(w@, offset as int, i as int),
        decreases w@.len() - i,
    {
        if w[i].0 <= offset && offset < w[i].1 {
            assert(w@.contains(w@[i as int]));
            return Some(w[i]);
        }
        i += 1;
    }
    let mut j: usize = 0;
    while j < w.len()
        invariant
            j <= w@.len(),
            first_word_holding(w@, offset as int, 0) is None,
            first_word_ending(w@, offset as int, 0) == first_word_ending(w@, offset as int, j as int),
        decreases w@.len() - j,
    {
        if w[j].1 == offset {
            assert(w@.contains(w@[j as int]));
            return Some(w[j]);
        }
        j += 1;
    }
    None
}

/// The ranges that start and end on grapheme cluster boundaries.
fn keep_on_graphemes_in(ms: &Vec<(usize, usize)>, source: &str) -> (r: Vec<(usize, usize)>)
    ensures
        r@ == keep_on_graphemes(ms@, source@),
{
    let mut out: Vec<(usize, usize)> = Vec::new();
    let mut i: usize = 0;
    while i < ms.len()
        invariant
            i <= ms@.len(),
            out@ == keep_on_graphemes(ms@.subrange(0, i as int), source@),
        decreases ms@.len() - i,
    {
        let m = ms[i];
        let ghost pre = ms@.subrange(0, i + 1);
        assert(pre.drop_last() =~= ms@.subrange(0, i as int));
        assert(pre.last() == m);
        if floor_in(source, m.0) == m.0 && ceil_in(source, m.1) == m.1 {
            out.push(m);
        }
        i += 1;
    }
    assert(ms@.subrange(0, ms@.len() as int) =~= ms@);
    out
}

/// The ranges starting at or after `after` (when `later`) or before it.
fn split_at_offset_in(ms: &Vec<(usize, usize)>, after: usize, later: bool) -> (r: Vec<(usize, usize)>)
    ensures
        r@ == split_at_offset(ms@, after as int, later),
{
    let mut out: Vec<(usize, usize)> = Vec::new();
    let mut i: usize = 0;
    while i < ms.len()
        invariant
            i <= ms@.len(),
            out@ == split_at_offset(ms@.subrange(0, i as int), after as int, later),
        decreases ms@.len() - i,
    {
        let m = ms[i];
        let ghost pre = ms@.subrange(0, i + 1);
        assert(pre.drop_last() =~= ms@.subrange(0, i as int));
        assert(pre.last() == m);
        if (m.0 >= after) == later {
            out.push(m);
        }
        i += 1;
    }
    assert(ms@.subrange(0, ms@.len() as int) =~= ms@);
    out
}

/// Whether `b[from..to]` is exactly `q`.
pub(crate) fn range_is(b: &[u8], from: usize, to: usize, q: &[u8]) -> (r: bool)
    requires
        from <= to <= b@.len(),
    ensures
        r == (b@.subrange(from as int, to as int) == q@),
{
    if to - from != q.len() {
        assert(b@.subrange(from as int, to as int).len() != q@.len());
        return false;
    }
    let mut i: usize = 0;
    while i < q.len()
        invariant
            from <= to <= b@.len(),
            to - from == q@.len(),
            i <= q@.len(),
            forall|k: int| 0 <= k < i ==> b@[from + k] == q@[k],
        decreases q@.len() - i,
    {
        if b[from + i] != q[i] {
            assert(b@.subrange(from as int, to as int)[i as int] != q@[i as int]);
            return false;
        }
        i += 1;
    }
    assert(b@.subrange(from as int, to as int) =~= q@);
    true
}

/// The furthest end of a selection whose text is the query.
fn last_query_end_in(sels: &Vec<EditorSelection>, b: &[u8], q: &[u8]) -> (r: Option<usize>)
    requires
        forall|i: int| 0 <= i < sels@.len() ==> (#[trigger] sels@[i]).spec_range().end <= b@.len(),
        b@.len() <= usize::MAX,
    ensures
        r == (match last_query_end(sels@, b@, q@) {
            Some(e) => Some(e as usize),
            None => None,
        }),
        last_query_end(sels@, b@, q@) matches Some(e) ==> 0 <= e <= b@.len(),
{
    let mut best: Option<usize> = None;
    let mut i: usize = 0;
    while i < sels.len()
        invariant
            i <= sels@.len(),
            forall|k: int| 0 <= k < sels@.len() ==> (#[trigger] sels@[k]).spec_range().end <= b@.len(),
            b@.len() <= usize::MAX,
            best == (match last_query_end(sels@.subrange(0, i as int), b@, q@) {
                Some(e) => Some(e as usize),
                None => None,
            }),
            last_query_end(sels@.subrange(0, i as int), b@, q@) matches Some(e) ==> 0 <= e <= b@.len(),
        decreases sels@.len() - i,
    {
        let ghost pre = sels@.subrange(0, i + 1);
        assert(pre.drop_last() =~= sels@.subrange(0, i as int));
        assert(pre.last() == sels@[i as int]);
        let r = sels[i].range();
        if range_is(b, r.start, r.end, q) {
            best = match best {
                Some(p) => Some(if p >= r.end { p } else { r.end }),
                None => Some(r.end),
            };
        }
        i += 1;
    }
    assert(sels@.subrange(0, sels@.len() as int) =~= sels@);
    best
}

/// The (start, end) pairs of the selections.
fn spans_in(sels: &Vec<EditorSelection>) -> (r: Vec<(usize, usize)>)
    ensures
        r@ == spans_of(sels@),
{
    let mut out: Vec<(usize, usize)> = Vec::new();
    let mut i: usize = 0;
    while i < sels.len()
        invariant
            i <= sels@.len(),
            out@ =~= spans_of(sels@.subrange(0, i as int)),
        decreases sels@.len() - i,
    {
        let r = sels[i].range();
        out.push((r.start, r.end));
        i += 1;
    }
    assert(sels@.subrange(0, sels@.len() as int) =~= sels@);
    out
}

/// Whether a candidate overlaps the occupied ranges.
fn overlaps_in(pairs: &Vec<(usize, usize)>, c: (usize, usize)) -> (r: bool)
    ensures
        r == overlaps_occupied(pairs@, c),
{
    let mut below: Option<(usize, usize)> = None;
    let mut at: Option<usize> = None;
    let mut i: usize = 0;
    while i < pairs.len()
        invariant
            i <= pairs@.len(),
            below == last_entry_below(pairs@.subrange(0, i as int), c.1 as int),
            at == entry_at(pairs@.subrange(0, i as int), c.1 as int),
        decreases pairs@.len() - i,
    {
        let p = pairs[i];
        let ghost pre = pairs@.subrange(0, i + 1);
        assert(pre.drop_last() =~= pairs@.subrange(0, i as int));
        assert(pre.last() == p);
        let later = match below {
            Some(q) => p.0 >= q.0,
            None => true,
        };
        if p.0 < c.1 && later {
            below = Some(p);
        }
        if p.0 == c.1 {
            at = Some(p.1);
        }
        i += 1;
    }
    assert(pairs@.subrange(0, pairs@.len() as int) =~= pairs@);
    let reaches = match below {
        Some(p) => p.1 > c.0 || (p.0 == p.1 && p.1 == c.0),
        None => false,
    };
    let caret_at_end = match at {
        Some(e) => e == c.1,
        None => false,
    };
    reaches || caret_at_end
}

// ---------------------------------------------------------------------------
// The plan.

/// With the query's byte range known, plan the new selections.
fn plan_for_query_in(initial: Vec<EditorSelection>, source: &str, qs: usize, qe: usize, all: bool) -> (r: Option<(Vec<EditorSelection>, Vec<(usize, usize)>)>)
    requires
        qs <= qe <= source.spec_bytes().len(),
        forall|i: int| 0 <= i < initial@.len() ==> (#[trigger] initial@[i]).spec_range().end <= source.spec_bytes().len(),
        initial@.len() + source.spec_bytes().len() + 2 < u64::MAX,
    ensures
        match r {
            Some((s, v)) => plan_for_query(initial@, source@, qs as int, qe as int, all) == Some((s@, v@)),
            None => plan_for_query(initial@, source@, qs as int, qe as int, all) is None,
        },
{
    let sels = initial;
    let b = source.as_bytes();
    let blen = b.len();
    if qe - qs == 0 {
        return None;
    }
    let q = vstd::slice::slice_subrange(b, qs, qe);
    let found = match overlapping_occurrences(b, q) {
        None => {
            return None;
        },
        Some(v) => v,
    };
    let ms = keep_on_graphemes_in(&found, source);
    let after = match last_query_end_in(&sels, b, q) {
        Some(e) => e,
        None => qe,
    };
    let mut cands = split_at_offset_in(&ms, after, true);
    let rest = split_at_offset_in(&ms, after, false);
    let ghost head = cands@;
    let mut k: usize = 0;
    while k < rest.len()
        invariant
            k <= rest@.len(),
            cands@ =~= head + rest@.subrange(0, k as int),
        decreases rest@.len() - k,
    {
        cands.push(rest[k]);
        k += 1;
    }
    assert(rest@.subrange(0, rest@.len() as int) =~= rest@);
    proof {
        lemma_occurrences_len(b@, q@, 0);
        lemma_keep_len(found@, source@);
        lemma_split_len(ms@, after as int);
    }
    let ghost sels0 = sels@;
    let mut sels = sels;
    let mut occupied = spans_in(&sels);
    let first_id = next_selection_id(&sels);
    proof {
        lemma_next_id_is_spec(sels@, first_id);
    }
    let mut id = first_id;
    let mut revealed: Vec<(usize, usize)> = Vec::new();
    let mut i: usize = 0;
    while i < cands.len()
        invariant
            i <= cands@.len(),
            cands@.len() <= blen,
            sels@.len() <= sels0.len() + i,
            sels0.len() + blen + 2 < u64::MAX,
            sels0 == initial@,
            plan_for_query(sels0, source@, qs as int, qe as int, all) == Some(
                take_candidates(cands@, 0, sels0, spans_of(sels0), next_id_spec(sels0), Seq::empty(), all),
            ),
            take_candidates(cands@, 0, sels0, spans_of(sels0), next_id_spec(sels0), Seq::empty(), all)
                == take_candidates(cands@, i as int, sels@, occupied@, id, revealed@, all),
        decreases cands@.len() - i,
    {
        let c = cands[i];
        if !overlaps_in(&occupied, c) {
            let ghost (s_before, r_before) = (sels@, revealed@);
            sels.push(EditorSelection::new(id, c.0, c.1));
            revealed.push(c);
            if !all {
                assert(take_candidates(cands@, i as int, s_before, occupied@, id, r_before, all) == (sels@, revealed@));
                return Some((sels, revealed));
            }
            id = free_after_in(&sels, id);
            occupied.push(c);
        }
        i += 1;
    }
    Some((sels, revealed))
}

/// Plan select-next (or, with `all`, select-all) occurrences over the
/// selections in document order: the selections to set and the new ranges to
/// reveal, or none when there is nothing to select.
pub fn plan_occurrences(selections: Vec<EditorSelection>, primary: u64, source: &str, all: bool) -> (r: Option<(Vec<EditorSelection>, Vec<(usize, usize)>)>)
    requires
        valid_identities(selections@, primary),
        selections_within(selections@, source.spec_bytes()),
        selections@.len() + source.spec_bytes().len() + 2 < u64::MAX,
    ensures
        match r {
            Some((s, v)) => occurrence_plan(selections@, primary, source@, all) == Some((s@, v@)),
            None => occurrence_plan(selections@, primary, source@, all) is None,
        },
{
    let b = source.as_bytes();
    let _len = b.len();
    let mut sels = selections;
    let ix = index_of_id_in(&sels, primary);
    let range = sels[ix].range();
    assert forall|i: int| 0 <= i < sels@.len() implies (#[trigger] sels@[i]).spec_range().end <= source.spec_bytes().len() by {
        assert(sels@[i].anchor <= source.spec_bytes().len() && sels@[i].head <= source.spec_bytes().len());
    }
    if range.start != range.end {
        return plan_for_query_in(sels, source, range.start, range.end, all);
    }
    let words = word_spans(source);
    match word_at_in(&words, range.start) {
        None => None,
        Some(w) => {
            let ghost before = sels@;
            sels.set(ix, EditorSelection::new(primary, w.0, w.1));
            if !all {
                return Some((sels, Vec::new()));
            }
            let ghost wi = choose|j: int| 0 <= j < words@.len() && words@[j] == w;
            assert(words@[wi] == w);
            assert forall|i: int| 0 <= i < sels@.len() implies (#[trigger] sels@[i]).spec_range().end <= source.spec_bytes().len() by {
                if i != ix {
                    assert(sels@[i] == before[i]);
                }
            }
            plan_for_query_in(sels, source, w.0, w.1, all)
        },
    }
}

/// The revealed ranges as `start..end` ranges.
pub open spec fn ranges_are(r: Seq<Range<usize>>, v: Seq<(usize, usize)>) -> bool {
    r.len() == v.len() && forall|i: int| 0 <= i < r.len() ==> (#[trigger] r[i]).start == v[i].0 && r[i].end == v[i].1
}

impl InputBaseState {
    /// Select the next occurrence of the primary selection's text (with `all`,
    /// every occurrence) that overlaps no selection; a caret first selects its
    /// word. Returns the newly selected ranges, for the view to unfold and
    /// scroll to, when the selections changed; nothing happens while the
    /// input is disabled or composing.
    pub fn select_occurrences(&mut self, all: bool) -> (revealed: Vec<Range<usize>>)
        requires
            old(self).wf(),
            selections_within(snapshot_selections(old(self)), rope_bytes(old(self).text)),
            snapshot_selections(old(self)).len() + rope_bytes(old(self).text).len() + 2 < u64::MAX,
        ensures
            final(self).wf(),
            old(self).disabled || old(self).ime_marked_range is Some ==> *final(self) == *old(self) && revealed@.len() == 0,
            !(old(self).disabled || old(self).ime_marked_range is Some) ==> match occurrence_plan(
                snapshot_selections(old(self)),
                old(self).selection_set.primary_id,
                rope_chars(old(self).text),
                all,
            ) {
                None => *final(self) == *old(self) && revealed@.len() == 0,
                Some((sels, shown)) => Self::selections_replaced(old(self), final(self), sels, old(self).selection_set.primary_id)
                    && ranges_are(revealed@, shown),
            },
    {
        if self.disabled || self.ime_marked_range.is_some() {
            return Vec::new();
        }
        let snapshot = self.selection_snapshot();
        let primary = self.primary_selection_id();
        proof {
            lemma_snapshot_valid(self);
        }
        let source = rope_text(&self.text);
        proof {
            lemma_occurrence_plan_identities(snapshot_selections(self), primary, rope_chars(self.text), all);
        }
        let plan = plan_occurrences(snapshot.selections, primary, source.as_str(), all);
        match plan {
            None => Vec::new(),
            Some((sels, shown)) => {
                if !self.set_selections(sels, primary) {
                    return Vec::new();
                }
                let mut out: Vec<Range<usize>> = Vec::new();
                let mut i: usize = 0;
                while i < shown.len()
                    invariant
                        i <= shown@.len(),
                        out@.len() == i,
                        forall|k: int| 0 <= k < i ==> (#[trigger] out@[k]).start == shown@[k].0 && out@[k].end == shown@[k].1,
                    decreases shown@.len() - i,
                {
                    out.push(shown[i].0..shown[i].1);
                    i += 1;
                }
                out
            },
        }
    }
}

/// The index of the first caret (empty selection) at `offset` from `i`, or -1.
pub open spec fn caret_index(s: Seq<EditorSelection>, offset: int, i: int) -> int
    decreases s.len() - i,
{
    if i < 0 || i >= s.len() {
        -1
    } else if s[i].spec_range().start == s[i].spec_range().end && s[i].head == offset {
        i
    } else {
        caret_index(s, offset, i + 1)
    }
}

/// Toggling a caret at `offset`: a caret already there is removed (the first
/// remaining selection becomes primary if it was the primary), unless it is
/// the only selection; otherwise a new caret with a fresh identity is added.
/// Gives the selections to set and the primary's identity.
pub open spec fn toggle_plan(s: Seq<EditorSelection>, primary: u64, offset: int, affinity: bool) -> Option<(Seq<EditorSelection>, u64)> {
    let ix = caret_index(s, offset, 0);
    if ix >= 0 {
        if s.len() == 1 {
            None
        } else {
            let rest = s.remove(ix);
            Some((rest, if s[ix].id == primary { rest[0].id } else { primary }))
        }
    } else {
        Some((s.push(EditorSelection { id: next_id_spec(s), anchor: offset as usize, head: offset as usize, line_end_affinity: affinity, preferred_column: None }), primary))
    }
}

/// The first caret at an offset.
fn caret_index_in(v: &Vec<EditorSelection>, offset: usize) -> (r: Option<usize>)
    ensures
        match r {
            Some(i) => caret_index(v@, offset as int, 0) == i && i < v@.len(),
            None => caret_index(v@, offset as int, 0) == -1,
        },
{
    let mut i: usize = 0;
    while i < v.len()
        invariant
            i <= v@.len(),
            caret_index(v@, offset as int, 0) == caret_index(v@, offset as int, i as int),
        decreases v@.len() - i,
    {
        let r = v[i].range();
        if r.start == r.end && v[i].head == offset {
            return Some(i);
        }
        i += 1;
    }
    None
}

impl InputBaseState {
    /// Add a caret at the grapheme floor of `offset`, or remove the caret
    /// already there (keeping at least one selection). Returns whether the
    /// selections changed; nothing happens while the input is disabled or
    /// composing.
    pub fn toggle_caret(&mut self, offset: usize, affinity: bool) -> (changed: bool)
        requires
            old(self).wf(),
            snapshot_selections(old(self)).len() + 1 < u64::MAX,
        ensures
            final(self).wf(),
            old(self).disabled || old(self).ime_marked_range is Some ==> *final(self) == *old(self) && !changed,
            !(old(self).disabled || old(self).ime_marked_range is Some) ==> match toggle_plan(
                snapshot_selections(old(self)),
                old(self).selection_set.primary_id,
                floor_spec(rope_chars(old(self).text), offset as int),
                affinity,
            ) {
                None => *final(self) == *old(self) && !changed,
                Some((sels, primary)) => changed && Self::selections_replaced(old(self), final(self), sels, primary),
            },
    {
        if self.disabled || self.ime_marked_range.is_some() {
            return false;
        }
        let offset = floor(&self.text, offset);
        let snapshot = self.selection_snapshot();
        let mut selections = snapshot.selections;
        let mut primary = self.primary_selection_id();
        proof {
            lemma_snapshot_valid(self);
            lemma_toggle_plan_identities(selections@, primary, offset as int, affinity);
        }
        match caret_index_in(&selections, offset) {
            Some(ix) => {
                if selections.len() == 1 {
                    return false;
                }
                let removed = selections.remove(ix);
                if removed.id == primary {
                    primary = selections[0].id;
                }
            },
            None => {
                let id = next_selection_id(&selections);
                proof {
                    lemma_next_id_is_spec(selections@, id);
                }
                selections.push(EditorSelection::new(id, offset, offset).with_line_end_affinity(affinity));
            },
        }
        self.set_selections(selections, primary)
    }
}

// ---------------------------------------------------------------------------
// Identities stay unique.

/// Counting up from `id + k`, the walk stops at an identity not in use when
/// one lies ahead within reach.
proof fn lemma_free_from_unused(s: Seq<EditorSelection>, id: u64, k: int, k0: int)
    requires
        1 <= k <= k0 <= u64::MAX,
        !id_used(s, wrap_add(id, k0)),
    ensures
        !id_used(s, free_from(s, id, k)),
    decreases k0 - k,
{
    if id_used(s, wrap_add(id, k)) {
        lemma_free_from_unused(s, id, k + 1, k0);
    }
}

/// The identity after a taken one is not in use.
proof fn lemma_free_after_unused(s: Seq<EditorSelection>, id: u64)
    requires
        s.len() < u64::MAX,
    ensures
        !id_used(s, free_from(s, id, 1)),
{
    lemma_free_within(s, id);
    let k0 = choose|k: int| 1 <= k <= s.len() + 1 && !id_used(s, #[trigger] wrap_add(id, k));
    lemma_free_from_unused(s, id, 1, k0);
}

/// Where some identity is free, a least one is.
proof fn lemma_least_free(s: Seq<EditorSelection>, c: u64)
    requires
        !id_used(s, c),
    ensures
        exists|m: u64| !id_used(s, m) && forall|d: u64| d < m ==> id_used(s, d),
    decreases c,
{
    if exists|d: u64| d < c && !id_used(s, d) {
        let d = choose|d: u64| d < c && !id_used(s, d);
        lemma_least_free(s, d);
    } else {
        assert(forall|d: u64| d < c ==> id_used(s, d));
    }
}

/// A new selection's identity is not in use.
proof fn lemma_next_id_unused(s: Seq<EditorSelection>)
    requires
        s.len() < u64::MAX,
    ensures
        !id_used(s, next_id_spec(s)),
{
    lemma_max_id(s);
    if max_id(s) == u64::MAX {
        lemma_some_small_id_free(s);
        let c = choose|c: u64| c <= s.len() && !id_used(s, c);
        lemma_least_free(s, c);
    }
}

/// Adding a selection with an identity not in use keeps identities valid.
proof fn lemma_push_fresh(s: Seq<EditorSelection>, x: EditorSelection, primary: u64)
    requires
        valid_identities(s, primary),
        !id_used(s, x.id),
    ensures
        valid_identities(s.push(x), primary),
{
    let t = s.push(x);
    let k = choose|k: int| 0 <= k < s.len() && (#[trigger] s[k]).id == primary;
    assert(t[k] == s[k]);
    assert forall|i: int, j: int| 0 <= i < j < t.len() implies (#[trigger] t[i]).id != (#[trigger] t[j]).id by {
        if j < s.len() {
            assert(t[i] == s[i] && t[j] == s[j]);
        } else {
            assert(t[i] == s[i]);
            assert(t[j] == x);
        }
    }
}

proof fn lemma_take_keeps_identities(
    cands: Seq<(usize, usize)>,
    i: int,
    sels: Seq<EditorSelection>,
    occupied: Seq<(usize, usize)>,
    id: u64,
    revealed: Seq<(usize, usize)>,
    all: bool,
    primary: u64,
)
    requires
        0 <= i,
        valid_identities(sels, primary),
        !id_used(sels, id),
        sels.len() + cands.len() - i < u64::MAX,
    ensures
        valid_identities(take_candidates(cands, i, sels, occupied, id, revealed, all).0, primary),
    decreases cands.len() - i,
{
    if i < cands.len() {
        let c = cands[i];
        if overlaps_occupied(occupied, c) {
            lemma_take_keeps_identities(cands, i + 1, sels, occupied, id, revealed, all, primary);
        } else {
            let x = EditorSelection { id, anchor: c.0, head: c.1, line_end_affinity: false, preferred_column: None };
            let sels2 = sels.push(x);
            lemma_push_fresh(sels, x, primary);
            if all {
                lemma_free_after_unused(sels2, id);
                lemma_take_keeps_identities(cands, i + 1, sels2, occupied.push(c), free_from(sels2, id, 1), revealed.push(c), all, primary);
            }
        }
    }
}

proof fn lemma_index_of_id(s: Seq<EditorSelection>, id: u64, i: int)
    requires
        0 <= i,
        exists|k: int| i <= k < s.len() && (#[trigger] s[k]).id == id,
    ensures
        i <= index_of_id(s, id, i) < s.len(),
        s[index_of_id(s, id, i)].id == id,
    decreases s.len() - i,
{
    if s[i].id != id {
        let k = choose|k: int| i <= k < s.len() && (#[trigger] s[k]).id == id;
        assert(k != i);
        lemma_index_of_id(s, id, i + 1);
    }
}

/// Selecting occurrences never reuses an identity: the selections the plan
/// sets always form a valid set with the same primary.
pub proof fn lemma_occurrence_plan_identities(sels: Seq<EditorSelection>, primary: u64, text: Seq<char>, all: bool)
    requires
        valid_identities(sels, primary),
        sels.len() + encode_utf8(text).len() + 2 < u64::MAX,
    ensures
        occurrence_plan(sels, primary, text, all) matches Some((ns, _)) ==> valid_identities(ns, primary),
{
    lemma_index_of_id(sels, primary, 0);
    let ix = index_of_id(sels, primary, 0);
    let r = sels[ix].spec_range();
    let b = encode_utf8(text);
    if r.start == r.end {
        if let Some(w) = word_at(unicode_word_spans(text), r.start as int) {
            let x = EditorSelection { id: primary, anchor: w.0, head: w.1, line_end_affinity: false, preferred_column: None };
            let sels2 = sels.update(ix, x);
            assert(sels2[ix] == x);
            assert forall|a: int, c: int| 0 <= a < c < sels2.len() implies (#[trigger] sels2[a]).id != (#[trigger] sels2[c]).id by {
                assert(sels2[a].id == sels[a].id && sels2[c].id == sels[c].id);
            }
            if all {
                lemma_plan_for_query_identities(sels2, primary, text, w.0 as int, w.1 as int, all);
            }
        }
    } else {
        lemma_plan_for_query_identities(sels, primary, text, r.start as int, r.end as int, all);
    }
}

proof fn lemma_plan_for_query_identities(sels: Seq<EditorSelection>, primary: u64, text: Seq<char>, qs: int, qe: int, all: bool)
    requires
        valid_identities(sels, primary),
        sels.len() + encode_utf8(text).len() + 2 < u64::MAX,
    ensures
        plan_for_query(sels, text, qs, qe, all) matches Some((ns, _)) ==> valid_identities(ns, primary),
{
    let b = encode_utf8(text);
    let q = b.subrange(qs, qe);
    if !(q.len() == 0 || !automaton_builds(q)) {
        let found = occurrences_from(b, q, 0);
        let ms = keep_on_graphemes(found, text);
        let after = match last_query_end(sels, b, q) {
            Some(e) => e,
            None => qe,
        };
        let cands = split_at_offset(ms, after, true) + split_at_offset(ms, after, false);
        lemma_occurrences_len(b, q, 0);
        lemma_keep_len(found, text);
        lemma_split_len(ms, after);
        lemma_next_id_unused(sels);
        lemma_take_keeps_identities(cands, 0, sels, spans_of(sels), next_id_spec(sels), Seq::empty(), all, primary);
    }
}

/// Toggling a caret always yields a valid set: removing a caret keeps the
/// others' identities (the first becomes primary if the primary went), and
/// an added caret takes an identity not in use.
pub proof fn lemma_toggle_plan_identities(s: Seq<EditorSelection>, primary: u64, offset: int, affinity: bool)
    requires
        valid_identities(s, primary),
        s.len() + 1 < u64::MAX,
    ensures
        toggle_plan(s, primary, offset, affinity) matches Some((ns, p)) ==> valid_identities(ns, p),
{
    let ix = caret_index(s, offset, 0);
    lemma_caret_index_bounds(s, offset, 0);
    if ix >= 0 {
        if s.len() > 1 {
            let rest = s.remove(ix);
            let p = if s[ix].id == primary { rest[0].id } else { primary };
            assert forall|a: int, c: int| 0 <= a < c < rest.len() implies (#[trigger] rest[a]).id != (#[trigger] rest[c]).id by {
                let a2 = if a < ix { a } else { a + 1 };
                let c2 = if c < ix { c } else { c + 1 };
                assert(rest[a] == s[a2] && rest[c] == s[c2]);
            }
            if s[ix].id == primary {
                assert(rest[0].id == p);
            } else {
                let k = choose|k: int| 0 <= k < s.len() && (#[trigger] s[k]).id == primary;
                assert(k != ix);
                let k2 = if k < ix { k } else { k - 1 };
                assert(rest[k2] == s[k]);
            }
        }
    } else {
        lemma_next_id_unused(s);
        lemma_push_fresh(s, EditorSelection { id: next_id_spec(s), anchor: offset as usize, head: offset as usize, line_end_affinity: affinity, preferred_column: None }, primary);
    }
}

proof fn lemma_caret_index_bounds(s: Seq<EditorSelection>, offset: int, i: int)
    requires
        0 <= i,
    ensures
        caret_index(s, offset, i) == -1 || (i <= caret_index(s, offset, i) < s.len()),
    decreases s.len() - i,
{
    if i < s.len() && !(s[i].spec_range().start == s[i].spec_range().end && s[i].head == offset) {
        lemma_caret_index_bounds(s, offset, i + 1);
    }
}

// ---------------------------------------------------------------------------
// What the added selections hold.

/// The range is an occurrence of `p` in `h`: its bytes are `p`.
pub open spec fn is_occurrence(m: (usize, usize), h: Seq<u8>, p: Seq<u8>) -> bool {
    &&& m.0 + p.len() == m.1
    &&& m.1 <= h.len()
    &&& h.subrange(m.0 as int, m.1 as int) == p
}

/// Every range that `occurrences_from` lists is an occurrence.
proof fn lemma_occurrences_hold(h: Seq<u8>, p: Seq<u8>, i: int)
    requires
        h.len() <= usize::MAX,
    ensures
        forall|k: int| 0 <= k < occurrences_from(h, p, i).len() ==> is_occurrence(#[trigger] occurrences_from(h, p, i)[k], h, p),
    decreases h.len() - i,
{
    if !(i < 0 || i >= h.len() || i + p.len() > h.len()) {
        lemma_occurrences_hold(h, p, i + 1);
        let head: Seq<(usize, usize)> = if h.subrange(i, i + p.len()) == p {
            seq![(i as usize, (i + p.len()) as usize)]
        } else {
            Seq::empty()
        };
        let rest = occurrences_from(h, p, i + 1);
        assert(occurrences_from(h, p, i) == head + rest);
        assert forall|k: int| 0 <= k < (head + rest).len() implies is_occurrence(#[trigger] (head + rest)[k], h, p) by {
            if k >= head.len() {
                assert((head + rest)[k] == rest[k - head.len()]);
            }
        }
    }
}

/// Keeping the ranges on grapheme boundaries keeps only occurrences.
proof fn lemma_keep_holds(ms: Seq<(usize, usize)>, text: Seq<char>, h: Seq<u8>, p: Seq<u8>)
    requires
        forall|k: int| 0 <= k < ms.len() ==> is_occurrence(#[trigger] ms[k], h, p),
    ensures
        forall|k: int| 0 <= k < keep_on_graphemes(ms, text).len() ==> is_occurrence(#[trigger] keep_on_graphemes(ms, text)[k], h, p),
    decreases ms.len(),
{
    if ms.len() > 0 {
        let d = ms.drop_last();
        assert forall|k: int| 0 <= k < d.len() implies is_occurrence(#[trigger] d[k], h, p) by {
            assert(d[k] == ms[k]);
        }
        lemma_keep_holds(d, text, h, p);
        assert(is_occurrence(ms[ms.len() - 1], h, p));
        let kd = keep_on_graphemes(d, text);
        if on_graphemes(ms.last(), text) {
            assert forall|k: int| 0 <= k < kd.push(ms.last()).len() implies is_occurrence(#[trigger] kd.push(ms.last())[k], h, p) by {
                if k < kd.len() {
                    assert(kd.push(ms.last())[k] == kd[k]);
                }
            }
        }
    }
}

/// Splitting at an offset keeps only occurrences.
proof fn lemma_split_holds(ms: Seq<(usize, usize)>, after: int, later: bool, h: Seq<u8>, p: Seq<u8>)
    requires
        forall|k: int| 0 <= k < ms.len() ==> is_occurrence(#[trigger] ms[k], h, p),
    ensures
        forall|k: int| 0 <= k < split_at_offset(ms, after, later).len() ==> is_occurrence(#[trigger] split_at_offset(ms, after, later)[k], h, p),
    decreases ms.len(),
{
    if ms.len() > 0 {
        let d = ms.drop_last();
        assert forall|k: int| 0 <= k < d.len() implies is_occurrence(#[trigger] d[k], h, p) by {
            assert(d[k] == ms[k]);
        }
        lemma_split_holds(d, after, later, h, p);
        assert(is_occurrence(ms[ms.len() - 1], h, p));
        let sd = split_at_offset(d, after, later);
        if (ms.last().0 >= after) == later {
            assert forall|k: int| 0 <= k < sd.push(ms.last()).len() implies is_occurrence(#[trigger] sd.push(ms.last())[k], h, p) by {
                if k < sd.len() {
                    assert(sd.push(ms.last())[k] == sd[k]);
                }
            }
        }
    }
}

/// Taking candidates keeps the selections it starts from, in place, and adds
/// forward selections over candidates only.
proof fn lemma_take_holds(
    cands: Seq<(usize, usize)>,
    i: int,
    sels: Seq<EditorSelection>,
    occupied: Seq<(usize, usize)>,
    id: u64,
    revealed: Seq<(usize, usize)>,
    all: bool,
    h: Seq<u8>,
    p: Seq<u8>,
)
    requires
        forall|k: int| 0 <= k < cands.len() ==> is_occurrence(#[trigger] cands[k], h, p),
    ensures
        ({
            let out = take_candidates(cands, i, sels, occupied, id, revealed, all).0;
            &&& out.len() >= sels.len()
            &&& out.subrange(0, sels.len() as int) == sels
            &&& forall|k: int| sels.len() <= k < out.len() ==> is_occurrence((#[trigger] out[k].anchor, out[k].head), h, p)
        }),
    decreases cands.len() - i,
{
    if !(i < 0 || i >= cands.len()) {
        let c = cands[i];
        if overlaps_occupied(occupied, c) {
            lemma_take_holds(cands, i + 1, sels, occupied, id, revealed, all, h, p);
        } else {
            let sels2 = sels.push(EditorSelection { id, anchor: c.0, head: c.1, line_end_affinity: false, preferred_column: None });
            let revealed2 = revealed.push(c);
            if all {
                lemma_take_holds(cands, i + 1, sels2, occupied.push(c), free_from(sels2, id, 1), revealed2, all, h, p);
            }
            let out = take_candidates(cands, i, sels, occupied, id, revealed, all).0;
            assert(out.subrange(0, sels2.len() as int) == sels2);
            assert forall|k: int| sels.len() <= k < out.len() implies is_occurrence((#[trigger] out[k].anchor, out[k].head), h, p) by {
                if k == sels.len() {
                    assert(out.subrange(0, sels2.len() as int)[k] == sels2[k]);
                }
            }
            assert(out.subrange(0, sels.len() as int) =~= out.subrange(0, sels2.len() as int).subrange(0, sels.len() as int));
            assert(sels2.subrange(0, sels.len() as int) =~= sels);
        }
    } else {
        assert(sels.subrange(0, sels.len() as int) =~= sels);
    }
}

/// Planning over a known query keeps the selections it is given and adds only
/// selections whose bytes are the query's.
proof fn lemma_plan_for_query_holds(sels: Seq<EditorSelection>, text: Seq<char>, qs: int, qe: int, all: bool)
    requires
        encode_utf8(text).len() <= usize::MAX,
    ensures
        plan_for_query(sels, text, qs, qe, all) matches Some((out, shown)) ==> {
            &&& out.len() >= sels.len()
            &&& out.subrange(0, sels.len() as int) == sels
            &&& forall|k: int| sels.len() <= k < out.len()
                ==> is_occurrence((#[trigger] out[k].anchor, out[k].head), encode_utf8(text), encode_utf8(text).subrange(qs, qe))
        },
{
    let b = encode_utf8(text);
    let q = b.subrange(qs, qe);
    if !(q.len() == 0 || !automaton_builds(q)) {
        let occ = occurrences_from(b, q, 0);
        lemma_occurrences_hold(b, q, 0);
        let ms = keep_on_graphemes(occ, text);
        lemma_keep_holds(occ, text, b, q);
        let after = match last_query_end(sels, b, q) {
            Some(e) => e,
            None => qe,
        };
        let l = split_at_offset(ms, after, true);
        let r = split_at_offset(ms, after, false);
        lemma_split_holds(ms, after, true, b, q);
        lemma_split_holds(ms, after, false, b, q);
        let cands = l + r;
        assert forall|k: int| 0 <= k < cands.len() implies is_occurrence(#[trigger] cands[k], b, q) by {
            if k >= l.len() {
                assert(cands[k] == r[k - l.len()]);
            } else {
                assert(cands[k] == l[k]);
            }
        }
        lemma_take_holds(cands, 0, sels, spans_of(sels), next_id_spec(sels), Seq::empty(), all, b, q);
    }
}

/// The selections a plan sets keep every selection but the primary as it was
/// and add only selections over the query: the primary selection's text, or,
/// from a caret, the word that the primary selection then selects from its
/// start (anchor) to its end (head).
pub open spec fn plan_selects_query(sels: Seq<EditorSelection>, primary: u64, text: Seq<char>, all: bool) -> bool {
    occurrence_plan(sels, primary, text, all) matches Some((out, shown)) ==> {
        let ix = index_of_id(sels, primary, 0);
        let r = sels[ix].spec_range();
        let b = encode_utf8(text);
        let query = if r.start == r.end {
            b.subrange(out[ix].anchor as int, out[ix].head as int)
        } else {
            b.subrange(r.start as int, r.end as int)
        };
        &&& 0 <= ix < sels.len() <= out.len()
        &&& out[ix].id == primary
        &&& forall|k: int| 0 <= k < sels.len() && k != ix ==> out[k] == sels[k]
        &&& r.start != r.end ==> out[ix] == sels[ix]
        &&& forall|k: int| sels.len() <= k < out.len() ==> is_occurrence((#[trigger] out[k].anchor, out[k].head), b, query)
    }
}

/// Select next and select all occurrences keep every other selection as it
/// was and add only selections over the query: the primary selection's text,
/// or, from a caret, the word it is in or at the end of, which the primary
/// selection then selects.
pub proof fn lemma_occurrences_select_the_query(sels: Seq<EditorSelection>, primary: u64, text: Seq<char>, all: bool)
    requires
        valid_identities(sels, primary),
        encode_utf8(text).len() <= usize::MAX,
    ensures
        plan_selects_query(sels, primary, text, all),
{
    let k0 = choose|k: int| 0 <= k < sels.len() && (#[trigger] sels[k]).id == primary;
    lemma_index_of_id(sels, primary, 0);
    let ix = index_of_id(sels, primary, 0);
    let r = sels[ix].spec_range();
    let b = encode_utf8(text);
    if r.start == r.end {
        if let Some(w) = word_at(unicode_word_spans(text), r.start as int) {
            let sels2 = sels.update(ix, EditorSelection { id: primary, anchor: w.0, head: w.1, line_end_affinity: false, preferred_column: None });
            if all {
                lemma_plan_for_query_holds(sels2, text, w.0 as int, w.1 as int, all);
                assert(occurrence_plan(sels, primary, text, all) == plan_for_query(sels2, text, w.0 as int, w.1 as int, all));
                if let Some((out, shown)) = plan_for_query(sels2, text, w.0 as int, w.1 as int, all) {
                    assert forall|k: int| 0 <= k < sels2.len() implies out[k] == #[trigger] sels2[k] by {
                        assert(out.subrange(0, sels2.len() as int)[k] == out[k]);
                    }
                    assert(out[ix] == sels2[ix]);
                    assert forall|k: int| 0 <= k < sels.len() && k != ix implies out[k] == #[trigger] sels[k] by {
                        assert(out[k] == sels2[k]);
                    }
                    assert(plan_selects_query(sels, primary, text, all));
                }
            } else {
                assert(occurrence_plan(sels, primary, text, all) == Some((sels2, Seq::<(usize, usize)>::empty())));
            }
        } else {
            assert(occurrence_plan(sels, primary, text, all) is None);
        }
    } else {
        lemma_plan_for_query_holds(sels, text, r.start as int, r.end as int, all);
        assert(occurrence_plan(sels, primary, text, all) == plan_for_query(sels, text, r.start as int, r.end as int, all));
        if let Some((out, shown)) = plan_for_query(sels, text, r.start as int, r.end as int, all) {
            assert forall|k: int| 0 <= k < sels.len() implies out[k] == #[trigger] sels[k] by {
                assert(out.subrange(0, sels.len() as int)[k] == out[k]);
            }
            assert(out[ix] == sels[ix]);
        }
    }
}

// ---------------------------------------------------------------------------
// The word a caret selects.

proof fn lemma_first_word_holding(w: Seq<(usize, usize)>, offset: int, i: int)
    requires
        0 <= i,
    ensures
        match first_word_holding(w, offset, i) {
            Some(x) => exists|k: int|
                i <= k < w.len() && #[trigger] w[k] == x && w[k].0 <= offset < w[k].1 && forall|j: int|
                    i <= j < k ==> !(#[trigger] w[j].0 <= offset < w[j].1),
            None => forall|j: int| i <= j < w.len() ==> !(#[trigger] w[j].0 <= offset < w[j].1),
        },
    decreases w.len() - i,
{
    if i < w.len() && !(w[i].0 <= offset < w[i].1) {
        lemma_first_word_holding(w, offset, i + 1);
    }
}

proof fn lemma_first_word_ending(w: Seq<(usize, usize)>, offset: int, i: int)
    requires
        0 <= i,
    ensures
        match first_word_ending(w, offset, i) {
            Some(x) => exists|k: int|
                i <= k < w.len() && #[trigger] w[k] == x && w[k].1 == offset && forall|j: int|
                    i <= j < k ==> #[trigger] w[j].1 != offset,
            None => forall|j: int| i <= j < w.len() ==> #[trigger] w[j].1 != offset,
        },
    decreases w.len() - i,
{
    if i < w.len() && w[i].1 != offset {
        lemma_first_word_ending(w, offset, i + 1);
    }
}

/// The word a caret selects is the first of the text's words that holds the
/// caret's offset; where none holds it, the first that ends there; where
/// none does either, there is none.
pub proof fn lemma_word_at_caret(w: Seq<(usize, usize)>, offset: int)
    ensures
        (exists|k: int| 0 <= k < w.len() && #[trigger] w[k].0 <= offset < w[k].1) ==> exists|k: int|
            0 <= k < w.len() && word_at(w, offset) == Some(#[trigger] w[k]) && w[k].0 <= offset < w[k].1
                && forall|j: int| 0 <= j < k ==> !(#[trigger] w[j].0 <= offset < w[j].1),
        (forall|k: int| 0 <= k < w.len() ==> !(#[trigger] w[k].0 <= offset < w[k].1)) && (exists|k: int|
            0 <= k < w.len() && #[trigger] w[k].1 == offset) ==> exists|k: int|
            0 <= k < w.len() && word_at(w, offset) == Some(#[trigger] w[k]) && w[k].1 == offset && forall|j: int|
                0 <= j < k ==> #[trigger] w[j].1 != offset,
        (forall|k: int| #![trigger w[k]] 0 <= k < w.len() ==> !(w[k].0 <= offset < w[k].1) && w[k].1 != offset)
            ==> word_at(w, offset) is None,
{
    lemma_first_word_holding(w, offset, 0);
    lemma_first_word_ending(w, offset, 0);
    if forall|k: int| #![trigger w[k]] 0 <= k < w.len() ==> !(w[k].0 <= offset < w[k].1) && w[k].1 != offset {
        if let Some(x) = first_word_holding(w, offset, 0) {
            let k = choose|k: int|
                0 <= k < w.len() && #[trigger] w[k] == x && w[k].0 <= offset < w[k].1 && forall|j: int|
                    0 <= j < k ==> !(#[trigger] w[j].0 <= offset < w[j].1);
            assert(!(w[k].0 <= offset < w[k].1));
        }
        if let Some(x) = first_word_ending(w, offset, 0) {
            let k = choose|k: int|
                0 <= k < w.len() && #[trigger] w[k] == x && w[k].1 == offset && forall|j: int|
                    0 <= j < k ==> #[trigger] w[j].1 != offset;
            assert(w[k].1 != offset);
        }
    }
}

/// Select next occurrence from a caret selects the caret's word: when the
/// primary selection is empty at offset `o` and the text's word spans hold
/// `o` (the first such word), or else end at `o` (the first such word),
/// the primary selection becomes that word, start to end, and nothing else
/// changes. Where no word holds `o` or ends at it, nothing is selected.
pub proof fn lemma_caret_selects_its_word(sels: Seq<EditorSelection>, primary: u64, text: Seq<char>, k: int)
    requires
        valid_identities(sels, primary),
        sels[index_of_id(sels, primary, 0)].anchor == sels[index_of_id(sels, primary, 0)].head,
        0 <= k < unicode_word_spans(text).len(),
        ({
            let w = unicode_word_spans(text);
            let o = sels[index_of_id(sels, primary, 0)].head as int;
            ||| (w[k].0 <= o < w[k].1 && forall|j: int| 0 <= j < k ==> !(#[trigger] w[j].0 <= o < w[j].1))
            ||| ((forall|j: int| 0 <= j < w.len() ==> !(#[trigger] w[j].0 <= o < w[j].1)) && w[k].1 == o
                && forall|j: int| 0 <= j < k ==> #[trigger] w[j].1 != o)
        }),
    ensures
        occurrence_plan(sels, primary, text, false) == Some(
            (
                sels.update(
                    index_of_id(sels, primary, 0),
                    EditorSelection {
                        id: primary,
                        anchor: unicode_word_spans(text)[k].0,
                        head: unicode_word_spans(text)[k].1,
                        line_end_affinity: false,
                        preferred_column: None,
                    },
                ),
                Seq::<(usize, usize)>::empty(),
            ),
        ),
{
    let k0 = choose|i: int| 0 <= i < sels.len() && (#[trigger] sels[i]).id == primary;
    lemma_index_of_id(sels, primary, 0);
    let w = unicode_word_spans(text);
    let ix = index_of_id(sels, primary, 0);
    let o = sels[ix].head as int;
    assert(sels[ix].spec_range().start == o && sels[ix].spec_range().end == o);
    lemma_first_word_holding(w, o, 0);
    lemma_first_word_ending(w, o, 0);
    if w[k].0 <= o < w[k].1 && forall|j: int| 0 <= j < k ==> !(#[trigger] w[j].0 <= o < w[j].1) {
        if let Some(x) = first_word_holding(w, o, 0) {
            let k2 = choose|k2: int|
                0 <= k2 < w.len() && #[trigger] w[k2] == x && w[k2].0 <= o < w[k2].1 && forall|j: int|
                    0 <= j < k2 ==> !(#[trigger] w[j].0 <= o < w[j].1);
            if k2 < k {
                assert(!(w[k2].0 <= o < w[k2].1));
            } else if k < k2 {
                assert(!(w[k].0 <= o < w[k].1));
            }
        }
    } else {
        if let Some(x) = first_word_ending(w, o, 0) {
            let k2 = choose|k2: int|
                0 <= k2 < w.len() && #[trigger] w[k2] == x && w[k2].1 == o && forall|j: int|
                    0 <= j < k2 ==> #[trigger] w[j].1 != o;
            if k2 < k {
                assert(w[k2].1 != o);
            } else if k < k2 {
                assert(w[k].1 != o);
            }
        }
    }
}

/// From a caret that neither lies in a word nor ends one, select next and
/// select all occurrences select nothing.
pub proof fn lemma_caret_outside_words_selects_nothing(sels: Seq<EditorSelection>, primary: u64, text: Seq<char>, all: bool)
    requires
        valid_identities(sels, primary),
        sels[index_of_id(sels, primary, 0)].anchor == sels[index_of_id(sels, primary, 0)].head,
        forall|j: int|
            0 <= j < unicode_word_spans(text).len() ==> !(#[trigger] unicode_word_spans(text)[j].0
                <= sels[index_of_id(sels, primary, 0)].head < unicode_word_spans(text)[j].1)
                && unicode_word_spans(text)[j].1 != sels[index_of_id(sels, primary, 0)].head,
    ensures
        occurrence_plan(sels, primary, text, all) is None,
{
    let w = unicode_word_spans(text);
    let ix = index_of_id(sels, primary, 0);
    let o = sels[ix].head as int;
    assert forall|k: int| 0 <= k < w.len() implies !(#[trigger] w[k].0 <= o < w[k].1) && w[k].1 != o by {
        assert(w[k] == unicode_word_spans(text)[k]);
    }
    lemma_word_at_caret(w, o);
}

} // verus!
