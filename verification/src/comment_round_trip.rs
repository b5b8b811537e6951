//! Toggling a comment twice: the second toggle takes off what the first put
//! on, for line comments and for block comments.
use crate::comment::{
    active_lines, all_blank, bytes_contains, bytes_ends_with, bytes_starts_with, comment_edits_spec,
    content_end, has_line_break_bytes, is_ws, keep_lines, lemma_keep_lines_members,
    lemma_keep_lines_ordered, lemma_line_span_bounds, lemma_lines_from_ordered, line_span, lines_from,
    skip_ws, trim_ws_end, valid_body, EditView, LineSpan,
};
use crate::comment_toggle::apply_views_from;
use crate::editor::{at_char, lemma_at_char_index, lemma_replace_keeps_prefix, replace_bytes_spec};
use crate::text::{lemma_chars_within_monotone, next_newline};
use crate::utf8_facts::{lemma_after_ascii, lemma_boundary_at_char, lemma_encode_utf8_concat, lemma_encode_utf8_first, lemma_no_break_bytes};
use vstd::prelude::*;
use vstd::utf8::encode_utf8;

verus! {

// ---------------------------------------------------------------------------
// Edits on bytes.

/// `b` with `[s, e)` replaced by `x`.
spec fn splice_bytes(b: Seq<u8>, s: int, e: int, x: Seq<u8>) -> Seq<u8> {
    b.subrange(0, s) + x + b.subrange(e, b.len() as int)
}

/// The bytes with `edits[k..]` applied, the last first.
spec fn apply_bytes_from(b: Seq<u8>, edits: Seq<EditView>, k: int) -> Seq<u8>
    decreases edits.len() - k,
{
    if k < 0 || k >= edits.len() {
        b
    } else {
        splice_bytes(apply_bytes_from(b, edits, k + 1), edits[k].start, edits[k].end, encode_utf8(edits[k].text))
    }
}

/// Replacing a byte range that starts and ends at characters splices the
/// encoded text.
proof fn lemma_replace_encode(t: Seq<char>, s: int, e: int, x: Seq<char>)
    requires
        s <= e,
        at_char(t, s),
        at_char(t, e),
    ensures
        encode_utf8(replace_bytes_spec(t, s, e, x)) == splice_bytes(encode_utf8(t), s, e, encode_utf8(x)),
{
    let k1 = lemma_at_char_index(t, s);
    let k2 = lemma_at_char_index(t, e);
    lemma_chars_within_monotone(t, s, e);
    let a = t.subrange(0, k1);
    let z = t.subrange(k2, t.len() as int);
    assert(replace_bytes_spec(t, s, e, x) == a + x + z);
    lemma_encode_utf8_concat(a + x, z);
    lemma_encode_utf8_concat(a, x);
    assert(t =~= a + t.subrange(k1, t.len() as int));
    lemma_encode_utf8_concat(a, t.subrange(k1, t.len() as int));
    assert(t =~= t.subrange(0, k2) + z);
    lemma_encode_utf8_concat(t.subrange(0, k2), z);
    let b = encode_utf8(t);
    assert(b.subrange(0, s) =~= encode_utf8(a));
    assert(b.subrange(e, b.len() as int) =~= encode_utf8(z));
    assert(encode_utf8(a + x + z) =~= splice_bytes(b, s, e, encode_utf8(x)));
}

/// Edits in order whose ends fall on characters: applying them to the
/// characters is applying them to the bytes.
proof fn lemma_views_as_bytes(t: Seq<char>, es: Seq<EditView>, k: int)
    requires
        0 <= k <= es.len(),
        forall|i: int|
            0 <= i < es.len() ==> (#[trigger] es[i]).start <= es[i].end && at_char(t, es[i].start) && at_char(t, es[i].end),
        forall|i: int, j: int| 0 <= i < j < es.len() ==> (#[trigger] es[i]).end <= (#[trigger] es[j]).start,
    ensures
        encode_utf8(apply_views_from(t, es, k)) == apply_bytes_from(encode_utf8(t), es, k),
        forall|i: int|
            0 <= i < k ==> at_char(apply_views_from(t, es, k), (#[trigger] es[i]).start) && at_char(
                apply_views_from(t, es, k),
                es[i].end,
            ),
    decreases es.len() - k,
{
    if k < es.len() {
        lemma_views_as_bytes(t, es, k + 1);
        let cur = apply_views_from(t, es, k + 1);
        lemma_replace_encode(cur, es[k].start, es[k].end, es[k].text);
        assert forall|i: int| 0 <= i < k implies at_char(apply_views_from(t, es, k), (#[trigger] es[i]).start)
            && at_char(apply_views_from(t, es, k), es[i].end) by {
            assert(es[i].end <= es[k].start);
            lemma_replace_keeps_prefix(cur, es[k].start, es[k].end, es[k].text, es[i].start);
            lemma_replace_keeps_prefix(cur, es[k].start, es[k].end, es[k].text, es[i].end);
        }
    }
}

// ---------------------------------------------------------------------------
// Insertions made from the front, and taken off again.

/// `l` copies of `n` added up.
spec fn times(n: int, l: int) -> int
    decreases l,
{
    if l <= 0 {
        0
    } else {
        times(n, l - 1) + n
    }
}

proof fn lemma_times_grow(n: int, a: int, b: int)
    requires
        0 <= n,
        0 <= a < b,
    ensures
        times(n, a) + n <= times(n, b),
        0 <= times(n, a),
    decreases b,
{
    if a + 1 < b {
        lemma_times_grow(n, a, b - 1);
    }
    lemma_times_nonneg(n, a);
}

proof fn lemma_times_nonneg(n: int, a: int)
    requires
        0 <= n,
    ensures
        0 <= times(n, a),
    decreases a,
{
    if a > 0 {
        lemma_times_nonneg(n, a - 1);
    }
}

/// `x` inserted at `ps[..j]` in turn from the front, each position moved past
/// the copies already inserted.
spec fn front_insert(b: Seq<u8>, ps: Seq<int>, x: Seq<u8>, j: int) -> Seq<u8>
    decreases j,
{
    if j <= 0 {
        b
    } else {
        let q = ps[j - 1] + times(x.len() as int, j - 1);
        splice_bytes(front_insert(b, ps, x, j - 1), q, q, x)
    }
}

/// Positions in order within the bytes.
spec fn positions_fit(ps: Seq<int>, len: int) -> bool {
    &&& forall|i: int| 0 <= i < ps.len() ==> 0 <= #[trigger] ps[i] <= len
    &&& forall|i: int, j: int| 0 <= i < j < ps.len() ==> #[trigger] ps[i] <= #[trigger] ps[j]
}

proof fn lemma_front_insert_len(b: Seq<u8>, ps: Seq<int>, x: Seq<u8>, j: int)
    requires
        positions_fit(ps, b.len() as int),
        0 <= j <= ps.len(),
    ensures
        front_insert(b, ps, x, j).len() == b.len() + times(x.len() as int, j),
    decreases j,
{
    if j > 0 {
        lemma_front_insert_len(b, ps, x, j - 1);
        lemma_times_nonneg(x.len() as int, j - 1);
    }
}

/// Two insertions commute once the later position moves past the earlier
/// inserted text.
proof fn lemma_insertions_commute(y: Seq<u8>, a: int, c: int, xa: Seq<u8>, xc: Seq<u8>)
    requires
        0 <= a <= c <= y.len(),
    ensures
        splice_bytes(splice_bytes(y, c, c, xc), a, a, xa) == splice_bytes(
            splice_bytes(y, a, a, xa),
            c + xa.len(),
            c + xa.len(),
            xc,
        ),
        splice_bytes(splice_bytes(y, c, c, xc), a, a, xa) == y.subrange(0, a) + xa + y.subrange(a, c) + xc
            + y.subrange(c, y.len() as int),
{
    let l = splice_bytes(splice_bytes(y, c, c, xc), a, a, xa);
    let r = splice_bytes(splice_bytes(y, a, a, xa), c + xa.len(), c + xa.len(), xc);
    let whole = y.subrange(0, a) + xa + y.subrange(a, c) + xc + y.subrange(c, y.len() as int);
    let z1 = splice_bytes(y, c, c, xc);
    assert(z1.subrange(0, a) =~= y.subrange(0, a));
    assert(z1.subrange(a, z1.len() as int) =~= y.subrange(a, c) + xc + y.subrange(c, y.len() as int));
    assert(l =~= whole);
    let z2 = splice_bytes(y, a, a, xa);
    assert(z2.subrange(0, c + xa.len()) =~= y.subrange(0, a) + xa + y.subrange(a, c));
    assert(z2.subrange(c + xa.len(), z2.len() as int) =~= y.subrange(c, y.len() as int));
    assert(r =~= whole);
}

/// Inserting at the first position after the front insertions at the rest
/// is inserting at all of them from the front.
proof fn lemma_front_insert_first(b: Seq<u8>, ys: Seq<int>, x: Seq<u8>, j: int)
    requires
        positions_fit(ys, b.len() as int),
        0 <= j < ys.len(),
    ensures
        splice_bytes(front_insert(b, ys.drop_first(), x, j), ys[0], ys[0], x) == front_insert(b, ys, x, j + 1),
    decreases j,
{
    let n = x.len() as int;
    let rest = ys.drop_first();
    assert(positions_fit(rest, b.len() as int)) by {
        assert forall|i: int| 0 <= i < rest.len() implies 0 <= #[trigger] rest[i] <= b.len() by {
            assert(rest[i] == ys[i + 1]);
        }
        assert forall|i: int, k: int| 0 <= i < k < rest.len() implies #[trigger] rest[i] <= #[trigger] rest[k] by {
            assert(rest[i] == ys[i + 1] && rest[k] == ys[k + 1]);
        }
    }
    if j > 0 {
        lemma_front_insert_first(b, ys, x, j - 1);
        let f = front_insert(b, rest, x, j - 1);
        lemma_front_insert_len(b, rest, x, j - 1);
        lemma_times_nonneg(n, j - 1);
        let c = rest[j - 1] + times(n, j - 1);
        assert(rest[j - 1] == ys[j]);
        assert(ys[0] <= ys[j]);
        lemma_insertions_commute(f, ys[0], c, x, x);
        assert(front_insert(b, rest, x, j) == splice_bytes(f, c, c, x));
        assert(front_insert(b, ys, x, j + 1) == splice_bytes(front_insert(b, ys, x, j), ys[j] + times(n, j), ys[j] + times(n, j), x));
        assert(times(n, j) == times(n, j - 1) + n);
    } else {
        assert(front_insert(b, rest, x, 0) == b);
        assert(times(n, 0) == 0);
        assert(front_insert(b, ys, x, 1) == splice_bytes(front_insert(b, ys, x, 0), ys[0] + times(n, 0), ys[0] + times(n, 0), x));
    }
}

/// The insertions of a plan, applied the last first at their own positions,
/// are the insertions made from the front.
proof fn lemma_inserts_from_front(b: Seq<u8>, es: Seq<EditView>, ps: Seq<int>, p: Seq<char>, k: int)
    requires
        positions_fit(ps, b.len() as int),
        es.len() == ps.len(),
        forall|i: int| 0 <= i < es.len() ==> (#[trigger] es[i]).start == ps[i] && es[i].end == ps[i] && es[i].text == p,
        0 <= k <= es.len(),
    ensures
        apply_bytes_from(b, es, k) == front_insert(b, ps.subrange(k, ps.len() as int), encode_utf8(p), ps.len() - k),
    decreases es.len() - k,
{
    let x = encode_utf8(p);
    let ys = ps.subrange(k, ps.len() as int);
    assert(positions_fit(ys, b.len() as int)) by {
        assert forall|i: int| 0 <= i < ys.len() implies 0 <= #[trigger] ys[i] <= b.len() by {
            assert(ys[i] == ps[i + k]);
        }
        assert forall|i: int, j: int| 0 <= i < j < ys.len() implies #[trigger] ys[i] <= #[trigger] ys[j] by {
            assert(ys[i] == ps[i + k] && ys[j] == ps[j + k]);
        }
    }
    if k < es.len() {
        lemma_inserts_from_front(b, es, ps, p, k + 1);
        assert(ys.drop_first() =~= ps.subrange(k + 1, ps.len() as int));
        lemma_front_insert_first(b, ys, x, ps.len() - k - 1);
    }
}

/// In the front insertions, each copy of `x` stands at its moved position.
proof fn lemma_front_insert_blocks(b: Seq<u8>, ps: Seq<int>, x: Seq<u8>, j: int)
    requires
        positions_fit(ps, b.len() as int),
        0 <= j <= ps.len(),
    ensures
        forall|l: int|
            0 <= l < j ==> (#[trigger] front_insert(b, ps, x, j).subrange(
                ps[l] + times(x.len() as int, l),
                ps[l] + times(x.len() as int, l) + x.len(),
            )) == x,
    decreases j,
{
    let n = x.len() as int;
    if j > 0 {
        lemma_front_insert_blocks(b, ps, x, j - 1);
        lemma_front_insert_len(b, ps, x, j - 1);
        lemma_times_nonneg(n, j - 1);
        let prev = front_insert(b, ps, x, j - 1);
        let q = ps[j - 1] + times(n, j - 1);
        let cur = front_insert(b, ps, x, j);
        assert(cur == splice_bytes(prev, q, q, x));
        assert forall|l: int| 0 <= l < j implies (#[trigger] front_insert(b, ps, x, j).subrange(
            ps[l] + times(n, l),
            ps[l] + times(n, l) + n,
        )) == x by {
            if l < j - 1 {
                lemma_times_grow(n, l, j - 1);
                assert(ps[l] <= ps[j - 1]);
                assert(cur.subrange(ps[l] + times(n, l), ps[l] + times(n, l) + n) =~= prev.subrange(
                    ps[l] + times(n, l),
                    ps[l] + times(n, l) + n,
                ));
            } else {
                assert(cur.subrange(q, q + n) =~= x);
            }
        }
    }
}

/// Taking the copies off again, the last first, gives back the bytes.
proof fn lemma_removals_undo(b: Seq<u8>, ps: Seq<int>, x: Seq<u8>, es: Seq<EditView>, k: int)
    requires
        positions_fit(ps, b.len() as int),
        es.len() == ps.len(),
        forall|i: int|
            0 <= i < es.len() ==> (#[trigger] es[i]).start == ps[i] + times(x.len() as int, i) && es[i].end
                == ps[i] + times(x.len() as int, i) + x.len() && es[i].text == Seq::<char>::empty(),
        0 <= k <= es.len(),
    ensures
        apply_bytes_from(front_insert(b, ps, x, ps.len() as int), es, k) == front_insert(b, ps, x, k),
    decreases es.len() - k,
{
    if k < es.len() {
        lemma_removals_undo(b, ps, x, es, k + 1);
        let n = x.len() as int;
        let f = front_insert(b, ps, x, k);
        lemma_front_insert_len(b, ps, x, k);
        lemma_times_nonneg(n, k);
        let q = ps[k] + times(n, k);
        assert(encode_utf8(Seq::<char>::empty()) =~= Seq::<u8>::empty());
        let g = splice_bytes(f, q, q, x);
        assert(splice_bytes(g, q, q + n, Seq::<u8>::empty()) =~= f);
    }
}

// ---------------------------------------------------------------------------
// Lines under an insertion.

proof fn lemma_next_newline_is(b: Seq<u8>, pos: int, e: int)
    requires
        0 <= pos <= e <= b.len(),
        forall|i: int| pos <= i < e ==> b[i] != 10u8,
        e == b.len() || b[e] == 10u8,
    ensures
        next_newline(b, pos) == e,
    decreases e - pos,
{
    if pos < e {
        lemma_next_newline_is(b, pos + 1, e);
    }
}

proof fn lemma_next_newline_props(b: Seq<u8>, pos: int)
    requires
        0 <= pos <= b.len(),
    ensures
        pos <= next_newline(b, pos) <= b.len(),
        forall|i: int| pos <= i < next_newline(b, pos) ==> b[i] != 10u8,
        next_newline(b, pos) == b.len() || b[next_newline(b, pos)] == 10u8,
    decreases b.len() - pos,
{
    if pos < b.len() && b[pos] != 10u8 {
        lemma_next_newline_props(b, pos + 1);
    }
}

proof fn lemma_skip_ws_is(b: Seq<u8>, pos: int, hi: int, r: int)
    requires
        0 <= pos <= r <= hi <= b.len(),
        forall|i: int| pos <= i < r ==> is_ws(b[i]),
        r == hi || !is_ws(b[r]),
    ensures
        skip_ws(b, pos, hi) == r,
    decreases r - pos,
{
    if pos < r {
        lemma_skip_ws_is(b, pos + 1, hi, r);
    }
}

proof fn lemma_skip_ws_props(b: Seq<u8>, pos: int, hi: int)
    requires
        0 <= pos <= hi <= b.len(),
    ensures
        pos <= skip_ws(b, pos, hi) <= hi,
        forall|i: int| pos <= i < skip_ws(b, pos, hi) ==> is_ws(b[i]),
        skip_ws(b, pos, hi) == hi || !is_ws(b[skip_ws(b, pos, hi)]),
    decreases hi - pos,
{
    if pos < hi && is_ws(b[pos]) {
        lemma_skip_ws_props(b, pos + 1, hi);
    }
}

proof fn lemma_trim_is(b: Seq<u8>, lo: int, hi: int, r: int)
    requires
        0 <= lo <= r <= hi <= b.len(),
        forall|i: int| r <= i < hi ==> is_ws(b[i]),
        r == lo || !is_ws(b[r - 1]),
    ensures
        trim_ws_end(b, lo, hi) == r,
    decreases hi - r,
{
    if r < hi {
        lemma_trim_is(b, lo, hi - 1, r);
    }
}

proof fn lemma_trim_props(b: Seq<u8>, lo: int, hi: int)
    requires
        0 <= lo <= hi <= b.len(),
    ensures
        lo <= trim_ws_end(b, lo, hi) <= hi,
        forall|i: int| trim_ws_end(b, lo, hi) <= i < hi ==> is_ws(b[i]),
        trim_ws_end(b, lo, hi) == lo || !is_ws(b[trim_ws_end(b, lo, hi) - 1]),
    decreases hi - lo,
{
    if lo < hi && is_ws(b[hi - 1]) {
        lemma_trim_props(b, lo, hi - 1);
    }
}

/// `l2` is `l1` moved by `d` bytes.
spec fn moved(l2: LineSpan, l1: LineSpan, d: int) -> bool {
    &&& l2.start == l1.start + d
    &&& l2.end == l1.end + d
    &&& l2.blank == l1.blank
}

/// A line's span depends only on its own bytes.
proof fn lemma_line_span_shift(a: Seq<u8>, la: int, b: Seq<u8>, lb: int, w: int)
    requires
        0 <= la,
        la + w <= a.len() <= usize::MAX,
        0 <= lb,
        lb + w <= b.len() <= usize::MAX,
        0 <= w,
        forall|k: int| 0 <= k < w ==> #[trigger] a[la + k] == b[lb + k],
    ensures
        moved(line_span(b, lb, lb + w), line_span(a, la, la + w), lb - la),
{
    let d = lb - la;
    assert forall|i: int| la <= i < la + w implies #[trigger] b[i + d] == a[i] by {
        assert(a[la + (i - la)] == b[lb + (i - la)]);
    }
    let ca = content_end(a, la, la + w);
    let cb = content_end(b, lb, lb + w);
    if w > 0 {
        assert(b[(la + w - 1) + d] == a[la + w - 1]);
    }
    assert(cb == ca + d);
    lemma_skip_ws_props(a, la, ca);
    let ia = skip_ws(a, la, ca);
    assert forall|i: int| lb <= i < ia + d implies is_ws(b[i]) by {
        assert(b[(i - d) + d] == a[i - d]);
    }
    if ia < ca {
        assert(b[ia + d] == a[ia]);
    }
    lemma_skip_ws_is(b, lb, cb, ia + d);
    lemma_trim_props(a, la, ca);
    let ta = trim_ws_end(a, la, ca);
    assert forall|i: int| ta + d <= i < cb implies is_ws(b[i]) by {
        assert(b[(i - d) + d] == a[i - d]);
    }
    if ta > la {
        assert(b[(ta - 1) + d] == a[ta - 1]);
    }
    lemma_trim_is(b, lb, cb, ta + d);
}

/// The lines from a position depend only on the bytes from there on.
proof fn lemma_lines_shift(a: Seq<u8>, pa: int, b: Seq<u8>, pb: int)
    requires
        0 <= pa <= a.len() <= usize::MAX,
        0 <= pb <= b.len() <= usize::MAX,
        a.subrange(pa, a.len() as int) == b.subrange(pb, b.len() as int),
    ensures
        lines_from(b, pb).len() == lines_from(a, pa).len(),
        forall|i: int|
            0 <= i < lines_from(a, pa).len() ==> moved(#[trigger] lines_from(b, pb)[i], lines_from(a, pa)[i], pb - pa),
    decreases a.len() - pa,
{
    let d = pb - pa;
    let sa = a.subrange(pa, a.len() as int);
    let sb = b.subrange(pb, b.len() as int);
    assert(sa.len() == a.len() - pa);
    assert(sb.len() == b.len() - pb);
    assert(sa.len() == sb.len());
    assert(b.len() == a.len() + d);
    assert forall|i: int| pa <= i < a.len() implies #[trigger] b[i + d] == a[i] by {
        assert(sa[i - pa] == a[i]);
        assert(sb[i - pa] == b[i + d]);
    }
    let ea = next_newline(a, pa);
    lemma_next_newline_props(a, pa);
    assert forall|i: int| pb <= i < ea + d implies b[i] != 10u8 by {
        assert(b[(i - d) + d] == a[i - d]);
    }
    if ea < a.len() {
        assert(b[ea + d] == a[ea]);
    }
    lemma_next_newline_is(b, pb, ea + d);
    assert forall|k: int| 0 <= k < ea - pa implies #[trigger] a[pa + k] == b[pb + k] by {
        assert(b[(pa + k) + d] == a[pa + k]);
    }
    lemma_line_span_shift(a, pa, b, pb, ea - pa);
    let la = lines_from(a, pa);
    let lb = lines_from(b, pb);
    assert(la[0] == line_span(a, pa, ea));
    assert(lb[0] == line_span(b, pb, ea + d));
    if ea < a.len() {
        assert(a.subrange(ea + 1, a.len() as int) =~= b.subrange(ea + d + 1, b.len() as int)) by {
            assert forall|k: int| 0 <= k < a.len() - (ea + 1) implies #[trigger] a.subrange(ea + 1, a.len() as int)[k]
                == b.subrange(ea + d + 1, b.len() as int)[k] by {
                assert(b[(ea + 1 + k) + d] == a[ea + 1 + k]);
            }
        }
        lemma_lines_shift(a, ea + 1, b, ea + d + 1);
        let ra = lines_from(a, ea + 1);
        let rb = lines_from(b, ea + d + 1);
        assert(la == seq![line_span(a, pa, ea)] + ra);
        assert(lb == seq![line_span(b, pb, ea + d)] + rb);
        assert forall|i: int| 0 <= i < la.len() implies moved(#[trigger] lb[i], la[i], pb - pa) by {
            if i > 0 {
                assert(la[i] == ra[i - 1]);
                assert(lb[i] == rb[i - 1]);
            }
        }
    }
}

/// Text that may stand at a line's first non-blank byte: no line break, and a
/// first byte that is not a space or tab.
spec fn insertable(x: Seq<u8>) -> bool {
    &&& x.len() > 0
    &&& !is_ws(x[0])
    &&& forall|i: int| 0 <= i < x.len() ==> #[trigger] x[i] != 10u8 && x[i] != 13u8
}

/// Inserting such text at a line's first non-blank byte: that line is no
/// longer blank and ends at most where its old end moved to, with only blanks
/// in between; the lines after it move by the inserted bytes, and nothing else
/// changes.
proof fn lemma_insert_at_line(src: Seq<u8>, pos: int, q: int, x: Seq<u8>, jj: int)
    requires
        0 <= pos <= q <= src.len(),
        src.len() + x.len() <= usize::MAX,
        insertable(x),
        0 <= jj < lines_from(src, pos).len(),
        lines_from(src, pos)[jj].start == q,
    ensures
        lines_from(splice_bytes(src, q, q, x), pos).len() == lines_from(src, pos).len(),
        forall|i: int|
            0 <= i < lines_from(src, pos).len() ==> (#[trigger] lines_from(splice_bytes(src, q, q, x), pos)[i]).start == (
            if i <= jj {
                lines_from(src, pos)[i].start as int
            } else {
                lines_from(src, pos)[i].start + x.len()
            }) && lines_from(splice_bytes(src, q, q, x), pos)[i].blank == (lines_from(src, pos)[i].blank && i != jj),
        forall|i: int|
            0 <= i < lines_from(src, pos).len() && i != jj ==> (#[trigger] lines_from(splice_bytes(src, q, q, x), pos)[i]).end
                == lines_from(src, pos)[i].end + (if i < jj {
                0
            } else {
                x.len() as int
            }),
        lines_from(splice_bytes(src, q, q, x), pos)[jj].end <= lines_from(src, pos)[jj].end + x.len(),
        forall|k: int|
            lines_from(splice_bytes(src, q, q, x), pos)[jj].end <= k < lines_from(src, pos)[jj].end + x.len() ==> is_ws(
                #[trigger] splice_bytes(src, q, q, x)[k],
            ),
    decreases src.len() - pos,
{
    let n = x.len() as int;
    let s2 = splice_bytes(src, q, q, x);
    assert(s2.len() == src.len() + n);
    assert forall|i: int| 0 <= i < q implies #[trigger] s2[i] == src[i] by {}
    assert forall|k: int| 0 <= k < n implies #[trigger] s2[q + k] == x[k] by {}
    assert forall|i: int| q <= i < src.len() implies #[trigger] s2[i + n] == src[i] by {}
    let e = next_newline(src, pos);
    lemma_next_newline_props(src, pos);
    lemma_line_span_bounds(src, pos, e);
    lemma_lines_from_ordered(src, pos);
    let ol = lines_from(src, pos);
    let nl = lines_from(s2, pos);
    let l0 = line_span(src, pos, e);
    assert(ol[0] == l0);
    let ce = content_end(src, pos, e);
    lemma_skip_ws_props(src, pos, ce);
    lemma_trim_props(src, pos, ce);
    if jj == 0 {
        // The line that takes the insertion.
        assert(l0.start == q);
        assert forall|i: int| pos <= i < e + n implies s2[i] != 10u8 by {
            if i < q {
                assert(s2[i] == src[i]);
            } else if i < q + n {
                assert(s2[q + (i - q)] == x[i - q]);
            } else {
                assert(s2[(i - n) + n] == src[i - n]);
            }
        }
        if e < src.len() {
            assert(s2[e + n] == src[e]);
        }
        lemma_next_newline_is(s2, pos, e + n);
        let ce2 = content_end(s2, pos, e + n);
        if e > q {
            assert(s2[(e - 1) + n] == src[e - 1]);
        } else {
            assert(s2[q + (n - 1)] == x[n - 1]);
        }
        assert(ce2 == ce + n);
        assert forall|i: int| pos <= i < q implies is_ws(s2[i]) by {
            assert(s2[i] == src[i]);
        }
        assert(s2[q + 0] == x[0]);
        lemma_skip_ws_is(s2, pos, ce2, q);
        let t0 = trim_ws_end(src, pos, ce);
        lemma_trim_props(s2, pos, ce2);
        let t2 = trim_ws_end(s2, pos, ce2);
        if q < ce {
            // A line with text: its blank tail moves along.
            assert(!is_ws(src[q]));
            assert(t0 > q);
            assert forall|i: int| t0 + n <= i < ce2 implies is_ws(s2[i]) by {
                assert(s2[(i - n) + n] == src[i - n]);
            }
            assert(s2[(t0 - 1) + n] == src[t0 - 1]);
            lemma_trim_is(s2, pos, ce2, t0 + n);
        } else {
            if t2 <= q {
                assert(is_ws(s2[q]));
            }
        }
        assert(nl[0] == line_span(s2, pos, e + n));
        assert(nl[0].start == q && !nl[0].blank);
        if e < src.len() {
            assert(src.subrange(e + 1, src.len() as int) =~= s2.subrange(e + 1 + n, s2.len() as int)) by {
                assert forall|k: int| 0 <= k < src.len() - (e + 1) implies #[trigger] src.subrange(e + 1, src.len() as int)[k]
                    == s2.subrange(e + 1 + n, s2.len() as int)[k] by {
                    assert(s2[(e + 1 + k) + n] == src[e + 1 + k]);
                }
            }
            lemma_lines_shift(src, e + 1, s2, e + 1 + n);
            let ro = lines_from(src, e + 1);
            let rn = lines_from(s2, e + 1 + n);
            assert(ol == seq![l0] + ro);
            assert(nl == seq![line_span(s2, pos, e + n)] + rn);
            assert forall|i: int| 0 <= i < ol.len() implies (#[trigger] nl[i]).start == (if i <= jj {
                ol[i].start as int
            } else {
                ol[i].start + n
            }) && nl[i].blank == (ol[i].blank && i != jj) by {
                if i > 0 {
                    assert(ol[i] == ro[i - 1]);
                    assert(nl[i] == rn[i - 1]);
                }
            }
            assert forall|i: int| 0 <= i < ol.len() && i != jj implies (#[trigger] nl[i]).end == ol[i].end + (if i < jj {
                0
            } else {
                n
            }) by {
                assert(ol[i] == ro[i - 1]);
                assert(nl[i] == rn[i - 1]);
            }
        }
    } else {
        // A line before the insertion: unchanged, and the rest follows.
        assert(e < src.len());
        let ro = lines_from(src, e + 1);
        assert(ol == seq![l0] + ro);
        assert(ol[jj] == ro[jj - 1]);
        lemma_lines_from_ordered(src, e + 1);
        assert(q >= e + 1);
        assert forall|i: int| pos <= i < e implies s2[i] != 10u8 by {
            assert(s2[i] == src[i]);
        }
        assert(s2[e] == src[e]);
        lemma_next_newline_is(s2, pos, e);
        assert forall|k: int| 0 <= k < e - pos implies #[trigger] src[pos + k] == s2[pos + k] by {}
        lemma_line_span_shift(src, pos, s2, pos, e - pos);
        lemma_insert_at_line(src, e + 1, q, x, jj - 1);
        let rn = lines_from(s2, e + 1);
        assert(nl == seq![line_span(s2, pos, e)] + rn);
        assert(nl[jj] == rn[jj - 1]);
        assert forall|i: int| 0 <= i < ol.len() implies (#[trigger] nl[i]).start == (if i <= jj {
            ol[i].start as int
        } else {
            ol[i].start + n
        }) && nl[i].blank == (ol[i].blank && i != jj) by {
            if i > 0 {
                assert(ol[i] == ro[i - 1]);
                assert(nl[i] == rn[i - 1]);
            }
        }
        assert forall|i: int| 0 <= i < ol.len() && i != jj implies (#[trigger] nl[i]).end == ol[i].end + (if i < jj {
            0
        } else {
            n
        }) by {
            if i > 0 {
                assert(ol[i] == ro[i - 1]);
                assert(nl[i] == rn[i - 1]);
            }
        }
    }
}

/// Text that may end a line's content: no line break, and a last byte that
/// is not a space or tab.
spec fn appendable(y: Seq<u8>) -> bool {
    &&& y.len() > 0
    &&& !is_ws(y[y.len() - 1])
    &&& forall|i: int| 0 <= i < y.len() ==> #[trigger] y[i] != 10u8 && y[i] != 13u8
}

/// Inserting such text after a line's last non-blank byte, past at most some
/// blanks: that line is no longer blank and ends after the inserted text, a
/// line that had text keeps its start, the lines after it move by the
/// inserted bytes, and nothing else changes.
proof fn lemma_insert_after_content(src: Seq<u8>, pos: int, q: int, y: Seq<u8>, jj: int)
    requires
        0 <= pos <= q <= src.len(),
        src.len() + y.len() <= usize::MAX,
        appendable(y),
        0 <= jj < lines_from(src, pos).len(),
        lines_from(src, pos)[jj].end <= q,
        forall|k: int| lines_from(src, pos)[jj].end <= k < q ==> is_ws(#[trigger] src[k]),
    ensures
        lines_from(splice_bytes(src, q, q, y), pos).len() == lines_from(src, pos).len(),
        forall|i: int|
            0 <= i < lines_from(src, pos).len() && i != jj ==> moved(
                #[trigger] lines_from(splice_bytes(src, q, q, y), pos)[i],
                lines_from(src, pos)[i],
                if i < jj {
                    0
                } else {
                    y.len() as int
                },
            ),
        !lines_from(splice_bytes(src, q, q, y), pos)[jj].blank,
        lines_from(splice_bytes(src, q, q, y), pos)[jj].end == q + y.len(),
        !lines_from(src, pos)[jj].blank ==> lines_from(splice_bytes(src, q, q, y), pos)[jj].start
            == lines_from(src, pos)[jj].start,
    decreases src.len() - pos,
{
    let n = y.len() as int;
    let s2 = splice_bytes(src, q, q, y);
    assert(s2.len() == src.len() + n);
    assert forall|i: int| 0 <= i < q implies #[trigger] s2[i] == src[i] by {}
    assert forall|k: int| 0 <= k < n implies #[trigger] s2[q + k] == y[k] by {}
    assert forall|i: int| q <= i < src.len() implies #[trigger] s2[i + n] == src[i] by {}
    let e = next_newline(src, pos);
    lemma_next_newline_props(src, pos);
    lemma_line_span_bounds(src, pos, e);
    lemma_lines_from_ordered(src, pos);
    let ol = lines_from(src, pos);
    let nl = lines_from(s2, pos);
    let l0 = line_span(src, pos, e);
    assert(ol[0] == l0);
    let ce = content_end(src, pos, e);
    lemma_skip_ws_props(src, pos, ce);
    lemma_trim_props(src, pos, ce);
    let i0 = skip_ws(src, pos, ce);
    let t0 = trim_ws_end(src, pos, ce);
    if jj == 0 {
        // The line that takes the insertion; `q` lies within its content.
        if q > ce {
            assert(is_ws(src[ce]));
            if e > pos && src[e - 1] == 13u8 {
                assert(ce == e - 1);
            } else {
                assert(ce == e);
            }
        }
        assert(q <= ce);
        assert forall|i: int| pos <= i < e + n implies s2[i] != 10u8 by {
            if i < q {
                assert(s2[i] == src[i]);
            } else if i < q + n {
                assert(s2[q + (i - q)] == y[i - q]);
            } else {
                assert(s2[(i - n) + n] == src[i - n]);
            }
        }
        if e < src.len() {
            assert(s2[e + n] == src[e]);
        }
        lemma_next_newline_is(s2, pos, e + n);
        let ce2 = content_end(s2, pos, e + n);
        if e > q {
            assert(s2[(e - 1) + n] == src[e - 1]);
        } else {
            assert(s2[q + (n - 1)] == y[n - 1]);
        }
        assert(ce2 == ce + n);
        assert forall|i: int| q + n <= i < ce2 implies is_ws(s2[i]) by {
            assert(s2[(i - n) + n] == src[i - n]);
        }
        assert(s2[q + (n - 1)] == y[n - 1]);
        lemma_trim_is(s2, pos, ce2, q + n);
        lemma_skip_ws_props(s2, pos, ce2);
        let i2 = skip_ws(s2, pos, ce2);
        if i2 > q + n - 1 {
            assert(is_ws(s2[q + n - 1]));
        }
        if !l0.blank {
            assert(i0 < ce);
            assert(!is_ws(src[i0]));
            if t0 <= i0 {
                assert(is_ws(src[i0]));
            }
            assert forall|i: int| pos <= i < i0 implies is_ws(s2[i]) by {
                assert(s2[i] == src[i]);
            }
            assert(s2[i0] == src[i0]);
            lemma_skip_ws_is(s2, pos, ce2, i0);
        }
        assert(nl[0] == line_span(s2, pos, e + n));
        if e < src.len() {
            assert(src.subrange(e + 1, src.len() as int) =~= s2.subrange(e + 1 + n, s2.len() as int)) by {
                assert forall|k: int| 0 <= k < src.len() - (e + 1) implies #[trigger] src.subrange(e + 1, src.len() as int)[k]
                    == s2.subrange(e + 1 + n, s2.len() as int)[k] by {
                    assert(s2[(e + 1 + k) + n] == src[e + 1 + k]);
                }
            }
            lemma_lines_shift(src, e + 1, s2, e + 1 + n);
            let ro = lines_from(src, e + 1);
            let rn = lines_from(s2, e + 1 + n);
            assert(ol == seq![l0] + ro);
            assert(nl == seq![line_span(s2, pos, e + n)] + rn);
            assert forall|i: int| 0 <= i < ol.len() && i != jj implies moved(#[trigger] nl[i], ol[i], if i < jj {
                0
            } else {
                n
            }) by {
                assert(ol[i] == ro[i - 1]);
                assert(nl[i] == rn[i - 1]);
            }
        }
    } else {
        // A line before the insertion: unchanged, and the rest follows.
        assert(e < src.len());
        let ro = lines_from(src, e + 1);
        assert(ol == seq![l0] + ro);
        assert(ol[jj] == ro[jj - 1]);
        lemma_lines_from_ordered(src, e + 1);
        assert(q >= e + 1);
        assert forall|i: int| pos <= i < e implies s2[i] != 10u8 by {
            assert(s2[i] == src[i]);
        }
        assert(s2[e] == src[e]);
        lemma_next_newline_is(s2, pos, e);
        assert forall|k: int| 0 <= k < e - pos implies #[trigger] src[pos + k] == s2[pos + k] by {}
        lemma_line_span_shift(src, pos, s2, pos, e - pos);
        lemma_insert_after_content(src, e + 1, q, y, jj - 1);
        let rn = lines_from(s2, e + 1);
        assert(nl == seq![line_span(s2, pos, e)] + rn);
        assert(nl[jj] == rn[jj - 1]);
        assert forall|i: int| 0 <= i < ol.len() && i != jj implies moved(#[trigger] nl[i], ol[i], if i < jj {
            0
        } else {
            n
        }) by {
            if i > 0 {
                assert(ol[i] == ro[i - 1]);
                assert(nl[i] == rn[i - 1]);
            }
        }
    }
}

/// Each line ends at the end of the text or before an ASCII byte.
proof fn lemma_line_ends_before_ascii(b: Seq<u8>, pos: int)
    requires
        0 <= pos <= b.len() <= usize::MAX,
    ensures
        forall|i: int|
            0 <= i < lines_from(b, pos).len() ==> (#[trigger] lines_from(b, pos)[i]).end == b.len() || b[lines_from(b, pos)[i].end as int]
                < 0x80u8,
    decreases b.len() - pos,
{
    let e = next_newline(b, pos);
    lemma_next_newline_props(b, pos);
    lemma_line_span_bounds(b, pos, e);
    let ce = content_end(b, pos, e);
    lemma_skip_ws_props(b, pos, ce);
    lemma_trim_props(b, pos, ce);
    let l = lines_from(b, pos);
    assert(l[0] == line_span(b, pos, e));
    if e < b.len() {
        lemma_line_ends_before_ascii(b, e + 1);
        let r = lines_from(b, e + 1);
        assert(l == seq![line_span(b, pos, e)] + r);
        assert forall|i: int| 0 <= i < l.len() implies (#[trigger] l[i]).end == b.len() || b[l[i].end as int] < 0x80u8 by {
            if i > 0 {
                assert(l[i] == r[i - 1]);
            }
        }
    }
}

/// Neither end of a delimiter is a space or tab.
pub open spec fn edges_not_blank(s: Seq<u8>) -> bool {
    &&& s.len() > 0
    &&& !is_ws(s[0])
    &&& !is_ws(s[s.len() - 1])
}

/// A delimiter that neither starts nor ends with a blank is not found in
/// text padded with a space on each side unless it is found in the text.
proof fn lemma_padded_contains(c: Seq<u8>, d: Seq<u8>)
    requires
        edges_not_blank(d),
        !bytes_contains(c, d),
    ensures
        !bytes_contains(seq![32u8] + c + seq![32u8], d),
{
    let w = seq![32u8] + c + seq![32u8];
    if bytes_contains(w, d) {
        let i = choose|i: int| 0 <= i && i + d.len() <= w.len() && #[trigger] w.subrange(i, i + d.len()) == d;
        assert(w.subrange(i, i + d.len())[0] == d[0]);
        if i == 0 {
            assert(w[0] == 32u8);
        } else if i + d.len() == w.len() {
            assert(w.subrange(i, i + d.len())[d.len() - 1] == d[d.len() - 1]);
            assert(w[w.len() - 1] == 32u8);
        } else {
            assert(c.subrange(i - 1, i - 1 + d.len()) =~= w.subrange(i, i + d.len()));
            assert(bytes_contains(c, d));
        }
    }
}

/// Each line's first non-blank byte is at the start of the text or follows an
/// ASCII byte.
proof fn lemma_line_starts_after_ascii(b: Seq<u8>, pos: int)
    requires
        0 <= pos <= b.len() <= usize::MAX,
        pos == 0 || b[pos - 1] == 10u8,
    ensures
        forall|i: int|
            0 <= i < lines_from(b, pos).len() ==> (#[trigger] lines_from(b, pos)[i]).start == 0 || b[lines_from(b, pos)[i].start - 1]
                < 0x80u8,
    decreases b.len() - pos,
{
    let e = next_newline(b, pos);
    lemma_next_newline_props(b, pos);
    lemma_line_span_bounds(b, pos, e);
    let ce = content_end(b, pos, e);
    lemma_skip_ws_props(b, pos, ce);
    let l = lines_from(b, pos);
    assert(l[0] == line_span(b, pos, e));
    if e < b.len() {
        lemma_line_starts_after_ascii(b, e + 1);
        let r = lines_from(b, e + 1);
        assert(l == seq![line_span(b, pos, e)] + r);
        assert forall|i: int| 0 <= i < l.len() implies (#[trigger] l[i]).start == 0 || b[l[i].start - 1] < 0x80u8 by {
            if i > 0 {
                assert(l[i] == r[i - 1]);
            }
        }
    }
}

// ---------------------------------------------------------------------------
// The lines a toggle acts on.

/// Whether `keep_lines` keeps a line.
spec fn kept(l: LineSpan, keep_blank: bool) -> bool {
    keep_blank || !l.blank
}

/// The indices of the lines that `keep_lines` keeps, in order.
spec fn kept_indices(lines: Seq<LineSpan>, keep_blank: bool) -> Seq<int>
    decreases lines.len(),
{
    if lines.len() == 0 {
        Seq::empty()
    } else if kept(lines.last(), keep_blank) {
        kept_indices(lines.drop_last(), keep_blank).push(lines.len() - 1)
    } else {
        kept_indices(lines.drop_last(), keep_blank)
    }
}

proof fn lemma_kept_indices(lines: Seq<LineSpan>, keep_blank: bool)
    ensures
        kept_indices(lines, keep_blank).len() == keep_lines(lines, keep_blank).len(),
        forall|l: int|
            0 <= l < kept_indices(lines, keep_blank).len() ==> 0 <= #[trigger] kept_indices(lines, keep_blank)[l]
                < lines.len() && keep_lines(lines, keep_blank)[l] == lines[kept_indices(lines, keep_blank)[l]] && kept(
            lines[kept_indices(lines, keep_blank)[l]], keep_blank),
        forall|a: int, c: int|
            0 <= a < c < kept_indices(lines, keep_blank).len() ==> #[trigger] kept_indices(lines, keep_blank)[a]
                < #[trigger] kept_indices(lines, keep_blank)[c],
        forall|i: int|
            0 <= i < lines.len() && kept(#[trigger] lines[i], keep_blank) ==> exists|l: int|
                0 <= l < kept_indices(lines, keep_blank).len() && #[trigger] kept_indices(lines, keep_blank)[l] == i,
    decreases lines.len(),
{
    if lines.len() > 0 {
        let d = lines.drop_last();
        lemma_kept_indices(d, keep_blank);
        let kd = kept_indices(d, keep_blank);
        let ks = kept_indices(lines, keep_blank);
        let kl = keep_lines(lines, keep_blank);
        let last = lines.len() - 1;
        assert forall|i: int| 0 <= i < d.len() implies #[trigger] d[i] == lines[i] by {}
        if kept(lines.last(), keep_blank) {
            assert(ks == kd.push(last));
            assert(kl == keep_lines(d, keep_blank).push(lines.last()));
            assert forall|l: int| 0 <= l < ks.len() implies 0 <= #[trigger] ks[l] < lines.len() && kl[l]
                == lines[ks[l]] && kept(lines[ks[l]], keep_blank) by {
                if l < kd.len() {
                    assert(ks[l] == kd[l]);
                    assert(kl[l] == keep_lines(d, keep_blank)[l]);
                }
            }
            assert forall|a: int, c: int| 0 <= a < c < ks.len() implies #[trigger] ks[a] < #[trigger] ks[c] by {
                assert(ks[a] == kd[a]);
                if c < kd.len() {
                    assert(ks[c] == kd[c]);
                }
            }
            assert forall|i: int| 0 <= i < lines.len() && kept(#[trigger] lines[i], keep_blank) implies exists|l: int|
                0 <= l < ks.len() && #[trigger] ks[l] == i by {
                if i < last {
                    assert(d[i] == lines[i]);
                    assert(kept(d[i], keep_blank));
                    assert(exists|l: int| 0 <= l < kd.len() && #[trigger] kd[l] == i);
                    let l = choose|l: int| 0 <= l < kd.len() && #[trigger] kd[l] == i;
                    assert(ks[l] == kd[l]);
                } else {
                    assert(ks[kd.len() as int] == i);
                }
            }
        } else {
            assert(ks == kd);
            assert(kl == keep_lines(d, keep_blank));
            assert forall|i: int| 0 <= i < lines.len() && kept(#[trigger] lines[i], keep_blank) implies exists|l: int|
                0 <= l < ks.len() && #[trigger] ks[l] == i by {
                assert(i != last);
                assert(d[i] == lines[i]);
                assert(kept(d[i], keep_blank));
            }
        }
    }
}

/// Lines kept by the same rule give the same indices.
proof fn lemma_kept_indices_same(a: Seq<LineSpan>, ka: bool, b: Seq<LineSpan>, kb: bool)
    requires
        a.len() == b.len(),
        forall|i: int| 0 <= i < a.len() ==> (kept(#[trigger] a[i], ka) == kept(b[i], kb)),
    ensures
        kept_indices(a, ka) == kept_indices(b, kb),
    decreases a.len(),
{
    if a.len() > 0 {
        let da = a.drop_last();
        let db = b.drop_last();
        assert forall|i: int| 0 <= i < da.len() implies (kept(#[trigger] da[i], ka) == kept(db[i], kb)) by {
            assert(da[i] == a[i]);
            assert(db[i] == b[i]);
        }
        lemma_kept_indices_same(da, ka, db, kb);
        assert(kept(a.last(), ka) == kept(b.last(), kb)) by {
            assert(a.last() == a[a.len() - 1]);
            assert(b.last() == b[b.len() - 1]);
        }
    }
}

/// The bytes inserted before line `i` once the lines `js[..j]` took `n` each.
spec fn shift_below(js: Seq<int>, j: int, i: int, n: int) -> int
    decreases j,
{
    if j <= 0 {
        0
    } else {
        shift_below(js, j - 1, i, n) + (if js[j - 1] < i {
            n
        } else {
            0
        })
    }
}

/// Whether line `i` is among `js[..j]`.
spec fn marked(js: Seq<int>, j: int, i: int) -> bool
    decreases j,
{
    if j <= 0 {
        false
    } else {
        js[j - 1] == i || marked(js, j - 1, i)
    }
}

spec fn increasing(js: Seq<int>) -> bool {
    forall|a: int, c: int| 0 <= a < c < js.len() ==> #[trigger] js[a] < #[trigger] js[c]
}

proof fn lemma_shift_at(js: Seq<int>, j: int, l: int, n: int)
    requires
        increasing(js),
        0 <= j <= js.len(),
        0 <= l < js.len(),
    ensures
        shift_below(js, j, js[l], n) == times(n, if j < l { j } else { l }),
    decreases j,
{
    if j > 0 {
        lemma_shift_at(js, j - 1, l, n);
        if j - 1 < l {
            assert(js[j - 1] < js[l]);
        } else if j - 1 > l {
            assert(js[l] < js[j - 1]);
        }
    }
}

proof fn lemma_marked(js: Seq<int>, j: int, i: int)
    requires
        0 <= j <= js.len(),
    ensures
        marked(js, j, i) <==> exists|l: int| 0 <= l < j && js[l] == i,
    decreases j,
{
    if j > 0 {
        lemma_marked(js, j - 1, i);
        if marked(js, j, i) {
            if js[j - 1] == i {
                assert(exists|l: int| 0 <= l < j && js[l] == i) by {
                    assert(js[j - 1] == i);
                }
            }
        }
    }
}

proof fn lemma_times_monotone(n: int, a: int, b: int)
    requires
        0 <= n,
        0 <= a <= b,
    ensures
        times(n, a) <= times(n, b),
{
    if a < b {
        lemma_times_grow(n, a, b);
    }
}

/// The lines of the text with `x` inserted from the front at the first
/// non-blank bytes of the lines `js`.
proof fn lemma_front_insert_lines(b: Seq<u8>, js: Seq<int>, ps: Seq<int>, x: Seq<u8>, j: int)
    requires
        b.len() + times(x.len() as int, js.len() as int) <= usize::MAX,
        insertable(x),
        js.len() == ps.len(),
        increasing(js),
        forall|l: int|
            0 <= l < js.len() ==> 0 <= #[trigger] js[l] < lines_from(b, 0).len() && ps[l] == lines_from(b, 0)[js[l]].start,
        positions_fit(ps, b.len() as int),
        0 <= j <= js.len(),
    ensures
        lines_from(front_insert(b, ps, x, j), 0).len() == lines_from(b, 0).len(),
        forall|i: int|
            0 <= i < lines_from(b, 0).len() ==> (#[trigger] lines_from(front_insert(b, ps, x, j), 0)[i]).start
                == lines_from(b, 0)[i].start + shift_below(js, j, i, x.len() as int) && lines_from(
                front_insert(b, ps, x, j),
                0,
            )[i].blank == (lines_from(b, 0)[i].blank && !marked(js, j, i)),
    decreases j,
{
    let n = x.len() as int;
    lemma_times_nonneg(n, js.len() as int);
    if j > 0 {
        lemma_front_insert_lines(b, js, ps, x, j - 1);
        let f = front_insert(b, ps, x, j - 1);
        let lf = lines_from(f, 0);
        let ol = lines_from(b, 0);
        lemma_front_insert_len(b, ps, x, j - 1);
        lemma_times_monotone(n, j, js.len() as int);
        lemma_times_nonneg(n, j - 1);
        let jj = js[j - 1];
        lemma_shift_at(js, j - 1, j - 1, n);
        let q = ps[j - 1] + times(n, j - 1);
        assert(lf[jj].start == q);
        lemma_insert_at_line(f, 0, q, x, jj);
        assert(front_insert(b, ps, x, j) == splice_bytes(f, q, q, x));
    }
}

proof fn lemma_encode_space()
    ensures
        encode_utf8(seq![' ']) == seq![32u8],
{
    let s = seq![' '];
    assert(s.drop_first() =~= Seq::<char>::empty());
    assert(encode_utf8(s.drop_first()) =~= Seq::<u8>::empty());
    assert((32u32 & 0x7Fu32) as u8 == 32u8) by (bit_vector);
    assert(encode_utf8(s) =~= seq![32u8]);
}

// ---------------------------------------------------------------------------
// Line comments.

/// The first non-blank bytes of the lines.
spec fn starts_of(lines: Seq<LineSpan>) -> Seq<int> {
    Seq::new(lines.len(), |l: int| lines[l].start as int)
}

/// The plan of a line toggle over lines that are not all commented: the
/// prefix and a space before each line's text.
proof fn lemma_line_plan_inserts(b: Seq<u8>, prefix: Seq<char>)
    requires
        comment_edits_spec(b, prefix, None, None) is Some,
        exists|i: int|
            0 <= i < active_lines(b).len() && !bytes_starts_with(
                b.subrange((#[trigger] active_lines(b)[i]).start as int, b.len() as int),
                encode_utf8(prefix),
            ),
    ensures
        !(encode_utf8(prefix).len() == 0 || has_line_break_bytes(encode_utf8(prefix))),
        active_lines(b).len() > 0,
        comment_edits_spec(b, prefix, None, None).unwrap().len() == active_lines(b).len(),
        forall|l: int|
            0 <= l < active_lines(b).len() ==> (#[trigger] comment_edits_spec(b, prefix, None, None).unwrap()[l]) == (EditView {
                start: active_lines(b)[l].start as int,
                end: active_lines(b)[l].start as int,
                text: prefix.push(' '),
                move_caret: true,
            }),
{
    let act = active_lines(b);
    let pb = encode_utf8(prefix);
    let uncomment = forall|i: int|
        0 <= i < act.len() ==> bytes_starts_with(b.subrange((#[trigger] act[i]).start as int, b.len() as int), pb);
    assert(!uncomment);
}

/// The plan of a line toggle over lines that each start with the prefix and
/// a space: both taken off each line.
proof fn lemma_line_plan_removes(b: Seq<u8>, prefix: Seq<char>)
    requires
        !(encode_utf8(prefix).len() == 0 || has_line_break_bytes(encode_utf8(prefix))),
        forall|l: int|
            0 <= l < active_lines(b).len() ==> (#[trigger] active_lines(b)[l]).start + encode_utf8(prefix).len() + 1
                <= b.len() && b.subrange(
                active_lines(b)[l].start as int,
                active_lines(b)[l].start + encode_utf8(prefix).len() + 1,
            ) == encode_utf8(prefix).push(32u8),
    ensures
        comment_edits_spec(b, prefix, None, None) is Some,
        comment_edits_spec(b, prefix, None, None).unwrap().len() == active_lines(b).len(),
        forall|l: int|
            0 <= l < active_lines(b).len() ==> (#[trigger] comment_edits_spec(b, prefix, None, None).unwrap()[l]) == (EditView {
                start: active_lines(b)[l].start as int,
                end: active_lines(b)[l].start + encode_utf8(prefix).len() + 1,
                text: Seq::<char>::empty(),
                move_caret: true,
            }),
{
    let act = active_lines(b);
    let pb = encode_utf8(prefix);
    let x = pb.push(32u8);
    assert forall|i: int| 0 <= i < act.len() implies bytes_starts_with(
        b.subrange((#[trigger] act[i]).start as int, b.len() as int),
        pb,
    ) by {
        let q = act[i].start as int;
        assert(b.subrange(q, b.len() as int).subrange(0, pb.len() as int) =~= b.subrange(q, q + x.len()).subrange(0, pb.len() as int));
        assert(x.subrange(0, pb.len() as int) =~= pb);
    }
    assert forall|l: int| 0 <= l < act.len() implies (#[trigger] comment_edits_spec(b, prefix, None, None).unwrap()[l]) == (EditView {
        start: act[l].start as int,
        end: act[l].start + pb.len() + 1,
        text: Seq::<char>::empty(),
        move_caret: true,
    }) by {
        let q = act[l].start as int;
        assert(b.subrange(q, q + x.len())[pb.len() as int] == x[pb.len() as int]);
        assert(b[q + pb.len()] == 32u8);
    }
}

/// `x` stands in `b` at `q`.
spec fn block_at(b: Seq<u8>, q: int, x: Seq<u8>) -> bool {
    0 <= q && q + x.len() <= b.len() && b.subrange(q, q + x.len()) == x
}

/// The lines of text with the prefix and a space put before each active
/// line's text: the same lines are active, each now starting with what was
/// put there.
proof fn lemma_commented_lines(b: Seq<u8>, x: Seq<u8>)
    requires
        insertable(x),
        active_lines(b).len() > 0,
        b.len() + times(x.len() as int, active_lines(b).len() as int) <= usize::MAX,
    ensures
        ({
            let ps = starts_of(active_lines(b));
            let m = ps.len() as int;
            let b2 = front_insert(b, ps, x, m);
            let n = x.len() as int;
            &&& positions_fit(ps, b.len() as int)
            &&& b2.len() == b.len() + times(n, m)
            &&& active_lines(b2).len() == m
            &&& forall|l: int| 0 <= l < m ==> (#[trigger] active_lines(b2)[l]).start == ps[l] + times(n, l)
            &&& forall|l: int| 0 <= l < m ==> block_at(b2, #[trigger] ps[l] + times(n, l), x)
        }),
{
    let n = x.len() as int;
    lemma_times_nonneg(n, active_lines(b).len() as int);
    let lines = lines_from(b, 0);
    let kb = all_blank(lines);
    let act = keep_lines(lines, kb);
    assert(act == active_lines(b));
    let js = kept_indices(lines, kb);
    lemma_kept_indices(lines, kb);
    let m = js.len() as int;
    lemma_lines_from_ordered(b, 0);
    lemma_keep_lines_ordered(lines, kb, b.len() as int);
    let ps = starts_of(act);
    assert(positions_fit(ps, b.len() as int)) by {
        assert forall|i: int, j: int| 0 <= i < j < ps.len() implies #[trigger] ps[i] <= #[trigger] ps[j] by {
            assert(act[i].end <= act[j].start);
        }
    }
    assert forall|l: int| 0 <= l < js.len() implies 0 <= #[trigger] js[l] < lines.len() && ps[l] == lines[js[l]].start by {}
    let b2 = front_insert(b, ps, x, m);
    lemma_front_insert_len(b, ps, x, m);
    lemma_front_insert_blocks(b, ps, x, m);
    lemma_front_insert_lines(b, js, ps, x, m);
    let lines2 = lines_from(b2, 0);
    // Every line the toggle took is no longer blank, so the same lines are
    // active.
    assert forall|i: int| 0 <= i < lines.len() implies (kept(#[trigger] lines[i], kb) == kept(lines2[i], false)) by {
        lemma_marked(js, m, i);
        if kept(lines[i], kb) {
            let l = choose|l: int| 0 <= l < js.len() && #[trigger] js[l] == i;
            assert(marked(js, m, i));
        } else {
            if marked(js, m, i) {
                let l = choose|l: int| 0 <= l < m && js[l] == i;
                assert(kept(lines[js[l]], kb));
            }
        }
    }
    lemma_marked(js, m, js[0]);
    assert(!lines2[js[0]].blank);
    assert(!all_blank(lines2));
    lemma_kept_indices_same(lines, kb, lines2, false);
    lemma_kept_indices(lines2, false);
    let act2 = keep_lines(lines2, false);
    assert(act2 == active_lines(b2));
    assert forall|l: int| 0 <= l < m implies (#[trigger] act2[l]).start == ps[l] + times(n, l) by {
        assert(act2[l] == lines2[js[l]]);
        lemma_shift_at(js, m, l, n);
        assert(act[l] == lines[js[l]]);
    }
    assert forall|l: int| 0 <= l < m implies block_at(b2, #[trigger] ps[l] + times(n, l), x) by {
        lemma_times_nonneg(n, l);
        lemma_times_monotone(n, l + 1, m);
        assert(times(n, l + 1) == times(n, l) + n);
        assert(0 <= ps[l] <= b.len());
        assert(times(n, l + 1) <= times(n, m));
        assert(b2.len() == b.len() + times(n, m));
        assert(ps[l] + times(n, l) + n <= b2.len());
    }
    assert(ps.len() == m);
    assert(ps == starts_of(active_lines(b)));
    assert(b2 == front_insert(b, starts_of(active_lines(b)), x, starts_of(active_lines(b)).len() as int));
}

/// Commenting out lines that are not all commented yet and then toggling the
/// comment on the result gives back the text: the first toggle puts the prefix
/// and a space before each line's first non-blank character, and the second
/// takes exactly those off. A prefix that starts with a space or tab is left
/// out: its own leading blank would then count as the line's indentation.
#[verifier::rlimit(30)]
pub proof fn lemma_line_comment_round_trip(t: Seq<char>, prefix: Seq<char>)
    requires
        prefix.len() > 0,
        !prefix.contains('\n'),
        !prefix.contains('\r'),
        !is_ws(encode_utf8(prefix)[0]),
        exists|i: int|
            0 <= i < active_lines(encode_utf8(t)).len() && !bytes_starts_with(
                encode_utf8(t).subrange((#[trigger] active_lines(encode_utf8(t))[i]).start as int, encode_utf8(t).len() as int),
                encode_utf8(prefix),
            ),
        encode_utf8(apply_views_from(t, comment_edits_spec(encode_utf8(t), prefix, None, None).unwrap(), 0)).len()
            <= usize::MAX,
    ensures
        comment_edits_spec(encode_utf8(t), prefix, None, None) is Some,
        comment_edits_spec(encode_utf8(t), prefix, None, None).unwrap().len() == active_lines(encode_utf8(t)).len(),
        forall|l: int|
            0 <= l < active_lines(encode_utf8(t)).len() ==> (#[trigger] comment_edits_spec(encode_utf8(t), prefix, None, None).unwrap()[l])
                == (EditView {
                start: active_lines(encode_utf8(t))[l].start as int,
                end: active_lines(encode_utf8(t))[l].start as int,
                text: prefix.push(' '),
                move_caret: true,
            }),
        ({
            let once = apply_views_from(t, comment_edits_spec(encode_utf8(t), prefix, None, None).unwrap(), 0);
            &&& comment_edits_spec(encode_utf8(once), prefix, None, None) is Some
            &&& apply_views_from(once, comment_edits_spec(encode_utf8(once), prefix, None, None).unwrap(), 0) == t
        }),
{
    let b = encode_utf8(t);
    let pb = encode_utf8(prefix);
    assert(comment_edits_spec(b, prefix, None, None) is Some) by {
        lemma_no_break_bytes(prefix);
        lemma_encode_utf8_first(prefix);
    }
    let p = prefix.push(' ');
    lemma_encode_space();
    assert(p =~= prefix + seq![' ']);
    lemma_encode_utf8_concat(prefix, seq![' ']);
    let x = encode_utf8(p);
    assert(x =~= pb.push(32u8));
    let n = x.len() as int;
    lemma_line_plan_inserts(b, prefix);
    assert forall|i: int| 0 <= i < comment_edits_spec(b, prefix, None, None).unwrap().len() implies
        (#[trigger] comment_edits_spec(b, prefix, None, None).unwrap()[i]).start
        == comment_edits_spec(b, prefix, None, None).unwrap()[i].end by {}
    lemma_insertions_grow(t, comment_edits_spec(b, prefix, None, None).unwrap(), 0);
    assert(insertable(x)) by {
        assert forall|i: int| 0 <= i < x.len() implies #[trigger] x[i] != 10u8 && x[i] != 13u8 by {
            if i < pb.len() {
                assert(x[i] == pb[i]);
                if x[i] == 10u8 {
                    assert(pb.contains(10u8));
                }
                if x[i] == 13u8 {
                    assert(pb.contains(13u8));
                }
            }
        }
        assert(x[0] == pb[0]);
    }
    let act = active_lines(b);
    let m = act.len() as int;
    let ps = starts_of(act);
    let e1 = comment_edits_spec(b, prefix, None, None).unwrap();
    // The first toggle, as bytes: insertions made from the front.
    lemma_active_bounds_at_chars(t);
    lemma_lines_from_ordered(b, 0);
    lemma_keep_lines_ordered(lines_from(b, 0), all_blank(lines_from(b, 0)), b.len() as int);
    assert forall|i: int, j: int| 0 <= i < j < e1.len() implies (#[trigger] e1[i]).end <= (#[trigger] e1[j]).start by {
        assert(act[i].end <= act[j].start);
    }
    assert forall|i: int| 0 <= i < e1.len() implies (#[trigger] e1[i]).start <= e1[i].end && at_char(t, e1[i].start)
        && at_char(t, e1[i].end) by {
        assert(at_char(t, act[i].start as int));
    }
    lemma_views_as_bytes(t, e1, 0);
    assert(positions_fit(ps, b.len() as int)) by {
        assert forall|i: int, j: int| 0 <= i < j < ps.len() implies #[trigger] ps[i] <= #[trigger] ps[j] by {
            assert(act[i].end <= act[j].start);
        }
    }
    lemma_inserts_from_front(b, e1, ps, p, 0);
    assert(ps.subrange(0, m) =~= ps);
    let once = apply_views_from(t, e1, 0);
    let b2 = encode_utf8(once);
    assert(b2 == front_insert(b, ps, x, m));
    lemma_front_insert_len(b, ps, x, m);
    // The same lines are active again, each starting with the prefix and a space.
    lemma_commented_lines(b, x);
    let act2 = active_lines(b2);
    let qs = Seq::new(m as nat, |l: int| ps[l] + times(n, l));
    assert forall|l: int| 0 <= l < m implies (#[trigger] act2[l]).start + pb.len() + 1 <= b2.len() && b2.subrange(
        act2[l].start as int,
        act2[l].start + pb.len() + 1,
    ) == pb.push(32u8) by {
        assert(block_at(b2, ps[l] + times(n, l), x));
    }
    lemma_line_plan_removes(b2, prefix);
    let e2 = comment_edits_spec(b2, prefix, None, None).unwrap();
    // The second toggle, as bytes: the copies taken off again.
    lemma_active_bounds_at_chars(once);
    assert forall|l: int| 0 <= l < m implies at_char(once, #[trigger] qs[l] + n) by {
        let s = qs[l];
        assert(act2[l].start == s);
        assert(block_at(b2, ps[l] + times(n, l), x));
        assert(b2.subrange(s, s + n) == x);
        assert(b2.subrange(s, s + n)[n - 1] == x[n - 1]);
        assert(b2[s + n - 1] == 32u8);
        lemma_after_ascii(once, s + n - 1);
        lemma_boundary_at_char(once, s + n);
    }
    assert forall|i: int, j: int| 0 <= i < j < e2.len() implies (#[trigger] e2[i]).end <= (#[trigger] e2[j]).start by {
        lemma_times_grow(n, i, j);
        assert(ps[i] <= ps[j]);
        assert(act2[i].start == qs[i] && act2[j].start == qs[j]);
    }
    assert forall|i: int| 0 <= i < e2.len() implies (#[trigger] e2[i]).start <= e2[i].end && at_char(once, e2[i].start)
        && at_char(once, e2[i].end) by {
        assert(act2[i].start == qs[i]);
        assert(at_char(once, act2[i].start as int));
        assert(at_char(once, qs[i] + n));
    }
    lemma_views_as_bytes(once, e2, 0);
    assert forall|i: int| 0 <= i < e2.len() implies (#[trigger] e2[i]).start == ps[i] + times(n, i) && e2[i].end
        == ps[i] + times(n, i) + n && e2[i].text == Seq::<char>::empty() by {
        assert(act2[i].start == ps[i] + times(n, i));
    }
    lemma_removals_undo(b, ps, x, e2, 0);
    let twice = apply_views_from(once, e2, 0);
    assert(encode_utf8(twice) == b);
    vstd::utf8::encode_utf8_decode_utf8(twice);
    vstd::utf8::encode_utf8_decode_utf8(t);
}

/// The bytes from the first active line's first non-blank byte to the end of
/// the last active line.
pub open spec fn active_content(src: Seq<u8>) -> Seq<u8> {
    src.subrange(active_lines(src)[0].start as int, active_lines(src)[active_lines(src).len() - 1].end as int)
}

/// Whether text already starts with the prefix and ends with the suffix.
pub open spec fn wrapped_in(content: Seq<u8>, pb: Seq<u8>, sb: Seq<u8>) -> bool {
    &&& bytes_starts_with(content, pb)
    &&& content.len() >= pb.len() + sb.len()
    &&& bytes_ends_with(content, sb)
}

/// The first and last lines a block toggle acts on, once their text is
/// wrapped: the first still starts where it did, and the last ends after the
/// appended text.
proof fn lemma_wrapped_lines(b: Seq<u8>, x: Seq<u8>, y: Seq<u8>)
    requires
        b.len() + x.len() + y.len() <= usize::MAX,
        insertable(x),
        appendable(y),
        active_lines(b).len() > 0,
    ensures
        ({
            let act = active_lines(b);
            let st = act[0].start as int;
            let en = act[act.len() - 1].end as int;
            let b2 = wrap_bytes(b, st, en, x, y);
            let act2 = active_lines(b2);
            &&& 0 <= st <= en <= b.len()
            &&& act2.len() > 0
            &&& act2[0].start == st
            &&& act2[act2.len() - 1].end == en + x.len() + y.len()
        }),
{
    let n = x.len() as int;
    let ny = y.len() as int;
    let lines = lines_from(b, 0);
    let kb = all_blank(lines);
    let act = keep_lines(lines, kb);
    assert(act == active_lines(b));
    let js = kept_indices(lines, kb);
    lemma_kept_indices(lines, kb);
    let m = js.len() as int;
    lemma_lines_from_ordered(b, 0);
    lemma_keep_lines_ordered(lines, kb, b.len() as int);
    let j0 = js[0];
    let jl = js[m - 1];
    let st = act[0].start as int;
    let en = act[m - 1].end as int;
    assert(act[0] == lines[j0]);
    assert(act[m - 1] == lines[jl]);
    assert(st <= en) by {
        if m > 1 {
            assert(act[0].end <= act[m - 1].start);
        }
    }
    assert(j0 <= jl) by {
        if m > 1 {
            assert(js[0] < js[m - 1]);
        }
    }
    lemma_insertions_commute(b, st, en, x, y);
    let bx = splice_bytes(b, st, st, x);
    let b2 = splice_bytes(bx, en + n, en + n, y);
    let whole = b.subrange(0, st) + x + b.subrange(st, en) + y + b.subrange(en, b.len() as int);
    assert(b2 == whole);
    assert(bx.len() == b.len() + n);
    lemma_insert_at_line(b, 0, st, x, j0);
    let lx = lines_from(bx, 0);
    if jl > j0 {
        assert(lx[jl].end == lines[jl].end + n);
    }
    lemma_insert_after_content(bx, 0, en + n, y, jl);
    let l2 = lines_from(b2, 0);
    assert(l2.len() == lines.len());
    assert(!l2[j0].blank && l2[j0].start == st) by {
        if j0 < jl {
            assert(moved(l2[j0], lx[j0], 0));
        }
    }
    let en2 = en + n + ny;
    assert(!l2[jl].blank && l2[jl].end == en2);
    // Outside the first and last active lines every line is blank, and stays so.
    assert forall|i: int| 0 <= i < lines.len() && (i < j0 || i > jl) implies (#[trigger] l2[i]).blank by {
        if kept(lines[i], kb) {
            let l = choose|l: int| 0 <= l < js.len() && #[trigger] js[l] == i;
            if l > 0 {
                assert(js[0] < js[l]);
            }
            if l < m - 1 {
                assert(js[l] < js[m - 1]);
            }
        }
        assert(lx[i].blank == lines[i].blank);
        assert(moved(l2[i], lx[i], if i < jl { 0 } else { ny }));
    }
    assert(!all_blank(l2));
    let act2 = keep_lines(l2, false);
    assert(act2 == active_lines(b2));
    let ks2 = kept_indices(l2, false);
    lemma_kept_indices(l2, false);
    let m2 = ks2.len() as int;
    assert(kept(l2[j0], false));
    let a0 = choose|l: int| 0 <= l < ks2.len() && #[trigger] ks2[l] == j0;
    assert(kept(l2[jl], false));
    let a1 = choose|l: int| 0 <= l < ks2.len() && #[trigger] ks2[l] == jl;
    assert(m2 > 0);
    assert(ks2[0] == j0) by {
        assert(!l2[ks2[0]].blank);
        if a0 > 0 {
            assert(ks2[0] < ks2[a0]);
        }
    }
    assert(ks2[m2 - 1] == jl) by {
        assert(!l2[ks2[m2 - 1]].blank);
        if a1 < m2 - 1 {
            assert(ks2[a1] < ks2[m2 - 1]);
        }
    }
    assert(act2[0] == l2[j0]);
    assert(act2[m2 - 1] == l2[jl]);
}

/// Edits that only insert never shorten the text.
proof fn lemma_insertions_grow(t: Seq<char>, es: Seq<EditView>, k: int)
    requires
        0 <= k <= es.len(),
        forall|i: int| 0 <= i < es.len() ==> (#[trigger] es[i]).start == es[i].end,
    ensures
        encode_utf8(t).len() <= encode_utf8(apply_views_from(t, es, k)).len(),
    decreases es.len() - k,
{
    if k < es.len() {
        lemma_insertions_grow(t, es, k + 1);
        let cur = apply_views_from(t, es, k + 1);
        let c = crate::text::chars_within(cur, es[k].start) as int;
        lemma_chars_within_monotone(cur, es[k].start, es[k].start);
        let a = cur.subrange(0, c);
        let z = cur.subrange(c, cur.len() as int);
        assert(apply_views_from(t, es, k) == a + es[k].text + z);
        lemma_encode_utf8_concat(a + es[k].text, z);
        lemma_encode_utf8_concat(a, es[k].text);
        assert(cur =~= a + z);
        lemma_encode_utf8_concat(a, z);
    }
}

/// An active line's first non-blank byte and its end both fall on characters.
proof fn lemma_active_bounds_at_chars(t: Seq<char>)
    requires
        encode_utf8(t).len() <= usize::MAX,
    ensures
        forall|i: int|
            0 <= i < active_lines(encode_utf8(t)).len() ==> at_char(t, (#[trigger] active_lines(encode_utf8(t))[i]).start as int)
                && at_char(t, active_lines(encode_utf8(t))[i].end as int),
{
    let b = encode_utf8(t);
    let lines = lines_from(b, 0);
    let kb = all_blank(lines);
    let act = keep_lines(lines, kb);
    lemma_lines_from_ordered(b, 0);
    lemma_keep_lines_members(lines, kb);
    lemma_line_starts_after_ascii(b, 0);
    lemma_line_ends_before_ascii(b, 0);
    assert forall|i: int| 0 <= i < act.len() implies at_char(t, (#[trigger] act[i]).start as int) && at_char(t, act[i].end as int) by {
        let k = choose|k: int| 0 <= k < lines.len() && act[i] == lines[k];
        let st = act[i].start as int;
        let en = act[i].end as int;
        if st > 0 {
            lemma_after_ascii(t, st - 1);
        }
        lemma_boundary_at_char(t, st);
        if en < b.len() {
            crate::utf8_facts::lemma_ascii_is_boundary(t, en);
        }
        lemma_boundary_at_char(t, en);
    }
}

/// Text wrapped in `x` before `[st, en)` and `y` after it.
spec fn wrap_bytes(b: Seq<u8>, st: int, en: int, x: Seq<u8>, y: Seq<u8>) -> Seq<u8> {
    b.subrange(0, st) + x + b.subrange(st, en) + y + b.subrange(en, b.len() as int)
}

/// The two insertions of a block toggle, applied to the characters.
proof fn lemma_block_wrap_bytes(t: Seq<char>, e1: Seq<EditView>, st: int, en: int, p: Seq<char>, sfx: Seq<char>)
    requires
        st <= en,
        at_char(t, st),
        at_char(t, en),
        e1 == seq![
            EditView { start: st, end: st, text: p, move_caret: true },
            EditView { start: en, end: en, text: sfx, move_caret: false },
        ],
    ensures
        encode_utf8(apply_views_from(t, e1, 0)) == wrap_bytes(encode_utf8(t), st, en, encode_utf8(p), encode_utf8(sfx)),
{
    let b = encode_utf8(t);
    let x = encode_utf8(p);
    let y = encode_utf8(sfx);
    lemma_views_as_bytes(t, e1, 0);
    crate::comment_toggle::lemma_at_char_bound(t, en);
    assert(apply_bytes_from(b, e1, 2) == b);
    assert(apply_bytes_from(b, e1, 1) == splice_bytes(b, en, en, y));
    assert(apply_bytes_from(b, e1, 0) == splice_bytes(splice_bytes(b, en, en, y), st, st, x));
    lemma_insertions_commute(b, st, en, x, y);
}

/// The two removals of a block toggle, applied to wrapped characters.
proof fn lemma_block_unwrap_bytes(once: Seq<char>, b: Seq<u8>, e2: Seq<EditView>, st: int, en: int, x: Seq<u8>, y: Seq<u8>)
    requires
        0 <= st <= en <= b.len(),
        encode_utf8(once) == wrap_bytes(b, st, en, x, y),
        at_char(once, st),
        at_char(once, st + x.len()),
        at_char(once, en + x.len()),
        at_char(once, en + x.len() + y.len()),
        e2 == seq![
            EditView { start: st, end: st + x.len(), text: Seq::<char>::empty(), move_caret: true },
            EditView { start: en + x.len(), end: en + x.len() + y.len(), text: Seq::<char>::empty(), move_caret: false },
        ],
    ensures
        encode_utf8(apply_views_from(once, e2, 0)) == b,
{
    let b2 = encode_utf8(once);
    let n = x.len() as int;
    let en2 = en + n + y.len();
    lemma_views_as_bytes(once, e2, 0);
    assert(encode_utf8(Seq::<char>::empty()) =~= Seq::<u8>::empty());
    assert(apply_bytes_from(b2, e2, 2) == b2);
    let cut = splice_bytes(b2, en + n, en2, Seq::<u8>::empty());
    assert(apply_bytes_from(b2, e2, 1) == cut);
    assert(cut =~= b.subrange(0, st) + x + b.subrange(st, en) + b.subrange(en, b.len() as int));
    assert(splice_bytes(cut, st, st + n, Seq::<u8>::empty()) =~= b);
}

/// What the second toggle finds in wrapped text: the delimiters around the
/// old content padded with a space on each side, which is a valid body.
proof fn lemma_block_second_plan(
    b: Seq<u8>,
    content: Seq<u8>,
    pb: Seq<u8>,
    sb: Seq<u8>,
    forbidden: Option<Seq<char>>,
)
    requires
        valid_body(content, pb, sb, forbidden),
        edges_not_blank(pb),
        edges_not_blank(sb),
        forbidden matches Some(f) ==> edges_not_blank(encode_utf8(f)),
    ensures
        ({
            let content2 = pb.push(32u8) + content + (seq![32u8] + sb);
            let body2 = content2.subrange(pb.len() as int, content2.len() - sb.len());
            &&& wrapped_in(content2, pb, sb)
            &&& body2 == seq![32u8] + content + seq![32u8]
            &&& valid_body(body2, pb, sb, forbidden)
        }),
{
    let content2 = pb.push(32u8) + content + (seq![32u8] + sb);
    assert(content2.subrange(0, pb.len() as int) =~= pb);
    assert(content2.subrange(content2.len() - sb.len(), content2.len() as int) =~= sb);
    let body2 = content2.subrange(pb.len() as int, content2.len() - sb.len());
    assert(body2 =~= seq![32u8] + content + seq![32u8]);
    lemma_padded_contains(content, pb);
    lemma_padded_contains(content, sb);
    if let Some(f) = forbidden {
        lemma_padded_contains(content, encode_utf8(f));
    }
}

/// Usable block delimiters.
spec fn usable(pb: Seq<u8>, sb: Seq<u8>) -> bool {
    !(pb.len() == 0 || has_line_break_bytes(pb)) && !(sb.len() == 0 || has_line_break_bytes(sb))
}

/// The plan of a block toggle over lines that are not wrapped yet.
proof fn lemma_block_plan_wraps(b: Seq<u8>, prefix: Seq<char>, suffix: Seq<char>, forbidden: Option<Seq<char>>)
    requires
        comment_edits_spec(b, prefix, Some(suffix), forbidden) is Some,
        !wrapped_in(active_content(b), encode_utf8(prefix), encode_utf8(suffix)),
    ensures
        usable(encode_utf8(prefix), encode_utf8(suffix)),
        active_lines(b).len() > 0,
        valid_body(active_content(b), encode_utf8(prefix), encode_utf8(suffix), forbidden),
        comment_edits_spec(b, prefix, Some(suffix), forbidden) == Some(
            seq![
                EditView { start: active_lines(b)[0].start as int, end: active_lines(b)[0].start as int, text: prefix.push(' '), move_caret: true },
                EditView {
                    start: active_lines(b)[active_lines(b).len() - 1].end as int,
                    end: active_lines(b)[active_lines(b).len() - 1].end as int,
                    text: seq![' '] + suffix,
                    move_caret: false,
                },
            ],
        ),
{
}

/// The plan of a block toggle over wrapped lines whose body is valid.
proof fn lemma_block_plan_unwraps(
    b: Seq<u8>,
    prefix: Seq<char>,
    suffix: Seq<char>,
    forbidden: Option<Seq<char>>,
    content: Seq<u8>,
)
    requires
        usable(encode_utf8(prefix), encode_utf8(suffix)),
        active_lines(b).len() > 0,
        active_content(b) == encode_utf8(prefix).push(32u8) + content + (seq![32u8] + encode_utf8(suffix)),
        wrapped_in(active_content(b), encode_utf8(prefix), encode_utf8(suffix)),
        active_content(b).subrange(encode_utf8(prefix).len() as int, active_content(b).len() - encode_utf8(suffix).len())
            == seq![32u8] + content + seq![32u8],
        valid_body(seq![32u8] + content + seq![32u8], encode_utf8(prefix), encode_utf8(suffix), forbidden),
    ensures
        comment_edits_spec(b, prefix, Some(suffix), forbidden) == Some(
            seq![
                EditView {
                    start: active_lines(b)[0].start as int,
                    end: active_lines(b)[0].start + encode_utf8(prefix).len() + 1,
                    text: Seq::<char>::empty(),
                    move_caret: true,
                },
                EditView {
                    start: active_lines(b)[active_lines(b).len() - 1].end - encode_utf8(suffix).len() - 1,
                    end: active_lines(b)[active_lines(b).len() - 1].end as int,
                    text: Seq::<char>::empty(),
                    move_caret: false,
                },
            ],
        ),
{
    let body = seq![32u8] + content + seq![32u8];
    assert(body[0] == 32u8);
    assert(body[body.len() - 1] == 32u8);
}

/// Wrapping lines in a block comment and then toggling the comment on the
/// result gives back the text. Whenever some line is not blank, the lines
/// are not wrapped already, and their text holds neither delimiter nor the
/// sequence a comment may not hold, the first toggle puts the prefix and a space
/// before the first line's text and a space and the suffix after the last
/// line's, and the second takes exactly those off. Delimiters, and a sequence
/// that a comment body may not hold, that start or end with a space or tab
/// are left out: a space next to the body would then join them.
#[verifier::rlimit(30)]
pub proof fn lemma_block_comment_round_trip(
    t: Seq<char>,
    prefix: Seq<char>,
    suffix: Seq<char>,
    forbidden: Option<Seq<char>>,
)
    requires
        !prefix.contains('\n'),
        !prefix.contains('\r'),
        !suffix.contains('\n'),
        !suffix.contains('\r'),
        active_lines(encode_utf8(t)).len() > 0,
        valid_body(active_content(encode_utf8(t)), encode_utf8(prefix), encode_utf8(suffix), forbidden),
        !wrapped_in(active_content(encode_utf8(t)), encode_utf8(prefix), encode_utf8(suffix)),
        edges_not_blank(encode_utf8(prefix)),
        edges_not_blank(encode_utf8(suffix)),
        forbidden matches Some(f) ==> edges_not_blank(encode_utf8(f)),
        encode_utf8(
            apply_views_from(t, comment_edits_spec(encode_utf8(t), prefix, Some(suffix), forbidden).unwrap(), 0),
        ).len() <= usize::MAX,
    ensures
        comment_edits_spec(encode_utf8(t), prefix, Some(suffix), forbidden) == Some(
            seq![
                EditView {
                    start: active_lines(encode_utf8(t))[0].start as int,
                    end: active_lines(encode_utf8(t))[0].start as int,
                    text: prefix.push(' '),
                    move_caret: true,
                },
                EditView {
                    start: active_lines(encode_utf8(t)).last().end as int,
                    end: active_lines(encode_utf8(t)).last().end as int,
                    text: seq![' '] + suffix,
                    move_caret: false,
                },
            ],
        ),
        ({
            let once = apply_views_from(
                t,
                comment_edits_spec(encode_utf8(t), prefix, Some(suffix), forbidden).unwrap(),
                0,
            );
            &&& comment_edits_spec(encode_utf8(once), prefix, Some(suffix), forbidden) is Some
            &&& apply_views_from(
                once,
                comment_edits_spec(encode_utf8(once), prefix, Some(suffix), forbidden).unwrap(),
                0,
            ) == t
        }),
{
    let b = encode_utf8(t);
    let pb = encode_utf8(prefix);
    let sb = encode_utf8(suffix);
    assert(comment_edits_spec(b, prefix, Some(suffix), forbidden) is Some) by {
        lemma_no_break_bytes(prefix);
        lemma_no_break_bytes(suffix);
        assert(active_lines(b).last() == active_lines(b)[active_lines(b).len() - 1]);
    }
    let p = prefix.push(' ');
    let sfx = seq![' '] + suffix;
    lemma_encode_space();
    assert(p =~= prefix + seq![' ']);
    lemma_encode_utf8_concat(prefix, seq![' ']);
    lemma_encode_utf8_concat(seq![' '], suffix);
    let x = encode_utf8(p);
    let y = encode_utf8(sfx);
    assert(x =~= pb.push(32u8));
    assert(y =~= seq![32u8] + sb);
    let n = x.len() as int;
    let ny = y.len() as int;
    assert(!(pb.len() == 0 || has_line_break_bytes(pb)));
    assert(!(sb.len() == 0 || has_line_break_bytes(sb)));
    assert(insertable(x)) by {
        assert forall|i: int| 0 <= i < x.len() implies #[trigger] x[i] != 10u8 && x[i] != 13u8 by {
            if i < pb.len() {
                assert(x[i] == pb[i]);
                if x[i] == 10u8 {
                    assert(pb.contains(10u8));
                }
                if x[i] == 13u8 {
                    assert(pb.contains(13u8));
                }
            }
        }
        assert(x[0] == pb[0]);
    }
    assert(appendable(y)) by {
        assert forall|i: int| 0 <= i < y.len() implies #[trigger] y[i] != 10u8 && y[i] != 13u8 by {
            if i > 0 {
                assert(y[i] == sb[i - 1]);
                if y[i] == 10u8 {
                    assert(sb.contains(10u8));
                }
                if y[i] == 13u8 {
                    assert(sb.contains(13u8));
                }
            }
        }
        assert(y[ny - 1] == sb[sb.len() - 1]);
    }
    lemma_block_plan_wraps(b, prefix, suffix, forbidden);
    lemma_insertions_grow(t, comment_edits_spec(b, prefix, Some(suffix), forbidden).unwrap(), 0);
    let act = active_lines(b);
    let st = act[0].start as int;
    let en = act[act.len() - 1].end as int;
    let content = active_content(b);
    let e1 = comment_edits_spec(b, prefix, Some(suffix), forbidden).unwrap();
    // The first toggle wraps the content.
    lemma_active_bounds_at_chars(t);
    assert(at_char(t, st) && at_char(t, en));
    lemma_lines_from_ordered(b, 0);
    lemma_keep_lines_ordered(lines_from(b, 0), all_blank(lines_from(b, 0)), b.len() as int);
    assert(st <= en) by {
        if act.len() > 1 {
            assert(act[0].end <= act[act.len() - 1].start);
        }
    }
    let once = apply_views_from(t, e1, 0);
    let b2 = wrap_bytes(b, st, en, x, y);
    lemma_block_wrap_bytes(t, e1, st, en, p, sfx);
    assert(encode_utf8(once) == b2);
    lemma_wrapped_lines(b, x, y);
    let en2 = en + n + ny;
    // The second toggle finds the delimiters around a valid padded body.
    assert(active_content(b2) =~= pb.push(32u8) + content + (seq![32u8] + sb));
    lemma_block_second_plan(b, content, pb, sb, forbidden);
    lemma_block_plan_unwraps(b2, prefix, suffix, forbidden, content);
    let e2 = comment_edits_spec(b2, prefix, Some(suffix), forbidden).unwrap();
    assert(e2 == seq![
        EditView { start: st, end: st + n, text: Seq::<char>::empty(), move_caret: true },
        EditView { start: en + n, end: en2, text: Seq::<char>::empty(), move_caret: false },
    ]);
    // and takes them off again.
    lemma_active_bounds_at_chars(once);
    assert(at_char(once, st) && at_char(once, en2));
    assert(at_char(once, st + n)) by {
        assert(b2[st + n - 1] == x[n - 1]);
        lemma_after_ascii(once, st + n - 1);
        lemma_boundary_at_char(once, st + n);
    }
    assert(at_char(once, en + n)) by {
        assert(b2[en + n] == y[0]);
        crate::utf8_facts::lemma_ascii_is_boundary(once, en + n);
        lemma_boundary_at_char(once, en + n);
    }
    lemma_block_unwrap_bytes(once, b, e2, st, en, x, y);
    let twice = apply_views_from(once, e2, 0);
    assert(encode_utf8(twice) == b);
    vstd::utf8::encode_utf8_decode_utf8(twice);
    vstd::utf8::encode_utf8_decode_utf8(t);
}

} // verus!
