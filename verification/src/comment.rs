//! Language-configured comment edits.
use crate::selection::Selection;
use crate::text::{line_end, line_end_in, line_start, line_start_in, next_newline, next_newline_in, row_of, offset_to_point_in, lemma_next_newline_bounds};
use std::ops::Range;
use vstd::prelude::*;
use vstd::string::{StringExecFns, StringSliceAdditionalSpecFns};
use vstd::utf8::encode_utf8;

verus! {

/// Comment delimiters supplied by a language provider.
#[derive(Clone, Debug)]
pub struct CommentSyntax {
    pub prefix: String,
    pub suffix: Option<String>,
    pub forbidden: Option<String>,
}

impl CommentSyntax {
    pub fn line(prefix: &str) -> (c: Self)
        ensures
            c.prefix@ == prefix@,
            c.suffix is None,
            c.forbidden is None,
    {
        CommentSyntax { prefix: prefix.to_owned(), suffix: None, forbidden: None }
    }

    pub fn block(prefix: &str, suffix: &str) -> (c: Self)
        ensures
            c.prefix@ == prefix@,
            c.suffix matches Some(s) && s@ == suffix@,
            c.forbidden is None,
    {
        CommentSyntax { prefix: prefix.to_owned(), suffix: Some(suffix.to_owned()), forbidden: None }
    }

    /// Reject an additional sequence that cannot appear inside a block comment.
    pub fn with_forbidden(self, sequence: &str) -> (c: Self)
        ensures
            c.prefix == self.prefix,
            c.suffix == self.suffix,
            c.forbidden matches Some(f) && f@ == sequence@,
    {
        CommentSyntax { forbidden: Some(sequence.to_owned()), ..self }
    }

    pub fn prefix(&self) -> (r: &str)
        ensures
            r@ == self.prefix@,
    {
        self.prefix.as_str()
    }

    pub fn suffix(&self) -> (r: Option<&str>)
        ensures
            r matches Some(s) ==> self.suffix matches Some(t) && s@ == t@,
            r is None <==> self.suffix is None,
    {
        match &self.suffix {
            Some(s) => Some(s.as_str()),
            None => None,
        }
    }

    pub fn forbidden(&self) -> (r: Option<&str>)
        ensures
            r matches Some(s) ==> self.forbidden matches Some(t) && s@ == t@,
            r is None <==> self.forbidden is None,
    {
        match &self.forbidden {
            Some(s) => Some(s.as_str()),
            None => None,
        }
    }
}

/// One planned replacement of a byte range.
pub struct Edit {
    pub range: Range<usize>,
    pub text: String,
    /// Prefix insertions move the caret into the comment; suffixes stay after it.
    pub move_caret: bool,
}

/// The value of a planned replacement.
pub struct EditView {
    pub start: int,
    pub end: int,
    pub text: Seq<char>,
    pub move_caret: bool,
}

impl View for Edit {
    type V = EditView;

    open spec fn view(&self) -> EditView {
        EditView {
            start: self.range.start as int,
            end: self.range.end as int,
            text: self.text@,
            move_caret: self.move_caret,
        }
    }
}

/// The characters of an optional string.
pub open spec fn opt_chars(o: Option<String>) -> Option<Seq<char>> {
    match o {
        Some(s) => Some(s@),
        None => None,
    }
}

/// The characters of an optional string slice.
pub open spec fn opt_str_chars(o: Option<&str>) -> Option<Seq<char>> {
    match o {
        Some(s) => Some(s@),
        None => None,
    }
}

/// The planned comment edits for a syntax.
pub open spec fn comment_edits_for(src: Seq<u8>, syntax: CommentSyntax) -> Option<Seq<EditView>> {
    comment_edits_spec(src, syntax.prefix@, opt_chars(syntax.suffix), opt_chars(syntax.forbidden))
}

pub open spec fn edits_view(edits: Seq<Edit>) -> Seq<EditView> {
    edits.map_values(|e: Edit| e@)
}

// ---------------------------------------------------------------------------
// Byte-level text predicates.

pub open spec fn is_ws(b: u8) -> bool {
    b == 32u8 || b == 9u8
}

pub open spec fn bytes_contains(hay: Seq<u8>, needle: Seq<u8>) -> bool {
    exists|i: int|
        0 <= i && i + needle.len() <= hay.len() && #[trigger] hay.subrange(i, i + needle.len())
            == needle
}

pub open spec fn bytes_starts_with(hay: Seq<u8>, needle: Seq<u8>) -> bool {
    needle.len() <= hay.len() && hay.subrange(0, needle.len() as int) == needle
}

pub open spec fn bytes_ends_with(hay: Seq<u8>, needle: Seq<u8>) -> bool {
    needle.len() <= hay.len() && hay.subrange(hay.len() - needle.len(), hay.len() as int)
        == needle
}

pub open spec fn has_line_break_bytes(b: Seq<u8>) -> bool {
    b.contains(10u8) || b.contains(13u8)
}

/// The first offset in `pos..hi` that is not a space or tab (or `hi`).
pub open spec fn skip_ws(src: Seq<u8>, pos: int, hi: int) -> int
    decreases hi - pos,
{
    if pos >= hi || !is_ws(src[pos]) {
        pos
    } else {
        skip_ws(src, pos + 1, hi)
    }
}

/// The offset after the last byte in `lo..hi` that is not a space or tab (or `lo`).
pub open spec fn trim_ws_end(src: Seq<u8>, lo: int, hi: int) -> int
    decreases hi - lo,
{
    if hi <= lo || !is_ws(src[hi - 1]) {
        hi
    } else {
        trim_ws_end(src, lo, hi - 1)
    }
}

/// A line's content ends before a carriage return that ends the line.
pub open spec fn content_end(src: Seq<u8>, ls: int, le: int) -> int {
    if le > ls && src[le - 1] == 13u8 {
        le - 1
    } else {
        le
    }
}

/// Where a line's text starts and ends, and whether it is blank.
#[derive(Clone, Copy, Debug)]
pub struct LineSpan {
    pub start: usize,
    pub end: usize,
    pub blank: bool,
}

pub open spec fn line_span(src: Seq<u8>, ls: int, le: int) -> LineSpan {
    let ce = content_end(src, ls, le);
    let indent = skip_ws(src, ls, ce);
    let trimmed = trim_ws_end(src, ls, ce);
    LineSpan {
        start: indent as usize,
        end: (if trimmed >= indent { trimmed } else { indent }) as usize,
        blank: indent == ce,
    }
}

/// The spans of the lines from `pos` on, split at line feeds.
pub open spec fn lines_from(src: Seq<u8>, pos: int) -> Seq<LineSpan>
    decreases src.len() - pos,
{
    let e = next_newline(src, pos);
    if pos < 0 || e >= src.len() || e < pos {
        seq![line_span(src, pos, e)]
    } else {
        seq![line_span(src, pos, e)] + lines_from(src, e + 1)
    }
}

/// Blank lines are skipped unless every line is blank.
pub open spec fn all_blank(lines: Seq<LineSpan>) -> bool {
    forall|i: int| 0 <= i < lines.len() ==> (#[trigger] lines[i]).blank
}

pub open spec fn keep_lines(lines: Seq<LineSpan>, keep_blank: bool) -> Seq<LineSpan>
    decreases lines.len(),
{
    if lines.len() == 0 {
        Seq::empty()
    } else if keep_blank || !lines.last().blank {
        keep_lines(lines.drop_last(), keep_blank).push(lines.last())
    } else {
        keep_lines(lines.drop_last(), keep_blank)
    }
}

pub open spec fn active_lines(src: Seq<u8>) -> Seq<LineSpan> {
    let lines = lines_from(src, 0);
    keep_lines(lines, all_blank(lines))
}

/// A block body may hold neither delimiter nor the forbidden sequence.
pub open spec fn valid_body(
    body: Seq<u8>,
    prefix: Seq<u8>,
    suffix: Seq<u8>,
    forbidden: Option<Seq<char>>,
) -> bool {
    &&& !bytes_contains(body, prefix)
    &&& !bytes_contains(body, suffix)
    &&& !(forbidden matches Some(f) && bytes_contains(body, encode_utf8(f)))
}

/// The edits that toggle a comment over `src`, or `None` when the syntax is
/// unusable or a block body would be malformed.
pub open spec fn comment_edits_spec(
    src: Seq<u8>,
    prefix: Seq<char>,
    suffix: Option<Seq<char>>,
    forbidden: Option<Seq<char>>,
) -> Option<Seq<EditView>> {
    let pb = encode_utf8(prefix);
    if pb.len() == 0 || has_line_break_bytes(pb) || (suffix matches Some(s) && (encode_utf8(s).len()
        == 0 || has_line_break_bytes(encode_utf8(s)))) {
        None
    } else {
        let act = active_lines(src);
        match suffix {
            Some(sfx) => {
                let sb = encode_utf8(sfx);
                if act.len() == 0 {
                    None
                } else {
                    let start = act[0].start as int;
                    let end = act.last().end as int;
                    let content = src.subrange(start, end);
                    if bytes_starts_with(content, pb) && content.len() >= pb.len() + sb.len()
                        && bytes_ends_with(content, sb) {
                        let body = content.subrange(pb.len() as int, content.len() - sb.len());
                        if !valid_body(body, pb, sb, forbidden) {
                            None
                        } else {
                            let leading: int = if body.len() > 0 && body[0] == 32u8 {
                                1
                            } else {
                                0
                            };
                            let trailing: int = if body.len() > leading && body.last() == 32u8 {
                                1
                            } else {
                                0
                            };
                            Some(
                                seq![
                                    EditView { start, end: start + pb.len() + leading, text: Seq::empty(), move_caret: true },
                                    EditView { start: end - sb.len() - trailing, end, text: Seq::empty(), move_caret: false },
                                ],
                            )
                        }
                    } else if !valid_body(content, pb, sb, forbidden) {
                        None
                    } else {
                        Some(
                            seq![
                                EditView { start, end: start, text: prefix.push(' '), move_caret: true },
                                EditView { start: end, end, text: seq![' '] + sfx, move_caret: false },
                            ],
                        )
                    }
                }
            },
            None => {
                let uncomment = forall|i: int|
                    0 <= i < act.len() ==> bytes_starts_with(
                        src.subrange((#[trigger] act[i]).start as int, src.len() as int),
                        pb,
                    );
                Some(
                    act.map_values(
                        |l: LineSpan|
                            if uncomment {
                                let e = l.start + pb.len();
                                let e2 = if e < src.len() && src[e] == 32u8 {
                                    e + 1
                                } else {
                                    e
                                };
                                EditView {
                                    start: l.start as int,
                                    end: e2,
                                    text: Seq::empty(),
                                    move_caret: true,
                                }
                            } else {
                                EditView {
                                    start: l.start as int,
                                    end: l.start as int,
                                    text: prefix.push(' '),
                                    move_caret: true,
                                }
                            },
                    ),
                )
            },
        }
    }
}


// ---------------------------------------------------------------------------
// Executable scanning.

fn skip_ws_in(src: &[u8], pos: usize, hi: usize) -> (r: usize)
    requires
        hi <= src@.len(),
    ensures
        r == skip_ws(src@, pos as int, hi as int),
        pos <= hi ==> pos <= r <= hi,
        pos > hi ==> r == pos,
{
    let mut k = pos;
    while k < hi && (src[k] == 32u8 || src[k] == 9u8)
        invariant
            hi <= src@.len(),
            pos <= k,
            pos <= hi ==> k <= hi,
            pos > hi ==> k == pos,
            skip_ws(src@, pos as int, hi as int) == skip_ws(src@, k as int, hi as int),
        decreases hi - k,
    {
        k += 1;
    }
    k
}

fn trim_ws_end_in(src: &[u8], lo: usize, hi: usize) -> (r: usize)
    requires
        hi <= src@.len(),
    ensures
        r == trim_ws_end(src@, lo as int, hi as int),
        lo <= hi ==> lo <= r <= hi,
        lo > hi ==> r == hi,
{
    let mut k = hi;
    while k > lo && (src[k - 1] == 32u8 || src[k - 1] == 9u8)
        invariant
            hi <= src@.len(),
            k <= hi,
            lo <= hi ==> lo <= k,
            lo > hi ==> k == hi,
            trim_ws_end(src@, lo as int, hi as int) == trim_ws_end(src@, lo as int, k as int),
        decreases k,
    {
        k -= 1;
    }
    k
}

fn line_span_in(src: &[u8], ls: usize, le: usize) -> (r: LineSpan)
    requires
        ls <= le <= src@.len(),
    ensures
        r == line_span(src@, ls as int, le as int),
        ls <= r.start <= r.end <= le,
{
    let ce = if le > ls && src[le - 1] == 13u8 {
        le - 1
    } else {
        le
    };
    let indent = skip_ws_in(src, ls, ce);
    let trimmed = trim_ws_end_in(src, ls, ce);
    LineSpan { start: indent, end: if trimmed >= indent { trimmed } else { indent }, blank: indent == ce }
}

fn split_lines(src: &[u8]) -> (lines: Vec<LineSpan>)
    ensures
        lines@ == lines_from(src@, 0),
        forall|i: int| 0 <= i < lines@.len() ==> (#[trigger] lines@[i]).start <= lines@[i].end <= src@.len(),
{
    let len = src.len();
    let mut lines: Vec<LineSpan> = Vec::new();
    let mut pos: usize = 0;
    loop
        invariant
            len == src@.len(),
            pos <= len,
            lines@ + lines_from(src@, pos as int) == lines_from(src@, 0),
            forall|i: int| 0 <= i < lines@.len() ==> (#[trigger] lines@[i]).start <= lines@[i].end <= src@.len(),
        decreases len - pos,
    {
        let e = next_newline_in(src, pos);
        proof {
            lemma_next_newline_bounds(src@, pos as int);
        }
        let span = line_span_in(src, pos, e);
        let ghost before = lines@;
        lines.push(span);
        if e >= len {
            assert(lines_from(src@, pos as int) == seq![span]);
            assert(lines@ =~= before + lines_from(src@, pos as int));
            return lines;
        }
        assert(lines_from(src@, pos as int) == seq![span] + lines_from(src@, e + 1));
        assert(lines@ + lines_from(src@, e + 1) =~= before + lines_from(src@, pos as int));
        pos = e + 1;
    }
}

fn select_active(lines: &Vec<LineSpan>) -> (act: Vec<LineSpan>)
    ensures
        act@ == keep_lines(lines@, all_blank(lines@)),
        forall|i: int| 0 <= i < act@.len() ==> exists|j: int| 0 <= j < lines@.len() && (#[trigger] act@[i]) == lines@[j],
{
    let mut blank = true;
    let mut i: usize = 0;
    while i < lines.len()
        invariant
            i <= lines@.len(),
            blank == forall|j: int| 0 <= j < i ==> (#[trigger] lines@[j]).blank,
        decreases lines@.len() - i,
    {
        blank = blank && lines[i].blank;
        i += 1;
    }
    let mut act: Vec<LineSpan> = Vec::new();
    let mut k: usize = 0;
    while k < lines.len()
        invariant
            k <= lines@.len(),
            blank == all_blank(lines@),
            act@ == keep_lines(lines@.subrange(0, k as int), blank),
            forall|i: int| 0 <= i < act@.len() ==> exists|j: int| 0 <= j < lines@.len() && (#[trigger] act@[i]) == lines@[j],
        decreases lines@.len() - k,
    {
        assert(lines@.subrange(0, k + 1).drop_last() =~= lines@.subrange(0, k as int));
        if blank || !lines[k].blank {
            act.push(lines[k]);
            proof {
                assert forall|i: int| 0 <= i < act@.len() implies exists|j: int| 0 <= j < lines@.len() && (#[trigger] act@[i]) == lines@[j] by {
                    if i == act@.len() - 1 {
                        assert(act@[i] == lines@[k as int]);
                    }
                }
            }
        }
        k += 1;
    }
    assert(lines@.subrange(0, lines@.len() as int) =~= lines@);
    act
}

/// Whether `needle` occurs in `src[lo..hi]`.
pub(crate) fn contains_in(src: &[u8], lo: usize, hi: usize, needle: &[u8]) -> (r: bool)
    requires
        lo <= hi <= src@.len(),
    ensures
        r == bytes_contains(src@.subrange(lo as int, hi as int), needle@),
{
    let ghost hay = src@.subrange(lo as int, hi as int);
    let n = needle.len();
    if n > hi - lo {
        assert forall|i: int| 0 <= i && i + needle@.len() <= hay.len() implies #[trigger] hay.subrange(i, i + needle@.len()) != needle@ by {}
        return false;
    }
    let mut i: usize = 0;
    while i <= (hi - lo) - n
        invariant
            lo <= hi <= src@.len(),
            n == needle@.len(),
            n <= hi - lo,
            hay == src@.subrange(lo as int, hi as int),
            i <= hi - lo - n + 1,
            forall|k: int| 0 <= k < i ==> #[trigger] hay.subrange(k, k + n) != needle@,
        decreases hi - lo - n + 1 - i,
    {
        let mut j: usize = 0;
        while j < n && src[lo + i + j] == needle[j]
            invariant
                lo <= hi <= src@.len(),
                n == needle@.len(),
                i + n <= hi - lo,
                j <= n,
                forall|t: int| 0 <= t < j ==> src@[lo + i + t] == needle@[t],
            decreases n - j,
        {
            j += 1;
        }
        if j == n {
            assert(hay.subrange(i as int, i + n) =~= needle@);
            return true;
        }
        assert(hay.subrange(i as int, i + n)[j as int] != needle@[j as int]);
        i += 1;
    }
    assert forall|k: int| 0 <= k && k + needle@.len() <= hay.len() implies #[trigger] hay.subrange(k, k + needle@.len()) != needle@ by {
        assert(k < i);
    }
    false
}

/// Whether `src[lo..hi]` starts with `needle`.
fn starts_with_in(src: &[u8], lo: usize, hi: usize, needle: &[u8]) -> (r: bool)
    requires
        lo <= hi <= src@.len(),
    ensures
        r == bytes_starts_with(src@.subrange(lo as int, hi as int), needle@),
{
    let n = needle.len();
    if n > hi - lo {
        return false;
    }
    let mut j: usize = 0;
    while j < n
        invariant
            lo <= hi <= src@.len(),
            n == needle@.len(),
            n <= hi - lo,
            j <= n,
            forall|t: int| 0 <= t < j ==> src@[lo + t] == needle@[t],
        decreases n - j,
    {
        if src[lo + j] != needle[j] {
            assert(src@.subrange(lo as int, hi as int).subrange(0, n as int)[j as int] != needle@[j as int]);
            return false;
        }
        j += 1;
    }
    assert(src@.subrange(lo as int, hi as int).subrange(0, n as int) =~= needle@);
    true
}

/// Whether `src[lo..hi]` ends with `needle`.
fn ends_with_in(src: &[u8], lo: usize, hi: usize, needle: &[u8]) -> (r: bool)
    requires
        lo <= hi <= src@.len(),
    ensures
        r == bytes_ends_with(src@.subrange(lo as int, hi as int), needle@),
{
    let n = needle.len();
    if n > hi - lo {
        return false;
    }
    let r = starts_with_in(src, hi - n, hi, needle);
    assert(src@.subrange(lo as int, hi as int).subrange((hi - lo) - n, (hi - lo) as int) =~= src@.subrange(hi - n, hi as int));
    assert(src@.subrange(hi - n, hi as int).subrange(0, n as int) =~= src@.subrange(hi - n, hi as int));
    r
}

fn has_line_break_in(b: &[u8]) -> (r: bool)
    ensures
        r == has_line_break_bytes(b@),
{
    let mut i: usize = 0;
    while i < b.len()
        invariant
            i <= b@.len(),
            forall|j: int| 0 <= j < i ==> b@[j] != 10u8 && b@[j] != 13u8,
        decreases b@.len() - i,
    {
        if b[i] == 10u8 || b[i] == 13u8 {
            assert(b@.contains(b@[i as int]));
            return true;
        }
        i += 1;
    }
    false
}

/// The text followed by one space.
fn with_trailing_space(text: &str) -> (r: String)
    ensures
        r@ == text@.push(' '),
{
    let mut r = String::from_str(text);
    r.append(" ");
    proof {
        reveal_strlit(" ");
    }
    assert(r@ =~= text@.push(' '));
    r
}

/// One space followed by the text.
fn with_leading_space(text: &str) -> (r: String)
    ensures
        r@ == seq![' '] + text@,
{
    let mut r = String::from_str(" ");
    r.append(text);
    proof {
        reveal_strlit(" ");
    }
    assert(r@ =~= seq![' '] + text@);
    r
}

fn valid_body_in(
    src: &[u8],
    lo: usize,
    hi: usize,
    prefix: &[u8],
    suffix: &[u8],
    forbidden: Option<&str>,
) -> (r: bool)
    requires
        lo <= hi <= src@.len(),
    ensures
        r == valid_body(src@.subrange(lo as int, hi as int), prefix@, suffix@, opt_str_chars(forbidden)),
{
    if contains_in(src, lo, hi, prefix) || contains_in(src, lo, hi, suffix) {
        return false;
    }
    match forbidden {
        Some(f) => !contains_in(src, lo, hi, f.as_bytes()),
        None => true,
    }
}

/// Plan the edits that toggle a comment over `source`, a run of whole lines.
pub fn comment_edits(source: &str, syntax: &CommentSyntax) -> (r: Option<Vec<Edit>>)
    ensures
        match r {
            Some(v) => comment_edits_for(source.spec_bytes(), *syntax) == Some(edits_view(v@)),
            None => comment_edits_for(source.spec_bytes(), *syntax) is None,
        },
{
    let ghost spec = comment_edits_for(source.spec_bytes(), *syntax);
    let src = source.as_bytes();
    let prefix = syntax.prefix();
    let pb = prefix.as_bytes();
    if pb.len() == 0 || has_line_break_in(pb) {
        return None;
    }
    let suffix = syntax.suffix();
    match suffix {
        Some(s) => {
            if s.as_bytes().len() == 0 || has_line_break_in(s.as_bytes()) {
                return None;
            }
        },
        None => {},
    }
    let lines = split_lines(src);
    let act = select_active(&lines);
    let total = src.len();
    proof {
        lemma_lines_from_ordered(src@, 0);
        lemma_keep_lines_ordered(lines@, all_blank(lines@), src@.len() as int);
    }
    assert(act@ == active_lines(src@));
    match suffix {
        Some(s) => {
            let sb = s.as_bytes();
            if act.len() == 0 {
                return None;
            }
            let start = act[0].start;
            let end = act[act.len() - 1].end;
            proof {
                if act@.len() > 1 {
                    assert(act@[0].end <= act@[act@.len() - 1].start);
                }
            }
            assert(start <= end <= src@.len());
            let ghost content = src@.subrange(start as int, end as int);
            let wrapped = starts_with_in(src, start, end, pb) && pb.len() <= end - start && sb.len()
                <= (end - start) - pb.len() && ends_with_in(src, start, end, sb);
            if wrapped {
                let body_lo = start + pb.len();
                let body_hi = end - sb.len();
                assert(content.subrange(pb@.len() as int, content.len() - sb@.len()) =~= src@.subrange(body_lo as int, body_hi as int));
                if !valid_body_in(src, body_lo, body_hi, pb, sb, syntax.forbidden()) {
                    return None;
                }
                let leading: usize = if body_hi > body_lo && src[body_lo] == 32u8 {
                    1
                } else {
                    0
                };
                let trailing: usize = if body_hi - body_lo > leading && src[body_hi - 1] == 32u8 {
                    1
                } else {
                    0
                };
                let mut edits: Vec<Edit> = Vec::new();
                edits.push(Edit { range: start..start + pb.len() + leading, text: String::new(), move_caret: true });
                edits.push(Edit { range: end - sb.len() - trailing..end, text: String::new(), move_caret: false });
                assert(edits_view(edits@) =~= spec.unwrap());
                return Some(edits);
            }
            if !valid_body_in(src, start, end, pb, sb, syntax.forbidden()) {
                return None;
            }
            let mut edits: Vec<Edit> = Vec::new();
            edits.push(Edit { range: start..start, text: with_trailing_space(prefix), move_caret: true });
            edits.push(Edit { range: end..end, text: with_leading_space(s), move_caret: false });
            assert(edits_view(edits@) =~= spec.unwrap());
            Some(edits)
        },
        None => {
            let mut uncomment = true;
            let mut i: usize = 0;
            while i < act.len()
                invariant
                    i <= act@.len(),
                    forall|k: int| 0 <= k < act@.len() ==> (#[trigger] act@[k]).start <= act@[k].end <= src@.len(),
                    uncomment == forall|k: int| 0 <= k < i ==> bytes_starts_with(
                        src@.subrange((#[trigger] act@[k]).start as int, src@.len() as int),
                        pb@,
                    ),
                decreases act@.len() - i,
            {
                uncomment = uncomment && starts_with_in(src, act[i].start, src.len(), pb);
                i += 1;
            }
            let mut edits: Vec<Edit> = Vec::new();
            let mut k: usize = 0;
            while k < act.len()
                invariant
                    k <= act@.len(),
                    forall|j: int| 0 <= j < act@.len() ==> (#[trigger] act@[j]).start <= act@[j].end <= src@.len(),
                    uncomment == forall|j: int| 0 <= j < act@.len() ==> bytes_starts_with(
                        src@.subrange((#[trigger] act@[j]).start as int, src@.len() as int),
                        pb@,
                    ),
                    edits_view(edits@) =~= spec.unwrap().subrange(0, k as int),
                    spec is Some,
                    spec.unwrap().len() == act@.len(),
                    act@ == active_lines(src@),
                    total == src@.len(),
                    src@ == source.spec_bytes(),
                    spec == comment_edits_for(source.spec_bytes(), *syntax),
                    pb@ == encode_utf8(syntax.prefix@),
                    prefix@ == syntax.prefix@,
                    syntax.suffix is None,
                    !(pb@.len() == 0 || has_line_break_bytes(pb@)),
                decreases act@.len() - k,
            {
                let st = act[k].start;
                let edit = if uncomment {
                    proof {
                        assert(bytes_starts_with(src@.subrange(act@[k as int].start as int, src@.len() as int), pb@));
                        assert(pb@.len() <= src@.len() - st);
                    }
                    let e = st + pb.len();
                    let e2 = if e < src.len() && src[e] == 32u8 {
                        e + 1
                    } else {
                        e
                    };
                    Edit { range: st..e2, text: String::new(), move_caret: true }
                } else {
                    Edit { range: st..st, text: with_trailing_space(prefix), move_caret: true }
                };
                let ghost before = edits@;
                edits.push(edit);
                proof {
                    let m = active_lines(src@);
                    assert(m == act@);
                    assert(spec.unwrap()[k as int] == edit@);
                    assert(edits_view(edits@) =~= edits_view(before).push(edit@));
                }
                assert(edits_view(edits@) =~= spec.unwrap().subrange(0, k + 1));
                k += 1;
            }
            Some(edits)
        },
    }
}

// ---------------------------------------------------------------------------
// Order of line spans.

/// Spans lie inside the text, each in order and before the next.
pub open spec fn spans_ordered(lines: Seq<LineSpan>, len: int) -> bool {
    &&& forall|i: int| 0 <= i < lines.len() ==> (#[trigger] lines[i]).start <= lines[i].end <= len
    &&& forall|i: int, j: int| 0 <= i < j < lines.len() ==> (#[trigger] lines[i]).end <= (#[trigger] lines[j]).start
}

pub(crate) proof fn lemma_skip_ws_bounds(src: Seq<u8>, pos: int, hi: int)
    requires
        pos <= hi,
    ensures
        pos <= skip_ws(src, pos, hi) <= hi,
    decreases hi - pos,
{
    if pos >= hi || !is_ws(src[pos]) {
    } else {
        lemma_skip_ws_bounds(src, pos + 1, hi);
    }
}

proof fn lemma_trim_ws_end_bounds(src: Seq<u8>, lo: int, hi: int)
    requires
        lo <= hi,
    ensures
        lo <= trim_ws_end(src, lo, hi) <= hi,
    decreases hi - lo,
{
    if hi <= lo || !is_ws(src[hi - 1]) {
    } else {
        lemma_trim_ws_end_bounds(src, lo, hi - 1);
    }
}

pub(crate) proof fn lemma_line_span_bounds(src: Seq<u8>, ls: int, le: int)
    requires
        0 <= ls <= le <= src.len(),
        src.len() <= usize::MAX,
    ensures
        ls <= line_span(src, ls, le).start <= line_span(src, ls, le).end <= le,
{
    let ce = content_end(src, ls, le);
    lemma_skip_ws_bounds(src, ls, ce);
    lemma_trim_ws_end_bounds(src, ls, ce);
}

pub(crate) proof fn lemma_lines_from_ordered(src: Seq<u8>, pos: int)
    requires
        0 <= pos <= src.len(),
        src.len() <= usize::MAX,
    ensures
        spans_ordered(lines_from(src, pos), src.len() as int),
        forall|i: int| 0 <= i < lines_from(src, pos).len() ==> (#[trigger] lines_from(src, pos)[i]).start >= pos,
        lines_from(src, pos).len() >= 1,
    decreases src.len() - pos,
{
    let e = next_newline(src, pos);
    lemma_next_newline_bounds(src, pos);
    lemma_line_span_bounds(src, pos, e);
    if e >= src.len() {
    } else {
        lemma_lines_from_ordered(src, e + 1);
        let rest = lines_from(src, e + 1);
        let all = lines_from(src, pos);
        assert(all == seq![line_span(src, pos, e)] + rest);
        assert forall|i: int, j: int| 0 <= i < j < all.len() implies (#[trigger] all[i]).end <= (#[trigger] all[j]).start by {
            if i == 0 {
                assert(all[j] == rest[j - 1]);
            } else {
                assert(all[i] == rest[i - 1]);
                assert(all[j] == rest[j - 1]);
            }
        }
        assert forall|i: int| 0 <= i < all.len() implies (#[trigger] all[i]).start <= all[i].end <= src.len() by {
            if i > 0 {
                assert(all[i] == rest[i - 1]);
            }
        }
        assert forall|i: int| 0 <= i < all.len() implies (#[trigger] all[i]).start >= pos by {
            if i > 0 {
                assert(all[i] == rest[i - 1]);
            }
        }
    }
}

pub(crate) proof fn lemma_keep_lines_members(lines: Seq<LineSpan>, keep_blank: bool)
    ensures
        forall|i: int| 0 <= i < keep_lines(lines, keep_blank).len() ==> exists|k: int| 0 <= k < lines.len() && (#[trigger] keep_lines(lines, keep_blank)[i]) == lines[k],
        keep_lines(lines, keep_blank).len() <= lines.len(),
    decreases lines.len(),
{
    if lines.len() > 0 {
        let d = lines.drop_last();
        lemma_keep_lines_members(d, keep_blank);
        let kd = keep_lines(d, keep_blank);
        let r = keep_lines(lines, keep_blank);
        assert forall|i: int| 0 <= i < r.len() implies exists|k: int| 0 <= k < lines.len() && (#[trigger] r[i]) == lines[k] by {
            if i < kd.len() {
                assert(r[i] == kd[i]);
                let k = choose|k: int| 0 <= k < d.len() && kd[i] == d[k];
                assert(lines[k] == d[k]);
            } else {
                assert(r[i] == lines[lines.len() - 1]);
            }
        }
    }
}

pub(crate) proof fn lemma_keep_lines_ordered(lines: Seq<LineSpan>, keep_blank: bool, len: int)
    requires
        spans_ordered(lines, len),
    ensures
        spans_ordered(keep_lines(lines, keep_blank), len),
    decreases lines.len(),
{
    if lines.len() > 0 {
        let d = lines.drop_last();
        assert forall|i: int, j: int| 0 <= i < j < d.len() implies (#[trigger] d[i]).end <= (#[trigger] d[j]).start by {
            assert(d[i] == lines[i] && d[j] == lines[j]);
        }
        assert forall|i: int| 0 <= i < d.len() implies (#[trigger] d[i]).start <= d[i].end <= len by {
            assert(d[i] == lines[i]);
        }
        lemma_keep_lines_ordered(d, keep_blank, len);
        lemma_keep_lines_members(d, keep_blank);
        let kd = keep_lines(d, keep_blank);
        let r = keep_lines(lines, keep_blank);
        if keep_blank || !lines.last().blank {
            assert(r == kd.push(lines.last()));
            assert forall|i: int, j: int| 0 <= i < j < r.len() implies (#[trigger] r[i]).end <= (#[trigger] r[j]).start by {
                assert(r[i] == kd[i]);
                if j < kd.len() {
                    assert(r[j] == kd[j]);
                } else {
                    let k = choose|k: int| 0 <= k < d.len() && kd[i] == d[k];
                    assert(d[k] == lines[k]);
                    assert(lines[k].end <= lines[lines.len() - 1].start);
                }
            }
            assert forall|i: int| 0 <= i < r.len() implies (#[trigger] r[i]).start <= r[i].end <= len by {
                if i < kd.len() {
                    assert(r[i] == kd[i]);
                }
            }
        }
    }
}


// ---------------------------------------------------------------------------
// Mapping offsets through planned edits, and the lines a selection covers.

/// Where `offset` of the source lands once `edits[i..]` are applied, given the
/// bytes already removed and added by the edits before `i`. An offset inside
/// (or at either end of) an edit moves to the start of its replacement, or past
/// it when the edit moves the caret, except a kept line start at offset zero.
pub open spec fn transform_from(
    offset: int,
    edits: Seq<EditView>,
    keep_line_start: bool,
    i: int,
    removed: int,
    added: int,
) -> int
    decreases edits.len() - i,
{
    if i < 0 || i >= edits.len() {
        offset - removed + added
    } else {
        let e = edits[i];
        if offset < e.start {
            offset - removed + added
        } else if offset <= e.end {
            e.start - removed + added + if e.move_caret && !(keep_line_start && offset == 0) {
                encode_utf8(e.text).len() as int
            } else {
                0
            }
        } else {
            transform_from(
                offset,
                edits,
                keep_line_start,
                i + 1,
                removed + (e.end - e.start),
                added + encode_utf8(e.text).len(),
            )
        }
    }
}

/// Where `offset` of the source lands once all the edits are applied.
pub open spec fn transform_spec(offset: int, edits: Seq<EditView>, keep_line_start: bool) -> int {
    transform_from(offset, edits, keep_line_start, 0, 0, 0)
}

/// Edits lie in order over `len` bytes, none before the previous one ends.
pub open spec fn edits_ordered(edits: Seq<EditView>, len: int) -> bool {
    &&& forall|i: int| 0 <= i < edits.len() ==> 0 <= (#[trigger] edits[i]).start <= edits[i].end <= len
    &&& forall|i: int, j: int| 0 <= i < j < edits.len() ==> (#[trigger] edits[i]).end <= (#[trigger] edits[j]).start
}

/// The bytes the edits before `i` remove, and the bytes they add.
pub open spec fn removed_before(edits: Seq<EditView>, i: int) -> int
    decreases i,
{
    if i <= 0 || i > edits.len() {
        0
    } else {
        removed_before(edits, i - 1) + (edits[i - 1].end - edits[i - 1].start)
    }
}

pub open spec fn added_before(edits: Seq<EditView>, i: int) -> int
    decreases i,
{
    if i <= 0 || i > edits.len() {
        0
    } else {
        added_before(edits, i - 1) + encode_utf8(edits[i - 1].text).len()
    }
}

proof fn lemma_removed_bounded(edits: Seq<EditView>, i: int, len: int)
    requires
        edits_ordered(edits, len),
        0 <= i <= edits.len(),
    ensures
        0 <= removed_before(edits, i),
        i > 0 ==> removed_before(edits, i) <= edits[i - 1].end,
        i == 0 ==> removed_before(edits, i) == 0,
    decreases i,
{
    if i > 0 {
        lemma_removed_bounded(edits, i - 1, len);
        if i > 1 {
            assert(edits[i - 2].end <= edits[i - 1].start);
        }
    }
}

/// Map a source offset through ordered comment edits.
pub fn transform_offset(offset: usize, edits: &Vec<Edit>, keep_line_start: bool) -> (r: usize)
    requires
        edits_ordered(edits_view(edits@), usize::MAX as int),
        added_before(edits_view(edits@), edits@.len() as int) + offset <= usize::MAX,
    ensures
        r == transform_spec(offset as int, edits_view(edits@), keep_line_start),
{
    let ghost ev = edits_view(edits@);
    let ghost len: int = usize::MAX as int;
    let mut removed: usize = 0;
    let mut added: usize = 0;
    let mut i: usize = 0;
    proof {
        lemma_removed_bounded(ev, 0, len);
    }
    while i < edits.len()
        invariant
            ev == edits_view(edits@),
            edits_ordered(ev, len),
            added_before(ev, ev.len() as int) + offset <= usize::MAX,
            i <= edits.len(),
            removed == removed_before(ev, i as int),
            added == added_before(ev, i as int),
            i > 0 ==> offset > ev[i - 1].end,
            transform_spec(offset as int, ev, keep_line_start) == transform_from(
                offset as int,
                ev,
                keep_line_start,
                i as int,
                removed as int,
                added as int,
            ),
        decreases edits.len() - i,
    {
        let edit = &edits[i];
        assert(edit@ == ev[i as int]);
        proof {
            lemma_removed_bounded(ev, i as int, len);
            lemma_added_monotone(ev, i as int, ev.len() as int);
        }
        if offset < edit.range.start {
            return offset - removed + added;
        }
        if offset <= edit.range.end {
            let move_right = edit.move_caret && !(keep_line_start && offset == 0);
            let base = edit.range.start - removed + added;
            proof {
                lemma_added_monotone(ev, i as int + 1, ev.len() as int);
            }
            return if move_right {
                base + edit.text.as_str().len()
            } else {
                base
            };
        }
        proof {
            lemma_added_monotone(ev, i as int + 1, ev.len() as int);
        }
        removed = removed + (edit.range.end - edit.range.start);
        added = added + edit.text.as_str().len();
        i += 1;
    }
    proof {
        lemma_removed_bounded(ev, i as int, len);
    }
    offset - removed + added
}

proof fn lemma_added_monotone(edits: Seq<EditView>, i: int, j: int)
    requires
        0 <= i <= j <= edits.len(),
    ensures
        0 <= added_before(edits, i) <= added_before(edits, j),
    decreases j,
{
    if i < j {
        lemma_added_monotone(edits, i, j - 1);
    } else if i > 0 {
        lemma_added_monotone(edits, i - 1, i - 1);
    }
}

/// The last row a selection covers: a nonempty selection ending at a line's
/// start does not cover that line.
pub open spec fn last_covered_row(bytes: Seq<u8>, start: int, end: int) -> nat {
    let row = row_of(bytes, end);
    let column = (if end <= bytes.len() { end } else { bytes.len() as int }) - line_start(bytes, row);
    if start != end && column == 0 {
        if row == 0 {
            0
        } else {
            (row - 1) as nat
        }
    } else {
        row
    }
}

/// The byte range of the whole lines a selection covers, without the final line break.
pub fn affected_lines_in(bytes: &[u8], selection: Selection) -> (r: Selection)
    ensures
        r.start == line_start(bytes@, row_of(bytes@, selection.start as int)),
        r.end == line_end(bytes@, last_covered_row(bytes@, selection.start as int, selection.end as int)),
{
    let first = offset_to_point_in(bytes, selection.start).row;
    let end = offset_to_point_in(bytes, selection.end);
    let last = if !selection.is_empty() && end.column == 0 {
        if end.row == 0 {
            0
        } else {
            end.row - 1
        }
    } else {
        end.row
    };
    Selection { start: line_start_in(bytes, first), end: line_end_in(bytes, last) }
}

} // verus!
